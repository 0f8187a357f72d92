//! Decimal numerals as they stand in a bencoded document.

use vstd::prelude::*;

verus! {

/// The byte `0`.
pub const ZERO: u8 = 0x30;

/// `byte` is one of `0` to `9`.
pub open spec fn is_digit(byte: u8) -> bool {
    ZERO <= byte <= ZERO + 9
}

/// The number that a string of digits denotes, most significant digit first.
pub open spec fn decimal_value(digits: Seq<u8>) -> nat
    decreases digits.len(),
{
    if digits.len() == 0 {
        0
    } else {
        decimal_value(digits.drop_last()) * 10 + (digits.last() - ZERO) as nat
    }
}

/// The shortest string of digits that denotes `n`.
pub open spec fn decimal(n: nat) -> Seq<u8>
    decreases n,
{
    if n < 10 {
        seq![(ZERO + n) as u8]
    } else {
        decimal(n / 10).push((ZERO + n % 10) as u8)
    }
}

/// Every byte of `digits` is a digit.
pub open spec fn all_digits(digits: Seq<u8>) -> bool {
    forall|i: int| 0 <= i < digits.len() ==> is_digit(#[trigger] digits[i])
}

/// The first position at or behind `from` that holds no digit; the length of
/// `s` if digits run to its end.
pub open spec fn digit_run_end(s: Seq<u8>, from: int) -> int
    decreases s.len() - from,
{
    if 0 <= from < s.len() && is_digit(s[from]) {
        digit_run_end(s, from + 1)
    } else {
        from
    }
}

/// `decimal(n)` is a non-empty string of digits that denotes `n` and starts
/// with `0` only for `n == 0`.
pub proof fn lemma_decimal(n: nat)
    ensures
        decimal(n).len() >= 1,
        all_digits(decimal(n)),
        decimal_value(decimal(n)) == n,
        decimal(n)[0] == ZERO ==> n == 0,
        n == 0 ==> decimal(n) == seq![ZERO],
    decreases n,
{
    if n < 10 {
        let d = decimal(n);
        assert(d.drop_last() =~= Seq::<u8>::empty());
        assert(decimal_value(d.drop_last()) == 0);
        assert(d.last() == (ZERO + n) as u8);
    } else {
        lemma_decimal(n / 10);
        let front = decimal(n / 10);
        let d = decimal(n);
        assert(d.drop_last() =~= front);
        assert(d[0] == front[0]);
        assert forall|i: int| 0 <= i < d.len() implies is_digit(#[trigger] d[i]) by {
            if i < front.len() {
                assert(d[i] == front[i]);
            }
        }
    }
}

/// The digits of a numeral without a leading zero, other than `0` itself,
/// are the shortest ones for the number they denote.
pub proof fn lemma_decimal_of_value(digits: Seq<u8>)
    requires
        digits.len() >= 1,
        all_digits(digits),
        digits.len() > 1 ==> digits[0] != ZERO,
    ensures
        decimal(decimal_value(digits)) == digits,
        digits.len() > 1 ==> decimal_value(digits) >= 10,
    decreases digits.len(),
{
    let front = digits.drop_last();
    let last = digits.last();
    assert(is_digit(last));
    if digits.len() == 1 {
        assert(front =~= Seq::<u8>::empty());
        assert(decimal_value(front) == 0);
        assert(decimal(decimal_value(digits)) =~= digits);
    } else {
        assert(front[0] == digits[0]);
        assert forall|i: int| 0 <= i < front.len() implies is_digit(#[trigger] front[i]) by {
            assert(front[i] == digits[i]);
        }
        lemma_decimal_of_value(front);
        let n = decimal_value(digits);
        let m = decimal_value(front);
        assert(n == m * 10 + (last - ZERO));
        if front.len() == 1 {
            assert(front.drop_last() =~= Seq::<u8>::empty());
            assert(decimal_value(front.drop_last()) == 0);
            assert(m == (front[0] - ZERO) as nat);
            assert(is_digit(front[0]));
            assert(m >= 1);
        }
        assert(n >= 10);
        assert(n / 10 == m && n % 10 == (last - ZERO) as int);
        assert(decimal(n) =~= front.push(last));
        assert(front.push(last) =~= digits);
    }
}

/// The value of a numeral with one more digit behind it.
pub proof fn lemma_decimal_value_push(digits: Seq<u8>, digit: u8)
    ensures
        decimal_value(digits.push(digit)) == decimal_value(digits) * 10 + (digit - ZERO) as nat,
{
    assert(digits.push(digit).drop_last() =~= digits);
}

/// A run of digits ends where the first byte that is no digit stands.
pub proof fn lemma_digit_run_end(s: Seq<u8>, from: int)
    requires
        0 <= from <= s.len(),
    ensures
        from <= digit_run_end(s, from) <= s.len(),
        all_digits(s.subrange(from, digit_run_end(s, from))),
        digit_run_end(s, from) < s.len() ==> !is_digit(s[digit_run_end(s, from)]),
        from < s.len() && is_digit(s[from]) ==> from < digit_run_end(s, from),
    decreases s.len() - from,
{
    if from < s.len() && is_digit(s[from]) {
        lemma_digit_run_end(s, from + 1);
        let end = digit_run_end(s, from);
        let run = s.subrange(from, end);
        assert forall|i: int| 0 <= i < run.len() implies is_digit(#[trigger] run[i]) by {
            if i > 0 {
                assert(run[i] == s.subrange(from + 1, end)[i - 1]);
            }
        }
    }
}

/// Digits from `from` up to `end`, with no digit at `end`, make up the run
/// that starts at `from`.
pub proof fn lemma_digit_run_is(s: Seq<u8>, from: int, end: int)
    requires
        0 <= from <= end <= s.len(),
        all_digits(s.subrange(from, end)),
        end < s.len() ==> !is_digit(s[end]),
    ensures
        digit_run_end(s, from) == end,
    decreases end - from,
{
    if from < end {
        assert(s[from] == s.subrange(from, end)[0]);
        assert forall|i: int| 0 <= i < end - (from + 1) implies is_digit(
            #[trigger] s.subrange(from + 1, end)[i],
        ) by {
            assert(s.subrange(from + 1, end)[i] == s.subrange(from, end)[i + 1]);
        }
        lemma_digit_run_is(s, from + 1, end);
    }
}

/// Reads the run of digits that starts at `from`. Returns where it ends and
/// the number it denotes, or `None` for a number above `u64::MAX`.
pub fn scan_digits(bytes: &[u8], from: usize) -> (res: (usize, Option<u64>))
    requires
        from <= bytes@.len(),
    ensures
        res.0 == digit_run_end(bytes@, from as int),
        from <= res.0 <= bytes@.len(),
        match res.1 {
            Some(value) => value == decimal_value(bytes@.subrange(from as int, res.0 as int)),
            None => decimal_value(bytes@.subrange(from as int, res.0 as int)) > u64::MAX,
        },
{
    let mut at: usize = from;
    let mut value: Option<u64> = Some(0);
    proof {
        assert(bytes@.subrange(from as int, from as int) =~= Seq::<u8>::empty());
    }
    while at < bytes.len() && ZERO <= bytes[at] && bytes[at] <= ZERO + 9
        invariant
            from <= at <= bytes@.len(),
            digit_run_end(bytes@, from as int) == digit_run_end(bytes@, at as int),
            match value {
                Some(v) => v == decimal_value(bytes@.subrange(from as int, at as int)),
                None => decimal_value(bytes@.subrange(from as int, at as int)) > u64::MAX,
            },
        decreases bytes@.len() - at,
    {
        let digit: u64 = (bytes[at] - ZERO) as u64;
        proof {
            lemma_decimal_value_push(bytes@.subrange(from as int, at as int), bytes@[at as int]);
            assert(bytes@.subrange(from as int, at as int).push(bytes@[at as int])
                =~= bytes@.subrange(from as int, at + 1));
        }
        value = match value {
            Some(v) => match v.checked_mul(10) {
                Some(tens) => tens.checked_add(digit),
                None => None,
            },
            None => None,
        };
        at += 1;
    }
    (at, value)
}

/// Appends the shortest decimal numeral of `n` to `out`.
pub fn write_decimal(n: u64, out: &mut Vec<u8>)
    ensures
        final(out)@ == old(out)@ + decimal(n as nat),
    decreases n,
{
    if n >= 10 {
        write_decimal(n / 10, out);
    }
    let digit: u8 = (n % 10) as u8;
    out.push(ZERO + digit);
    assert(out@ =~= old(out)@ + decimal(n as nat));
}

} // verus!
