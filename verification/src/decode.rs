//! The decoder: from bytes to a value tree.

use vstd::prelude::*;
use vstd::slice::{slice_subrange, slice_to_vec};
use crate::decimal::{
    decimal_value, digit_run_end, is_digit, lemma_digit_run_end, scan_digits, ZERO,
};
use crate::encode::{COLON, DICT, END, INTEGER, LIST, MINUS};
use crate::model::{
    has_key, keys_ascending, lemma_with_entry_ascending, lemma_with_entry_members, with_entry,
    Bencode, Entries,
};
use crate::value::{lemma_view_list_models, models_of, Dict, Value};

verus! {

/// Why a document could not be decoded.
#[derive(Clone, Copy, Debug, PartialEq, Eq)]
pub enum DecodeError {
    /// The input ends where a value is expected, inside an integer or a
    /// length, or before the declared length of a byte string is reached.
    Truncated,
    /// A value starts with a byte that opens none.
    UnexpectedByte,
    /// An integer has no digits, a leading zero, a negative zero, a byte
    /// that is no digit, or a value outside the signed 64-bit range.
    InvalidInteger,
    /// A length has a leading zero or is not followed by `:`.
    InvalidLength,
    /// The input ends inside a list or a dictionary.
    Unterminated,
    /// A dictionary key is an integer, a list or a dictionary.
    NonStringKey,
    /// A dictionary holds the same key twice.
    DuplicateKey,
    /// Lists and dictionaries are nested more than `MAX_DEPTH` deep.
    DepthExceeded,
}

/// The deepest nesting of lists and dictionaries that is decoded.
pub const MAX_DEPTH: usize = 256;

/// `digits` has more than one digit and starts with `0`.
pub open spec fn has_leading_zero(digits: Seq<u8>) -> bool {
    digits.len() > 1 && digits[0] == ZERO
}

/// The integer whose digits start at `from`, behind the opening `i`, and
/// the position behind its closing `e`.
pub open spec fn parse_integer(s: Seq<u8>, from: int) -> Result<(i64, int), DecodeError> {
    let negative = 0 <= from < s.len() && s[from] == MINUS;
    let start = if negative {
        from + 1
    } else {
        from
    };
    let end = digit_run_end(s, start);
    let digits = s.subrange(start, end);
    let magnitude = decimal_value(digits);
    let value = if negative {
        -magnitude
    } else {
        magnitude as int
    };
    if end >= s.len() {
        Err(DecodeError::Truncated)
    } else if s[end] != END || digits.len() == 0 || has_leading_zero(digits) || (negative
        && magnitude == 0) || !(i64::MIN <= value <= i64::MAX) {
        Err(DecodeError::InvalidInteger)
    } else {
        Ok((value as i64, end + 1))
    }
}

/// The byte string whose length starts at `from`, and the position behind
/// its last byte.
pub open spec fn parse_bytes(s: Seq<u8>, from: int) -> Result<(Seq<u8>, int), DecodeError> {
    let end = digit_run_end(s, from);
    let digits = s.subrange(from, end);
    let length = decimal_value(digits);
    if end >= s.len() {
        Err(DecodeError::Truncated)
    } else if s[end] != COLON || has_leading_zero(digits) {
        Err(DecodeError::InvalidLength)
    } else if end + 1 + length > s.len() {
        Err(DecodeError::Truncated)
    } else {
        Ok((s.subrange(end + 1, end + 1 + length), end + 1 + length))
    }
}

/// The value that starts at `at` and the position behind it, with lists and
/// dictionaries nested at most `depth` deep.
pub open spec fn parse_value(s: Seq<u8>, at: int, depth: nat) -> Result<(Bencode, int), DecodeError>
    decreases s.len() - at, 0nat,
{
    if !(0 <= at < s.len()) {
        Err(DecodeError::Truncated)
    } else if s[at] == INTEGER {
        match parse_integer(s, at + 1) {
            Ok((n, next)) => Ok((Bencode::Integer(n), next)),
            Err(e) => Err(e),
        }
    } else if is_digit(s[at]) {
        match parse_bytes(s, at) {
            Ok((bytes, next)) => Ok((Bencode::Bytes(bytes), next)),
            Err(e) => Err(e),
        }
    } else if s[at] == LIST {
        if depth == 0 {
            Err(DecodeError::DepthExceeded)
        } else {
            match parse_items(s, at + 1, (depth - 1) as nat, Seq::empty()) {
                Ok((items, next)) => Ok((Bencode::List(items), next)),
                Err(e) => Err(e),
            }
        }
    } else if s[at] == DICT {
        if depth == 0 {
            Err(DecodeError::DepthExceeded)
        } else {
            match parse_entries(s, at + 1, (depth - 1) as nat, Seq::empty()) {
                Ok((entries, next)) => Ok((Bencode::Dict(entries), next)),
                Err(e) => Err(e),
            }
        }
    } else {
        Err(DecodeError::UnexpectedByte)
    }
}

/// The items of a list from `at` to its closing `e`, put behind the items
/// `done` that were read before, and the position behind the `e`.
///
/// A value ends behind where it starts (`lemma_parse_value`), so the branch
/// that asks for it is always taken; it is what shows that the definition
/// terminates.
pub open spec fn parse_items(s: Seq<u8>, at: int, depth: nat, done: Seq<Bencode>) -> Result<
    (Seq<Bencode>, int),
    DecodeError,
>
    decreases s.len() - at, 1nat,
{
    if !(0 <= at < s.len()) {
        Err(DecodeError::Unterminated)
    } else if s[at] == END {
        Ok((done, at + 1))
    } else {
        match parse_value(s, at, depth) {
            Err(e) => Err(e),
            Ok((item, next)) => if at < next <= s.len() {
                parse_items(s, next, depth, done.push(item))
            } else {
                Err(DecodeError::Unterminated)
            },
        }
    }
}

/// The entries of a dictionary from `at` to its closing `e`, put in key
/// order among the entries `done` that were read before, and the position
/// behind the `e`. The keys may come in any order, but none twice.
///
/// A key and a value end behind where they start (`lemma_parse_bytes`,
/// `lemma_parse_value`), so the branches that ask for it are always taken;
/// they are what shows that the definition terminates.
pub open spec fn parse_entries(s: Seq<u8>, at: int, depth: nat, done: Entries) -> Result<
    (Entries, int),
    DecodeError,
>
    decreases s.len() - at, 1nat,
{
    if !(0 <= at < s.len()) {
        Err(DecodeError::Unterminated)
    } else if s[at] == END {
        Ok((done, at + 1))
    } else if is_digit(s[at]) {
        match parse_bytes(s, at) {
            Err(e) => Err(e),
            Ok((key, behind_key)) => if !(at < behind_key < s.len()) {
                Err(DecodeError::Unterminated)
            } else {
                match parse_value(s, behind_key, depth) {
                    Err(e) => Err(e),
                    Ok((value, next)) => if !(behind_key < next <= s.len()) {
                        Err(DecodeError::Unterminated)
                    } else if has_key(done, key) {
                        Err(DecodeError::DuplicateKey)
                    } else {
                        parse_entries(s, next, depth, with_entry(done, key, value))
                    },
                }
            },
        }
    } else if s[at] == INTEGER || s[at] == LIST || s[at] == DICT {
        Err(DecodeError::NonStringKey)
    } else {
        Err(DecodeError::UnexpectedByte)
    }
}

/// The value that a document holds: the one that it starts with. Bytes
/// behind that value are not part of it and are not looked at.
pub open spec fn parse_document(s: Seq<u8>) -> Result<Bencode, DecodeError> {
    match parse_value(s, 0, MAX_DEPTH as nat) {
        Err(e) => Err(e),
        Ok((value, _)) => Ok(value),
    }
}

/// An integer ends behind where it starts, inside the input.
pub proof fn lemma_parse_integer(s: Seq<u8>, from: int)
    requires
        0 <= from <= s.len(),
    ensures
        parse_integer(s, from) matches Ok((_, next)) ==> from < next <= s.len(),
{
    let negative = from < s.len() && s[from] == MINUS;
    let start = if negative {
        from + 1
    } else {
        from
    };
    lemma_digit_run_end(s, start);
}

/// A byte string ends behind where it starts, inside the input.
pub proof fn lemma_parse_bytes(s: Seq<u8>, from: int)
    requires
        0 <= from <= s.len(),
    ensures
        parse_bytes(s, from) matches Ok((_, next)) ==> from < next <= s.len(),
{
    lemma_digit_run_end(s, from);
}

/// A decoded value ends behind where it starts, inside the input; its
/// dictionaries hold their keys in ascending order, and its lists and
/// dictionaries are nested at most `depth` deep.
pub proof fn lemma_parse_value(s: Seq<u8>, at: int, depth: nat)
    ensures
        parse_value(s, at, depth) matches Ok((value, next)) ==> {
            &&& at < next <= s.len()
            &&& value.wf()
            &&& value.nests_within(depth)
        },
    decreases s.len() - at, 0nat,
{
    if 0 <= at < s.len() {
        if s[at] == INTEGER {
            lemma_parse_integer(s, at + 1);
        } else if is_digit(s[at]) {
            lemma_parse_bytes(s, at);
        } else if s[at] == LIST {
            if depth > 0 {
                lemma_parse_items(s, at + 1, (depth - 1) as nat, Seq::empty());
            }
        } else if s[at] == DICT {
            if depth > 0 {
                lemma_parse_entries(s, at + 1, (depth - 1) as nat, Seq::empty());
            }
        }
    }
}

/// What `lemma_parse_value` says, of the items of a list.
pub proof fn lemma_parse_items(s: Seq<u8>, at: int, depth: nat, done: Seq<Bencode>)
    requires
        forall|i: int| 0 <= i < done.len() ==> (#[trigger] done[i]).wf(),
        forall|i: int| 0 <= i < done.len() ==> (#[trigger] done[i]).nests_within(depth),
    ensures
        parse_items(s, at, depth, done) matches Ok((items, next)) ==> {
            &&& at < next <= s.len()
            &&& forall|i: int| 0 <= i < items.len() ==> (#[trigger] items[i]).wf()
            &&& forall|i: int| 0 <= i < items.len() ==> (#[trigger] items[i]).nests_within(depth)
        },
    decreases s.len() - at, 1nat,
{
    if 0 <= at < s.len() && s[at] != END {
        lemma_parse_value(s, at, depth);
        match parse_value(s, at, depth) {
            Err(e) => {},
            Ok((item, next)) => {
                lemma_parse_items(s, next, depth, done.push(item));
            },
        }
    }
}

/// What `lemma_parse_value` says, of the entries of a dictionary.
pub proof fn lemma_parse_entries(s: Seq<u8>, at: int, depth: nat, done: Entries)
    requires
        keys_ascending(done),
        forall|i: int| 0 <= i < done.len() ==> (#[trigger] done[i]).1.wf(),
        forall|i: int| 0 <= i < done.len() ==> (#[trigger] done[i]).1.nests_within(depth),
    ensures
        parse_entries(s, at, depth, done) matches Ok((entries, next)) ==> {
            &&& at < next <= s.len()
            &&& keys_ascending(entries)
            &&& forall|i: int| 0 <= i < entries.len() ==> (#[trigger] entries[i]).1.wf()
            &&& forall|i: int|
                0 <= i < entries.len() ==> (#[trigger] entries[i]).1.nests_within(depth)
        },
    decreases s.len() - at, 1nat,
{
    if 0 <= at < s.len() && s[at] != END && is_digit(s[at]) {
        lemma_parse_bytes(s, at);
        match parse_bytes(s, at) {
            Err(e) => {},
            Ok((key, behind_key)) => {
                if behind_key < s.len() {
                    lemma_parse_value(s, behind_key, depth);
                    match parse_value(s, behind_key, depth) {
                        Err(e) => {},
                        Ok((value, next)) => {
                            if !has_key(done, key) {
                                let grown = with_entry(done, key, value);
                                lemma_with_entry_ascending(done, key, value);
                                lemma_with_entry_members(done, key, value);
                                lemma_parse_entries(s, next, depth, grown);
                            }
                        },
                    }
                }
            },
        }
    }
}

/// Reads the integer whose digits start at `from`, behind the opening `i`.
/// Returns it with the position behind its closing `e`.
fn read_integer(bytes: &[u8], from: usize) -> (res: Result<(i64, usize), DecodeError>)
    requires
        from <= bytes@.len(),
    ensures
        match res {
            Ok((n, next)) => parse_integer(bytes@, from as int) == Ok::<(i64, int), DecodeError>(
                (n, next as int),
            ),
            Err(e) => parse_integer(bytes@, from as int) == Err::<(i64, int), DecodeError>(e),
        },
{
    let negative = from < bytes.len() && bytes[from] == MINUS;
    let start: usize = if negative {
        from + 1
    } else {
        from
    };
    let (end, magnitude) = scan_digits(bytes, start);
    if end >= bytes.len() {
        return Err(DecodeError::Truncated);
    }
    if bytes[end] != END || end == start || (end - start > 1 && bytes[start] == ZERO) {
        return Err(DecodeError::InvalidInteger);
    }
    match magnitude {
        None => Err(DecodeError::InvalidInteger),
        Some(m) => {
            if negative {
                if m == 0 || m > 0x8000_0000_0000_0000u64 {
                    Err(DecodeError::InvalidInteger)
                } else if m == 0x8000_0000_0000_0000u64 {
                    Ok((i64::MIN, end + 1))
                } else {
                    Ok((-(m as i64), end + 1))
                }
            } else {
                if m > 0x7fff_ffff_ffff_ffffu64 {
                    Err(DecodeError::InvalidInteger)
                } else {
                    Ok((m as i64, end + 1))
                }
            }
        },
    }
}

/// Reads the byte string whose length starts at `from`. Returns it with the
/// position behind its last byte.
fn read_bytes(bytes: &[u8], from: usize) -> (res: Result<(Vec<u8>, usize), DecodeError>)
    requires
        from <= bytes@.len(),
    ensures
        match res {
            Ok((payload, next)) => parse_bytes(bytes@, from as int) == Ok::<
                (Seq<u8>, int),
                DecodeError,
            >((payload@, next as int)),
            Err(e) => parse_bytes(bytes@, from as int) == Err::<(Seq<u8>, int), DecodeError>(e),
        },
{
    let (end, length) = scan_digits(bytes, from);
    if end >= bytes.len() {
        return Err(DecodeError::Truncated);
    }
    if bytes[end] != COLON || (end - from > 1 && bytes[from] == ZERO) {
        return Err(DecodeError::InvalidLength);
    }
    let start: usize = end + 1;
    let available: usize = bytes.len() - start;
    match length {
        None => Err(DecodeError::Truncated),
        Some(n) => {
            if n > available as u64 {
                Err(DecodeError::Truncated)
            } else {
                let stop: usize = start + n as usize;
                let payload = slice_to_vec(slice_subrange(bytes, start, stop));
                Ok((payload, stop))
            }
        },
    }
}

/// Reads the value that starts at `at`, with lists and dictionaries nested
/// at most `depth` deep. Returns it with the position behind it.
fn read_value(bytes: &[u8], at: usize, depth: usize) -> (res: Result<(Value, usize), DecodeError>)
    ensures
        match res {
            Ok((value, next)) => parse_value(bytes@, at as int, depth as nat) == Ok::<
                (Bencode, int),
                DecodeError,
            >((value@, next as int)),
            Err(e) => parse_value(bytes@, at as int, depth as nat) == Err::<
                (Bencode, int),
                DecodeError,
            >(e),
        },
    decreases depth, 0nat,
{
    if at >= bytes.len() {
        return Err(DecodeError::Truncated);
    }
    let lead: u8 = bytes[at];
    if lead == INTEGER {
        match read_integer(bytes, at + 1) {
            Ok((n, next)) => Ok((Value::Integer(n), next)),
            Err(e) => Err(e),
        }
    } else if ZERO <= lead && lead <= ZERO + 9 {
        match read_bytes(bytes, at) {
            Ok((payload, next)) => Ok((Value::ByteString(payload), next)),
            Err(e) => Err(e),
        }
    } else if lead == LIST {
        if depth == 0 {
            Err(DecodeError::DepthExceeded)
        } else {
            match read_items(bytes, at + 1, depth - 1) {
                Ok((items, next)) => {
                    proof {
                        lemma_view_list_models(items);
                    }
                    Ok((Value::List(items), next))
                },
                Err(e) => Err(e),
            }
        }
    } else if lead == DICT {
        if depth == 0 {
            Err(DecodeError::DepthExceeded)
        } else {
            match read_entries(bytes, at + 1, depth - 1) {
                Ok((dict, next)) => Ok((Value::Dict(dict), next)),
                Err(e) => Err(e),
            }
        }
    } else {
        Err(DecodeError::UnexpectedByte)
    }
}

/// Reads the items of a list from `at` to its closing `e`. Returns them
/// with the position behind the `e`.
fn read_items(bytes: &[u8], at: usize, depth: usize) -> (res: Result<
    (Vec<Value>, usize),
    DecodeError,
>)
    ensures
        match res {
            Ok((items, next)) => parse_items(bytes@, at as int, depth as nat, Seq::empty()) == Ok::<
                (Seq<Bencode>, int),
                DecodeError,
            >((models_of(items@), next as int)),
            Err(e) => parse_items(bytes@, at as int, depth as nat, Seq::empty()) == Err::<
                (Seq<Bencode>, int),
                DecodeError,
            >(e),
        },
    decreases depth, 1nat,
{
    let mut items: Vec<Value> = Vec::new();
    let mut pos: usize = at;
    assert(models_of(items@) =~= Seq::<Bencode>::empty());
    loop
        invariant
            parse_items(bytes@, at as int, depth as nat, Seq::empty()) == parse_items(
                bytes@,
                pos as int,
                depth as nat,
                models_of(items@),
            ),
        decreases bytes@.len() - pos,
    {
        if pos >= bytes.len() {
            return Err(DecodeError::Unterminated);
        }
        if bytes[pos] == END {
            return Ok((items, pos + 1));
        }
        match read_value(bytes, pos, depth) {
            Err(e) => {
                return Err(e);
            },
            Ok((item, next)) => {
                proof {
                    lemma_parse_value(bytes@, pos as int, depth as nat);
                    assert(models_of(items@.push(item)) =~= models_of(items@).push(item@));
                }
                items.push(item);
                pos = next;
            },
        }
    }
}

/// Reads the entries of a dictionary from `at` to its closing `e`. Returns
/// them with the position behind the `e`.
fn read_entries(bytes: &[u8], at: usize, depth: usize) -> (res: Result<(Dict, usize), DecodeError>)
    ensures
        match res {
            Ok((dict, next)) => parse_entries(bytes@, at as int, depth as nat, Seq::empty())
                == Ok::<(Entries, int), DecodeError>((dict@, next as int)),
            Err(e) => parse_entries(bytes@, at as int, depth as nat, Seq::empty()) == Err::<
                (Entries, int),
                DecodeError,
            >(e),
        },
    decreases depth, 1nat,
{
    let mut dict = Dict::new();
    let mut pos: usize = at;
    loop
        invariant
            parse_entries(bytes@, at as int, depth as nat, Seq::empty()) == parse_entries(
                bytes@,
                pos as int,
                depth as nat,
                dict@,
            ),
        decreases bytes@.len() - pos,
    {
        if pos >= bytes.len() {
            return Err(DecodeError::Unterminated);
        }
        let lead: u8 = bytes[pos];
        if lead == END {
            return Ok((dict, pos + 1));
        }
        if !(ZERO <= lead && lead <= ZERO + 9) {
            if lead == INTEGER || lead == LIST || lead == DICT {
                return Err(DecodeError::NonStringKey);
            }
            return Err(DecodeError::UnexpectedByte);
        }
        let (key, behind_key) = match read_bytes(bytes, pos) {
            Err(e) => {
                return Err(e);
            },
            Ok(found) => found,
        };
        proof {
            lemma_parse_bytes(bytes@, pos as int);
        }
        if behind_key >= bytes.len() {
            return Err(DecodeError::Unterminated);
        }
        match read_value(bytes, behind_key, depth) {
            Err(e) => {
                return Err(e);
            },
            Ok((value, next)) => {
                proof {
                    lemma_parse_value(bytes@, behind_key as int, depth as nat);
                }
                if !dict.try_insert(key, value) {
                    return Err(DecodeError::DuplicateKey);
                }
                pos = next;
            },
        }
    }
}

/// Decodes the value that starts at `at` in `bytes`. Returns it with the
/// number of bytes that it takes up.
pub fn decode_at(bytes: &[u8], at: usize) -> (res: Result<(Value, usize), DecodeError>)
    ensures
        match res {
            Ok((value, used)) => parse_value(bytes@, at as int, MAX_DEPTH as nat) == Ok::<
                (Bencode, int),
                DecodeError,
            >((value@, at + used)),
            Err(e) => parse_value(bytes@, at as int, MAX_DEPTH as nat) == Err::<
                (Bencode, int),
                DecodeError,
            >(e),
        },
{
    match read_value(bytes, at, MAX_DEPTH) {
        Ok((value, next)) => {
            proof {
                lemma_parse_value(bytes@, at as int, MAX_DEPTH as nat);
            }
            Ok((value, next - at))
        },
        Err(e) => Err(e),
    }
}

/// Decodes a document: the value that `bytes` start with. Bytes behind that
/// value are not looked at; `decode_at` tells how many bytes it takes up.
pub fn decode(bytes: &[u8]) -> (res: Result<Value, DecodeError>)
    ensures
        match res {
            Ok(value) => parse_document(bytes@) == Ok::<Bencode, DecodeError>(value@),
            Err(e) => parse_document(bytes@) == Err::<Bencode, DecodeError>(e),
        },
{
    match read_value(bytes, 0, MAX_DEPTH) {
        Ok((value, _)) => Ok(value),
        Err(e) => Err(e),
    }
}

} // verus!
