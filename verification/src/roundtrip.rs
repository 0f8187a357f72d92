//! Decoding undoes canonical encoding.

use vstd::prelude::*;
use crate::decimal::{
    decimal, digit_run_end, is_digit, lemma_decimal, lemma_decimal_of_value,
    lemma_digit_run_end, lemma_digit_run_is,
};
use crate::decode::{
    lemma_parse_value, parse_bytes, parse_document, parse_entries, parse_integer, parse_items,
    parse_value, DecodeError, MAX_DEPTH,
};
use crate::encode::{
    canonical, canonical_bytes, canonical_entries, canonical_integer, canonical_items, COLON,
    DICT, END, INTEGER, LIST, MINUS,
};
use crate::lex::lemma_lex_irreflexive;
use crate::model::{
    has_key, keys_ascending, lemma_nests_within_more, lemma_nests_within_some, with_entry,
    Bencode, Entries,
};

verus! {

/// The bytes `part` stand in `s` from position `at` on.
pub open spec fn holds_at(s: Seq<u8>, at: int, part: Seq<u8>) -> bool {
    &&& 0 <= at
    &&& at + part.len() <= s.len()
    &&& s.subrange(at, at + part.len()) == part
}

/// Where two parts stand one behind the other, each of them stands.
proof fn lemma_holds_split(s: Seq<u8>, at: int, a: Seq<u8>, b: Seq<u8>)
    requires
        holds_at(s, at, a + b),
    ensures
        holds_at(s, at, a),
        holds_at(s, at + a.len(), b),
{
    let whole = s.subrange(at, at + (a + b).len());
    assert(s.subrange(at, at + a.len()) =~= a) by {
        assert forall|i: int| 0 <= i < a.len() implies s[at + i] == a[i] by {
            assert(whole[i] == (a + b)[i]);
        }
    }
    assert(s.subrange(at + a.len(), at + a.len() + b.len()) =~= b) by {
        assert forall|i: int| 0 <= i < b.len() implies s[at + a.len() + i] == b[i] by {
            assert(whole[a.len() + i] == (a + b)[a.len() + i]);
        }
    }
}

/// A canonical encoding opens with `i`, a digit, `l` or `d`, and is at least
/// two bytes long.
pub proof fn lemma_canonical_opens(value: Bencode)
    ensures
        canonical(value).len() >= 2,
        canonical(value)[0] != END,
        value is Integer ==> canonical(value)[0] == INTEGER,
        value is Bytes ==> is_digit(canonical(value)[0]),
        value is List ==> canonical(value)[0] == LIST,
        value is Dict ==> canonical(value)[0] == DICT,
{
    match value {
        Bencode::Integer(n) => {
            if n < 0 {
                lemma_decimal((-n) as nat);
            } else {
                lemma_decimal(n as nat);
            }
        },
        Bencode::Bytes(bytes) => {
            lemma_decimal(bytes.len());
            let numeral = decimal(bytes.len());
            assert(canonical(value)[0] == numeral[0]);
        },
        Bencode::List(items) => {},
        Bencode::Dict(entries) => {},
    }
}

/// The canonical encoding of an integer decodes to that integer.
proof fn lemma_parse_canonical_integer(s: Seq<u8>, at: int, n: i64)
    requires
        holds_at(s, at, canonical_integer(n)),
    ensures
        s[at] == INTEGER,
        parse_integer(s, at + 1) == Ok::<(i64, int), DecodeError>(
            (n, at + canonical_integer(n).len()),
        ),
{
    let magnitude: nat = if n < 0 {
        (-n) as nat
    } else {
        n as nat
    };
    let numeral = decimal(magnitude);
    lemma_decimal(magnitude);
    let lead = if n < 0 {
        seq![INTEGER, MINUS]
    } else {
        seq![INTEGER]
    };
    assert(canonical_integer(n) =~= lead + (numeral + seq![END]));
    lemma_holds_split(s, at, lead, numeral + seq![END]);
    let start = at + lead.len();
    lemma_holds_split(s, start, numeral, seq![END]);
    let end = start + numeral.len();
    assert(s[at] == s.subrange(at, at + lead.len())[0]);
    assert(s[end] == s.subrange(end, end + 1)[0]);
    assert(s[start] == s.subrange(start, end)[0]);
    assert(is_digit(numeral[0]));
    if n < 0 {
        assert(s[at + 1] == s.subrange(at, at + lead.len())[1]);
    }
    lemma_digit_run_is(s, start, end);
}

/// The canonical encoding of a byte string decodes to that byte string.
proof fn lemma_parse_canonical_bytes(s: Seq<u8>, at: int, bytes: Seq<u8>)
    requires
        holds_at(s, at, canonical_bytes(bytes)),
    ensures
        is_digit(s[at]),
        parse_bytes(s, at) == Ok::<(Seq<u8>, int), DecodeError>(
            (bytes, at + canonical_bytes(bytes).len()),
        ),
{
    let numeral = decimal(bytes.len());
    lemma_decimal(bytes.len());
    assert(canonical_bytes(bytes) =~= numeral + (seq![COLON] + bytes));
    lemma_holds_split(s, at, numeral, seq![COLON] + bytes);
    let end = at + numeral.len();
    lemma_holds_split(s, end, seq![COLON], bytes);
    assert(s[at] == s.subrange(at, end)[0]);
    assert(s[end] == s.subrange(end, end + 1)[0]);
    lemma_digit_run_is(s, at, end);
}

/// The encodings of the first `k + 1` items are those of the first `k`
/// followed by that of item `k`.
proof fn lemma_items_step(items: Seq<Bencode>, k: int)
    requires
        0 <= k < items.len(),
    ensures
        canonical_items(items.take(k + 1)) == canonical_items(items.take(k)) + canonical(items[k]),
{
    assert(items.take(k + 1).drop_last() =~= items.take(k));
}

/// The encodings of the first `k + 1` entries are those of the first `k`
/// followed by the key and the value of entry `k`.
proof fn lemma_entries_step(entries: Entries, k: int)
    requires
        0 <= k < entries.len(),
    ensures
        canonical_entries(entries.take(k + 1)) == canonical_entries(entries.take(k))
            + canonical_bytes(entries[k].0) + canonical(entries[k].1),
{
    assert(entries.take(k + 1).drop_last() =~= entries.take(k));
}

/// Where the encodings of the first `k` items stand, followed by more
/// bytes, the encodings of fewer items stand too.
proof fn lemma_items_stand(s: Seq<u8>, at: int, items: Seq<Bencode>, k: int, j: int)
    requires
        0 <= j <= k <= items.len(),
        holds_at(s, at, canonical_items(items.take(k))),
    ensures
        holds_at(s, at, canonical_items(items.take(j))),
        j < k ==> holds_at(s, at + canonical_items(items.take(j)).len(), canonical(items[j])),
    decreases k - j,
{
    if j < k {
        lemma_items_step(items, k - 1);
        lemma_holds_split(s, at, canonical_items(items.take(k - 1)), canonical(items[k - 1]));
        if j < k - 1 {
            lemma_items_stand(s, at, items, k - 1, j);
        }
    }
}

/// What `lemma_items_stand` says, of the entries of a dictionary.
proof fn lemma_entries_stand(s: Seq<u8>, at: int, entries: Entries, k: int, j: int)
    requires
        0 <= j <= k <= entries.len(),
        holds_at(s, at, canonical_entries(entries.take(k))),
    ensures
        holds_at(s, at, canonical_entries(entries.take(j))),
        j < k ==> holds_at(
            s,
            at + canonical_entries(entries.take(j)).len(),
            canonical_bytes(entries[j].0) + canonical(entries[j].1),
        ),
    decreases k - j,
{
    if j < k {
        lemma_entries_step(entries, k - 1);
        let before = canonical_entries(entries.take(k - 1));
        let entry = canonical_bytes(entries[k - 1].0) + canonical(entries[k - 1].1);
        assert(canonical_entries(entries.take(k)) =~= before + entry);
        lemma_holds_split(s, at, before, entry);
        if j < k - 1 {
            lemma_entries_stand(s, at, entries, k - 1, j);
        }
    }
}

/// Where the canonical encoding of a value stands, the decoder reads that
/// value and ends behind the encoding.
pub proof fn lemma_parse_canonical(s: Seq<u8>, at: int, value: Bencode, depth: nat)
    requires
        value.wf(),
        value.nests_within(depth),
        holds_at(s, at, canonical(value)),
    ensures
        parse_value(s, at, depth) == Ok::<(Bencode, int), DecodeError>(
            (value, at + canonical(value).len()),
        ),
    decreases value, 0nat,
{
    lemma_canonical_opens(value);
    assert(s[at] == s.subrange(at, at + canonical(value).len())[0]);
    match value {
        Bencode::Integer(n) => {
            lemma_parse_canonical_integer(s, at, n);
        },
        Bencode::Bytes(bytes) => {
            lemma_parse_canonical_bytes(s, at, bytes);
        },
        Bencode::List(items) => {
            let body = canonical_items(items);
            assert(canonical(value) =~= seq![LIST] + (body + seq![END]));
            lemma_holds_split(s, at, seq![LIST], body + seq![END]);
            assert(items.take(0) =~= Seq::<Bencode>::empty());
            lemma_parse_canonical_items(s, at + 1, items, 0, (depth - 1) as nat);
        },
        Bencode::Dict(entries) => {
            let body = canonical_entries(entries);
            assert(canonical(value) =~= seq![DICT] + (body + seq![END]));
            lemma_holds_split(s, at, seq![DICT], body + seq![END]);
            assert(entries.take(0) =~= Seq::<(Seq<u8>, Bencode)>::empty());
            lemma_parse_canonical_entries(s, at + 1, entries, 0, (depth - 1) as nat);
        },
    }
}

/// With the first `k` items of a canonical list read, the decoder reads the
/// others and ends behind the closing `e`.
proof fn lemma_parse_canonical_items(s: Seq<u8>, at: int, items: Seq<Bencode>, k: int, depth: nat)
    requires
        0 <= k <= items.len(),
        forall|i: int| 0 <= i < items.len() ==> (#[trigger] items[i]).wf(),
        forall|i: int| 0 <= i < items.len() ==> (#[trigger] items[i]).nests_within(depth),
        holds_at(s, at, canonical_items(items) + seq![END]),
    ensures
        parse_items(s, at + canonical_items(items.take(k)).len(), depth, items.take(k)) == Ok::<
            (Seq<Bencode>, int),
            DecodeError,
        >((items, at + canonical_items(items).len() + 1)),
    decreases items, items.len() - k,
{
    let body = canonical_items(items);
    lemma_holds_split(s, at, body, seq![END]);
    assert(items.take(items.len() as int) =~= items);
    lemma_items_stand(s, at, items, items.len() as int, k);
    let here = at + canonical_items(items.take(k)).len();
    if k == items.len() {
        assert(s[here] == s.subrange(here, here + 1)[0]);
    } else {
        let item = items[k];
        lemma_canonical_opens(item);
        assert(s[here] == s.subrange(here, here + canonical(item).len())[0]);
        lemma_parse_canonical(s, here, item, depth);
        lemma_items_step(items, k);
        assert(items.take(k).push(item) =~= items.take(k + 1));
        lemma_items_stand(s, at, items, items.len() as int, k + 1);
        lemma_parse_canonical_items(s, at, items, k + 1, depth);
    }
}

/// With the first `k` entries of a canonical dictionary read, the decoder
/// reads the others and ends behind the closing `e`.
proof fn lemma_parse_canonical_entries(s: Seq<u8>, at: int, entries: Entries, k: int, depth: nat)
    requires
        0 <= k <= entries.len(),
        keys_ascending(entries),
        forall|i: int| 0 <= i < entries.len() ==> (#[trigger] entries[i]).1.wf(),
        forall|i: int| 0 <= i < entries.len() ==> (#[trigger] entries[i]).1.nests_within(depth),
        holds_at(s, at, canonical_entries(entries) + seq![END]),
    ensures
        parse_entries(s, at + canonical_entries(entries.take(k)).len(), depth, entries.take(k))
            == Ok::<(Entries, int), DecodeError>(
            (entries, at + canonical_entries(entries).len() + 1),
        ),
    decreases entries, entries.len() - k,
{
    let body = canonical_entries(entries);
    lemma_holds_split(s, at, body, seq![END]);
    assert(entries.take(entries.len() as int) =~= entries);
    lemma_entries_stand(s, at, entries, entries.len() as int, k);
    let here = at + canonical_entries(entries.take(k)).len();
    if k == entries.len() {
        assert(s[here] == s.subrange(here, here + 1)[0]);
    } else {
        let key = entries[k].0;
        let value = entries[k].1;
        let done = entries.take(k);
        lemma_holds_split(s, here, canonical_bytes(key), canonical(value));
        lemma_parse_canonical_bytes(s, here, key);
        let behind_key = here + canonical_bytes(key).len();
        lemma_canonical_opens(value);
        lemma_parse_canonical(s, behind_key, value, depth);
        assert(!has_key(done, key)) by {
            lemma_lex_irreflexive(key);
            assert forall|i: int| 0 <= i < done.len() implies (#[trigger] done[i]).0 != key by {
                assert(done[i] == entries[i]);
            }
        }
        assert(with_entry(done, key, value) =~= entries.take(k + 1)) by {
            if done.len() > 0 {
                assert(done.last() == entries[k - 1]);
            }
            assert(done.push((key, value)) =~= entries.take(k + 1));
        }
        lemma_entries_step(entries, k);
        lemma_parse_canonical_entries(s, at, entries, k + 1, depth);
    }
}

/// The canonical encoding of a value whose dictionaries hold their keys in
/// ascending order, and whose lists and dictionaries are nested at most
/// `MAX_DEPTH` deep, decodes to that value.
pub proof fn lemma_decode_canonical(value: Bencode)
    requires
        value.wf(),
        value.nests_within(MAX_DEPTH as nat),
    ensures
        parse_document(canonical(value)) == Ok::<Bencode, DecodeError>(value),
{
    let s = canonical(value);
    assert(s.subrange(0, s.len() as int) =~= s);
    lemma_parse_canonical(s, 0, value, MAX_DEPTH as nat);
}

/// Whatever a document decodes to, the canonical encoding of that value
/// decodes to the same value.
pub proof fn lemma_round_trip(document: Seq<u8>)
    ensures
        parse_document(document) matches Ok(value) ==> parse_document(canonical(value)) == Ok::<
            Bencode,
            DecodeError,
        >(value),
{
    lemma_parse_value(document, 0, MAX_DEPTH as nat);
    if let Ok(value) = parse_document(document) {
        lemma_decode_canonical(value);
    }
}

/// Two values with the same canonical encoding are the same value.
pub proof fn lemma_canonical_injective(a: Bencode, b: Bencode)
    requires
        a.wf(),
        b.wf(),
        canonical(a) == canonical(b),
    ensures
        a == b,
{
    let depth_a = lemma_nests_within_some(a);
    let depth_b = lemma_nests_within_some(b);
    let depth = if depth_a <= depth_b {
        depth_b
    } else {
        depth_a
    };
    lemma_nests_within_more(a, depth_a, depth);
    lemma_nests_within_more(b, depth_b, depth);
    let s = canonical(a);
    assert(s.subrange(0, s.len() as int) =~= s);
    lemma_parse_canonical(s, 0, a, depth);
    lemma_parse_canonical(s, 0, b, depth);
}

/// An integer is taken in its canonical form only: the bytes from the
/// opening `i` at `at` to the closing `e` are the canonical encoding of the
/// integer that they decode to.
pub proof fn lemma_integer_is_canonical(s: Seq<u8>, at: int)
    requires
        0 <= at < s.len(),
        s[at] == INTEGER,
    ensures
        parse_integer(s, at + 1) matches Ok((n, next)) ==> s.subrange(at, next)
            == canonical_integer(n),
{
    if let Ok((n, next)) = parse_integer(s, at + 1) {
        let negative = s[at + 1] == MINUS;
        let start = if negative {
            at + 2
        } else {
            at + 1
        };
        lemma_digit_run_end(s, start);
        let end = digit_run_end(s, start);
        let digits = s.subrange(start, end);
        lemma_decimal_of_value(digits);
        assert(s.subrange(at, next) =~= canonical_integer(n));
    }
}

/// A byte string is taken in its canonical form only: the bytes from the
/// first digit of its length at `at` to its last byte are the canonical
/// encoding of the byte string that they decode to.
pub proof fn lemma_bytes_are_canonical(s: Seq<u8>, at: int)
    requires
        0 <= at < s.len(),
        is_digit(s[at]),
    ensures
        parse_bytes(s, at) matches Ok((bytes, next)) ==> s.subrange(at, next) == canonical_bytes(
            bytes,
        ),
{
    if let Ok((bytes, next)) = parse_bytes(s, at) {
        lemma_digit_run_end(s, at);
        let end = digit_run_end(s, at);
        let digits = s.subrange(at, end);
        lemma_decimal_of_value(digits);
        assert(s.subrange(at, next) =~= canonical_bytes(bytes));
    }
}

} // verus!
