//! The canonical encoding of a value.

use vstd::prelude::*;
use crate::decimal::{decimal, write_decimal};
use crate::model::{Bencode, Entries};
use crate::value::{lemma_view_list, Dict, Value};

verus! {

/// `i`, which opens an integer.
pub const INTEGER: u8 = 0x69;

/// `l`, which opens a list.
pub const LIST: u8 = 0x6c;

/// `d`, which opens a dictionary.
pub const DICT: u8 = 0x64;

/// `e`, which closes an integer, a list or a dictionary.
pub const END: u8 = 0x65;

/// `:`, which stands between the length of a byte string and its bytes.
pub const COLON: u8 = 0x3a;

/// `-`, the sign of a negative integer.
pub const MINUS: u8 = 0x2d;

/// An integer in canonical form: `i`, a `-` if it is negative, the shortest
/// numeral of its magnitude, `e`.
pub open spec fn canonical_integer(n: i64) -> Seq<u8> {
    if n < 0 {
        seq![INTEGER, MINUS] + decimal((-n) as nat) + seq![END]
    } else {
        seq![INTEGER] + decimal(n as nat) + seq![END]
    }
}

/// A byte string in canonical form: the shortest numeral of its length, `:`,
/// its bytes.
pub open spec fn canonical_bytes(bytes: Seq<u8>) -> Seq<u8> {
    decimal(bytes.len()) + seq![COLON] + bytes
}

/// The canonical encoding of a value. A list is `l`, its items, `e`; a
/// dictionary is `d`, each key as a byte string followed by its value, in
/// the order in which the entries are held, `e`.
pub open spec fn canonical(value: Bencode) -> Seq<u8>
    decreases value,
{
    match value {
        Bencode::Integer(n) => canonical_integer(n),
        Bencode::Bytes(bytes) => canonical_bytes(bytes),
        Bencode::List(items) => seq![LIST] + canonical_items(items) + seq![END],
        Bencode::Dict(entries) => seq![DICT] + canonical_entries(entries) + seq![END],
    }
}

/// The canonical encodings of `items`, one behind the other.
pub open spec fn canonical_items(items: Seq<Bencode>) -> Seq<u8>
    decreases items,
{
    if items.len() == 0 {
        Seq::empty()
    } else {
        canonical_items(items.drop_last()) + canonical(items.last())
    }
}

/// The canonical encodings of `entries`, one behind the other, each as its
/// key followed by its value.
pub open spec fn canonical_entries(entries: Entries) -> Seq<u8>
    decreases entries,
{
    if entries.len() == 0 {
        Seq::empty()
    } else {
        canonical_entries(entries.drop_last()) + canonical_bytes(entries.last().0) + canonical(
            entries.last().1,
        )
    }
}

/// Appends the canonical encoding of `n`.
fn write_integer(n: i64, out: &mut Vec<u8>)
    ensures
        final(out)@ == old(out)@ + canonical_integer(n),
{
    out.push(INTEGER);
    if n < 0 {
        out.push(MINUS);
        let magnitude: u64 = if n == i64::MIN {
            0x8000_0000_0000_0000u64
        } else {
            (-n) as u64
        };
        write_decimal(magnitude, out);
    } else {
        write_decimal(n as u64, out);
    }
    out.push(END);
    assert(out@ =~= old(out)@ + canonical_integer(n));
}

/// Appends the canonical encoding of the byte string `bytes`.
fn write_bytes(bytes: &[u8], out: &mut Vec<u8>)
    ensures
        final(out)@ == old(out)@ + canonical_bytes(bytes@),
{
    write_decimal(bytes.len() as u64, out);
    out.push(COLON);
    out.extend_from_slice(bytes);
    assert(out@ =~= old(out)@ + canonical_bytes(bytes@));
}

/// Appends the canonical encoding of `value` to `out`. Every dictionary of
/// `value` holds its keys in ascending order, so they are written that way.
pub fn encode_into(value: &Value, out: &mut Vec<u8>)
    ensures
        final(out)@ == old(out)@ + canonical(value@),
        value@.wf(),
    decreases value@, 1nat,
{
    match value {
        Value::Integer(n) => {
            write_integer(*n, out);
        },
        Value::ByteString(bytes) => {
            write_bytes(bytes.as_slice(), out);
        },
        Value::List(items) => {
            out.push(LIST);
            let ghost models = value@->List_0;
            let mut i: usize = 0;
            proof {
                lemma_view_list(*items);
            }
            assert(models.take(0) =~= Seq::<Bencode>::empty());
            while i < items.len()
                invariant
                    i <= items@.len(),
                    value@ == Bencode::List(models),
                    models.len() == items@.len(),
                    forall|j: int| 0 <= j < items@.len() ==> models[j] == (#[trigger] items@[j])@,
                    out@ == old(out)@ + seq![LIST] + canonical_items(models.take(i as int)),
                    forall|j: int| 0 <= j < i ==> (#[trigger] models[j]).wf(),
                decreases items@.len() - i,
            {
                assert(decreases_to!(value@ => value@->List_0[i as int]));
                encode_into(&items[i], out);
                proof {
                    let done = models.take(i + 1);
                    assert(done.drop_last() =~= models.take(i as int));
                    assert(done.last() == models[i as int]);
                    assert(out@ =~= old(out)@ + seq![LIST] + canonical_items(done));
                }
                i += 1;
            }
            assert(models.take(i as int) =~= models);
            out.push(END);
            assert(out@ =~= old(out)@ + canonical(value@));
        },
        Value::Dict(dict) => {
            write_dict(dict, out);
        },
    }
}

/// Appends the canonical encoding of the dictionary `dict` to `out`.
pub fn write_dict(dict: &Dict, out: &mut Vec<u8>)
    ensures
        final(out)@ == old(out)@ + canonical(Bencode::Dict(dict@)),
        Bencode::Dict(dict@).wf(),
    decreases Bencode::Dict(dict@), 0nat,
{
    out.push(DICT);
    let n = dict.len();
    let mut i: usize = 0;
    assert(dict@.take(0) =~= Seq::<(Seq<u8>, Bencode)>::empty());
    while i < n
        invariant
            i <= n,
            n == dict@.len(),
            out@ == old(out)@ + seq![DICT] + canonical_entries(dict@.take(i as int)),
            forall|j: int| 0 <= j < i ==> (#[trigger] dict@[j]).1.wf(),
        decreases n - i,
    {
        write_bytes(dict.key_at(i).as_slice(), out);
        assert(decreases_to!(Bencode::Dict(dict@) => Bencode::Dict(dict@)->Dict_0[i as int].1));
        encode_into(dict.value_at(i), out);
        proof {
            let done = dict@.take(i + 1);
            assert(done.drop_last() =~= dict@.take(i as int));
            assert(done.last() == dict@[i as int]);
            assert(out@ =~= old(out)@ + seq![DICT] + canonical_entries(done));
        }
        i += 1;
    }
    assert(dict@.take(i as int) =~= dict@);
    out.push(END);
    assert(out@ =~= old(out)@ + canonical(Bencode::Dict(dict@)));
}

/// The canonical encoding of `value`.
pub fn encode(value: &Value) -> (out: Vec<u8>)
    ensures
        out@ == canonical(value@),
        value@.wf(),
{
    let mut out: Vec<u8> = Vec::new();
    encode_into(value, &mut out);
    assert(out@ =~= canonical(value@));
    out
}

} // verus!
