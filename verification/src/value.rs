//! The value tree that a bencoded document decodes to.

use vstd::prelude::*;
use crate::lex::{
    lemma_lex_asymmetric, lemma_lex_irreflexive, lemma_lex_transitive, lex_lt, rank, Rank,
};
use crate::model::{
    has_key, keys_ascending, lemma_insert_ascending, lemma_with_entry_at, lookup, with_entry,
    Bencode, Entries,
};

verus! {

/// A decoded value.
#[derive(Debug, PartialEq, Eq)]
pub enum Value {
    Integer(i64),
    ByteString(Vec<u8>),
    List(Vec<Value>),
    Dict(Dict),
}

/// A dictionary from byte-string keys to values. Its entries are held in
/// strictly ascending key order, whatever order they were inserted in.
#[derive(Debug, PartialEq, Eq)]
pub struct Dict {
    entries: Vec<(Vec<u8>, Value)>,
}

/// The model of a value.
pub open spec fn value_model(value: Value) -> Bencode
    decreases value,
{
    match value {
        Value::Integer(n) => Bencode::Integer(n),
        Value::ByteString(bytes) => Bencode::Bytes(bytes@),
        Value::List(items) => Bencode::List(
            Seq::new(
                items@.len(),
                |i: int|
                    if 0 <= i < items@.len() {
                        value_model(items@[i])
                    } else {
                        Bencode::Integer(0)
                    },
            ),
        ),
        Value::Dict(dict) => Bencode::Dict(dict_model(dict)),
    }
}

/// The model of a dictionary: its entries in ascending key order.
pub closed spec fn dict_model(dict: Dict) -> Entries
    decreases dict,
{
    entries_model(dict.entries@)
}

impl View for Value {
    type V = Bencode;

    open spec fn view(&self) -> Bencode {
        value_model(*self)
    }
}

impl View for Dict {
    type V = Entries;

    open spec fn view(&self) -> Entries {
        dict_model(*self)
    }
}

/// The model of a list is the list of its items' models.
pub proof fn lemma_view_list(items: Vec<Value>)
    ensures
        Value::List(items)@ is List,
        Value::List(items)@->List_0.len() == items@.len(),
        forall|j: int|
            0 <= j < items@.len() ==> Value::List(items)@->List_0[j] == (#[trigger] items@[j])@,
{
}

/// The model of a sequence of values, item by item.
pub open spec fn models_of(items: Seq<Value>) -> Seq<Bencode> {
    Seq::new(items.len(), |i: int| items[i]@)
}

/// The model of a list, by `models_of`.
pub proof fn lemma_view_list_models(items: Vec<Value>)
    ensures
        Value::List(items)@ == Bencode::List(models_of(items@)),
{
    lemma_view_list(items);
    assert(Value::List(items)@->List_0 =~= models_of(items@));
}

/// The model of stored entries, entry by entry.
spec fn entries_model(entries: Seq<(Vec<u8>, Value)>) -> Entries
    decreases entries,
{
    Seq::new(
        entries.len(),
        |i: int|
            if 0 <= i < entries.len() {
                (entries[i].0@, value_model(entries[i].1))
            } else {
                (Seq::empty(), Bencode::Integer(0))
            },
    )
}

impl Dict {
    #[verifier::type_invariant]
    spec fn ordered(&self) -> bool {
        keys_ascending(self@)
    }

    /// A dictionary without entries.
    pub fn new() -> (dict: Dict)
        ensures
            dict@ == Seq::<(Seq<u8>, Bencode)>::empty(),
    {
        let dict = Dict { entries: Vec::new() };
        assert(dict@ =~= Seq::<(Seq<u8>, Bencode)>::empty());
        dict
    }

    /// The number of entries. Their keys ascend.
    pub fn len(&self) -> (n: usize)
        ensures
            n == self@.len(),
            keys_ascending(self@),
    {
        proof {
            use_type_invariant(self);
        }
        self.entries.len()
    }

    /// The key of the entry at position `at` in ascending key order.
    pub fn key_at(&self, at: usize) -> (key: &Vec<u8>)
        requires
            at < self@.len(),
        ensures
            key@ == self@[at as int].0,
    {
        &self.entries[at].0
    }

    /// The value of the entry at position `at` in ascending key order.
    pub fn value_at(&self, at: usize) -> (value: &Value)
        requires
            at < self@.len(),
        ensures
            value@ == self@[at as int].1,
    {
        &self.entries[at].1
    }

    /// The value held under `key`, if the key occurs.
    pub fn get(&self, key: &[u8]) -> (found: Option<&Value>)
        ensures
            match found {
                Some(value) => lookup(self@, key@) == Some(value@),
                None => lookup(self@, key@).is_none(),
            },
    {
        let mut i: usize = 0;
        assert(self@.skip(0) =~= self@);
        while i < self.entries.len()
            invariant
                i <= self.entries@.len(),
                self@.len() == self.entries@.len(),
                lookup(self@, key@) == lookup(self@.skip(i as int), key@),
            decreases self.entries.len() - i,
        {
            proof {
                assert(self@.skip(i as int).drop_first() =~= self@.skip(i + 1));
            }
            match rank(self.entries[i].0.as_slice(), key) {
                Rank::Same => {
                    return Some(&self.entries[i].1);
                },
                _ => {},
            }
            i += 1;
        }
        assert(self@.skip(i as int).len() == 0);
        None
    }

    /// Puts `value` under `key` unless the key is already held. Returns
    /// whether the entry was added; if not, the dictionary is unchanged.
    pub fn try_insert(&mut self, key: Vec<u8>, value: Value) -> (added: bool)
        ensures
            added == !has_key(old(self)@, key@),
            added ==> final(self)@ == with_entry(old(self)@, key@, value@),
            !added ==> final(self)@ == old(self)@,
    {
        proof {
            use_type_invariant(&*self);
        }
        let mut at: usize = self.entries.len();
        while at > 0
            invariant
                at <= self.entries@.len(),
                self@.len() == self.entries@.len(),
                *self == *old(self),
                forall|j: int| at <= j < self@.len() ==> lex_lt(key@, #[trigger] self@[j].0),
            ensures
                at > 0 ==> lex_lt(self@[at - 1].0, key@),
            decreases at,
        {
            match rank(self.entries[at - 1].0.as_slice(), key.as_slice()) {
                Rank::Before => {
                    break ;
                },
                Rank::Same => {
                    assert(self@[at - 1].0 == key@);
                    return false;
                },
                Rank::After => {
                    at -= 1;
                },
            }
        }
        proof {
            assert forall|j: int| 0 <= j < self@.len() implies (#[trigger] self@[j]).0 != key@
                && (at <= j ==> !lex_lt(self@[j].0, key@)) by {
                lemma_lex_irreflexive(key@);
                if at <= j {
                    lemma_lex_asymmetric(key@, self@[j].0);
                } else if j < at - 1 {
                    lemma_lex_transitive(self@[j].0, self@[at - 1].0, key@);
                }
            }
            lemma_with_entry_at(self@, key@, value@, at as int);
            lemma_insert_ascending(self@, key@, value@, at as int);
        }
        // The entries are taken out for the insertion and put back: the
        // dictionary is ordered whenever it holds them.
        let mut entries: Vec<(Vec<u8>, Value)> = Vec::new();
        std::mem::swap(&mut self.entries, &mut entries);
        entries.insert(at, (key, value));
        assert(entries_model(entries@) =~= old(self)@.insert(at as int, (key@, value@)));
        std::mem::swap(&mut self.entries, &mut entries);
        assert(self@ =~= old(self)@.insert(at as int, (key@, value@)));
        true
    }
}

} // verus!
