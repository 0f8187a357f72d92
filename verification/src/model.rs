//! The mathematical model of bencoded values, and what holds of
//! dictionaries with ascending keys.

use vstd::prelude::*;
use crate::lex::{
    lemma_lex_asymmetric, lemma_lex_irreflexive, lemma_lex_total, lemma_lex_transitive, lex_lt,
};

verus! {

/// A bencoded value as a mathematical object: the model that all contracts
/// of this crate speak of.
pub enum Bencode {
    Integer(i64),
    Bytes(Seq<u8>),
    List(Seq<Bencode>),
    Dict(Seq<(Seq<u8>, Bencode)>),
}

/// The entries of a dictionary, in the order in which they are held.
pub type Entries = Seq<(Seq<u8>, Bencode)>;

/// Every key comes strictly before the keys of all later entries, so no key
/// occurs twice.
pub open spec fn keys_ascending(entries: Entries) -> bool {
    forall|i: int, j: int|
        0 <= i < j < entries.len() ==> lex_lt(#[trigger] entries[i].0, #[trigger] entries[j].0)
}

/// Some entry has the key `key`.
pub open spec fn has_key(entries: Entries, key: Seq<u8>) -> bool {
    exists|i: int| 0 <= i < entries.len() && #[trigger] entries[i].0 == key
}

/// The value of the first entry with the key `key`.
pub open spec fn lookup(entries: Entries, key: Seq<u8>) -> Option<Bencode>
    decreases entries.len(),
{
    if entries.len() == 0 {
        None
    } else if entries[0].0 == key {
        Some(entries[0].1)
    } else {
        lookup(entries.drop_first(), key)
    }
}

/// `entries` with `(key, value)` put behind the last entry whose key comes
/// before `key`.
pub open spec fn with_entry(entries: Entries, key: Seq<u8>, value: Bencode) -> Entries
    decreases entries.len(),
{
    if entries.len() == 0 || lex_lt(entries.last().0, key) {
        entries.push((key, value))
    } else {
        with_entry(entries.drop_last(), key, value).push(entries.last())
    }
}

impl Bencode {
    /// Every dictionary in the tree holds its keys in strictly ascending
    /// order.
    pub open spec fn wf(self) -> bool
        decreases self,
    {
        match self {
            Bencode::Integer(_) => true,
            Bencode::Bytes(_) => true,
            Bencode::List(items) => forall|i: int|
                0 <= i < items.len() ==> (#[trigger] items[i]).wf(),
            Bencode::Dict(entries) => {
                &&& keys_ascending(entries)
                &&& forall|i: int| 0 <= i < entries.len() ==> (#[trigger] entries[i]).1.wf()
            },
        }
    }

    /// No list or dictionary of the tree lies under more than `depth - 1`
    /// others: a scalar fits any depth, a container needs one level more
    /// than its members.
    pub open spec fn nests_within(self, depth: nat) -> bool
        decreases self,
    {
        match self {
            Bencode::Integer(_) => true,
            Bencode::Bytes(_) => true,
            Bencode::List(items) => depth > 0 && forall|i: int|
                0 <= i < items.len() ==> (#[trigger] items[i]).nests_within((depth - 1) as nat),
            Bencode::Dict(entries) => depth > 0 && forall|i: int|
                0 <= i < entries.len() ==> (#[trigger] entries[i]).1.nests_within(
                    (depth - 1) as nat,
                ),
        }
    }
}

/// A value that fits a depth fits every greater one.
pub proof fn lemma_nests_within_more(value: Bencode, depth: nat, more: nat)
    requires
        value.nests_within(depth),
        depth <= more,
    ensures
        value.nests_within(more),
    decreases value,
{
    match value {
        Bencode::Integer(_) => {},
        Bencode::Bytes(_) => {},
        Bencode::List(items) => {
            assert forall|i: int| 0 <= i < items.len() implies (#[trigger] items[i]).nests_within(
                (more - 1) as nat,
            ) by {
                lemma_nests_within_more(items[i], (depth - 1) as nat, (more - 1) as nat);
            }
        },
        Bencode::Dict(entries) => {
            assert forall|i: int| 0 <= i < entries.len() implies (
            #[trigger] entries[i]).1.nests_within((more - 1) as nat) by {
                lemma_nests_within_more(entries[i].1, (depth - 1) as nat, (more - 1) as nat);
            }
        },
    }
}

/// Every value fits some depth: that which is returned.
pub proof fn lemma_nests_within_some(value: Bencode) -> (depth: nat)
    ensures
        value.nests_within(depth),
    decreases value, 0nat,
{
    match value {
        Bencode::Integer(_) => 0,
        Bencode::Bytes(_) => 0,
        Bencode::List(items) => {
            let below = lemma_items_nest_within_some(items, items.len());
            below + 1
        },
        Bencode::Dict(entries) => {
            let below = lemma_entries_nest_within_some(entries, entries.len());
            below + 1
        },
    }
}

/// The first `count` of `items` all fit the depth that is returned.
proof fn lemma_items_nest_within_some(items: Seq<Bencode>, count: nat) -> (depth: nat)
    requires
        count <= items.len(),
    ensures
        forall|i: int| 0 <= i < count ==> (#[trigger] items[i]).nests_within(depth),
    decreases items, count,
{
    if count == 0 {
        0
    } else {
        let before = lemma_items_nest_within_some(items, (count - 1) as nat);
        let last = lemma_nests_within_some(items[count - 1]);
        let depth = if before <= last {
            last
        } else {
            before
        };
        assert forall|i: int| 0 <= i < count implies (#[trigger] items[i]).nests_within(depth) by {
            if i < count - 1 {
                lemma_nests_within_more(items[i], before, depth);
            } else {
                lemma_nests_within_more(items[i], last, depth);
            }
        }
        depth
    }
}

/// The values of the first `count` of `entries` all fit the depth that is
/// returned.
proof fn lemma_entries_nest_within_some(entries: Entries, count: nat) -> (depth: nat)
    requires
        count <= entries.len(),
    ensures
        forall|i: int| 0 <= i < count ==> (#[trigger] entries[i]).1.nests_within(depth),
    decreases entries, count,
{
    if count == 0 {
        0
    } else {
        let before = lemma_entries_nest_within_some(entries, (count - 1) as nat);
        let last = lemma_nests_within_some(entries[count - 1].1);
        let depth = if before <= last {
            last
        } else {
            before
        };
        assert forall|i: int| 0 <= i < count implies (#[trigger] entries[i]).1.nests_within(
            depth,
        ) by {
            if i < count - 1 {
                lemma_nests_within_more(entries[i].1, before, depth);
            } else {
                lemma_nests_within_more(entries[i].1, last, depth);
            }
        }
        depth
    }
}

/// Where `with_entry` puts the new entry: behind an entry with a smaller key,
/// before entries whose keys are not smaller.
pub proof fn lemma_with_entry_at(entries: Entries, key: Seq<u8>, value: Bencode, at: int)
    requires
        0 <= at <= entries.len(),
        at > 0 ==> lex_lt(entries[at - 1].0, key),
        forall|j: int| at <= j < entries.len() ==> !lex_lt(#[trigger] entries[j].0, key),
    ensures
        with_entry(entries, key, value) == entries.insert(at, (key, value)),
    decreases entries.len() - at,
{
    if at == entries.len() {
        assert(entries.push((key, value)) =~= entries.insert(at, (key, value)));
    } else {
        let front = entries.drop_last();
        assert(!lex_lt(entries[entries.len() - 1].0, key));
        assert forall|j: int| at <= j < front.len() implies !lex_lt(#[trigger] front[j].0, key) by {
            assert(front[j] == entries[j]);
        }
        lemma_with_entry_at(front, key, value, at);
        assert(front.insert(at, (key, value)).push(entries.last()) =~= entries.insert(
            at,
            (key, value),
        ));
    }
}

/// Putting a new key into ascending entries leaves them ascending.
pub proof fn lemma_with_entry_ascending(entries: Entries, key: Seq<u8>, value: Bencode)
    requires
        keys_ascending(entries),
        !has_key(entries, key),
    ensures
        keys_ascending(with_entry(entries, key, value)),
        with_entry(entries, key, value).len() == entries.len() + 1,
{
    let at = insertion_point(entries, key);
    lemma_insertion_point(entries, key);
    lemma_with_entry_at(entries, key, value, at);
    lemma_insert_ascending(entries, key, value, at);
}

/// Each entry of `with_entry(entries, key, value)` is `(key, value)` or an
/// entry of `entries`.
pub proof fn lemma_with_entry_members(entries: Entries, key: Seq<u8>, value: Bencode)
    ensures
        forall|i: int|
            0 <= i < with_entry(entries, key, value).len() ==> {
                ||| #[trigger] with_entry(entries, key, value)[i] == (key, value)
                ||| entries.contains(with_entry(entries, key, value)[i])
            },
{
    let at = insertion_point(entries, key);
    lemma_insertion_point(entries, key);
    lemma_with_entry_at(entries, key, value, at);
    let grown = entries.insert(at, (key, value));
    assert forall|i: int| 0 <= i < grown.len() implies #[trigger] grown[i] == (key, value)
        || entries.contains(grown[i]) by {
        if i < at {
            assert(grown[i] == entries[i]);
        } else if i > at {
            assert(grown[i] == entries[i - 1]);
        }
    }
}

/// The number of entries whose keys come before `key`, provided the keys
/// ascend.
pub open spec fn insertion_point(entries: Entries, key: Seq<u8>) -> int
    decreases entries.len(),
{
    if entries.len() == 0 || lex_lt(entries.last().0, key) {
        entries.len() as int
    } else {
        insertion_point(entries.drop_last(), key)
    }
}

proof fn lemma_insertion_point(entries: Entries, key: Seq<u8>)
    ensures
        0 <= insertion_point(entries, key) <= entries.len(),
        insertion_point(entries, key) > 0 ==> lex_lt(
            entries[insertion_point(entries, key) - 1].0,
            key,
        ),
        forall|j: int|
            insertion_point(entries, key) <= j < entries.len() ==> !lex_lt(
                #[trigger] entries[j].0,
                key,
            ),
    decreases entries.len(),
{
    if entries.len() == 0 || lex_lt(entries.last().0, key) {
    } else {
        let front = entries.drop_last();
        lemma_insertion_point(front, key);
        let at = insertion_point(front, key);
        assert forall|j: int| at <= j < entries.len() implies !lex_lt(
            #[trigger] entries[j].0,
            key,
        ) by {
            if j < front.len() {
                assert(front[j] == entries[j]);
            }
        }
    }
}

pub proof fn lemma_insert_ascending(entries: Entries, key: Seq<u8>, value: Bencode, at: int)
    requires
        keys_ascending(entries),
        !has_key(entries, key),
        0 <= at <= entries.len(),
        at > 0 ==> lex_lt(entries[at - 1].0, key),
        forall|j: int| at <= j < entries.len() ==> !lex_lt(#[trigger] entries[j].0, key),
    ensures
        keys_ascending(entries.insert(at, (key, value))),
{
    let grown = entries.insert(at, (key, value));
    assert forall|i: int, j: int| 0 <= i < j < grown.len() implies lex_lt(
        #[trigger] grown[i].0,
        #[trigger] grown[j].0,
    ) by {
        if j < at {
            assert(grown[i] == entries[i] && grown[j] == entries[j]);
        } else if j == at {
            assert(grown[i] == entries[i]);
            if i < at - 1 {
                lemma_lex_transitive(entries[i].0, entries[at - 1].0, key);
            }
        } else if i == at {
            assert(grown[j] == entries[j - 1]);
            assert(!lex_lt(entries[j - 1].0, key));
            assert(entries[j - 1].0 != key);
            lemma_lex_total(entries[j - 1].0, key);
        } else if i > at {
            assert(grown[i] == entries[i - 1] && grown[j] == entries[j - 1]);
        } else {
            assert(grown[i] == entries[i] && grown[j] == entries[j - 1]);
        }
    }
}

/// In ascending entries a key is found at most once, so `lookup` gives the
/// value of the one entry that has it.
pub proof fn lemma_lookup_entry(entries: Entries, at: int)
    requires
        keys_ascending(entries),
        0 <= at < entries.len(),
    ensures
        lookup(entries, entries[at].0) == Some(entries[at].1),
    decreases at,
{
    if at > 0 {
        let rest = entries.drop_first();
        lemma_lex_irreflexive(entries[at].0);
        assert(lex_lt(entries[0].0, entries[at].0));
        assert forall|i: int, j: int| 0 <= i < j < rest.len() implies lex_lt(
            #[trigger] rest[i].0,
            #[trigger] rest[j].0,
        ) by {
            assert(rest[i] == entries[i + 1] && rest[j] == entries[j + 1]);
        }
        assert(rest[at - 1] == entries[at]);
        lemma_lookup_entry(rest, at - 1);
    }
}

/// `lookup` finds a value exactly for the keys that occur.
pub proof fn lemma_lookup_has_key(entries: Entries, key: Seq<u8>)
    ensures
        lookup(entries, key).is_some() <==> has_key(entries, key),
    decreases entries.len(),
{
    if entries.len() > 0 {
        let rest = entries.drop_first();
        lemma_lookup_has_key(rest, key);
        if entries[0].0 != key {
            if has_key(rest, key) {
                let i = choose|i: int| 0 <= i < rest.len() && #[trigger] rest[i].0 == key;
                assert(entries[i + 1].0 == key);
            }
            if has_key(entries, key) {
                let i = choose|i: int| 0 <= i < entries.len() && #[trigger] entries[i].0 == key;
                assert(rest[i - 1].0 == key);
            }
        }
    }
}

/// What is found in a dictionary after `(key, value)` was put into it: the
/// new value under `key`, and under every other key what was found before.
pub proof fn lemma_lookup_with_entry(
    entries: Entries,
    key: Seq<u8>,
    value: Bencode,
    other: Seq<u8>,
)
    requires
        keys_ascending(entries),
        !has_key(entries, key),
    ensures
        lookup(with_entry(entries, key, value), other) == if other == key {
            Some(value)
        } else {
            lookup(entries, other)
        },
{
    let at = insertion_point(entries, key);
    lemma_insertion_point(entries, key);
    lemma_with_entry_at(entries, key, value, at);
    lemma_with_entry_ascending(entries, key, value);
    let grown = entries.insert(at, (key, value));
    lemma_lookup_has_key(entries, other);
    lemma_lookup_has_key(grown, other);
    if other == key {
        assert(grown[at] == (key, value));
        lemma_lookup_entry(grown, at);
    } else if has_key(entries, other) {
        let i = choose|i: int| 0 <= i < entries.len() && #[trigger] entries[i].0 == other;
        lemma_lookup_entry(entries, i);
        let j = if i < at {
            i
        } else {
            i + 1
        };
        assert(grown[j] == entries[i]);
        lemma_lookup_entry(grown, j);
    } else {
        if has_key(grown, other) {
            let j = choose|j: int| 0 <= j < grown.len() && #[trigger] grown[j].0 == other;
            if j < at {
                assert(grown[j] == entries[j]);
            } else if j > at {
                assert(grown[j] == entries[j - 1]);
            }
        }
    }
}

/// A dictionary is what is found in it: two dictionaries with ascending
/// keys that hold the same value, or none, under every key are the same.
pub proof fn lemma_entries_equal(a: Entries, b: Entries)
    requires
        keys_ascending(a),
        keys_ascending(b),
        forall|key: Seq<u8>| lookup(a, key) == lookup(b, key),
    ensures
        a == b,
    decreases a.len(),
{
    if a.len() == 0 {
        if b.len() > 0 {
            assert(lookup(a, b[0].0) == lookup(b, b[0].0));
        }
        assert(a =~= b);
    } else {
        lemma_lookup_entry(a, 0);
        assert(lookup(b, a[0].0) == lookup(a, a[0].0));
        lemma_lookup_has_key(b, a[0].0);
        let j = choose|j: int| 0 <= j < b.len() && #[trigger] b[j].0 == a[0].0;
        lemma_lookup_entry(b, j);
        if j > 0 {
            lemma_lookup_entry(b, 0);
            assert(lookup(a, b[0].0) == lookup(b, b[0].0));
            lemma_lookup_has_key(a, b[0].0);
            let i = choose|i: int| 0 <= i < a.len() && #[trigger] a[i].0 == b[0].0;
            assert(lex_lt(b[0].0, b[j].0));
            if i == 0 {
                lemma_lex_irreflexive(a[0].0);
            } else {
                assert(lex_lt(a[0].0, a[i].0));
                lemma_lex_asymmetric(a[0].0, a[i].0);
            }
            assert(false);
        }
        assert(b[0] == a[0]);
        let rest_a = a.drop_first();
        let rest_b = b.drop_first();
        lemma_rest_ascending(a);
        lemma_rest_ascending(b);
        assert forall|key: Seq<u8>| lookup(rest_a, key) == lookup(rest_b, key) by {
            if key == a[0].0 {
                lemma_lookup_has_key(rest_a, key);
                lemma_lookup_has_key(rest_b, key);
            } else {
                assert(lookup(a, key) == lookup(b, key));
            }
        }
        lemma_entries_equal(rest_a, rest_b);
        assert(a =~= seq![a[0]] + rest_a);
        assert(b =~= seq![b[0]] + rest_b);
    }
}

/// Without their first entry, ascending entries ascend and no longer hold
/// the first key.
proof fn lemma_rest_ascending(entries: Entries)
    requires
        keys_ascending(entries),
        entries.len() > 0,
    ensures
        keys_ascending(entries.drop_first()),
        !has_key(entries.drop_first(), entries[0].0),
{
    let rest = entries.drop_first();
    assert forall|i: int, j: int| 0 <= i < j < rest.len() implies lex_lt(
        #[trigger] rest[i].0,
        #[trigger] rest[j].0,
    ) by {
        assert(rest[i] == entries[i + 1] && rest[j] == entries[j + 1]);
    }
    assert forall|i: int| 0 <= i < rest.len() implies (#[trigger] rest[i]).0 != entries[0].0 by {
        assert(rest[i] == entries[i + 1]);
        assert(lex_lt(entries[0].0, entries[i + 1].0));
        lemma_lex_irreflexive(entries[0].0);
    }
}

/// The order in which two entries are put into a dictionary does not
/// matter.
pub proof fn lemma_with_entry_commutes(
    entries: Entries,
    key_a: Seq<u8>,
    value_a: Bencode,
    key_b: Seq<u8>,
    value_b: Bencode,
)
    requires
        keys_ascending(entries),
        !has_key(entries, key_a),
        !has_key(entries, key_b),
        key_a != key_b,
    ensures
        with_entry(with_entry(entries, key_a, value_a), key_b, value_b) == with_entry(
            with_entry(entries, key_b, value_b),
            key_a,
            value_a,
        ),
{
    let with_a = with_entry(entries, key_a, value_a);
    let with_b = with_entry(entries, key_b, value_b);
    lemma_with_entry_ascending(entries, key_a, value_a);
    lemma_with_entry_ascending(entries, key_b, value_b);
    lemma_lookup_has_key(entries, key_a);
    lemma_lookup_has_key(entries, key_b);
    lemma_lookup_with_entry(entries, key_a, value_a, key_b);
    lemma_lookup_with_entry(entries, key_b, value_b, key_a);
    lemma_lookup_has_key(with_a, key_b);
    lemma_lookup_has_key(with_b, key_a);
    let first = with_entry(with_a, key_b, value_b);
    let second = with_entry(with_b, key_a, value_a);
    lemma_with_entry_ascending(with_a, key_b, value_b);
    lemma_with_entry_ascending(with_b, key_a, value_a);
    assert forall|key: Seq<u8>| lookup(first, key) == lookup(second, key) by {
        lemma_lookup_with_entry(with_a, key_b, value_b, key);
        lemma_lookup_with_entry(entries, key_a, value_a, key);
        lemma_lookup_with_entry(with_b, key_a, value_a, key);
        lemma_lookup_with_entry(entries, key_b, value_b, key);
    }
    lemma_entries_equal(first, second);
}

} // verus!
