//! The untyped value tree: numbers, byte strings, lists and dictionaries.

use crate::bytes::{
    byte_buf_as_slice, byte_buf_bytes, bytes_lt, compare_bytes, lemma_bytes_lt_irreflexive,
    lemma_bytes_lt_total, lemma_bytes_lt_transitive, KeyOrder,
};
use serde_bytes::ByteBuf;
use vstd::prelude::*;

verus! {

/// A Bencoded number.
///
/// The variant records the form of the literal: one written with a leading
/// `-` is `Signed`, any other is `Unsigned`. Equality is structural, so
/// `Signed(3)` and `Unsigned(3)` differ.
#[derive(Clone, Copy, Debug, PartialEq, Eq, Hash, Structural)]
pub enum Number {
    Signed(i64),
    Unsigned(u64),
}

/// The mathematical value that a [`Value`] stands for.
///
/// A dictionary is the sequence of its entries in key order; see
/// [`Term::wf`] for what holds of it and [`entries_map`] for the mapping that it
/// represents.
pub enum Term {
    ByteStr(Seq<u8>),
    Int(Number),
    List(Seq<Term>),
    Dict(Seq<(Seq<u8>, Term)>),
}

/// The keys of `entries` strictly increase in byte-lexicographic order, so no
/// key occurs twice.
pub open spec fn keys_sorted(entries: Seq<(Seq<u8>, Term)>) -> bool {
    forall|i: int, j: int|
        0 <= i < j < entries.len() ==> bytes_lt(#[trigger] entries[i].0, #[trigger] entries[j].0)
}

impl Term {
    /// Every dictionary in the tree has its entries in strictly increasing
    /// key order.
    pub open spec fn wf(self) -> bool
        decreases self,
    {
        match self {
            Term::ByteStr(_) => true,
            Term::Int(_) => true,
            Term::List(items) => forall|i: int| 0 <= i < items.len() ==> (#[trigger] items[i]).wf(),
            Term::Dict(entries) => {
                &&& keys_sorted(entries)
                &&& forall|i: int| 0 <= i < entries.len() ==> (#[trigger] entries[i]).1.wf()
            },
        }
    }
}

/// A dictionary of values, keyed by byte strings.
///
/// The entries are kept in strictly increasing byte-lexicographic key order,
/// so two dictionaries with the same entries are equal however they were
/// built.
#[derive(Debug, Hash)]
pub struct Dict {
    entries: Vec<(ByteBuf, Value)>,
}

/// Represents valid untyped data.
///
/// It is useful when it is unknown what the data may contain (e.g. when
/// different kinds of messages can be received in a network packet).
#[derive(Debug, Hash)]
pub enum Value {
    /// A byte string.
    ///
    /// Encoded strings can contain non-UTF-8 bytes, so a byte string is used
    /// to represent "strings".
    ByteStr(ByteBuf),
    /// An integer which can be signed or unsigned.
    Int(Number),
    /// A list of values.
    List(Vec<Value>),
    /// A dictionary of values.
    Dict(Dict),
}

/// The terms that a sequence of values stands for, in order.
pub open spec fn values_view(values: Seq<Value>) -> Seq<Term>
    decreases values,
{
    Seq::new(
        values.len(),
        |i: int|
            if 0 <= i < values.len() {
                values[i].view()
            } else {
                Term::List(Seq::empty())
            },
    )
}

/// The entries that a sequence of key and value pairs stands for, in order.
pub open spec fn entries_view(entries: Seq<(ByteBuf, Value)>) -> Seq<(Seq<u8>, Term)>
    decreases entries,
{
    Seq::new(
        entries.len(),
        |i: int|
            if 0 <= i < entries.len() {
                (byte_buf_bytes(entries[i].0), entries[i].1.view())
            } else {
                (Seq::empty(), Term::List(Seq::empty()))
            },
    )
}

/// Appending a value appends the term that it stands for.
pub proof fn lemma_values_view_push(values: Seq<Value>, value: Value)
    ensures
        values_view(values.push(value)) == values_view(values).push(value@),
{
    assert(values_view(values.push(value)) =~= values_view(values).push(value@));
}

/// Appending a key and value pair appends the entry that it stands for.
pub proof fn lemma_entries_view_push(entries: Seq<(ByteBuf, Value)>, key: ByteBuf, value: Value)
    ensures
        entries_view(entries.push((key, value))) == entries_view(entries).push(
            (byte_buf_bytes(key), value@),
        ),
{
    assert(entries_view(entries.push((key, value))) =~= entries_view(entries).push(
        (byte_buf_bytes(key), value@),
    ));
}

/// The mapping that `entries` build when they are inserted one after the
/// other: a later entry replaces an earlier one with the same key.
pub open spec fn entries_map(entries: Seq<(Seq<u8>, Term)>) -> Map<Seq<u8>, Term>
    decreases entries.len(),
{
    if entries.len() == 0 {
        Map::empty()
    } else {
        entries_map(entries.drop_last()).insert(entries.last().0, entries.last().1)
    }
}

/// The sorted entries `entries` with `value` stored under `key`: in place of
/// the entry with that key if there is one, else at the place that keeps the
/// keys in order.
pub open spec fn dict_insert(entries: Seq<(Seq<u8>, Term)>, key: Seq<u8>, value: Term) -> Seq<
    (Seq<u8>, Term),
>
    decreases entries.len(),
{
    if entries.len() == 0 {
        seq![(key, value)]
    } else if bytes_lt(entries.last().0, key) {
        entries.push((key, value))
    } else if entries.last().0 == key {
        entries.drop_last().push((key, value))
    } else {
        dict_insert(entries.drop_last(), key, value).push(entries.last())
    }
}

/// The dictionary that `entries` build when they are inserted one after the
/// other into an empty one.
pub open spec fn dict_from_entries(entries: Seq<(Seq<u8>, Term)>) -> Seq<(Seq<u8>, Term)>
    decreases entries.len(),
{
    if entries.len() == 0 {
        Seq::empty()
    } else {
        dict_insert(dict_from_entries(entries.drop_last()), entries.last().0, entries.last().1)
    }
}

/// Where `key` stands in the sorted `entries`: everything before `at` is
/// less, and everything after it (from it on, if `found` is false) is
/// greater.
pub open spec fn key_position(
    entries: Seq<(Seq<u8>, Term)>,
    key: Seq<u8>,
    at: int,
    found: bool,
) -> bool {
    &&& 0 <= at <= entries.len()
    &&& forall|i: int| 0 <= i < at ==> bytes_lt((#[trigger] entries[i]).0, key)
    &&& found ==> at < entries.len() && entries[at].0 == key
    &&& forall|j: int|
        (if found {
            at + 1
        } else {
            at
        }) <= j < entries.len() ==> bytes_lt(key, (#[trigger] entries[j]).0)
}

/// Every entry of `dict_insert(entries, key, value)` is the new one or an
/// entry of `entries`.
pub proof fn lemma_dict_insert_entries(entries: Seq<(Seq<u8>, Term)>, key: Seq<u8>, value: Term)
    ensures
        forall|i: int|
            0 <= i < dict_insert(entries, key, value).len() ==> {
                ||| (#[trigger] dict_insert(entries, key, value)[i]) == (key, value)
                ||| exists|j: int|
                    0 <= j < entries.len() && (#[trigger] entries[j]) == dict_insert(
                        entries,
                        key,
                        value,
                    )[i]
            },
    decreases entries.len(),
{
    let out = dict_insert(entries, key, value);
    if entries.len() == 0 {
    } else if bytes_lt(entries.last().0, key) {
        assert forall|i: int| 0 <= i < out.len() implies out[i] == (key, value) || exists|j: int|
            0 <= j < entries.len() && (#[trigger] entries[j]) == out[i] by {
            if i < entries.len() {
                assert(entries[i] == out[i]);
            }
        }
    } else if entries.last().0 == key {
        assert forall|i: int| 0 <= i < out.len() implies out[i] == (key, value) || exists|j: int|
            0 <= j < entries.len() && (#[trigger] entries[j]) == out[i] by {
            if i < entries.len() - 1 {
                assert(entries[i] == out[i]);
            }
        }
    } else {
        let rest = entries.drop_last();
        lemma_dict_insert_entries(rest, key, value);
        let inner = dict_insert(rest, key, value);
        assert forall|i: int| 0 <= i < out.len() implies out[i] == (key, value) || exists|j: int|
            0 <= j < entries.len() && (#[trigger] entries[j]) == out[i] by {
            if i < inner.len() {
                assert(out[i] == inner[i]);
                if inner[i] != (key, value) {
                    let j = choose|j: int| 0 <= j < rest.len() && (#[trigger] rest[j]) == inner[i];
                    assert(entries[j] == out[i]);
                }
            } else {
                assert(entries[entries.len() - 1] == out[i]);
            }
        }
    }
}

/// Inserting into sorted entries leaves them sorted.
pub proof fn lemma_dict_insert_sorted(entries: Seq<(Seq<u8>, Term)>, key: Seq<u8>, value: Term)
    requires
        keys_sorted(entries),
    ensures
        keys_sorted(dict_insert(entries, key, value)),
    decreases entries.len(),
{
    let out = dict_insert(entries, key, value);
    if entries.len() == 0 {
    } else if bytes_lt(entries.last().0, key) {
        assert forall|i: int, j: int| 0 <= i < j < out.len() implies bytes_lt(
            #[trigger] out[i].0,
            #[trigger] out[j].0,
        ) by {
            if j == entries.len() {
                if i < entries.len() - 1 {
                    assert(bytes_lt(entries[i].0, entries[entries.len() - 1].0));
                    lemma_bytes_lt_transitive(entries[i].0, entries.last().0, key);
                }
            } else {
                assert(bytes_lt(entries[i].0, entries[j].0));
            }
        }
    } else if entries.last().0 == key {
        assert forall|i: int, j: int| 0 <= i < j < out.len() implies bytes_lt(
            #[trigger] out[i].0,
            #[trigger] out[j].0,
        ) by {
            assert(bytes_lt(entries[i].0, entries[j].0));
        }
    } else {
        let rest = entries.drop_last();
        let last = entries.last();
        assert(keys_sorted(rest)) by {
            assert forall|i: int, j: int| 0 <= i < j < rest.len() implies bytes_lt(
                #[trigger] rest[i].0,
                #[trigger] rest[j].0,
            ) by {
                assert(bytes_lt(entries[i].0, entries[j].0));
            }
        }
        lemma_dict_insert_sorted(rest, key, value);
        lemma_dict_insert_entries(rest, key, value);
        lemma_bytes_lt_total(key, last.0);
        let inner = dict_insert(rest, key, value);
        assert forall|i: int, j: int| 0 <= i < j < out.len() implies bytes_lt(
            #[trigger] out[i].0,
            #[trigger] out[j].0,
        ) by {
            if j < inner.len() {
                assert(bytes_lt(inner[i].0, inner[j].0));
            } else {
                assert(out[i] == inner[i]);
                if inner[i] != (key, value) {
                    let k = choose|k: int| 0 <= k < rest.len() && (#[trigger] rest[k]) == inner[i];
                    assert(bytes_lt(entries[k].0, entries[entries.len() - 1].0));
                }
            }
        }
    }
}

/// Inserting into a dictionary inserts into the mapping that it represents.
pub proof fn lemma_dict_insert_map(entries: Seq<(Seq<u8>, Term)>, key: Seq<u8>, value: Term)
    ensures
        entries_map(dict_insert(entries, key, value)) == entries_map(entries).insert(key, value),
    decreases entries.len(),
{
    let out = dict_insert(entries, key, value);
    if entries.len() == 0 {
        assert(out.drop_last() =~= entries);
    } else if bytes_lt(entries.last().0, key) {
        assert(out.drop_last() =~= entries);
    } else if entries.last().0 == key {
        assert(out.drop_last() =~= entries.drop_last());
        assert(entries_map(out) =~= entries_map(entries).insert(key, value));
    } else {
        let rest = entries.drop_last();
        lemma_dict_insert_map(rest, key, value);
        assert(out.drop_last() =~= dict_insert(rest, key, value));
        assert(entries_map(out) =~= entries_map(entries).insert(key, value));
    }
}

/// With the place of `key` in sorted entries known, inserting is an update
/// at that place if the key is there, and an insertion at it if not.
pub proof fn lemma_dict_insert_at(
    entries: Seq<(Seq<u8>, Term)>,
    key: Seq<u8>,
    value: Term,
    at: int,
    found: bool,
)
    requires
        key_position(entries, key, at, found),
    ensures
        dict_insert(entries, key, value) == if found {
            entries.update(at, (key, value))
        } else {
            entries.insert(at, (key, value))
        },
    decreases entries.len(),
{
    let out = dict_insert(entries, key, value);
    lemma_bytes_lt_irreflexive(key);
    if entries.len() == 0 {
        assert(out =~= entries.insert(at, (key, value)));
    } else {
        let last = entries[entries.len() - 1];
        lemma_bytes_lt_total(last.0, key);
        if at == entries.len() {
            assert(out =~= entries.insert(at, (key, value)));
        } else if found && at == entries.len() - 1 {
            assert(out =~= entries.update(at, (key, value)));
        } else {
            assert(bytes_lt(key, last.0));
            let rest = entries.drop_last();
            assert(key_position(rest, key, at, found)) by {
                assert forall|i: int| 0 <= i < at implies bytes_lt((#[trigger] rest[i]).0, key) by {
                    assert(rest[i] == entries[i]);
                }
                assert forall|j: int|
                    (if found {
                        at + 1
                    } else {
                        at
                    }) <= j < rest.len() implies bytes_lt(key, (#[trigger] rest[j]).0) by {
                    assert(rest[j] == entries[j]);
                }
            }
            lemma_dict_insert_at(rest, key, value, at, found);
            if found {
                assert(out =~= entries.update(at, (key, value)));
            } else {
                assert(out =~= entries.insert(at, (key, value)));
            }
        }
    }
}

/// In sorted entries each key maps to the value that stands beside it, and
/// the mapping has no other keys.
pub proof fn lemma_entries_map_sorted(entries: Seq<(Seq<u8>, Term)>)
    requires
        keys_sorted(entries),
    ensures
        forall|i: int|
            0 <= i < entries.len() ==> entries_map(entries).contains_key(
                (#[trigger] entries[i]).0,
            ) && entries_map(entries)[entries[i].0] == entries[i].1,
        forall|key: Seq<u8>| #[trigger]
            entries_map(entries).contains_key(key) ==> exists|i: int|
                0 <= i < entries.len() && (#[trigger] entries[i]).0 == key,
    decreases entries.len(),
{
    if entries.len() > 0 {
        let rest = entries.drop_last();
        let last = entries[entries.len() - 1];
        assert(keys_sorted(rest)) by {
            assert forall|i: int, j: int| 0 <= i < j < rest.len() implies bytes_lt(
                #[trigger] rest[i].0,
                #[trigger] rest[j].0,
            ) by {
                assert(bytes_lt(entries[i].0, entries[j].0));
            }
        }
        lemma_entries_map_sorted(rest);
        lemma_bytes_lt_irreflexive(last.0);
        assert forall|i: int| 0 <= i < entries.len() implies entries_map(entries).contains_key(
            (#[trigger] entries[i]).0,
        ) && entries_map(entries)[entries[i].0] == entries[i].1 by {
            if i < rest.len() {
                assert(rest[i] == entries[i]);
                assert(bytes_lt(entries[i].0, entries[entries.len() - 1].0));
            }
        }
        assert forall|key: Seq<u8>| #[trigger]
            entries_map(entries).contains_key(key) implies exists|i: int|
            0 <= i < entries.len() && (#[trigger] entries[i]).0 == key by {
            if key == last.0 {
                assert(entries[entries.len() - 1].0 == key);
            } else {
                assert(entries_map(rest).contains_key(key));
                let i = choose|i: int| 0 <= i < rest.len() && (#[trigger] rest[i]).0 == key;
                assert(entries[i].0 == key);
            }
        }
    }
}

impl View for Dict {
    type V = Seq<(Seq<u8>, Term)>;

    closed spec fn view(&self) -> Seq<(Seq<u8>, Term)>
        decreases self,
    {
        entries_view(self.entries@)
    }
}

impl View for Value {
    type V = Term;

    open spec fn view(&self) -> Term
        decreases self,
    {
        match self {
            Value::ByteStr(bytes) => Term::ByteStr(byte_buf_bytes(*bytes)),
            Value::Int(number) => Term::Int(*number),
            Value::List(items) => Term::List(values_view(items@)),
            Value::Dict(dict) => Term::Dict(dict.view()),
        }
    }
}

impl Dict {
    #[verifier::type_invariant]
    spec fn sorted(&self) -> bool {
        keys_sorted(self@)
    }

    /// The mapping from keys to values that the dictionary represents.
    pub open spec fn map(&self) -> Map<Seq<u8>, Term> {
        entries_map(self@)
    }

    /// Makes an empty dictionary.
    pub fn new() -> (dict: Self)
        ensures
            dict@ == Seq::<(Seq<u8>, Term)>::empty(),
            dict.map() == Map::<Seq<u8>, Term>::empty(),
    {
        let dict = Dict { entries: Vec::new() };
        assert(dict@ =~= Seq::<(Seq<u8>, Term)>::empty());
        dict
    }

    /// The number of entries.
    pub fn len(&self) -> (len: usize)
        ensures
            len == self@.len(),
    {
        self.entries.len()
    }

    /// The entries in key order. Each of them is a part of the dictionary,
    /// so a recursion may go on into it.
    pub fn entries(&self) -> (entries: &Vec<(ByteBuf, Value)>)
        ensures
            entries_view(entries@) == self@,
            keys_sorted(self@),
            forall|i: int|
                0 <= i < entries@.len() ==> decreases_to!(self => #[trigger] entries@[i]),
    {
        proof {
            use_type_invariant(self);
            assert forall|i: int| 0 <= i < self.entries@.len() implies decreases_to!(
                self => #[trigger] self.entries@[i]
            ) by {
                assert(decreases_to!(self => self.entries@[i]));
            }
        }
        &self.entries
    }

    /// Finds the place of `key` among the entries by binary search.
    fn search(&self, key: &[u8]) -> (place: (usize, bool))
        ensures
            key_position(self@, key@, place.0 as int, place.1),
    {
        proof {
            use_type_invariant(self);
        }
        let mut low: usize = 0;
        let mut high: usize = self.entries.len();
        while low < high
            invariant
                low <= high <= self.entries.len(),
                self@ == entries_view(self.entries@),
                keys_sorted(self@),
                forall|i: int| 0 <= i < low ==> bytes_lt((#[trigger] self@[i]).0, key@),
                forall|j: int| high <= j < self@.len() ==> bytes_lt(key@, (#[trigger] self@[j]).0),
            decreases high - low,
        {
            let mid = low + (high - low) / 2;
            let at_mid = byte_buf_as_slice(&self.entries[mid].0);
            assert(at_mid@ == self@[mid as int].0);
            match compare_bytes(at_mid, key) {
                KeyOrder::Less => {
                    proof {
                        assert forall|i: int| 0 <= i < mid + 1 implies bytes_lt(
                            (#[trigger] self@[i]).0,
                            key@,
                        ) by {
                            if i < mid {
                                assert(bytes_lt(self@[i].0, self@[mid as int].0));
                                lemma_bytes_lt_transitive(self@[i].0, self@[mid as int].0, key@);
                            }
                        }
                    }
                    low = mid + 1;
                },
                KeyOrder::Greater => {
                    proof {
                        assert forall|j: int| mid <= j < self@.len() implies bytes_lt(
                            key@,
                            (#[trigger] self@[j]).0,
                        ) by {
                            if mid < j {
                                assert(bytes_lt(self@[mid as int].0, self@[j].0));
                                lemma_bytes_lt_transitive(key@, self@[mid as int].0, self@[j].0);
                            }
                        }
                    }
                    high = mid;
                },
                KeyOrder::Equal => {
                    proof {
                        assert forall|i: int| 0 <= i < mid implies bytes_lt(
                            (#[trigger] self@[i]).0,
                            key@,
                        ) by {
                            assert(bytes_lt(self@[i].0, self@[mid as int].0));
                        }
                        assert forall|j: int| mid + 1 <= j < self@.len() implies bytes_lt(
                            key@,
                            (#[trigger] self@[j]).0,
                        ) by {
                            assert(bytes_lt(self@[mid as int].0, self@[j].0));
                        }
                    }
                    return (mid, true);
                },
            }
        }
        (low, false)
    }

    /// Looks up the value stored under `key`.
    pub fn get(&self, key: &[u8]) -> (value: Option<&Value>)
        ensures
            match value {
                Some(found) => self.map().contains_key(key@) && found@ == self.map()[key@],
                None => !self.map().contains_key(key@),
            },
    {
        proof {
            use_type_invariant(self);
            lemma_entries_map_sorted(self@);
            lemma_bytes_lt_irreflexive(key@);
        }
        let (at, found) = self.search(key);
        if found {
            Some(&self.entries[at].1)
        } else {
            proof {
                if self.map().contains_key(key@) {
                    let i = choose|i: int| 0 <= i < self@.len() && (#[trigger] self@[i]).0 == key@;
                    assert(false);
                }
            }
            None
        }
    }

    /// Stores `value` under `key`. If the key was present, its value is
    /// replaced and the old one returned.
    pub fn insert(&mut self, key: ByteBuf, value: Value) -> (previous: Option<Value>)
        ensures
            final(self)@ == dict_insert(old(self)@, byte_buf_bytes(key), value@),
            final(self).map() == old(self).map().insert(byte_buf_bytes(key), value@),
            keys_sorted(final(self)@),
            match previous {
                Some(replaced) => old(self).map().contains_key(byte_buf_bytes(key))
                    && replaced@ == old(self).map()[byte_buf_bytes(key)],
                None => !old(self).map().contains_key(byte_buf_bytes(key)),
            },
    {
        proof {
            use_type_invariant(&*self);
            lemma_entries_map_sorted(self@);
            lemma_bytes_lt_irreflexive(byte_buf_bytes(key));
            lemma_dict_insert_sorted(self@, byte_buf_bytes(key), value@);
            lemma_dict_insert_map(self@, byte_buf_bytes(key), value@);
        }
        let (at, found) = self.search(byte_buf_as_slice(&key));
        proof {
            lemma_dict_insert_at(self@, byte_buf_bytes(key), value@, at as int, found);
        }
        let mut entries: Vec<(ByteBuf, Value)> = Vec::new();
        proof {
            assert(entries_view(entries@) =~= Seq::<(Seq<u8>, Term)>::empty());
        }
        std::mem::swap(&mut entries, &mut self.entries);
        let previous = if found {
            let (_, replaced) = entries.remove(at);
            entries.insert(at, (key, value));
            Some(replaced)
        } else {
            proof {
                if old(self).map().contains_key(byte_buf_bytes(key)) {
                    let i = choose|i: int|
                        0 <= i < old(self)@.len() && (#[trigger] old(self)@[i]).0 == byte_buf_bytes(
                            key,
                        );
                    assert(false);
                }
            }
            entries.insert(at, (key, value));
            None
        };
        proof {
            assert(entries_view(entries@) =~= dict_insert(old(self)@, byte_buf_bytes(key), value@));
        }
        self.entries = entries;
        previous
    }
}

impl Clone for Dict {
    fn clone(&self) -> (copy: Self)
        ensures
            copy@ == self@,
        decreases self,
    {
        proof {
            use_type_invariant(self);
        }
        let mut entries: Vec<(ByteBuf, Value)> = Vec::with_capacity(self.entries.len());
        let mut i: usize = 0;
        while i < self.entries.len()
            invariant
                i <= self.entries.len(),
                entries_view(entries@) == self@.take(i as int),
            decreases self.entries.len() - i,
        {
            let key = self.entries[i].0.clone();
            let value = self.entries[i].1.clone();
            proof {
                lemma_entries_view_push(entries@, key, value);
                assert(self@.take(i + 1) =~= self@.take(i as int).push(self@[i as int]));
            }
            entries.push((key, value));
            i += 1;
        }
        proof {
            assert(self@.take(i as int) =~= self@);
        }
        Dict { entries }
    }
}

impl Clone for Value {
    fn clone(&self) -> (copy: Self)
        ensures
            copy@ == self@,
        decreases self,
    {
        match self {
            Value::ByteStr(bytes) => Value::ByteStr(bytes.clone()),
            Value::Int(number) => Value::Int(*number),
            Value::List(items) => {
                let mut copies: Vec<Value> = Vec::with_capacity(items.len());
                let mut i: usize = 0;
                while i < items.len()
                    invariant
                        i <= items.len(),
                        self is List,
                        self->List_0 == *items,
                        values_view(copies@) == values_view(items@).take(i as int),
                    decreases items.len() - i,
                {
                    assert(decreases_to!(self => self->List_0@[i as int]));
                    let copy = items[i].clone();
                    proof {
                        lemma_values_view_push(copies@, copy);
                        assert(values_view(items@).take(i + 1) =~= values_view(items@).take(
                            i as int,
                        ).push(values_view(items@)[i as int]));
                    }
                    copies.push(copy);
                    i += 1;
                }
                proof {
                    assert(values_view(items@).take(i as int) =~= values_view(items@));
                }
                Value::List(copies)
            },
            Value::Dict(dict) => Value::Dict(dict.clone()),
        }
    }
}

/// Whether two dictionaries hold the same entries.
fn dicts_equal(a: &Dict, b: &Dict) -> (equal: bool)
    ensures
        equal == (a@ == b@),
    decreases a,
{
    if a.entries.len() != b.entries.len() {
        return false;
    }
    let mut i: usize = 0;
    while i < a.entries.len()
        invariant
            i <= a.entries.len(),
            a.entries.len() == b.entries.len(),
            a@ == entries_view(a.entries@),
            b@ == entries_view(b.entries@),
            a@.take(i as int) == b@.take(i as int),
        decreases a.entries.len() - i,
    {
        let same_key = matches!(
            compare_bytes(byte_buf_as_slice(&a.entries[i].0), byte_buf_as_slice(&b.entries[i].0)),
            KeyOrder::Equal
        );
        if !same_key || !values_equal(&a.entries[i].1, &b.entries[i].1) {
            proof {
                assert(a@[i as int] != b@[i as int]);
            }
            return false;
        }
        proof {
            assert(a@.take(i + 1) =~= a@.take(i as int).push(a@[i as int]));
            assert(b@.take(i + 1) =~= b@.take(i as int).push(b@[i as int]));
        }
        i += 1;
    }
    proof {
        assert(a@ =~= a@.take(i as int));
        assert(b@ =~= b@.take(i as int));
    }
    true
}

/// Whether two values are the same tree: deep structural equality, the
/// variant of each number included.
fn values_equal(a: &Value, b: &Value) -> (equal: bool)
    ensures
        equal == (a@ == b@),
    decreases a,
{
    match (a, b) {
        (Value::ByteStr(x), Value::ByteStr(y)) => matches!(
            compare_bytes(byte_buf_as_slice(x), byte_buf_as_slice(y)),
            KeyOrder::Equal
        ),
        (Value::Int(x), Value::Int(y)) => *x == *y,
        (Value::List(x), Value::List(y)) => {
            if x.len() != y.len() {
                proof {
                    assert(values_view(x@).len() != values_view(y@).len());
                }
                return false;
            }
            let mut i: usize = 0;
            while i < x.len()
                invariant
                    i <= x.len(),
                    x.len() == y.len(),
                    a is List,
                    a->List_0 == *x,
                    b is List,
                    b->List_0 == *y,
                    values_view(x@).take(i as int) == values_view(y@).take(i as int),
                decreases x.len() - i,
            {
                assert(decreases_to!(a => a->List_0@[i as int]));
                if !values_equal(&x[i], &y[i]) {
                    proof {
                        assert(values_view(x@)[i as int] != values_view(y@)[i as int]);
                    }
                    return false;
                }
                proof {
                    assert(values_view(x@).take(i + 1) =~= values_view(x@).take(i as int).push(
                        values_view(x@)[i as int],
                    ));
                    assert(values_view(y@).take(i + 1) =~= values_view(y@).take(i as int).push(
                        values_view(y@)[i as int],
                    ));
                }
                i += 1;
            }
            proof {
                assert(values_view(x@) =~= values_view(x@).take(i as int));
                assert(values_view(y@) =~= values_view(y@).take(i as int));
            }
            true
        },
        (Value::Dict(x), Value::Dict(y)) => dicts_equal(x, y),
        _ => false,
    }
}

impl PartialEq for Dict {
    fn eq(&self, other: &Self) -> (equal: bool) {
        dicts_equal(self, other)
    }
}

impl vstd::std_specs::cmp::PartialEqSpecImpl for Dict {
    open spec fn obeys_eq_spec() -> bool {
        true
    }

    open spec fn eq_spec(&self, other: &Self) -> bool {
        self@ == other@
    }
}

impl Eq for Dict {

}

impl PartialEq for Value {
    fn eq(&self, other: &Self) -> (equal: bool) {
        values_equal(self, other)
    }
}

impl vstd::std_specs::cmp::PartialEqSpecImpl for Value {
    open spec fn obeys_eq_spec() -> bool {
        true
    }

    open spec fn eq_spec(&self, other: &Self) -> bool {
        self@ == other@
    }
}

impl Eq for Value {

}

} // verus!
