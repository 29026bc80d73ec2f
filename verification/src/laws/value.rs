//! What holds of numbers and of dictionaries.

use crate::bytes::{bytes_lt, lemma_bytes_lt_irreflexive, lemma_bytes_lt_total};
use crate::value::{
    dict_from_entries, entries_map, keys_sorted, lemma_dict_insert_entries, lemma_dict_insert_map,
    lemma_dict_insert_sorted, lemma_entries_map_sorted, Number, Term,
};
use vstd::prelude::*;

verus! {

/// A signed and an unsigned number are never equal, whatever they hold.
pub proof fn lemma_signed_is_not_unsigned(signed: i64, unsigned: u64)
    ensures
        Number::Signed(signed) != Number::Unsigned(unsigned),
        Term::Int(Number::Signed(signed)) != Term::Int(Number::Unsigned(unsigned)),
{
}

/// Sorted entries without their last one are sorted.
pub proof fn lemma_keys_sorted_drop_last(entries: Seq<(Seq<u8>, Term)>)
    requires
        keys_sorted(entries),
        entries.len() > 0,
    ensures
        keys_sorted(entries.drop_last()),
{
    let rest = entries.drop_last();
    assert forall|i: int, j: int| 0 <= i < j < rest.len() implies bytes_lt(
        #[trigger] rest[i].0,
        #[trigger] rest[j].0,
    ) by {
        assert(bytes_lt(entries[i].0, entries[j].0));
    }
}

/// Whatever the entries and their order, the dictionary built from them is
/// sorted, represents the mapping that inserting them one after the other
/// gives, and holds no value that was not among them.
pub proof fn lemma_dict_from_entries(entries: Seq<(Seq<u8>, Term)>)
    ensures
        keys_sorted(dict_from_entries(entries)),
        entries_map(dict_from_entries(entries)) == entries_map(entries),
        forall|i: int|
            0 <= i < dict_from_entries(entries).len() ==> exists|j: int|
                0 <= j < entries.len() && (#[trigger] entries[j]) == (
                #[trigger] dict_from_entries(entries)[i]),
    decreases entries.len(),
{
    if entries.len() > 0 {
        let rest = entries.drop_last();
        let last = entries.last();
        let before = dict_from_entries(rest);
        let after = dict_from_entries(entries);
        lemma_dict_from_entries(rest);
        lemma_dict_insert_sorted(before, last.0, last.1);
        lemma_dict_insert_map(before, last.0, last.1);
        lemma_dict_insert_entries(before, last.0, last.1);
        assert forall|i: int| 0 <= i < after.len() implies exists|j: int|
            0 <= j < entries.len() && (#[trigger] entries[j]) == (#[trigger] after[i]) by {
            if after[i] == last {
                assert(entries[entries.len() - 1] == after[i]);
            } else {
                let k = choose|k: int| 0 <= k < before.len() && (#[trigger] before[k]) == after[i];
                let j = choose|j: int| 0 <= j < rest.len() && (#[trigger] rest[j]) == before[k];
                assert(entries[j] == after[i]);
            }
        }
    }
}

/// Entries that are sorted already build themselves.
pub proof fn lemma_dict_from_sorted_entries(entries: Seq<(Seq<u8>, Term)>)
    requires
        keys_sorted(entries),
    ensures
        dict_from_entries(entries) == entries,
    decreases entries.len(),
{
    if entries.len() > 0 {
        let rest = entries.drop_last();
        lemma_keys_sorted_drop_last(entries);
        lemma_dict_from_sorted_entries(rest);
        if rest.len() > 0 {
            assert(bytes_lt(entries[rest.len() - 1].0, entries[entries.len() - 1].0));
        }
        assert(dict_from_entries(entries) =~= entries);
    }
}

/// Two sorted sequences of entries that represent one mapping are the same
/// sequence.
pub proof fn lemma_sorted_entries_unique(a: Seq<(Seq<u8>, Term)>, b: Seq<(Seq<u8>, Term)>)
    requires
        keys_sorted(a),
        keys_sorted(b),
        entries_map(a) == entries_map(b),
    ensures
        a == b,
    decreases a.len(),
{
    lemma_entries_map_sorted(a);
    lemma_entries_map_sorted(b);
    if a.len() == 0 {
        if b.len() > 0 {
            assert(entries_map(b).contains_key(b[0].0));
        }
        assert(a =~= b);
    } else if b.len() == 0 {
        assert(entries_map(a).contains_key(a[0].0));
    } else {
        let last_a = a[a.len() - 1];
        let last_b = b[b.len() - 1];
        assert(entries_map(b).contains_key(last_a.0));
        assert(entries_map(a).contains_key(last_b.0));
        let i = choose|i: int| 0 <= i < b.len() && (#[trigger] b[i]).0 == last_a.0;
        let j = choose|j: int| 0 <= j < a.len() && (#[trigger] a[j]).0 == last_b.0;
        lemma_bytes_lt_total(last_a.0, last_b.0);
        if i < b.len() - 1 {
            assert(bytes_lt(b[i].0, b[b.len() - 1].0));
        }
        if j < a.len() - 1 {
            assert(bytes_lt(a[j].0, a[a.len() - 1].0));
        }
        assert(last_a.0 == last_b.0);
        assert(last_a.1 == last_b.1);
        lemma_keys_sorted_drop_last(a);
        lemma_keys_sorted_drop_last(b);
        lemma_entries_map_sorted(a.drop_last());
        lemma_entries_map_sorted(b.drop_last());
        lemma_bytes_lt_irreflexive(last_a.0);
        assert(!entries_map(a.drop_last()).contains_key(last_a.0)) by {
            if entries_map(a.drop_last()).contains_key(last_a.0) {
                let k = choose|k: int|
                    0 <= k < a.drop_last().len() && (#[trigger] a.drop_last()[k]).0 == last_a.0;
                assert(bytes_lt(a[k].0, a[a.len() - 1].0));
            }
        }
        assert(!entries_map(b.drop_last()).contains_key(last_b.0)) by {
            if entries_map(b.drop_last()).contains_key(last_b.0) {
                let k = choose|k: int|
                    0 <= k < b.drop_last().len() && (#[trigger] b.drop_last()[k]).0 == last_b.0;
                assert(bytes_lt(b[k].0, b[b.len() - 1].0));
            }
        }
        assert(entries_map(a.drop_last()) =~= entries_map(a).remove(last_a.0));
        assert(entries_map(b.drop_last()) =~= entries_map(b).remove(last_b.0));
        lemma_sorted_entries_unique(a.drop_last(), b.drop_last());
        assert(a =~= a.drop_last().push(last_a));
        assert(b =~= b.drop_last().push(last_b));
    }
}

/// The order of insertion does not show in a dictionary: entries that build
/// one mapping build one dictionary.
pub proof fn lemma_dict_ignores_insertion_order(
    a: Seq<(Seq<u8>, Term)>,
    b: Seq<(Seq<u8>, Term)>,
)
    requires
        entries_map(a) == entries_map(b),
    ensures
        dict_from_entries(a) == dict_from_entries(b),
{
    lemma_dict_from_entries(a);
    lemma_dict_from_entries(b);
    lemma_sorted_entries_unique(dict_from_entries(a), dict_from_entries(b));
}

} // verus!
