//! Decode events and their reduction to values.
//!
//! A decoder reports what it reads as events: a scalar, or a sequence or a
//! mapping whose parts have been reduced already. [`reduce`] folds one event
//! into one [`Value`].

use crate::bytes::{byte_buf_bytes, byte_buf_from_vec};
use crate::error::Error;
use crate::value::{dict_from_entries, values_view, Dict, Number, Term, Value};
use vstd::prelude::*;

verus! {

/// One primitive decode notification.
#[derive(Debug)]
pub enum Event {
    /// A scalar string or byte string, owned or borrowed, as its bytes.
    Bytes(Vec<u8>),
    /// An integer whose literal had a leading `-`.
    Signed(i64),
    /// An integer whose literal had no sign.
    Unsigned(u64),
    /// A presence marker, with the value that it announces.
    Present(Value),
    /// A sequence, with its elements in arrival order.
    Sequence(Vec<Value>),
    /// A mapping, with its keys and values in arrival order.
    Mapping(Vec<(Value, Value)>),
}

/// The mathematical content of an [`Event`].
pub enum EventView {
    Bytes(Seq<u8>),
    Signed(i64),
    Unsigned(u64),
    Present(Term),
    Sequence(Seq<Term>),
    Mapping(Seq<(Term, Term)>),
}

/// The terms that a sequence of key and value pairs stands for, in order.
pub open spec fn pairs_view(pairs: Seq<(Value, Value)>) -> Seq<(Term, Term)> {
    Seq::new(pairs.len(), |i: int| (pairs[i].0@, pairs[i].1@))
}

impl View for Event {
    type V = EventView;

    open spec fn view(&self) -> EventView {
        match self {
            Event::Bytes(bytes) => EventView::Bytes(bytes@),
            Event::Signed(n) => EventView::Signed(*n),
            Event::Unsigned(n) => EventView::Unsigned(*n),
            Event::Present(value) => EventView::Present(value@),
            Event::Sequence(items) => EventView::Sequence(values_view(items@)),
            Event::Mapping(pairs) => EventView::Mapping(pairs_view(pairs@)),
        }
    }
}

/// Every key of `pairs` is a byte string.
pub open spec fn keys_are_byte_strs(pairs: Seq<(Term, Term)>) -> bool {
    forall|i: int| 0 <= i < pairs.len() ==> (#[trigger] pairs[i]).0 is ByteStr
}

/// The entries that `pairs` give, each key taken as its bytes.
pub open spec fn keyed_entries(pairs: Seq<(Term, Term)>) -> Seq<(Seq<u8>, Term)> {
    Seq::new(pairs.len(), |i: int| (pairs[i].0->ByteStr_0, pairs[i].1))
}

/// What an event reduces to.
///
/// A scalar becomes the matching leaf, with the variant of a number as the
/// event gives it. A presence marker is transparent. A sequence becomes a
/// list in arrival order. A mapping becomes a dictionary, its entries
/// inserted in arrival order so that a later one replaces an earlier one
/// with the same key; it fails if a key is not a byte string.
pub open spec fn reduce_spec(event: EventView) -> Result<Term, Error> {
    match event {
        EventView::Bytes(bytes) => Ok(Term::ByteStr(bytes)),
        EventView::Signed(n) => Ok(Term::Int(Number::Signed(n))),
        EventView::Unsigned(n) => Ok(Term::Int(Number::Unsigned(n))),
        EventView::Present(term) => Ok(term),
        EventView::Sequence(items) => Ok(Term::List(items)),
        EventView::Mapping(pairs) => if keys_are_byte_strs(pairs) {
            Ok(Term::Dict(dict_from_entries(keyed_entries(pairs))))
        } else {
            Err(Error::KeyMustBeAByteStr)
        },
    }
}

/// Whether what was returned is what was to be: a value that stands for
/// the term, or the same failure.
pub open spec fn yields(result: Result<Value, Error>, expected: Result<Term, Error>) -> bool {
    match expected {
        Ok(term) => result is Ok && result->Ok_0@ == term,
        Err(error) => result == Err::<Value, Error>(error),
    }
}

/// Folds one event into one value.
pub fn reduce(event: Event) -> (result: Result<Value, Error>)
    ensures
        yields(result, reduce_spec(event@)),
{
    match event {
        Event::Bytes(bytes) => Ok(Value::ByteStr(byte_buf_from_vec(bytes))),
        Event::Signed(n) => Ok(Value::Int(Number::Signed(n))),
        Event::Unsigned(n) => Ok(Value::Int(Number::Unsigned(n))),
        Event::Present(value) => Ok(value),
        Event::Sequence(items) => Ok(Value::List(items)),
        Event::Mapping(pairs) => {
            let ghost all = pairs_view(pairs@);
            let mut dict = Dict::new();
            proof {
                assert(keyed_entries(all).take(0) =~= Seq::empty());
            }
            for pair in iter: pairs
                invariant
                    event@ == EventView::Mapping(all),
                    all == pairs_view(pairs@),
                    iter.seq() == pairs@,
                    keys_are_byte_strs(all.take(iter.index() as int)),
                    dict@ == dict_from_entries(keyed_entries(all).take(iter.index() as int)),
            {
                let ghost i = iter.index() as int;
                let (key, value) = pair;
                match key {
                    Value::ByteStr(bytes) => {
                        proof {
                            let done = keyed_entries(all).take(i + 1);
                            assert(done.drop_last() =~= keyed_entries(all).take(i));
                            assert(done.last() == (byte_buf_bytes(bytes), value@));
                            assert forall|j: int| 0 <= j < i + 1 implies (#[trigger] all.take(
                                i + 1,
                            )[j]).0 is ByteStr by {
                                if j < i {
                                    assert(all.take(i)[j].0 is ByteStr);
                                }
                            }
                        }
                        dict.insert(bytes, value);
                    },
                    _ => {
                        proof {
                            assert(!(all[i].0 is ByteStr));
                        }
                        return Err(Error::KeyMustBeAByteStr);
                    },
                }
            }
            proof {
                assert(all.take(all.len() as int) =~= all);
                assert(keyed_entries(all).take(all.len() as int) =~= keyed_entries(all));
            }
            Ok(Value::Dict(dict))
        },
    }
}

} // verus!
