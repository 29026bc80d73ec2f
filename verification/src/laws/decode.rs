//! What holds of decoding: a value is read from its own bytes alone, bytes
//! after it and bytes missing from it are both failures, and what is read is
//! well formed.

use crate::de::{
    decimal_value, decode, digits_end, is_digit, lemma_digits_end, lemma_parse_entries_bounds,
    lemma_parse_items_bounds, lemma_parse_value_bounds, parse_byte_str, parse_entries, parse_int,
    parse_items, parse_value, DICT, END, INT, LIST, MINUS,
};
use crate::error::Error;
use crate::laws::value::lemma_dict_from_entries;
use crate::value::{dict_from_entries, Term};
use vstd::prelude::*;

verus! {

/// `a` and `b` hold the same bytes from `from` up to `to`.
pub open spec fn agree(a: Seq<u8>, b: Seq<u8>, from: int, to: int) -> bool {
    &&& to <= a.len()
    &&& to <= b.len()
    &&& forall|i: int| from <= i < to ==> a[i] == b[i]
}

proof fn lemma_digits_end_local(a: Seq<u8>, b: Seq<u8>, pos: int)
    requires
        0 <= pos,
        digits_end(a, pos) < a.len(),
        agree(a, b, pos, digits_end(a, pos) + 1),
    ensures
        digits_end(b, pos) == digits_end(a, pos),
    decreases a.len() - pos,
{
    if pos < a.len() {
        lemma_digits_end(a, pos);
        if is_digit(a[pos]) {
            lemma_digits_end(a, pos + 1);
            lemma_digits_end_local(a, b, pos + 1);
        }
    }
}

proof fn lemma_decimal_value_local(a: Seq<u8>, b: Seq<u8>, from: int, to: int)
    requires
        0 <= from,
        agree(a, b, from, to),
    ensures
        decimal_value(b, from, to) == decimal_value(a, from, to),
    decreases to - from,
{
    if from < to {
        lemma_decimal_value_local(a, b, from, to - 1);
    }
}

proof fn lemma_parse_byte_str_local(a: Seq<u8>, b: Seq<u8>, pos: int)
    requires
        0 <= pos < a.len(),
        parse_byte_str(a, pos) is Ok,
        agree(a, b, pos, parse_byte_str(a, pos)->Ok_0.1),
    ensures
        parse_byte_str(b, pos) == parse_byte_str(a, pos),
{
    let colon = digits_end(a, pos);
    let end = parse_byte_str(a, pos)->Ok_0.1;
    lemma_digits_end(a, pos);
    lemma_digits_end_local(a, b, pos);
    lemma_decimal_value_local(a, b, pos, colon);
    assert(b.subrange(colon + 1, end) =~= a.subrange(colon + 1, end));
}

proof fn lemma_parse_int_local(a: Seq<u8>, b: Seq<u8>, pos: int)
    requires
        0 <= pos < a.len(),
        parse_int(a, pos) is Ok,
        agree(a, b, pos, parse_int(a, pos)->Ok_0.1),
    ensures
        parse_int(b, pos) == parse_int(a, pos),
{
    let negative = pos + 1 < a.len() && a[pos + 1] == MINUS;
    let first = if negative {
        pos + 2
    } else {
        pos + 1
    };
    let end = digits_end(a, first);
    lemma_digits_end(a, first);
    lemma_digits_end_local(a, b, first);
    lemma_decimal_value_local(a, b, first, end);
}

/// A value is read from its own bytes alone: an input that holds the same
/// bytes in the same place gives the same value, ending at the same place.
pub proof fn lemma_parse_value_local(a: Seq<u8>, b: Seq<u8>, pos: int)
    requires
        parse_value(a, pos) is Ok,
        agree(a, b, pos, parse_value(a, pos)->Ok_0.1),
    ensures
        parse_value(b, pos) == parse_value(a, pos),
    decreases a.len() - pos, 0int,
{
    lemma_parse_value_bounds(a, pos);
    if is_digit(a[pos]) {
        lemma_parse_byte_str_local(a, b, pos);
    } else if a[pos] == INT {
        lemma_parse_int_local(a, b, pos);
    } else if a[pos] == LIST {
        lemma_parse_items_local(a, b, pos + 1);
    } else if a[pos] == DICT {
        lemma_parse_entries_local(a, b, pos + 1);
    }
}

/// The items of a list are read from their own bytes alone.
pub proof fn lemma_parse_items_local(a: Seq<u8>, b: Seq<u8>, pos: int)
    requires
        parse_items(a, pos) is Ok,
        agree(a, b, pos, parse_items(a, pos)->Ok_0.1),
    ensures
        parse_items(b, pos) == parse_items(a, pos),
    decreases a.len() - pos, 1int,
{
    lemma_parse_items_bounds(a, pos);
    if a[pos] != END {
        let next = parse_value(a, pos)->Ok_0.1;
        lemma_parse_items_bounds(a, next);
        lemma_parse_value_local(a, b, pos);
        lemma_parse_items_local(a, b, next);
    }
}

/// The entries of a dictionary are read from their own bytes alone.
pub proof fn lemma_parse_entries_local(a: Seq<u8>, b: Seq<u8>, pos: int)
    requires
        parse_entries(a, pos) is Ok,
        agree(a, b, pos, parse_entries(a, pos)->Ok_0.1),
    ensures
        parse_entries(b, pos) == parse_entries(a, pos),
    decreases a.len() - pos, 1int,
{
    lemma_parse_entries_bounds(a, pos);
    if a[pos] != END {
        let middle = parse_byte_str(a, pos)->Ok_0.1;
        let next = parse_value(a, middle)->Ok_0.1;
        lemma_parse_entries_bounds(a, next);
        lemma_parse_byte_str_local(a, b, pos);
        lemma_parse_value_local(a, b, middle);
        lemma_parse_entries_local(a, b, next);
    }
}

/// An input that decodes no longer does once anything is appended to it:
/// it fails with `TrailingData`.
pub proof fn lemma_trailing_data(s: Seq<u8>, extra: Seq<u8>)
    requires
        decode(s) is Ok,
        extra.len() > 0,
    ensures
        decode(s + extra) == Err::<Term, Error>(Error::TrailingData),
{
    lemma_parse_value_bounds(s, 0);
    lemma_parse_value_local(s, s + extra, 0);
}

/// Every dictionary in a value that was read has its keys in strictly
/// increasing order.
pub proof fn lemma_parse_value_wf(s: Seq<u8>, pos: int)
    requires
        parse_value(s, pos) is Ok,
    ensures
        parse_value(s, pos)->Ok_0.0.wf(),
    decreases s.len() - pos, 0int,
{
    if is_digit(s[pos]) {
    } else if s[pos] == INT {
    } else if s[pos] == LIST {
        lemma_parse_items_wf(s, pos + 1);
    } else if s[pos] == DICT {
        lemma_parse_entries_wf(s, pos + 1);
        let entries = parse_entries(s, pos + 1)->Ok_0.0;
        let dict = dict_from_entries(entries);
        lemma_dict_from_entries(entries);
        assert forall|i: int| 0 <= i < dict.len() implies (#[trigger] dict[i]).1.wf() by {
            let j = choose|j: int| 0 <= j < entries.len() && (#[trigger] entries[j]) == dict[i];
            assert(entries[j].1.wf());
        }
    }
}

/// Every item that was read is well formed.
pub proof fn lemma_parse_items_wf(s: Seq<u8>, pos: int)
    requires
        parse_items(s, pos) is Ok,
    ensures
        forall|i: int|
            0 <= i < parse_items(s, pos)->Ok_0.0.len() ==> (#[trigger] parse_items(
                s,
                pos,
            )->Ok_0.0[i]).wf(),
    decreases s.len() - pos, 1int,
{
    if s[pos] != END {
        let next = parse_value(s, pos)->Ok_0.1;
        lemma_parse_value_wf(s, pos);
        lemma_parse_items_wf(s, next);
    }
}

/// Every value of an entry that was read is well formed.
pub proof fn lemma_parse_entries_wf(s: Seq<u8>, pos: int)
    requires
        parse_entries(s, pos) is Ok,
    ensures
        forall|i: int|
            0 <= i < parse_entries(s, pos)->Ok_0.0.len() ==> (#[trigger] parse_entries(
                s,
                pos,
            )->Ok_0.0[i]).1.wf(),
    decreases s.len() - pos, 1int,
{
    if s[pos] != END {
        let middle = parse_byte_str(s, pos)->Ok_0.1;
        let next = parse_value(s, middle)->Ok_0.1;
        lemma_parse_value_wf(s, middle);
        lemma_parse_entries_wf(s, next);
    }
}

/// Every dictionary in a decoded value has its keys in strictly increasing
/// order, so none occurs twice.
pub proof fn lemma_decode_wf(s: Seq<u8>)
    requires
        decode(s) is Ok,
    ensures
        decode(s)->Ok_0.wf(),
{
    lemma_parse_value_wf(s, 0);
}

proof fn lemma_digits_end_cut(a: Seq<u8>, b: Seq<u8>, pos: int)
    requires
        0 <= pos <= b.len() <= digits_end(a, pos),
        agree(a, b, pos, b.len() as int),
    ensures
        digits_end(b, pos) == b.len(),
    decreases b.len() - pos,
{
    if pos < b.len() {
        lemma_digits_end(a, pos);
        lemma_digits_end_cut(a, b, pos + 1);
    }
}

proof fn lemma_parse_byte_str_cut(a: Seq<u8>, b: Seq<u8>, pos: int)
    requires
        0 <= pos < b.len(),
        parse_byte_str(a, pos) is Ok,
        b.len() < parse_byte_str(a, pos)->Ok_0.1,
        agree(a, b, pos, b.len() as int),
    ensures
        parse_byte_str(b, pos) == Err::<(Seq<u8>, int), Error>(Error::EofWhileParsingValue),
{
    let colon = digits_end(a, pos);
    lemma_digits_end(a, pos);
    if b.len() <= colon {
        lemma_digits_end_cut(a, b, pos);
    } else {
        lemma_digits_end_local(a, b, pos);
        lemma_decimal_value_local(a, b, pos, colon);
    }
}

proof fn lemma_parse_int_cut(a: Seq<u8>, b: Seq<u8>, pos: int)
    requires
        0 <= pos < b.len(),
        a[pos] == INT,
        parse_int(a, pos) is Ok,
        b.len() < parse_int(a, pos)->Ok_0.1,
        agree(a, b, pos, b.len() as int),
    ensures
        parse_int(b, pos) == Err::<(crate::value::Number, int), Error>(
            Error::EofWhileParsingValue,
        ),
{
    let negative = pos + 1 < a.len() && a[pos + 1] == MINUS;
    let first = if negative {
        pos + 2
    } else {
        pos + 1
    };
    lemma_digits_end(a, first);
    if b.len() >= first {
        lemma_digits_end_cut(a, b, first);
    }
}

/// A value of which bytes are missing at the end is not read: whatever of
/// it is there, reading it fails with `EofWhileParsingValue`.
pub proof fn lemma_parse_value_cut(a: Seq<u8>, b: Seq<u8>, pos: int)
    requires
        parse_value(a, pos) is Ok,
        pos <= b.len() < parse_value(a, pos)->Ok_0.1,
        agree(a, b, pos, b.len() as int),
    ensures
        parse_value(b, pos) == Err::<(Term, int), Error>(Error::EofWhileParsingValue),
    decreases a.len() - pos, 0int,
{
    lemma_parse_value_bounds(a, pos);
    if pos < b.len() {
        if is_digit(a[pos]) {
            lemma_parse_byte_str_cut(a, b, pos);
        } else if a[pos] == INT {
            lemma_parse_int_cut(a, b, pos);
        } else if a[pos] == LIST {
            lemma_parse_items_cut(a, b, pos + 1);
        } else if a[pos] == DICT {
            lemma_parse_entries_cut(a, b, pos + 1);
        }
    }
}

/// The items of a list of which bytes are missing at the end are not read.
pub proof fn lemma_parse_items_cut(a: Seq<u8>, b: Seq<u8>, pos: int)
    requires
        parse_items(a, pos) is Ok,
        pos <= b.len() < parse_items(a, pos)->Ok_0.1,
        agree(a, b, pos, b.len() as int),
    ensures
        parse_items(b, pos) == Err::<(Seq<Term>, int), Error>(Error::EofWhileParsingValue),
    decreases a.len() - pos, 1int,
{
    lemma_parse_items_bounds(a, pos);
    if pos < b.len() && a[pos] != END {
        let next = parse_value(a, pos)->Ok_0.1;
        lemma_parse_items_bounds(a, next);
        if b.len() < next {
            lemma_parse_value_cut(a, b, pos);
        } else {
            lemma_parse_value_local(a, b, pos);
            lemma_parse_items_cut(a, b, next);
        }
    }
}

/// The entries of a dictionary of which bytes are missing at the end are
/// not read.
pub proof fn lemma_parse_entries_cut(a: Seq<u8>, b: Seq<u8>, pos: int)
    requires
        parse_entries(a, pos) is Ok,
        pos <= b.len() < parse_entries(a, pos)->Ok_0.1,
        agree(a, b, pos, b.len() as int),
    ensures
        parse_entries(b, pos) == Err::<(Seq<(Seq<u8>, Term)>, int), Error>(
            Error::EofWhileParsingValue,
        ),
    decreases a.len() - pos, 1int,
{
    lemma_parse_entries_bounds(a, pos);
    if pos < b.len() && a[pos] != END {
        let middle = parse_byte_str(a, pos)->Ok_0.1;
        let next = parse_value(a, middle)->Ok_0.1;
        lemma_parse_entries_bounds(a, next);
        lemma_parse_value_bounds(a, middle);
        if b.len() < middle {
            lemma_parse_byte_str_cut(a, b, pos);
        } else {
            lemma_parse_byte_str_local(a, b, pos);
            if b.len() < next {
                lemma_parse_value_cut(a, b, middle);
            } else {
                lemma_parse_value_local(a, b, middle);
                lemma_parse_entries_cut(a, b, next);
            }
        }
    }
}

/// An input that decodes no longer does once it is cut short: each of its
/// proper prefixes, the empty one too, fails with `EofWhileParsingValue`.
pub proof fn lemma_truncated_is_eof(s: Seq<u8>, len: int)
    requires
        decode(s) is Ok,
        0 <= len < s.len(),
    ensures
        decode(s.take(len)) == Err::<Term, Error>(Error::EofWhileParsingValue),
{
    lemma_parse_value_cut(s, s.take(len), 0);
}

/// Entries that are followed, where the next key or the closing `e` is due,
/// by a byte that begins no byte string are not read: reading them fails
/// with `KeyMustBeAByteStr`.
pub proof fn lemma_parse_entries_bad_key(a: Seq<u8>, b: Seq<u8>, pos: int)
    requires
        parse_entries(a, pos) is Ok,
        agree(a, b, pos, parse_entries(a, pos)->Ok_0.1 - 1),
        parse_entries(a, pos)->Ok_0.1 <= b.len(),
        !is_digit(b[parse_entries(a, pos)->Ok_0.1 - 1]),
        b[parse_entries(a, pos)->Ok_0.1 - 1] != END,
    ensures
        parse_entries(b, pos) == Err::<(Seq<(Seq<u8>, Term)>, int), Error>(
            Error::KeyMustBeAByteStr,
        ),
    decreases a.len() - pos, 1int,
{
    lemma_parse_entries_bounds(a, pos);
    if a[pos] != END {
        let middle = parse_byte_str(a, pos)->Ok_0.1;
        let next = parse_value(a, middle)->Ok_0.1;
        lemma_parse_entries_bounds(a, next);
        lemma_parse_value_bounds(a, middle);
        lemma_parse_byte_str_local(a, b, pos);
        lemma_parse_value_local(a, b, middle);
        lemma_parse_entries_bad_key(a, b, next);
    }
}

/// A dictionary with a key that is no byte string does not decode: take an
/// input that decodes to a dictionary, put in place of its closing `e` a
/// byte that begins no byte string, and let anything follow; decoding fails
/// with `KeyMustBeAByteStr`.
pub proof fn lemma_key_must_be_a_byte_str(s: Seq<u8>, key_start: u8, rest: Seq<u8>)
    requires
        decode(s) is Ok,
        decode(s)->Ok_0 is Dict,
        !is_digit(key_start),
        key_start != END,
    ensures
        decode(s.drop_last().push(key_start) + rest) == Err::<Term, Error>(
            Error::KeyMustBeAByteStr,
        ),
{
    lemma_parse_value_bounds(s, 0);
    lemma_parse_entries_bad_key(s, s.drop_last().push(key_start) + rest, 1);
}

/// `error` is one of the failures that decoding bytes can end in.
pub open spec fn is_decode_failure(error: Error) -> bool {
    ||| error is EofWhileParsingValue
    ||| error is ExpectedSomeValue
    ||| error is InvalidByteStrLen
    ||| error is InvalidInteger
    ||| error is KeyMustBeAByteStr
    ||| error is TrailingData
}

/// Reading a value fails in no other way than with the end of the input, a
/// byte that begins no value, an invalid length, an invalid integer, or a
/// key that is no byte string.
pub proof fn lemma_parse_value_failures(s: Seq<u8>, pos: int)
    requires
        parse_value(s, pos) is Err,
    ensures
        is_decode_failure(parse_value(s, pos)->Err_0),
        !(parse_value(s, pos)->Err_0 is TrailingData),
    decreases s.len() - pos, 0int,
{
    if 0 <= pos < s.len() {
        if is_digit(s[pos]) {
        } else if s[pos] == INT {
        } else if s[pos] == LIST {
            lemma_parse_items_failures(s, pos + 1);
        } else if s[pos] == DICT {
            lemma_parse_entries_failures(s, pos + 1);
        }
    }
}

/// Reading the items of a list fails in no other way than reading a value
/// does.
pub proof fn lemma_parse_items_failures(s: Seq<u8>, pos: int)
    requires
        parse_items(s, pos) is Err,
    ensures
        is_decode_failure(parse_items(s, pos)->Err_0),
        !(parse_items(s, pos)->Err_0 is TrailingData),
    decreases s.len() - pos, 1int,
{
    if 0 <= pos < s.len() && s[pos] != END {
        if parse_value(s, pos) is Err {
            lemma_parse_value_failures(s, pos);
        } else {
            let next = parse_value(s, pos)->Ok_0.1;
            if pos < next <= s.len() {
                lemma_parse_items_failures(s, next);
            }
        }
    }
}

/// Reading the entries of a dictionary fails in no other way than reading a
/// value does.
pub proof fn lemma_parse_entries_failures(s: Seq<u8>, pos: int)
    requires
        parse_entries(s, pos) is Err,
    ensures
        is_decode_failure(parse_entries(s, pos)->Err_0),
        !(parse_entries(s, pos)->Err_0 is TrailingData),
    decreases s.len() - pos, 1int,
{
    if 0 <= pos < s.len() && s[pos] != END && is_digit(s[pos]) && parse_byte_str(s, pos) is Ok {
        let middle = parse_byte_str(s, pos)->Ok_0.1;
        if pos < middle <= s.len() {
            if parse_value(s, middle) is Err {
                lemma_parse_value_failures(s, middle);
            } else {
                let next = parse_value(s, middle)->Ok_0.1;
                if middle < next <= s.len() {
                    lemma_parse_entries_failures(s, next);
                }
            }
        }
    }
}

/// Decoding fails in one of six ways only: the input ends early, a byte
/// begins no value, a length is invalid, an integer is invalid, a key is no
/// byte string, or bytes follow the value. It never reports a malformed list
/// or dictionary as such, a message of a caller, or a wrapped failure.
pub proof fn lemma_decode_failures(s: Seq<u8>)
    requires
        decode(s) is Err,
    ensures
        is_decode_failure(decode(s)->Err_0),
{
    if parse_value(s, 0) is Err {
        lemma_parse_value_failures(s, 0);
    }
}

} // verus!
