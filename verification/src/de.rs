//! Decoding: the grammar of Bencode as functions on bytes, and the decoder
//! that follows it.

use crate::error::Error;
use crate::event::{keyed_entries, keys_are_byte_strs, pairs_view, reduce, yields, Event};
use crate::laws::decode::lemma_decode_wf;
use crate::value::{dict_from_entries, lemma_values_view_push, values_view, Number, Term, Value};
use vstd::prelude::*;
use vstd::slice::{slice_subrange, slice_to_vec};

verus! {

/// The digit `0`.
pub const ZERO: u8 = 0x30;

/// The digit `9`.
pub const NINE: u8 = 0x39;

/// `:`, which ends the length of a byte string.
pub const COLON: u8 = 0x3a;

/// `-`, the sign of a negative integer.
pub const MINUS: u8 = 0x2d;

/// `i`, which begins an integer.
pub const INT: u8 = 0x69;

/// `l`, which begins a list.
pub const LIST: u8 = 0x6c;

/// `d`, which begins a dictionary.
pub const DICT: u8 = 0x64;

/// `e`, which ends an integer, a list and a dictionary.
pub const END: u8 = 0x65;

/// What parsing from some position gives: what was read and the position
/// after it, or the failure.
pub type Parsed<T> = Result<(T, int), Error>;

/// `b` is a decimal digit.
pub open spec fn is_digit(b: u8) -> bool {
    ZERO <= b <= NINE
}

/// The end of the run of decimal digits that begins at `pos`: the first
/// position from `pos` on that holds no digit, or the length of `s`.
pub open spec fn digits_end(s: Seq<u8>, pos: int) -> int
    decreases s.len() - pos,
{
    if 0 <= pos < s.len() && is_digit(s[pos]) {
        digits_end(s, pos + 1)
    } else {
        pos
    }
}

/// The number that the decimal digits of `s` from `from` up to `to` write.
pub open spec fn decimal_value(s: Seq<u8>, from: int, to: int) -> nat
    decreases to - from,
{
    if to <= from {
        0
    } else {
        decimal_value(s, from, to - 1) * 10 + (s[to - 1] - ZERO) as nat
    }
}

/// A byte string that begins at the digit at `pos`: a decimal length, a
/// colon, and that many bytes.
pub open spec fn parse_byte_str(s: Seq<u8>, pos: int) -> Parsed<Seq<u8>> {
    let colon = digits_end(s, pos);
    let end = colon + 1 + decimal_value(s, pos, colon);
    if colon >= s.len() {
        Err(Error::EofWhileParsingValue)
    } else if s[colon] != COLON {
        Err(Error::InvalidByteStrLen)
    } else if end > s.len() {
        Err(Error::EofWhileParsingValue)
    } else {
        Ok((s.subrange(colon + 1, end), end))
    }
}

/// An integer that begins at the `i` at `pos`: an optional `-`, decimal
/// digits and an `e`.
///
/// A literal with a `-` is signed and any other unsigned. A literal without
/// digits, with a leading zero before another digit, with a zero after `-`,
/// or outside the range of its variant is invalid.
pub open spec fn parse_int(s: Seq<u8>, pos: int) -> Parsed<Number> {
    let negative = pos + 1 < s.len() && s[pos + 1] == MINUS;
    let first = if negative {
        pos + 2
    } else {
        pos + 1
    };
    let end = digits_end(s, first);
    let magnitude = decimal_value(s, first, end);
    if end >= s.len() {
        Err(Error::EofWhileParsingValue)
    } else if s[end] != END || end == first {
        Err(Error::InvalidInteger)
    } else if s[first] == ZERO && (negative || end - first > 1) {
        Err(Error::InvalidInteger)
    } else if negative {
        if magnitude > -i64::MIN {
            Err(Error::InvalidInteger)
        } else {
            Ok((Number::Signed((-magnitude) as i64), end + 1))
        }
    } else {
        if magnitude > u64::MAX {
            Err(Error::InvalidInteger)
        } else {
            Ok((Number::Unsigned(magnitude as u64), end + 1))
        }
    }
}

/// The value that begins at `pos`: a byte string at a digit, an integer at
/// `i`, a list at `l`, a dictionary at `d`.
///
/// The entries of a dictionary are inserted in the order in which they are
/// read, so of two entries with one key the later one stays.
pub open spec fn parse_value(s: Seq<u8>, pos: int) -> Parsed<Term>
    decreases s.len() - pos, 0int,
{
    if !(0 <= pos < s.len()) {
        Err(Error::EofWhileParsingValue)
    } else if is_digit(s[pos]) {
        match parse_byte_str(s, pos) {
            Ok((bytes, end)) => Ok((Term::ByteStr(bytes), end)),
            Err(error) => Err(error),
        }
    } else if s[pos] == INT {
        match parse_int(s, pos) {
            Ok((number, end)) => Ok((Term::Int(number), end)),
            Err(error) => Err(error),
        }
    } else if s[pos] == LIST {
        match parse_items(s, pos + 1) {
            Ok((items, end)) => Ok((Term::List(items), end)),
            Err(error) => Err(error),
        }
    } else if s[pos] == DICT {
        match parse_entries(s, pos + 1) {
            Ok((entries, end)) => Ok((Term::Dict(dict_from_entries(entries)), end)),
            Err(error) => Err(error),
        }
    } else {
        Err(Error::ExpectedSomeValue)
    }
}

/// The items of a list from `pos` up to and with the closing `e`.
///
/// A value ends after it begins and within `s` (see
/// [`lemma_parse_value_bounds`]); the tests for that are what shows that the
/// definition terminates.
pub open spec fn parse_items(s: Seq<u8>, pos: int) -> Parsed<Seq<Term>>
    decreases s.len() - pos, 1int,
{
    if !(0 <= pos < s.len()) {
        Err(Error::EofWhileParsingValue)
    } else if s[pos] == END {
        Ok((Seq::empty(), pos + 1))
    } else {
        match parse_value(s, pos) {
            Ok((item, next)) => if pos < next <= s.len() {
                match parse_items(s, next) {
                    Ok((rest, end)) => Ok((seq![item] + rest, end)),
                    Err(error) => Err(error),
                }
            } else {
                Err(Error::EofWhileParsingValue)
            },
            Err(error) => Err(error),
        }
    }
}

/// The entries of a dictionary from `pos` up to and with the closing `e`,
/// in the order in which they stand. Each key must begin with a digit, that
/// is, be a byte string.
///
/// A key and a value end after they begin and within `s` (see
/// [`lemma_parse_value_bounds`]); the tests for that are what shows that the
/// definition terminates.
pub open spec fn parse_entries(s: Seq<u8>, pos: int) -> Parsed<Seq<(Seq<u8>, Term)>>
    decreases s.len() - pos, 1int,
{
    if !(0 <= pos < s.len()) {
        Err(Error::EofWhileParsingValue)
    } else if s[pos] == END {
        Ok((Seq::empty(), pos + 1))
    } else if !is_digit(s[pos]) {
        Err(Error::KeyMustBeAByteStr)
    } else {
        match parse_byte_str(s, pos) {
            Ok((key, middle)) => if pos < middle <= s.len() {
                match parse_value(s, middle) {
                    Ok((value, next)) => if middle < next <= s.len() {
                        match parse_entries(s, next) {
                            Ok((rest, end)) => Ok((seq![(key, value)] + rest, end)),
                            Err(error) => Err(error),
                        }
                    } else {
                        Err(Error::EofWhileParsingValue)
                    },
                    Err(error) => Err(error),
                }
            } else {
                Err(Error::EofWhileParsingValue)
            },
            Err(error) => Err(error),
        }
    }
}

/// What decoding the whole of `s` gives: the value that begins it, if
/// nothing follows that value.
pub open spec fn decode(s: Seq<u8>) -> Result<Term, Error> {
    match parse_value(s, 0) {
        Ok((term, end)) => if end == s.len() {
            Ok(term)
        } else {
            Err(Error::TrailingData)
        },
        Err(error) => Err(error),
    }
}

/// A run of digits ends at or after its beginning and within `s`, holds
/// digits only, and is not followed by a digit.
pub proof fn lemma_digits_end(s: Seq<u8>, pos: int)
    requires
        0 <= pos <= s.len(),
    ensures
        pos <= digits_end(s, pos) <= s.len(),
        forall|i: int| pos <= i < digits_end(s, pos) ==> is_digit(#[trigger] s[i]),
        digits_end(s, pos) < s.len() ==> !is_digit(s[digits_end(s, pos)]),
        is_digit(s[pos]) && pos < s.len() ==> pos < digits_end(s, pos),
    decreases s.len() - pos,
{
    if pos < s.len() && is_digit(s[pos]) {
        lemma_digits_end(s, pos + 1);
    }
}

/// A byte string ends after it begins and within `s`.
pub proof fn lemma_parse_byte_str_bounds(s: Seq<u8>, pos: int)
    requires
        0 <= pos < s.len(),
        parse_byte_str(s, pos) is Ok,
    ensures
        pos < parse_byte_str(s, pos)->Ok_0.1 <= s.len(),
{
    lemma_digits_end(s, pos);
}

/// A value ends after it begins and within `s`.
pub proof fn lemma_parse_value_bounds(s: Seq<u8>, pos: int)
    requires
        parse_value(s, pos) is Ok,
    ensures
        0 <= pos < parse_value(s, pos)->Ok_0.1 <= s.len(),
    decreases s.len() - pos, 0int,
{
    if is_digit(s[pos]) {
        lemma_parse_byte_str_bounds(s, pos);
    } else if s[pos] == INT {
        if pos + 1 < s.len() {
            lemma_digits_end(s, pos + 1);
        }
        if pos + 2 <= s.len() {
            lemma_digits_end(s, pos + 2);
        }
    } else if s[pos] == LIST {
        lemma_parse_items_bounds(s, pos + 1);
    } else if s[pos] == DICT {
        lemma_parse_entries_bounds(s, pos + 1);
    }
}

/// The items of a list end after they begin and within `s`.
pub proof fn lemma_parse_items_bounds(s: Seq<u8>, pos: int)
    requires
        parse_items(s, pos) is Ok,
    ensures
        0 <= pos < parse_items(s, pos)->Ok_0.1 <= s.len(),
    decreases s.len() - pos, 1int,
{
    if s[pos] != END {
        let next = parse_value(s, pos)->Ok_0.1;
        lemma_parse_items_bounds(s, next);
    }
}

/// The entries of a dictionary end after they begin and within `s`.
pub proof fn lemma_parse_entries_bounds(s: Seq<u8>, pos: int)
    requires
        parse_entries(s, pos) is Ok,
    ensures
        0 <= pos < parse_entries(s, pos)->Ok_0.1 <= s.len(),
    decreases s.len() - pos, 1int,
{
    if s[pos] != END {
        let middle = parse_byte_str(s, pos)->Ok_0.1;
        let next = parse_value(s, middle)->Ok_0.1;
        lemma_parse_entries_bounds(s, next);
    }
}

/// A partial decimal value is at most the whole one.
proof fn lemma_decimal_value_grows(s: Seq<u8>, from: int, middle: int, to: int)
    requires
        from <= middle <= to,
    ensures
        decimal_value(s, from, middle) <= decimal_value(s, from, to),
    decreases to - middle,
{
    if middle < to {
        lemma_decimal_value_grows(s, from, middle, to - 1);
        assert(decimal_value(s, from, to - 1) <= decimal_value(s, from, to - 1) * 10)
            by (nonlinear_arith);
    }
}

/// Whether what a reader returned is what the grammar gives: the view of
/// what it read and the position after it, or the same failure.
pub open spec fn reads<T: View>(result: Result<(T, usize), Error>, expected: Parsed<T::V>) -> bool {
    match expected {
        Ok((read, end)) => result is Ok && result->Ok_0.0@ == read && result->Ok_0.1 == end,
        Err(error) => result == Err::<(T, usize), Error>(error),
    }
}

/// The items read so far, then those to come.
pub open spec fn items_after(done: Seq<Term>, rest: Parsed<Seq<Term>>) -> Parsed<Seq<Term>> {
    match rest {
        Ok((items, end)) => Ok((done + items, end)),
        Err(error) => Err(error),
    }
}

/// The entries read so far, then those to come.
pub open spec fn entries_after(
    done: Seq<(Seq<u8>, Term)>,
    rest: Parsed<Seq<(Seq<u8>, Term)>>,
) -> Parsed<Seq<(Seq<u8>, Term)>> {
    match rest {
        Ok((entries, end)) => Ok((done + entries, end)),
        Err(error) => Err(error),
    }
}

fn is_digit_byte(b: u8) -> (digit: bool)
    ensures
        digit == is_digit(b),
{
    ZERO <= b && b <= NINE
}

/// Finds the end of the run of digits that begins at `pos`.
fn scan_digits(input: &[u8], pos: usize) -> (end: usize)
    requires
        pos <= input.len(),
    ensures
        end == digits_end(input@, pos as int),
        pos <= end <= input.len(),
{
    let mut end = pos;
    while end < input.len() && is_digit_byte(input[end])
        invariant
            pos <= end <= input.len(),
            digits_end(input@, pos as int) == digits_end(input@, end as int),
        decreases input.len() - end,
    {
        end += 1;
    }
    end
}

/// Reads the digits from `from` up to `to` as a number, if it fits.
fn read_decimal(input: &[u8], from: usize, to: usize) -> (value: Option<u64>)
    requires
        from <= to <= input.len(),
        forall|i: int| from <= i < to ==> is_digit(#[trigger] input@[i]),
    ensures
        match value {
            Some(n) => n == decimal_value(input@, from as int, to as int),
            None => decimal_value(input@, from as int, to as int) > u64::MAX,
        },
{
    let mut value: u64 = 0;
    let mut i = from;
    while i < to
        invariant
            from <= i <= to <= input.len(),
            forall|i: int| from <= i < to ==> is_digit(#[trigger] input@[i]),
            value == decimal_value(input@, from as int, i as int),
        decreases to - i,
    {
        let digit = (input[i] - ZERO) as u64;
        proof {
            lemma_decimal_value_grows(input@, from as int, i + 1, to as int);
        }
        match value.checked_mul(10) {
            Some(tens) => match tens.checked_add(digit) {
                Some(sum) => {
                    value = sum;
                },
                None => {
                    return None;
                },
            },
            None => {
                return None;
            },
        }
        i += 1;
    }
    Some(value)
}

/// Reads the byte string that begins at the digit at `pos`.
fn read_byte_str(input: &[u8], pos: usize) -> (result: Result<(Vec<u8>, usize), Error>)
    requires
        pos < input.len(),
        is_digit(input@[pos as int]),
    ensures
        reads(result, parse_byte_str(input@, pos as int)),
{
    let colon = scan_digits(input, pos);
    proof {
        lemma_digits_end(input@, pos as int);
    }
    if colon >= input.len() {
        return Err(Error::EofWhileParsingValue);
    }
    if input[colon] != COLON {
        return Err(Error::InvalidByteStrLen);
    }
    let room = input.len() - colon - 1;
    match read_decimal(input, pos, colon) {
        Some(len) => {
            if len > room as u64 {
                return Err(Error::EofWhileParsingValue);
            }
            let end = colon + 1 + len as usize;
            let bytes = slice_to_vec(slice_subrange(input, colon + 1, end));
            Ok((bytes, end))
        },
        None => Err(Error::EofWhileParsingValue),
    }
}

/// Reads the integer that begins at the `i` at `pos`.
fn read_int(input: &[u8], pos: usize) -> (result: Result<(Number, usize), Error>)
    requires
        pos < input.len(),
    ensures
        match parse_int(input@, pos as int) {
            Ok((number, end)) => result is Ok && result->Ok_0.0 == number && result->Ok_0.1
                == end,
            Err(error) => result == Err::<(Number, usize), Error>(error),
        },
{
    let negative = pos + 1 < input.len() && input[pos + 1] == MINUS;
    let first = if negative {
        pos + 2
    } else {
        pos + 1
    };
    let end = scan_digits(input, first);
    proof {
        lemma_digits_end(input@, first as int);
    }
    if end >= input.len() {
        return Err(Error::EofWhileParsingValue);
    }
    if input[end] != END || end == first {
        return Err(Error::InvalidInteger);
    }
    if input[first] == ZERO && (negative || end - first > 1) {
        return Err(Error::InvalidInteger);
    }
    match read_decimal(input, first, end) {
        Some(magnitude) => {
            if !negative {
                Ok((Number::Unsigned(magnitude), end + 1))
            } else if magnitude > 0x8000_0000_0000_0000 {
                Err(Error::InvalidInteger)
            } else if magnitude == 0x8000_0000_0000_0000 {
                Ok((Number::Signed(i64::MIN), end + 1))
            } else {
                Ok((Number::Signed(-(magnitude as i64)), end + 1))
            }
        },
        None => Err(Error::InvalidInteger),
    }
}

/// Appending a pair appends the pair of terms that it stands for.
proof fn lemma_pairs_view_push(pairs: Seq<(Value, Value)>, key: Value, value: Value)
    ensures
        pairs_view(pairs.push((key, value))) == pairs_view(pairs).push((key@, value@)),
        key@ is ByteStr ==> keyed_entries(pairs_view(pairs.push((key, value)))) == keyed_entries(
            pairs_view(pairs),
        ).push((key@->ByteStr_0, value@)),
{
    assert(pairs_view(pairs.push((key, value))) =~= pairs_view(pairs).push((key@, value@)));
    assert(keyed_entries(pairs_view(pairs).push((key@, value@))) =~= keyed_entries(
        pairs_view(pairs),
    ).push((key@->ByteStr_0, value@)));
}

/// Reads the value that begins at `pos`.
fn read_value(input: &[u8], pos: usize) -> (result: Result<(Value, usize), Error>)
    requires
        pos <= input.len(),
    ensures
        reads(result, parse_value(input@, pos as int)),
    decreases input.len() - pos,
{
    if pos >= input.len() {
        return Err(Error::EofWhileParsingValue);
    }
    let first = input[pos];
    if is_digit_byte(first) {
        match read_byte_str(input, pos) {
            Ok((bytes, end)) => match reduce(Event::Bytes(bytes)) {
                Ok(value) => Ok((value, end)),
                Err(error) => Err(error),
            },
            Err(error) => Err(error),
        }
    } else if first == INT {
        match read_int(input, pos) {
            Ok((number, end)) => {
                let event = match number {
                    Number::Signed(n) => Event::Signed(n),
                    Number::Unsigned(n) => Event::Unsigned(n),
                };
                match reduce(event) {
                    Ok(value) => Ok((value, end)),
                    Err(error) => Err(error),
                }
            },
            Err(error) => Err(error),
        }
    } else if first == LIST {
        let mut items: Vec<Value> = Vec::new();
        let mut at = pos + 1;
        proof {
            assert(values_view(items@) + parse_items(input@, at as int)->Ok_0.0
                =~= parse_items(input@, at as int)->Ok_0.0);
        }
        loop
            invariant
                pos < at <= input.len(),
                input@[pos as int] == LIST,
                parse_items(input@, pos + 1) == items_after(
                    values_view(items@),
                    parse_items(input@, at as int),
                ),
            decreases input.len() - at,
        {
            if at >= input.len() {
                return Err(Error::EofWhileParsingValue);
            }
            if input[at] == END {
                proof {
                    assert(values_view(items@) + Seq::<Term>::empty() =~= values_view(items@));
                }
                return match reduce(Event::Sequence(items)) {
                    Ok(value) => Ok((value, at + 1)),
                    Err(error) => Err(error),
                };
            }
            match read_value(input, at) {
                Ok((item, next)) => {
                    proof {
                        lemma_parse_value_bounds(input@, at as int);
                        lemma_values_view_push(items@, item);
                        let rest = parse_items(input@, next as int);
                        if rest is Ok {
                            assert(values_view(items@) + (seq![item@] + rest->Ok_0.0)
                                =~= values_view(items@).push(item@) + rest->Ok_0.0);
                        }
                    }
                    items.push(item);
                    at = next;
                },
                Err(error) => {
                    return Err(error);
                },
            }
        }
    } else if first == DICT {
        let mut pairs: Vec<(Value, Value)> = Vec::new();
        let mut at = pos + 1;
        proof {
            assert(keyed_entries(pairs_view(pairs@)) + parse_entries(input@, at as int)->Ok_0.0
                =~= parse_entries(input@, at as int)->Ok_0.0);
        }
        loop
            invariant
                pos < at <= input.len(),
                input@[pos as int] == DICT,
                keys_are_byte_strs(pairs_view(pairs@)),
                parse_entries(input@, pos + 1) == entries_after(
                    keyed_entries(pairs_view(pairs@)),
                    parse_entries(input@, at as int),
                ),
            decreases input.len() - at,
        {
            if at >= input.len() {
                return Err(Error::EofWhileParsingValue);
            }
            if input[at] == END {
                proof {
                    assert(keyed_entries(pairs_view(pairs@)) + Seq::<(Seq<u8>, Term)>::empty()
                        =~= keyed_entries(pairs_view(pairs@)));
                }
                return match reduce(Event::Mapping(pairs)) {
                    Ok(value) => Ok((value, at + 1)),
                    Err(error) => Err(error),
                };
            }
            if !is_digit_byte(input[at]) {
                return Err(Error::KeyMustBeAByteStr);
            }
            let (key, middle) = match read_byte_str(input, at) {
                Ok((bytes, middle)) => match reduce(Event::Bytes(bytes)) {
                    Ok(key) => (key, middle),
                    Err(error) => {
                        return Err(error);
                    },
                },
                Err(error) => {
                    return Err(error);
                },
            };
            proof {
                lemma_parse_byte_str_bounds(input@, at as int);
            }
            match read_value(input, middle) {
                Ok((value, next)) => {
                    proof {
                        lemma_parse_value_bounds(input@, middle as int);
                        lemma_pairs_view_push(pairs@, key, value);
                        let done = keyed_entries(pairs_view(pairs@));
                        let rest = parse_entries(input@, next as int);
                        if rest is Ok {
                            assert(done + (seq![(key@->ByteStr_0, value@)] + rest->Ok_0.0)
                                =~= done.push((key@->ByteStr_0, value@)) + rest->Ok_0.0);
                        }
                        assert forall|i: int| 0 <= i < pairs@.len() + 1 implies (
                        #[trigger] pairs_view(pairs@).push((key@, value@))[i]).0 is ByteStr by {
                            if i < pairs@.len() {
                                assert(pairs_view(pairs@)[i].0 is ByteStr);
                            }
                        }
                    }
                    pairs.push((key, value));
                    at = next;
                },
                Err(error) => {
                    return Err(error);
                },
            }
        }
    } else {
        Err(Error::ExpectedSomeValue)
    }
}

/// Decodes the one value that `input` holds.
///
/// Fails where `input` holds no complete value, and with `TrailingData`
/// where bytes follow the value. Lists and dictionaries are read by
/// recursion, one call deep for each level of nesting.
pub fn from_slice(input: &[u8]) -> (result: Result<Value, Error>)
    ensures
        yields(result, decode(input@)),
        result matches Ok(value) ==> value@.wf(),
{
    proof {
        if decode(input@) is Ok {
            lemma_decode_wf(input@);
        }
    }
    match read_value(input, 0) {
        Ok((value, end)) => {
            if end == input.len() {
                Ok(value)
            } else {
                Err(Error::TrailingData)
            }
        },
        Err(error) => Err(error),
    }
}

} // verus!
