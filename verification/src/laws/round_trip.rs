//! Decoding inverts encoding.

use crate::de::{
    decimal_value, decode, digits_end, is_digit, parse_byte_str, parse_entries, parse_int,
    parse_items, parse_value, COLON, DICT, END, INT, LIST, ZERO,
};
use crate::error::Error;
use crate::laws::value::lemma_dict_from_sorted_entries;
use crate::ser::{
    decimal_digits, encode, encode_bytes, encode_entries, encode_items, encode_number,
};
use crate::value::{Number, Term};
use vstd::prelude::*;

verus! {

/// Every signed number in the tree is negative.
///
/// A literal is read as signed only where it has a `-`, and `-0` is no
/// literal: a signed number that is not negative is written as a literal
/// that reads back as unsigned.
pub open spec fn signed_are_negative(term: Term) -> bool
    decreases term,
{
    match term {
        Term::ByteStr(_) => true,
        Term::Int(Number::Signed(n)) => n < 0,
        Term::Int(Number::Unsigned(_)) => true,
        Term::List(items) => forall|i: int|
            0 <= i < items.len() ==> signed_are_negative(#[trigger] items[i]),
        Term::Dict(entries) => forall|i: int|
            0 <= i < entries.len() ==> signed_are_negative((#[trigger] entries[i]).1),
    }
}

/// The decimal digits of a number are digits, at least one, and begin with
/// a zero only where the number is zero.
pub proof fn lemma_decimal_digits(n: nat)
    ensures
        decimal_digits(n).len() >= 1,
        forall|i: int|
            0 <= i < decimal_digits(n).len() ==> is_digit(#[trigger] decimal_digits(n)[i]),
        decimal_digits(n)[0] == ZERO ==> n == 0,
        n == 0 ==> decimal_digits(n).len() == 1,
    decreases n,
{
    if n >= 10 {
        lemma_decimal_digits(n / 10);
    }
}

proof fn lemma_digits_end_of_run(s: Seq<u8>, pos: int, end: int)
    requires
        0 <= pos <= end <= s.len(),
        forall|i: int| pos <= i < end ==> is_digit(#[trigger] s[i]),
        end == s.len() || !is_digit(s[end]),
    ensures
        digits_end(s, pos) == end,
    decreases end - pos,
{
    if pos < end {
        lemma_digits_end_of_run(s, pos + 1, end);
    }
}

proof fn lemma_decimal_value_of_digits(s: Seq<u8>, pos: int, n: nat)
    requires
        0 <= pos,
        pos + decimal_digits(n).len() <= s.len(),
        s.subrange(pos, pos + decimal_digits(n).len()) == decimal_digits(n),
    ensures
        decimal_value(s, pos, pos + decimal_digits(n).len()) == n,
    decreases n,
{
    let digits = decimal_digits(n);
    let end = pos + digits.len();
    assert(s[end - 1] == s.subrange(pos, end)[digits.len() - 1]);
    if n < 10 {
        assert(decimal_value(s, pos, pos) == 0);
    } else {
        assert(s.subrange(pos, end - 1) =~= decimal_digits(n / 10));
        lemma_decimal_value_of_digits(s, pos, n / 10);
    }
}

/// Where the digits of `n` stand at `pos` and no digit follows them, the run
/// of digits at `pos` is those digits and writes `n`.
proof fn lemma_read_decimal_digits(s: Seq<u8>, pos: int, n: nat)
    requires
        0 <= pos,
        pos + decimal_digits(n).len() < s.len(),
        s.subrange(pos, pos + decimal_digits(n).len()) == decimal_digits(n),
        !is_digit(s[pos + decimal_digits(n).len()]),
    ensures
        digits_end(s, pos) == pos + decimal_digits(n).len(),
        decimal_value(s, pos, pos + decimal_digits(n).len()) == n,
        is_digit(s[pos]),
        s[pos] == ZERO ==> n == 0,
{
    let digits = decimal_digits(n);
    let end = pos + digits.len();
    lemma_decimal_digits(n);
    assert forall|i: int| pos <= i < end implies is_digit(#[trigger] s[i]) by {
        assert(s[i] == s.subrange(pos, end)[i - pos]);
    }
    assert(s[pos] == s.subrange(pos, end)[0]);
    lemma_digits_end_of_run(s, pos, end);
    lemma_decimal_value_of_digits(s, pos, n);
}

/// An encoded byte string is read back as it was.
pub proof fn lemma_parse_encoded_bytes(bytes: Seq<u8>, s: Seq<u8>, pos: int)
    requires
        0 <= pos,
        pos + encode_bytes(bytes).len() <= s.len(),
        s.subrange(pos, pos + encode_bytes(bytes).len()) == encode_bytes(bytes),
    ensures
        is_digit(s[pos]),
        parse_byte_str(s, pos) == Ok::<(Seq<u8>, int), Error>(
            (bytes, pos + encode_bytes(bytes).len()),
        ),
{
    let digits = decimal_digits(bytes.len());
    let written = encode_bytes(bytes);
    let colon = pos + digits.len();
    let end = pos + written.len();
    assert(s.subrange(pos, colon) =~= digits) by {
        assert forall|i: int| 0 <= i < digits.len() implies s.subrange(pos, colon)[i]
            == digits[i] by {
            assert(s.subrange(pos, end)[i] == written[i]);
        }
    }
    assert(s[colon] == COLON) by {
        assert(s.subrange(pos, end)[digits.len() as int] == written[digits.len() as int]);
    }
    lemma_read_decimal_digits(s, pos, bytes.len());
    assert(s.subrange(colon + 1, end) =~= bytes) by {
        assert forall|i: int| 0 <= i < bytes.len() implies s.subrange(colon + 1, end)[i]
            == bytes[i] by {
            assert(s.subrange(pos, end)[digits.len() + 1 + i] == written[digits.len() + 1 + i]);
        }
    }
}

/// An encoded number is read back as it was, unless it is signed and not
/// negative.
pub proof fn lemma_parse_encoded_number(number: Number, s: Seq<u8>, pos: int)
    requires
        number matches Number::Signed(n) ==> n < 0,
        0 <= pos,
        pos + encode_number(number).len() <= s.len(),
        s.subrange(pos, pos + encode_number(number).len()) == encode_number(number),
    ensures
        s[pos] == INT,
        parse_int(s, pos) == Ok::<(Number, int), Error>(
            (number, pos + encode_number(number).len()),
        ),
{
    let written = encode_number(number);
    let end = pos + written.len();
    assert forall|i: int| 0 <= i < written.len() implies s[pos + i] == written[i] by {
        assert(s.subrange(pos, end)[i] == written[i]);
    }
    match number {
        Number::Signed(n) => {
            let digits = decimal_digits((-n) as nat);
            lemma_decimal_digits((-n) as nat);
            assert(s[pos] == written[0]);
            assert(s[pos + 1] == written[1]);
            assert(s[pos + 2 + digits.len()] == written[digits.len() + 2int]);
            assert(s.subrange(pos + 2, pos + 2 + digits.len()) =~= digits) by {
                assert forall|i: int| 0 <= i < digits.len() implies s.subrange(
                    pos + 2,
                    pos + 2 + digits.len(),
                )[i] == digits[i] by {
                    assert(s[pos + (2 + i)] == written[2 + i]);
                }
            }
            lemma_read_decimal_digits(s, pos + 2, (-n) as nat);
        },
        Number::Unsigned(n) => {
            let digits = decimal_digits(n as nat);
            lemma_decimal_digits(n as nat);
            assert(s[pos] == written[0]);
            assert(s[pos + 1] == written[1]);
            assert(s[pos + 1 + digits.len()] == written[digits.len() + 1int]);
            assert(s.subrange(pos + 1, pos + 1 + digits.len()) =~= digits) by {
                assert forall|i: int| 0 <= i < digits.len() implies s.subrange(
                    pos + 1,
                    pos + 1 + digits.len(),
                )[i] == digits[i] by {
                    assert(s[pos + (1 + i)] == written[1 + i]);
                }
            }
            lemma_read_decimal_digits(s, pos + 1, n as nat);
        },
    }
}

/// What writes a value is not empty and begins with what begins a value: a
/// digit, `i`, `l` or `d`.
pub proof fn lemma_encode_begins_a_value(term: Term)
    ensures
        encode(term).len() > 0,
        is_digit(encode(term)[0]) || encode(term)[0] == INT || encode(term)[0] == LIST || encode(
            term,
        )[0] == DICT,
{
    match term {
        Term::ByteStr(bytes) => {
            lemma_decimal_digits(bytes.len());
        },
        Term::Int(_) => {},
        Term::List(_) => {},
        Term::Dict(_) => {},
    }
}

proof fn lemma_encode_items_first(items: Seq<Term>)
    requires
        items.len() > 0,
    ensures
        encode_items(items) == encode(items[0]) + encode_items(items.drop_first()),
    decreases items.len(),
{
    if items.len() == 1 {
        assert(items.drop_last() =~= Seq::<Term>::empty());
        assert(items.drop_first() =~= Seq::<Term>::empty());
        assert(encode_items(items.drop_last()) =~= Seq::<u8>::empty());
        assert(encode_items(items) =~= encode(items[0]) + encode_items(items.drop_first()));
    } else {
        lemma_encode_items_first(items.drop_last());
        assert(items.drop_last().drop_first() =~= items.drop_first().drop_last());
        assert(items.drop_first().last() == items.last());
        assert(items.drop_last()[0] == items[0]);
        assert(encode_items(items) =~= encode(items[0]) + encode_items(items.drop_first()));
    }
}

proof fn lemma_encode_entries_first(entries: Seq<(Seq<u8>, Term)>)
    requires
        entries.len() > 0,
    ensures
        encode_entries(entries) == encode_bytes(entries[0].0) + encode(entries[0].1)
            + encode_entries(entries.drop_first()),
    decreases entries.len(),
{
    if entries.len() == 1 {
        assert(entries.drop_last() =~= Seq::<(Seq<u8>, Term)>::empty());
        assert(entries.drop_first() =~= Seq::<(Seq<u8>, Term)>::empty());
        assert(encode_entries(entries.drop_last()) =~= Seq::<u8>::empty());
        assert(encode_entries(entries) =~= encode_bytes(entries[0].0) + encode(entries[0].1)
            + encode_entries(entries.drop_first()));
    } else {
        lemma_encode_entries_first(entries.drop_last());
        assert(entries.drop_last().drop_first() =~= entries.drop_first().drop_last());
        assert(entries.drop_first().last() == entries.last());
        assert(entries.drop_last()[0] == entries[0]);
        assert(encode_entries(entries) =~= encode_bytes(entries[0].0) + encode(entries[0].1)
            + encode_entries(entries.drop_first()));
    }
}

/// Where the bytes that write a value stand at `pos`, that value is read
/// there, whatever stands around them.
pub proof fn lemma_parse_encoded(term: Term, s: Seq<u8>, pos: int)
    requires
        term.wf(),
        signed_are_negative(term),
        0 <= pos,
        pos + encode(term).len() <= s.len(),
        s.subrange(pos, pos + encode(term).len()) == encode(term),
    ensures
        parse_value(s, pos) == Ok::<(Term, int), Error>((term, pos + encode(term).len())),
    decreases term,
{
    let written = encode(term);
    let end = pos + written.len();
    lemma_encode_begins_a_value(term);
    assert(s[pos] == written[0]) by {
        assert(s.subrange(pos, end)[0] == written[0]);
    }
    match term {
        Term::ByteStr(bytes) => {
            lemma_parse_encoded_bytes(bytes, s, pos);
        },
        Term::Int(number) => {
            lemma_parse_encoded_number(number, s, pos);
        },
        Term::List(items) => {
            let inner = encode_items(items);
            assert(s.subrange(pos + 1, pos + 1 + inner.len()) =~= inner) by {
                assert forall|i: int| 0 <= i < inner.len() implies s.subrange(
                    pos + 1,
                    pos + 1 + inner.len(),
                )[i] == inner[i] by {
                    assert(s.subrange(pos, end)[1 + i] == written[1 + i]);
                }
            }
            assert(s[pos + 1 + inner.len()] == END) by {
                assert(s.subrange(pos, end)[inner.len() + 1int] == written[inner.len() + 1int]);
            }
            lemma_parse_encoded_items(items, s, pos + 1);
        },
        Term::Dict(entries) => {
            let inner = encode_entries(entries);
            assert(s.subrange(pos + 1, pos + 1 + inner.len()) =~= inner) by {
                assert forall|i: int| 0 <= i < inner.len() implies s.subrange(
                    pos + 1,
                    pos + 1 + inner.len(),
                )[i] == inner[i] by {
                    assert(s.subrange(pos, end)[1 + i] == written[1 + i]);
                }
            }
            assert(s[pos + 1 + inner.len()] == END) by {
                assert(s.subrange(pos, end)[inner.len() + 1int] == written[inner.len() + 1int]);
            }
            lemma_parse_encoded_entries(entries, s, pos + 1);
            lemma_dict_from_sorted_entries(entries);
        },
    }
}

/// Where the bytes that write the items of a list stand at `pos`, with the
/// closing `e` after them, those items are read there.
pub proof fn lemma_parse_encoded_items(items: Seq<Term>, s: Seq<u8>, pos: int)
    requires
        forall|i: int| 0 <= i < items.len() ==> (#[trigger] items[i]).wf(),
        forall|i: int| 0 <= i < items.len() ==> signed_are_negative(#[trigger] items[i]),
        0 <= pos,
        pos + encode_items(items).len() < s.len(),
        s.subrange(pos, pos + encode_items(items).len()) == encode_items(items),
        s[pos + encode_items(items).len()] == END,
    ensures
        parse_items(s, pos) == Ok::<(Seq<Term>, int), Error>(
            (items, pos + encode_items(items).len() + 1),
        ),
    decreases items,
{
    let written = encode_items(items);
    let end = pos + written.len();
    if items.len() == 0 {
        assert(items =~= Seq::<Term>::empty());
    } else {
        let first = items[0];
        let rest = items.drop_first();
        let head = encode(first);
        let tail = encode_items(rest);
        lemma_encode_items_first(items);
        lemma_encode_begins_a_value(first);
        assert(s[pos] == head[0]) by {
            assert(s.subrange(pos, end)[0] == written[0]);
        }
        assert(s.subrange(pos, pos + head.len()) =~= head) by {
            assert forall|i: int| 0 <= i < head.len() implies s.subrange(pos, pos + head.len())[i]
                == head[i] by {
                assert(s.subrange(pos, end)[i] == written[i]);
            }
        }
        assert(s.subrange(pos + head.len(), pos + head.len() + tail.len()) =~= tail) by {
            assert forall|i: int| 0 <= i < tail.len() implies s.subrange(
                pos + head.len(),
                pos + head.len() + tail.len(),
            )[i] == tail[i] by {
                assert(s.subrange(pos, end)[head.len() + i] == written[head.len() + i]);
            }
        }
        lemma_parse_encoded(first, s, pos);
        assert forall|i: int| 0 <= i < rest.len() implies (#[trigger] rest[i]).wf()
            && signed_are_negative(rest[i]) by {
            assert(rest[i] == items[i + 1]);
        }
        lemma_parse_encoded_items(rest, s, pos + head.len());
        assert(seq![first] + rest =~= items);
    }
}

/// Where the bytes that write the entries of a dictionary stand at `pos`,
/// with the closing `e` after them, those entries are read there, in their
/// order.
pub proof fn lemma_parse_encoded_entries(entries: Seq<(Seq<u8>, Term)>, s: Seq<u8>, pos: int)
    requires
        forall|i: int| 0 <= i < entries.len() ==> (#[trigger] entries[i]).1.wf(),
        forall|i: int| 0 <= i < entries.len() ==> signed_are_negative((#[trigger] entries[i]).1),
        0 <= pos,
        pos + encode_entries(entries).len() < s.len(),
        s.subrange(pos, pos + encode_entries(entries).len()) == encode_entries(entries),
        s[pos + encode_entries(entries).len()] == END,
    ensures
        parse_entries(s, pos) == Ok::<(Seq<(Seq<u8>, Term)>, int), Error>(
            (entries, pos + encode_entries(entries).len() + 1),
        ),
    decreases entries,
{
    let written = encode_entries(entries);
    let end = pos + written.len();
    if entries.len() == 0 {
        assert(entries =~= Seq::<(Seq<u8>, Term)>::empty());
    } else {
        let first = entries[0];
        let rest = entries.drop_first();
        let key = encode_bytes(first.0);
        let value = encode(first.1);
        let tail = encode_entries(rest);
        let middle = pos + key.len();
        let next = middle + value.len();
        lemma_encode_entries_first(entries);
        assert(s.subrange(pos, middle) =~= key) by {
            assert forall|i: int| 0 <= i < key.len() implies s.subrange(pos, middle)[i]
                == key[i] by {
                assert(s.subrange(pos, end)[i] == written[i]);
            }
        }
        assert(s.subrange(middle, next) =~= value) by {
            assert forall|i: int| 0 <= i < value.len() implies s.subrange(middle, next)[i]
                == value[i] by {
                assert(s.subrange(pos, end)[key.len() + i] == written[key.len() + i]);
            }
        }
        assert(s.subrange(next, next + tail.len()) =~= tail) by {
            assert forall|i: int| 0 <= i < tail.len() implies s.subrange(next, next + tail.len())[i]
                == tail[i] by {
                assert(s.subrange(pos, end)[key.len() + value.len() + i] == written[key.len()
                    + value.len() + i]);
            }
        }
        lemma_parse_encoded_bytes(first.0, s, pos);
        lemma_encode_begins_a_value(first.1);
        lemma_decimal_digits(first.0.len());
        lemma_parse_encoded(first.1, s, middle);
        assert forall|i: int| 0 <= i < rest.len() implies (#[trigger] rest[i]).1.wf()
            && signed_are_negative(rest[i].1) by {
            assert(rest[i] == entries[i + 1]);
        }
        lemma_parse_encoded_entries(rest, s, next);
        assert(seq![first] + rest =~= entries);
    }
}

/// Decoding what encoding wrote gives the value back, for every well-formed
/// value in which each signed number is negative.
pub proof fn lemma_round_trip(term: Term)
    requires
        term.wf(),
        signed_are_negative(term),
    ensures
        decode(encode(term)) == Ok::<Term, Error>(term),
{
    let written = encode(term);
    assert(written.subrange(0, written.len() as int) =~= written);
    lemma_parse_encoded(term, written, 0);
}

/// Decoding a length, a colon and that many bytes gives exactly those bytes
/// as a byte string, whatever bytes they are.
pub proof fn lemma_decode_byte_str(bytes: Seq<u8>)
    ensures
        decode(decimal_digits(bytes.len()) + seq![COLON] + bytes) == Ok::<Term, Error>(
            Term::ByteStr(bytes),
        ),
{
    lemma_round_trip(Term::ByteStr(bytes));
}

} // verus!
