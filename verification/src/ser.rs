//! Encoding: the bytes that write a value, the inverse of decoding.

use crate::bytes::byte_buf_as_slice;
use crate::de::{COLON, DICT, END, INT, LIST, MINUS, ZERO};
use crate::value::{entries_view, values_view, Dict, Number, Term, Value};
use vstd::prelude::*;

verus! {

/// The decimal digits of `n`, without leading zeros.
pub open spec fn decimal_digits(n: nat) -> Seq<u8>
    decreases n,
{
    if n < 10 {
        seq![(ZERO + n) as u8]
    } else {
        decimal_digits(n / 10).push((ZERO + n % 10) as u8)
    }
}

/// A byte string: its length in decimal, a colon, and its bytes.
pub open spec fn encode_bytes(bytes: Seq<u8>) -> Seq<u8> {
    decimal_digits(bytes.len()) + seq![COLON] + bytes
}

/// An integer: `i`, the number in decimal with a `-` before it if it is
/// negative, and `e`.
pub open spec fn encode_number(number: Number) -> Seq<u8> {
    match number {
        Number::Signed(n) => if n < 0 {
            seq![INT, MINUS] + decimal_digits((-n) as nat) + seq![END]
        } else {
            seq![INT] + decimal_digits(n as nat) + seq![END]
        },
        Number::Unsigned(n) => seq![INT] + decimal_digits(n as nat) + seq![END],
    }
}

/// The bytes that write `term`: a list as `l`, its items and `e`; a
/// dictionary as `d`, its entries in stored order, each as key and value,
/// and `e`.
pub open spec fn encode(term: Term) -> Seq<u8>
    decreases term,
{
    match term {
        Term::ByteStr(bytes) => encode_bytes(bytes),
        Term::Int(number) => encode_number(number),
        Term::List(items) => seq![LIST] + encode_items(items) + seq![END],
        Term::Dict(entries) => seq![DICT] + encode_entries(entries) + seq![END],
    }
}

/// The items of a list, one after the other.
pub open spec fn encode_items(items: Seq<Term>) -> Seq<u8>
    decreases items,
{
    if items.len() == 0 {
        Seq::empty()
    } else {
        encode_items(items.drop_last()) + encode(items.last())
    }
}

/// The entries of a dictionary, one after the other, each as its key and
/// its value.
pub open spec fn encode_entries(entries: Seq<(Seq<u8>, Term)>) -> Seq<u8>
    decreases entries,
{
    if entries.len() == 0 {
        Seq::empty()
    } else {
        encode_entries(entries.drop_last()) + encode_bytes(entries.last().0) + encode(
            entries.last().1,
        )
    }
}

/// Writes `n` in decimal.
fn write_decimal(n: u64, out: &mut Vec<u8>)
    ensures
        final(out)@ == old(out)@ + decimal_digits(n as nat),
    decreases n,
{
    if n >= 10 {
        write_decimal(n / 10, out);
    }
    out.push(ZERO + (n % 10) as u8);
    proof {
        assert(final(out)@ =~= old(out)@ + decimal_digits(n as nat));
    }
}

/// Writes a byte string.
fn write_bytes(bytes: &[u8], out: &mut Vec<u8>)
    ensures
        final(out)@ == old(out)@ + encode_bytes(bytes@),
{
    write_decimal(bytes.len() as u64, out);
    out.push(COLON);
    out.extend_from_slice(bytes);
    proof {
        assert(final(out)@ =~= old(out)@ + encode_bytes(bytes@));
    }
}

/// Writes an integer.
fn write_number(number: Number, out: &mut Vec<u8>)
    ensures
        final(out)@ == old(out)@ + encode_number(number),
{
    out.push(INT);
    match number {
        Number::Signed(n) => {
            if n < 0 {
                out.push(MINUS);
                let magnitude: u64 = if n == i64::MIN {
                    0x8000_0000_0000_0000
                } else {
                    (-n) as u64
                };
                write_decimal(magnitude, out);
            } else {
                write_decimal(n as u64, out);
            }
        },
        Number::Unsigned(n) => {
            write_decimal(n, out);
        },
    }
    out.push(END);
    proof {
        assert(final(out)@ =~= old(out)@ + encode_number(number));
    }
}

/// Writes the entries of a dictionary.
fn write_dict(dict: &Dict, out: &mut Vec<u8>)
    ensures
        final(out)@ == old(out)@ + seq![DICT] + encode_entries(dict@) + seq![END],
    decreases dict,
{
    out.push(DICT);
    let entries = dict.entries();
    let mut i: usize = 0;
    proof {
        assert(dict@.take(0) =~= Seq::empty());
        assert(out@ =~= old(out)@ + seq![DICT] + encode_entries(dict@.take(0)));
    }
    while i < entries.len()
        invariant
            i <= entries.len(),
            entries_view(entries@) == dict@,
            forall|i: int|
                0 <= i < entries@.len() ==> decreases_to!(dict => #[trigger] entries@[i]),
            out@ == old(out)@ + seq![DICT] + encode_entries(dict@.take(i as int)),
        decreases entries.len() - i,
    {
        write_bytes(byte_buf_as_slice(&entries[i].0), out);
        assert(decreases_to!(dict => entries@[i as int].1));
        write_value(&entries[i].1, out);
        proof {
            let done = dict@.take(i + 1);
            assert(done.drop_last() =~= dict@.take(i as int));
            assert(done.last() == dict@[i as int]);
            assert(out@ =~= old(out)@ + seq![DICT] + encode_entries(done));
        }
        i += 1;
    }
    out.push(END);
    proof {
        assert(dict@.take(i as int) =~= dict@);
    }
}

/// Writes a value.
fn write_value(value: &Value, out: &mut Vec<u8>)
    ensures
        final(out)@ == old(out)@ + encode(value@),
    decreases value,
{
    match value {
        Value::ByteStr(bytes) => write_bytes(byte_buf_as_slice(bytes), out),
        Value::Int(number) => write_number(*number, out),
        Value::List(items) => {
            out.push(LIST);
            let mut i: usize = 0;
            proof {
                assert(values_view(items@).take(0) =~= Seq::empty());
                assert(out@ =~= old(out)@ + seq![LIST] + encode_items(values_view(items@).take(0)));
            }
            while i < items.len()
                invariant
                    i <= items.len(),
                    value is List,
                    value->List_0 == *items,
                    out@ == old(out)@ + seq![LIST] + encode_items(
                        values_view(items@).take(i as int),
                    ),
                decreases items.len() - i,
            {
                assert(decreases_to!(value => value->List_0@[i as int]));
                write_value(&items[i], out);
                proof {
                    let done = values_view(items@).take(i + 1);
                    assert(done.drop_last() =~= values_view(items@).take(i as int));
                    assert(done.last() == items@[i as int]@);
                    assert(out@ =~= old(out)@ + seq![LIST] + encode_items(done));
                }
                i += 1;
            }
            out.push(END);
            proof {
                assert(values_view(items@).take(i as int) =~= values_view(items@));
            }
        },
        Value::Dict(dict) => write_dict(dict, out),
    }
}

/// Encodes a value.
pub fn to_vec(value: &Value) -> (bytes: Vec<u8>)
    ensures
        bytes@ == encode(value@),
{
    let mut bytes: Vec<u8> = Vec::new();
    write_value(value, &mut bytes);
    proof {
        assert(bytes@ =~= encode(value@));
    }
    bytes
}

} // verus!
