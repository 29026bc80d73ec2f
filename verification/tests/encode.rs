use bencode::de::from_slice;
use bencode::ser::to_vec;
use bencode::value::{Dict, Number, Value};
use serde_bytes::ByteBuf;

fn bytes(text: &str) -> Value {
    Value::ByteStr(ByteBuf::from(text.as_bytes().to_vec()))
}

#[test]
fn encodes_byte_strings() {
    assert_eq!(to_vec(&bytes("spam")), b"4:spam");
    assert_eq!(to_vec(&bytes("")), b"0:");
    assert_eq!(to_vec(&bytes("hello world!")), b"12:hello world!");
    assert_eq!(
        to_vec(&Value::ByteStr(ByteBuf::from(vec![0xff, 0x00]))),
        vec![b'2', b':', 0xff, 0x00]
    );
}

#[test]
fn encodes_integers() {
    assert_eq!(to_vec(&Value::Int(Number::Unsigned(0))), b"i0e");
    assert_eq!(to_vec(&Value::Int(Number::Unsigned(3))), b"i3e");
    assert_eq!(to_vec(&Value::Int(Number::Unsigned(10))), b"i10e");
    assert_eq!(to_vec(&Value::Int(Number::Unsigned(u64::MAX))), b"i18446744073709551615e");
    assert_eq!(to_vec(&Value::Int(Number::Signed(-3))), b"i-3e");
    assert_eq!(to_vec(&Value::Int(Number::Signed(i64::MIN))), b"i-9223372036854775808e");
    assert_eq!(to_vec(&Value::Int(Number::Signed(0))), b"i0e");
    assert_eq!(to_vec(&Value::Int(Number::Signed(42))), b"i42e");
}

#[test]
fn encodes_lists_in_stored_order() {
    assert_eq!(to_vec(&Value::List(vec![])), b"le");
    assert_eq!(to_vec(&Value::List(vec![bytes("spam"), bytes("eggs")])), b"l4:spam4:eggse");
    assert_eq!(to_vec(&Value::List(vec![bytes("eggs"), bytes("spam")])), b"l4:eggs4:spame");
}

#[test]
fn encodes_dicts_in_key_order() {
    let mut dict = Dict::new();
    dict.insert(ByteBuf::from(b"spam".to_vec()), bytes("eggs"));
    dict.insert(ByteBuf::from(b"cow".to_vec()), bytes("moo"));
    assert_eq!(to_vec(&Value::Dict(dict)), b"d3:cow3:moo4:spam4:eggse");
    assert_eq!(to_vec(&Value::Dict(Dict::new())), b"de");
}

#[test]
fn decoding_inverts_encoding() {
    let mut inner = Dict::new();
    inner.insert(ByteBuf::from(vec![0xff]), Value::Int(Number::Signed(-1)));
    inner.insert(ByteBuf::from(vec![]), Value::List(vec![]));
    let mut dict = Dict::new();
    dict.insert(ByteBuf::from(b"z".to_vec()), Value::Dict(inner));
    dict.insert(ByteBuf::from(b"a".to_vec()), Value::Int(Number::Unsigned(u64::MAX)));
    dict.insert(
        ByteBuf::from(b"list".to_vec()),
        Value::List(vec![bytes("e"), bytes("i3e"), Value::Int(Number::Signed(i64::MIN))]),
    );
    let values = vec![
        bytes(""),
        bytes("spam"),
        Value::ByteStr(ByteBuf::from((0..=255u8).collect::<Vec<u8>>())),
        Value::Int(Number::Unsigned(0)),
        Value::Int(Number::Unsigned(9)),
        Value::Int(Number::Unsigned(10)),
        Value::Int(Number::Signed(-1)),
        Value::List(vec![]),
        Value::Dict(Dict::new()),
        Value::Dict(dict),
    ];
    for value in values {
        let encoded = to_vec(&value);
        assert_eq!(from_slice(&encoded).unwrap(), value);
    }
}

#[test]
fn signed_number_that_is_not_negative_reads_back_unsigned() {
    let encoded = to_vec(&Value::Int(Number::Signed(3)));
    assert_eq!(from_slice(&encoded).unwrap(), Value::Int(Number::Unsigned(3)));
}

#[test]
fn encoding_inverts_decoding_of_canonical_input() {
    for input in [
        &b"4:spam"[..],
        b"i3e",
        b"i-3e",
        b"i0e",
        b"l4:spam4:eggse",
        b"d3:cow3:moo4:spam4:eggse",
        b"d4:spaml1:a1:bee",
    ] {
        assert_eq!(to_vec(&from_slice(input).unwrap()), input);
    }
}
