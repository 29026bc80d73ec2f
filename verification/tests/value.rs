use bencode::de::from_slice;
use bencode::error::Result;
use bencode::value::{Dict, Number, Value};
use serde_bytes::ByteBuf;

#[test]
fn test_deserialize_string() -> Result<()> {
    let v: Value = from_slice("4:spam".as_bytes())?;
    assert_eq!(v, Value::ByteStr(ByteBuf::from(String::from("spam"))));
    Ok(())
}

#[test]
fn test_deserialize_integer_1() -> Result<()> {
    let input = "i3e";
    let v: Value = from_slice(input.as_bytes())?;
    assert_eq!(v, Value::Int(Number::Unsigned(3)));
    Ok(())
}

#[test]
fn test_deserialize_integer_2() -> Result<()> {
    let input = "i-3e";
    let v: Value = from_slice(input.as_bytes())?;
    assert_eq!(v, Value::Int(Number::Signed(-3)));
    Ok(())
}

#[test]
fn test_deserialize_integer_3() -> Result<()> {
    let input = "i0e";
    let v: Value = from_slice(input.as_bytes())?;
    assert_eq!(v, Value::Int(Number::Unsigned(0)));
    Ok(())
}

#[test]
fn test_deserialize_list() -> Result<()> {
    let input = "l4:spam4:eggse";
    let v: Value = from_slice(input.as_bytes())?;
    assert_eq!(
        v,
        Value::List(vec![
            Value::ByteStr(ByteBuf::from(String::from("spam"))),
            Value::ByteStr(ByteBuf::from(String::from("eggs"))),
        ])
    );
    Ok(())
}

#[test]
fn test_deserialize_dict_1() -> Result<()> {
    let input = "d3:cow3:moo4:spam4:eggse";
    let v: Value = from_slice(input.as_bytes())?;

    let mut expected = Dict::new();
    expected.insert(
        ByteBuf::from(String::from("cow")),
        Value::ByteStr(ByteBuf::from(String::from("moo"))),
    );
    expected.insert(
        ByteBuf::from(String::from("spam")),
        Value::ByteStr(ByteBuf::from(String::from("eggs"))),
    );
    assert_eq!(v, Value::Dict(expected));
    Ok(())
}

#[test]
fn test_deserialize_dict_2() -> Result<()> {
    let input = "d4:spaml1:a1:bee";
    let v: Value = from_slice(input.as_bytes())?;
    let mut expected = Dict::new();
    expected.insert(
        ByteBuf::from(String::from("spam")),
        Value::List(vec![
            Value::ByteStr(ByteBuf::from(String::from("a"))),
            Value::ByteStr(ByteBuf::from(String::from("b"))),
        ]),
    );
    assert_eq!(v, Value::Dict(expected));
    Ok(())
}

fn bytes(text: &str) -> Value {
    Value::ByteStr(ByteBuf::from(text.as_bytes().to_vec()))
}

#[test]
fn signed_and_unsigned_of_one_number_differ() {
    assert_ne!(Number::Signed(3), Number::Unsigned(3));
    assert_ne!(Number::Signed(0), Number::Unsigned(0));
    assert_ne!(Value::Int(Number::Signed(3)), Value::Int(Number::Unsigned(3)));
    assert_eq!(Value::Int(Number::Signed(-3)), Value::Int(Number::Signed(-3)));
    assert_ne!(Value::Int(Number::Signed(-3)), Value::Int(Number::Unsigned(3)));
}

#[test]
fn values_of_different_kinds_differ() {
    assert_ne!(bytes(""), Value::List(vec![]));
    assert_ne!(Value::List(vec![]), Value::Dict(Dict::new()));
    assert_ne!(bytes("1"), Value::Int(Number::Unsigned(1)));
}

#[test]
fn equality_is_deep() {
    let a = Value::List(vec![bytes("a"), Value::List(vec![Value::Int(Number::Unsigned(1))])]);
    let b = Value::List(vec![bytes("a"), Value::List(vec![Value::Int(Number::Unsigned(1))])]);
    let c = Value::List(vec![bytes("a"), Value::List(vec![Value::Int(Number::Signed(1))])]);
    let d = Value::List(vec![bytes("a")]);
    assert_eq!(a, b);
    assert_ne!(a, c);
    assert_ne!(a, d);
    assert_ne!(bytes("ab"), bytes("a"));
    assert_ne!(bytes("ab"), bytes("ac"));
}

#[test]
fn list_order_is_significant() {
    let a = Value::List(vec![bytes("spam"), bytes("eggs")]);
    let b = Value::List(vec![bytes("eggs"), bytes("spam")]);
    assert_ne!(a, b);
}

#[test]
fn clone_gives_an_equal_value() {
    let mut inner = Dict::new();
    inner.insert(ByteBuf::from(vec![0xff, 0x00]), Value::Int(Number::Signed(-7)));
    let mut dict = Dict::new();
    dict.insert(ByteBuf::from(b"list".to_vec()), Value::List(vec![bytes("a"), bytes("b")]));
    dict.insert(ByteBuf::from(b"dict".to_vec()), Value::Dict(inner));
    let value = Value::Dict(dict);
    let copy = value.clone();
    assert_eq!(copy, value);
}

#[test]
fn dict_starts_empty() {
    let dict = Dict::new();
    assert_eq!(dict.len(), 0);
    assert!(dict.entries().is_empty());
    assert!(dict.get(b"spam").is_none());
}

#[test]
fn dict_keeps_keys_in_byte_order() {
    let mut dict = Dict::new();
    for key in ["spam", "cow", "b", "", "a", "ab", "B", "sp"] {
        assert!(dict.insert(ByteBuf::from(key.as_bytes().to_vec()), bytes(key)).is_none());
    }
    dict.insert(ByteBuf::from(vec![0xff]), bytes("high"));
    dict.insert(ByteBuf::from(vec![0x00]), bytes("low"));
    let keys: Vec<Vec<u8>> = dict.entries().iter().map(|entry| entry.0.to_vec()).collect();
    let expected: Vec<Vec<u8>> = vec![
        b"".to_vec(),
        vec![0x00],
        b"B".to_vec(),
        b"a".to_vec(),
        b"ab".to_vec(),
        b"b".to_vec(),
        b"cow".to_vec(),
        b"sp".to_vec(),
        b"spam".to_vec(),
        vec![0xff],
    ];
    assert_eq!(keys, expected);
    assert_eq!(dict.len(), 10);
}

#[test]
fn dict_insert_replaces_and_returns_the_old_value() {
    let mut dict = Dict::new();
    assert!(dict.insert(ByteBuf::from(b"k".to_vec()), bytes("one")).is_none());
    assert!(dict.insert(ByteBuf::from(b"j".to_vec()), bytes("other")).is_none());
    let previous = dict.insert(ByteBuf::from(b"k".to_vec()), bytes("two"));
    assert_eq!(previous, Some(bytes("one")));
    assert_eq!(dict.len(), 2);
    assert_eq!(dict.get(b"k"), Some(&bytes("two")));
    assert_eq!(dict.get(b"j"), Some(&bytes("other")));
    assert_eq!(dict.get(b"i"), None);
    assert_eq!(dict.get(b"kk"), None);
}

#[test]
fn dict_get_finds_every_key() {
    let mut dict = Dict::new();
    for n in 0..50u8 {
        let key = ByteBuf::from(vec![n.wrapping_mul(37)]);
        dict.insert(key, Value::Int(Number::Unsigned(n as u64)));
    }
    assert_eq!(dict.len(), 50);
    for n in 0..50u8 {
        assert_eq!(
            dict.get(&[n.wrapping_mul(37)]),
            Some(&Value::Int(Number::Unsigned(n as u64)))
        );
    }
    assert_eq!(dict.get(&[]), None);
    assert_eq!(dict.get(&[0, 0]), None);
}

#[test]
fn dicts_are_equal_whatever_the_order_of_insertion() {
    let mut forward = Dict::new();
    forward.insert(ByteBuf::from(b"cow".to_vec()), bytes("moo"));
    forward.insert(ByteBuf::from(b"spam".to_vec()), bytes("eggs"));
    let mut backward = Dict::new();
    backward.insert(ByteBuf::from(b"spam".to_vec()), bytes("eggs"));
    backward.insert(ByteBuf::from(b"cow".to_vec()), bytes("moo"));
    assert_eq!(forward, backward);
    assert_eq!(Value::Dict(forward), Value::Dict(backward));
}

#[test]
fn dicts_with_different_entries_differ() {
    let mut a = Dict::new();
    a.insert(ByteBuf::from(b"cow".to_vec()), bytes("moo"));
    let mut b = Dict::new();
    b.insert(ByteBuf::from(b"cow".to_vec()), bytes("mu"));
    let mut c = Dict::new();
    c.insert(ByteBuf::from(b"cov".to_vec()), bytes("moo"));
    assert_ne!(a, b);
    assert_ne!(a, c);
    assert_ne!(a, Dict::new());
}
