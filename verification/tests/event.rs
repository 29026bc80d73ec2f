use bencode::error::Error;
use bencode::event::{reduce, Event};
use bencode::value::{Dict, Number, Value};
use serde_bytes::ByteBuf;

fn bytes(text: &str) -> Value {
    Value::ByteStr(ByteBuf::from(text.as_bytes().to_vec()))
}

#[test]
fn signed_event_gives_a_signed_number() {
    assert_eq!(reduce(Event::Signed(-3)).unwrap(), Value::Int(Number::Signed(-3)));
    assert_eq!(reduce(Event::Signed(3)).unwrap(), Value::Int(Number::Signed(3)));
    assert_eq!(reduce(Event::Signed(0)).unwrap(), Value::Int(Number::Signed(0)));
}

#[test]
fn unsigned_event_gives_an_unsigned_number() {
    assert_eq!(reduce(Event::Unsigned(3)).unwrap(), Value::Int(Number::Unsigned(3)));
    assert_eq!(reduce(Event::Unsigned(0)).unwrap(), Value::Int(Number::Unsigned(0)));
}

#[test]
fn bytes_event_gives_an_exact_copy() {
    assert_eq!(reduce(Event::Bytes(b"spam".to_vec())).unwrap(), bytes("spam"));
    assert_eq!(
        reduce(Event::Bytes(vec![0xc3, 0x28, 0xff])).unwrap(),
        Value::ByteStr(ByteBuf::from(vec![0xc3, 0x28, 0xff]))
    );
    assert_eq!(reduce(Event::Bytes(String::from("héllo").into_bytes())).unwrap(), bytes("héllo"));
}

#[test]
fn presence_marker_is_transparent() {
    let value = Value::List(vec![bytes("a")]);
    assert_eq!(reduce(Event::Present(value.clone())).unwrap(), value);
}

#[test]
fn sequence_event_keeps_arrival_order() {
    assert_eq!(
        reduce(Event::Sequence(vec![bytes("spam"), bytes("eggs")])).unwrap(),
        Value::List(vec![bytes("spam"), bytes("eggs")])
    );
    assert_eq!(reduce(Event::Sequence(vec![])).unwrap(), Value::List(vec![]));
}

#[test]
fn mapping_event_gives_a_sorted_dict() {
    let value = reduce(Event::Mapping(vec![
        (bytes("spam"), bytes("eggs")),
        (bytes("cow"), bytes("moo")),
    ]))
    .unwrap();
    let mut expected = Dict::new();
    expected.insert(ByteBuf::from(b"cow".to_vec()), bytes("moo"));
    expected.insert(ByteBuf::from(b"spam".to_vec()), bytes("eggs"));
    assert_eq!(value, Value::Dict(expected));
}

#[test]
fn mapping_event_lets_the_last_entry_win() {
    let value = reduce(Event::Mapping(vec![
        (bytes("k"), bytes("first")),
        (bytes("j"), bytes("other")),
        (bytes("k"), bytes("last")),
    ]))
    .unwrap();
    match value {
        Value::Dict(dict) => {
            assert_eq!(dict.len(), 2);
            assert_eq!(dict.get(b"k"), Some(&bytes("last")));
            assert_eq!(dict.get(b"j"), Some(&bytes("other")));
        }
        other => panic!("{:?}", other),
    }
}

#[test]
fn mapping_event_with_a_key_that_is_no_byte_string_fails() {
    let result = reduce(Event::Mapping(vec![
        (bytes("k"), bytes("first")),
        (Value::Int(Number::Unsigned(1)), bytes("other")),
    ]));
    assert!(matches!(result, Err(Error::KeyMustBeAByteStr)));
    let result = reduce(Event::Mapping(vec![(Value::List(vec![]), bytes("v"))]));
    assert!(matches!(result, Err(Error::KeyMustBeAByteStr)));
    let result = reduce(Event::Mapping(vec![(Value::Dict(Dict::new()), bytes("v"))]));
    assert!(matches!(result, Err(Error::KeyMustBeAByteStr)));
}

#[test]
fn empty_mapping_event_gives_an_empty_dict() {
    assert_eq!(reduce(Event::Mapping(vec![])).unwrap(), Value::Dict(Dict::new()));
}
