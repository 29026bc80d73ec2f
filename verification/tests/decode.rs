use bencode::de::from_slice;
use bencode::error::Error;
use bencode::value::{Dict, Number, Value};
use serde_bytes::ByteBuf;

fn bytes(text: &str) -> Value {
    Value::ByteStr(ByteBuf::from(text.as_bytes().to_vec()))
}

#[test]
fn byte_string_need_not_be_text() {
    let input = [b'4', b':', 0xff, 0x00, 0xfe, b'e'];
    let value = from_slice(&input).unwrap();
    assert_eq!(value, Value::ByteStr(ByteBuf::from(vec![0xff, 0x00, 0xfe, b'e'])));
}

#[test]
fn byte_strings_of_many_lengths_decode_exactly() {
    for len in [0usize, 1, 9, 10, 11, 99, 100, 101, 1000, 12345] {
        let payload: Vec<u8> = (0..len).map(|i| (i * 7 % 256) as u8).collect();
        let mut input = len.to_string().into_bytes();
        input.push(b':');
        input.extend_from_slice(&payload);
        assert_eq!(from_slice(&input).unwrap(), Value::ByteStr(ByteBuf::from(payload)));
    }
}

#[test]
fn empty_byte_string() {
    assert_eq!(from_slice(b"0:").unwrap(), bytes(""));
}

#[test]
fn length_may_have_leading_zeros() {
    assert_eq!(from_slice(b"04:spam").unwrap(), bytes("spam"));
}

#[test]
fn integer_limits() {
    assert_eq!(
        from_slice(b"i18446744073709551615e").unwrap(),
        Value::Int(Number::Unsigned(u64::MAX))
    );
    assert_eq!(
        from_slice(b"i9223372036854775808e").unwrap(),
        Value::Int(Number::Unsigned(9223372036854775808))
    );
    assert_eq!(
        from_slice(b"i-9223372036854775808e").unwrap(),
        Value::Int(Number::Signed(i64::MIN))
    );
    assert_eq!(
        from_slice(b"i-9223372036854775807e").unwrap(),
        Value::Int(Number::Signed(-9223372036854775807))
    );
    assert_eq!(from_slice(b"i-1e").unwrap(), Value::Int(Number::Signed(-1)));
    assert_eq!(from_slice(b"i10e").unwrap(), Value::Int(Number::Unsigned(10)));
}

#[test]
fn integers_out_of_range_are_invalid() {
    assert!(matches!(from_slice(b"i18446744073709551616e"), Err(Error::InvalidInteger)));
    assert!(matches!(from_slice(b"i-9223372036854775809e"), Err(Error::InvalidInteger)));
    assert!(matches!(
        from_slice(b"i99999999999999999999999999999999e"),
        Err(Error::InvalidInteger)
    ));
}

#[test]
fn integers_of_an_invalid_form_are_invalid() {
    for input in [
        &b"ie"[..],
        b"i-e",
        b"i-0e",
        b"i00e",
        b"i03e",
        b"i-03e",
        b"i+3e",
        b"i3",
        b"i 3e",
        b"i3 e",
        b"i--3e",
        b"i3-e",
        b"i1.5e",
        b"iae",
    ] {
        let result = from_slice(input);
        if input == b"i3" {
            assert!(matches!(result, Err(Error::EofWhileParsingValue)));
        } else {
            assert!(matches!(result, Err(Error::InvalidInteger)), "{:?}", input);
        }
    }
}

#[test]
fn empty_list_and_dict() {
    assert_eq!(from_slice(b"le").unwrap(), Value::List(vec![]));
    assert_eq!(from_slice(b"de").unwrap(), Value::Dict(Dict::new()));
}

#[test]
fn nested_lists() {
    assert_eq!(
        from_slice(b"lli1eelee").unwrap(),
        Value::List(vec![
            Value::List(vec![Value::Int(Number::Unsigned(1))]),
            Value::List(vec![]),
        ])
    );
}

#[test]
fn dict_entries_may_come_in_any_order() {
    let sorted = from_slice(b"d3:cow3:moo4:spam4:eggse").unwrap();
    let unsorted = from_slice(b"d4:spam4:eggs3:cow3:mooe").unwrap();
    assert_eq!(sorted, unsorted);
    match unsorted {
        Value::Dict(dict) => {
            assert_eq!(dict.len(), 2);
            assert_eq!(dict.entries()[0].0.as_ref(), b"cow");
            assert_eq!(dict.entries()[1].0.as_ref(), b"spam");
            assert_eq!(dict.get(b"cow"), Some(&bytes("moo")));
            assert_eq!(dict.get(b"spam"), Some(&bytes("eggs")));
        }
        other => panic!("{:?}", other),
    }
}

#[test]
fn later_dict_entry_replaces_an_earlier_one() {
    let value = from_slice(b"d1:ai1e1:bi2e1:ai3ee").unwrap();
    let mut expected = Dict::new();
    expected.insert(ByteBuf::from(b"a".to_vec()), Value::Int(Number::Unsigned(3)));
    expected.insert(ByteBuf::from(b"b".to_vec()), Value::Int(Number::Unsigned(2)));
    assert_eq!(value, Value::Dict(expected));
}

#[test]
fn trailing_data_is_an_error() {
    for input in [
        &b"4:spamx"[..],
        b"i3ei4e",
        b"i3e ",
        b"lee",
        b"dee",
        b"0:0:",
        b"l4:spam4:eggse\n",
        b"d3:cow3:moo4:spam4:eggse4:more",
    ] {
        assert!(matches!(from_slice(input), Err(Error::TrailingData)), "{:?}", input);
    }
}

#[test]
fn key_that_is_no_byte_string_is_an_error() {
    for input in [
        &b"di3e3:mooe"[..],
        b"dl1:ae3:mooe",
        b"dde3:mooe",
        b"d3:cow3:mooi1ei2ee",
        b"dx",
        b"d3:cow3:moo-",
        b"ld3:cow3:mooi0eee",
    ] {
        assert!(matches!(from_slice(input), Err(Error::KeyMustBeAByteStr)), "{:?}", input);
    }
}

#[test]
fn truncated_input_is_end_of_input() {
    assert!(matches!(from_slice(b"4:sp"), Err(Error::EofWhileParsingValue)));
    for input in [
        &b"4:spam"[..],
        b"0:",
        b"12:hello world!",
        b"i3e",
        b"i-3e",
        b"i0e",
        b"i-9223372036854775808e",
        b"le",
        b"de",
        b"l4:spam4:eggse",
        b"d3:cow3:moo4:spam4:eggse",
        b"d4:spaml1:a1:bee",
        b"ld1:ad1:bleeei-1e0:e",
    ] {
        assert!(from_slice(input).is_ok(), "{:?}", input);
        for len in 0..input.len() {
            assert!(
                matches!(from_slice(&input[..len]), Err(Error::EofWhileParsingValue)),
                "{:?} cut to {}",
                input,
                len
            );
        }
    }
}

#[test]
fn empty_input_is_end_of_input() {
    assert!(matches!(from_slice(b""), Err(Error::EofWhileParsingValue)));
}

#[test]
fn byte_that_begins_no_value_is_an_error() {
    for input in [&b"e"[..], b"x", b"-1", b":", b" i3e", b"lxe", b"d1:axe", b"I3e"] {
        assert!(matches!(from_slice(input), Err(Error::ExpectedSomeValue)), "{:?}", input);
    }
}

#[test]
fn invalid_length_of_a_byte_string() {
    for input in [&b"4x:spam"[..], b"4 :spam", b"4-:spam", b"1e", b"l1ee", b"d1:a2xe"] {
        assert!(matches!(from_slice(input), Err(Error::InvalidByteStrLen)), "{:?}", input);
    }
}

#[test]
fn length_beyond_the_input_is_end_of_input() {
    assert!(matches!(from_slice(b"5:spam"), Err(Error::EofWhileParsingValue)));
    assert!(matches!(
        from_slice(b"18446744073709551615:spam"),
        Err(Error::EofWhileParsingValue)
    ));
    assert!(matches!(
        from_slice(b"99999999999999999999999999999999:spam"),
        Err(Error::EofWhileParsingValue)
    ));
}

#[test]
fn decoded_dict_is_sorted_and_without_duplicates() {
    let value = from_slice(b"d1:zi1e1:ai2e1:mi3e1:ai4e0:i5e2:aai6ee").unwrap();
    match value {
        Value::Dict(dict) => {
            let keys: Vec<&[u8]> = dict.entries().iter().map(|entry| entry.0.as_ref()).collect();
            assert_eq!(keys, vec![&b""[..], b"a", b"aa", b"m", b"z"]);
            assert_eq!(dict.get(b"a"), Some(&Value::Int(Number::Unsigned(4))));
        }
        other => panic!("{:?}", other),
    }
}
