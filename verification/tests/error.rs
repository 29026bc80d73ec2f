use bencode::error::{Error, Source};
use std::io;

#[test]
fn fixed_messages() {
    assert_eq!(Error::EofWhileParsingValue.message(), "eof while parsing value");
    assert_eq!(Error::ExpectedSomeValue.message(), "expected some value");
    assert_eq!(Error::InvalidByteStrLen.message(), "invalid byte string length");
    assert_eq!(Error::InvalidInteger.message(), "invalid integer");
    assert_eq!(Error::InvalidDict.message(), "invalid dictionary");
    assert_eq!(Error::InvalidList.message(), "invalid list");
    assert_eq!(Error::KeyMustBeAByteStr.message(), "key must be a byte string");
    assert_eq!(Error::TrailingData.message(), "trailing data error");
}

#[test]
fn deserialize_shows_its_own_message() {
    assert_eq!(Error::Deserialize(String::from("no such field")).message(), "no such field");
    assert_eq!(Error::Deserialize(String::new()).message(), "");
}

#[test]
fn custom_keeps_what_the_message_displays() {
    let error = Error::custom("missing field `info`");
    assert!(matches!(&error, Error::Deserialize(message) if message == "missing field `info`"));
    let error = Error::custom(42);
    assert!(matches!(&error, Error::Deserialize(message) if message == "42"));
    assert_eq!(error.message(), "42");
}

#[test]
fn invalid_type_names_what_was_found_and_what_was_expected() {
    let error = Error::invalid_type("integer `3`", "a list");
    assert_eq!(
        error.message(),
        "unexpected type error. invalid_type=integer `3`, expected_type=a list"
    );
    assert!(matches!(error, Error::Deserialize(_)));
    assert_eq!(
        Error::invalid_type("", "").message(),
        "unexpected type error. invalid_type=, expected_type="
    );
}

#[test]
fn wrapped_failures_show_the_inner_message() {
    let inner = String::from_utf8(vec![0xff]).unwrap_err();
    let text = inner.to_string();
    let error = Error::from(inner);
    assert!(matches!(error, Error::FromUtf8Error(_)));
    assert_eq!(error.message(), text);

    let inner = "x".parse::<i64>().unwrap_err();
    let text = inner.to_string();
    let error = Error::from(inner);
    assert!(matches!(error, Error::ParseIntError(_)));
    assert_eq!(error.message(), text);

    let error = Error::IoError(io::Error::new(io::ErrorKind::UnexpectedEof, "short read"));
    assert_eq!(error.message(), "short read");
}

#[test]
fn only_wrapping_kinds_have_a_source() {
    let utf8 = Error::from(String::from_utf8(vec![0xff]).unwrap_err());
    assert!(matches!(utf8.source(), Some(Source::FromUtf8Error(_))));
    let int = Error::from("x".parse::<i64>().unwrap_err());
    assert!(matches!(int.source(), Some(Source::ParseIntError(_))));
    let io = Error::IoError(io::Error::new(io::ErrorKind::NotFound, "gone"));
    match io.source() {
        Some(Source::IoError(inner)) => assert_eq!(inner.kind(), io::ErrorKind::NotFound),
        other => panic!("{:?}", other),
    }
    for error in [
        Error::Deserialize(String::from("m")),
        Error::EofWhileParsingValue,
        Error::ExpectedSomeValue,
        Error::InvalidByteStrLen,
        Error::InvalidInteger,
        Error::InvalidDict,
        Error::InvalidList,
        Error::KeyMustBeAByteStr,
        Error::TrailingData,
    ] {
        assert!(error.source().is_none());
    }
}

#[test]
fn io_error_is_given_back_as_it_was() {
    let error = Error::IoError(io::Error::new(io::ErrorKind::NotFound, "gone"));
    let io = error.into_io_error();
    assert_eq!(io.kind(), io::ErrorKind::NotFound);
    assert_eq!(io.to_string(), "gone");
}

#[test]
fn other_kinds_become_a_generic_io_error() {
    for error in [
        Error::Deserialize(String::from("m")),
        Error::EofWhileParsingValue,
        Error::ExpectedSomeValue,
        Error::from(String::from_utf8(vec![0xff]).unwrap_err()),
        Error::InvalidByteStrLen,
        Error::InvalidInteger,
        Error::InvalidDict,
        Error::InvalidList,
        Error::KeyMustBeAByteStr,
        Error::from("x".parse::<i64>().unwrap_err()),
        Error::TrailingData,
    ] {
        let io = error.into_io_error();
        assert_eq!(io.kind(), io::ErrorKind::Other);
        assert!(io.get_ref().is_none());
    }
}
