use json_pkl_converter::parser::{JSONFile, JSONValue, ParseError};
use json_pkl_converter::stream::char_stream;

#[test]
fn file_holds_the_value_of_its_stripped_text() {
    let file = JSONFile::new("data/a.json", " { \"a b\" : [ 1 , \" x \" ] } \n").expect("a value");
    assert_eq!(file.pathname(), "data/a.json");
    assert_eq!(
        file.json_value(),
        &JSONValue::Object(vec![(
            "a b".to_string(),
            JSONValue::Array(vec![
                JSONValue::Number("1".to_string()),
                JSONValue::String(" x ".to_string()),
            ]),
        )])
    );
}

#[test]
fn file_joins_what_whitespace_parted() {
    let file = JSONFile::new("d.json", "[ 1 2 ]").expect("a value");
    assert_eq!(
        file.json_value(),
        &JSONValue::Array(vec![JSONValue::Number("12".to_string())])
    );
}

#[test]
fn file_ignores_what_follows_its_value() {
    let file = JSONFile::new("b.json", "[ ] [ 1 ]").expect("a value");
    assert_eq!(file.json_value(), &JSONValue::Array(vec![]));
}

#[test]
fn file_without_value_is_rejected() {
    assert_eq!(JSONFile::new("c.json", "").err(), Some(ParseError::UnsupportedValue));
    assert_eq!(JSONFile::new("c.json", "  \n").err(), Some(ParseError::UnsupportedValue));
    assert_eq!(JSONFile::new("c.json", "{ \"a\" 1 }").err(), Some(ParseError::ExpectedColon));
    assert_eq!(JSONFile::new("c.json", "[ 1. 2. 3 ]").err(), Some(ParseError::InvalidNumber));
}

#[test]
fn char_stream_yields_the_characters_of_the_text() {
    let mut stream = char_stream("a\u{e9}\u{1f600}");
    assert_eq!(stream.peek(), Some(&'a'));
    assert_eq!(stream.next(), Some('a'));
    assert_eq!(stream.next(), Some('\u{e9}'));
    assert_eq!(stream.next(), Some('\u{1f600}'));
    assert_eq!(stream.next(), None);
    assert_eq!(stream.next(), None);
}
