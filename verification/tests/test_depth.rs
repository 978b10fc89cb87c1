use json_pkl_converter::parser::{parse_json, ParseError};

#[test]
fn ten_thousand_open_brackets() {
    let text = "[".repeat(10000);
    let mut stream = text.chars().peekable();
    assert_eq!(parse_json(&mut stream), Err(ParseError::UnsupportedValue));
}

#[test]
fn hundred_thousand_open_brackets() {
    let text = "[".repeat(100000);
    let mut stream = text.chars().peekable();
    assert_eq!(parse_json(&mut stream), Err(ParseError::UnsupportedValue));
}

#[test]
fn ten_thousand_nested_arrays() {
    let depth = 10000;
    let text = "[".repeat(depth) + &"]".repeat(depth);
    let mut stream = text.chars().peekable();
    let mut value = parse_json(&mut stream).expect("a value");
    assert_eq!(stream.next(), None);
    // Taken apart from the outside in, so that no deep tree is dropped at once.
    let mut levels = 0;
    loop {
        match value {
            json_pkl_converter::parser::JSONValue::Array(mut items) => {
                levels += 1;
                match items.pop() {
                    Some(inner) => {
                        assert!(items.is_empty());
                        value = inner;
                    }
                    None => break,
                }
            }
            other => panic!("not an array: {:?}", other),
        }
    }
    assert_eq!(levels, depth);
}
