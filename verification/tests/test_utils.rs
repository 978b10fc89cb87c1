use json_pkl_converter::utils::{consume_string, json_stringify_strip};

#[test]
fn utils_consume_simple_string() {
    let mut stream = "Hello, world!\"".chars().peekable();
    let result = consume_string(&mut stream);
    assert_eq!(result, "Hello, world!");
}

#[test]
fn consume_string_with_escaped_quote() {
    let mut stream = "Hello, \\\"world!\\\"\"".chars().peekable();
    let result = consume_string(&mut stream);
    assert_eq!(result, "Hello, \"world!\"");
}

#[test]
fn consume_string_with_escaped_backslash() {
    let mut stream = "\\\\\"".chars().peekable();
    let result = consume_string(&mut stream);
    assert_eq!(result, "\\"); // The string consists of an escaped backslash
}

#[test]
fn consume_string_with_multiple_escaped_sequences() {
    let mut stream = "Line 1\\\nLine 2\\\tTabbed\"".chars().peekable();
    let result = consume_string(&mut stream);
    assert_eq!(result, "Line 1\nLine 2\tTabbed");
}

#[test]
fn consume_string_ends_at_first_non_escaped_quote() {
    let mut stream = "git clean -xdf .next .turbo node_mo\\\"dules\""
        .chars()
        .peekable();
    let result = consume_string(&mut stream);
    assert_eq!(result, "git clean -xdf .next .turbo node_mo\"dules");
}

#[test]
fn consume_string_leaves_the_stream_behind_the_closing_quote() {
    let mut stream = "key\":1".chars().peekable();
    assert_eq!(consume_string(&mut stream), "key");
    assert_eq!(stream.collect::<String>(), ":1");
}

#[test]
fn consume_string_takes_a_letter_after_a_backslash_as_it_stands() {
    let mut stream = "a\\nb\\tc\\u0041\"".chars().peekable();
    assert_eq!(consume_string(&mut stream), "anbtcu0041");
}

#[test]
fn consume_string_without_closing_quote_returns_what_it_read() {
    let mut stream = "abc".chars().peekable();
    assert_eq!(consume_string(&mut stream), "abc");
    assert_eq!(stream.next(), None);
}

#[test]
fn consume_string_drops_a_backslash_at_the_end() {
    let mut stream = "abc\\".chars().peekable();
    assert_eq!(consume_string(&mut stream), "abc");
}

#[test]
fn consume_string_of_empty_stream_is_empty() {
    let mut stream = "".chars().peekable();
    assert_eq!(consume_string(&mut stream), "");
}

#[test]
fn strip_removes_whitespace_outside_strings() {
    let text = "{ \"a\" :\t[ 1 ,\n 2 ] ,\r\n \"b c\" : \" d \" }";
    assert_eq!(
        json_stringify_strip(text),
        Ok("{\"a\":[1,2],\"b c\":\" d \"}".to_string())
    );
}

#[test]
fn strip_keeps_a_space_inside_a_string() {
    assert_eq!(json_stringify_strip("\" \""), Ok("\" \"".to_string()));
}

#[test]
fn strip_is_idempotent_on_samples() {
    let samples = [
        "",
        " ",
        "{ \"a\" : 1 }",
        "\" \\\" \" x y",
        "\\ \" a b",
        "\\\\ \" a b \" c d",
        "\"unterminated  string  ",
        " \u{a0}x\u{2003}y\u{3000} ",
        "[ \"\\\\\" , \" \" ]",
    ];
    for text in samples {
        let once = json_stringify_strip(text).unwrap();
        let twice = json_stringify_strip(&once).unwrap();
        assert_eq!(twice, once);
    }
}

#[test]
fn strip_does_not_end_a_string_at_an_escaped_quote() {
    assert_eq!(
        json_stringify_strip("\"a \\\" b\" c d"),
        Ok("\"a \\\" b\"cd".to_string())
    );
}

#[test]
fn strip_ends_a_string_after_an_escaped_backslash() {
    assert_eq!(
        json_stringify_strip("\"a \\\\\" c d"),
        Ok("\"a \\\\\"cd".to_string())
    );
}

#[test]
fn strip_keeps_an_escape_across_dropped_whitespace() {
    // The backslash outside a string still escapes the quote behind the
    // blank, so no string opens and the later blank is dropped too.
    assert_eq!(json_stringify_strip("\\ \" a"), Ok("\\\"a".to_string()));
}

#[test]
fn strip_removes_unicode_whitespace() {
    assert_eq!(
        json_stringify_strip("1\u{a0}2\u{2028}3\u{3000}4\u{85}5"),
        Ok("12345".to_string())
    );
}

#[test]
fn strip_of_unterminated_string_keeps_its_whitespace() {
    assert_eq!(json_stringify_strip(" \" a  b "), Ok("\" a  b ".to_string()));
}

#[test]
fn strip_of_empty_text_is_empty() {
    assert_eq!(json_stringify_strip(""), Ok(String::new()));
}
