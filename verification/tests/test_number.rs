use json_pkl_converter::number::{digit, number_literal, sign};

fn literal(text: &str) -> bool {
    number_literal(&text.chars().collect::<Vec<char>>())
}

#[test]
fn digits_and_signs_are_told_apart() {
    for c in "0123456789".chars() {
        assert!(digit(c));
        assert!(!sign(c));
    }
    for c in ['/', ':', 'a', ' ', '.', 'e', '\u{0660}'] {
        assert!(!digit(c));
    }
    assert!(sign('+'));
    assert!(sign('-'));
    assert!(!sign('.'));
}

#[test]
fn literals_are_accepted() {
    for text in [
        "0", "7", "007", "3.14", "-3.14", "+3.14", "5.", ".5", "-.5", "2.5E10", "2.5e10",
        "2.5E-10", "1e+2", "1.e2", ".5e5", "-1E-2", "1e400", "00.00e00",
    ] {
        assert!(literal(text), "{}", text);
    }
}

#[test]
fn other_texts_are_rejected() {
    for text in [
        "", "-", "+", ".", "-.", "e", "e5", ".e5", "1e", "1e+", "1e-", "1ee2", "1.2.3", "--1",
        "+-1", "1-", "1+1", "1e5.5", "1e5e5", "1 ", " 1", "1x", "x", "inf", "nan", "1.5.",
        "1e.5", "-e1",
    ] {
        assert!(!literal(text), "{}", text);
    }
}

#[test]
fn literals_are_what_std_reads_as_a_float() {
    // Every text of up to six characters over the alphabet of number tokens.
    let alphabet = ['0', '7', '.', 'e', 'E', '-', '+'];
    let mut texts: Vec<String> = vec![String::new()];
    let mut from = 0;
    for _ in 0..6 {
        let until = texts.len();
        for i in from..until {
            for c in alphabet {
                let mut longer = texts[i].clone();
                longer.push(c);
                texts.push(longer);
            }
        }
        from = until;
    }
    assert_eq!(texts.len(), 1 + 7 + 49 + 343 + 2401 + 16807 + 117649);
    for text in &texts {
        assert_eq!(literal(text), text.parse::<f64>().is_ok(), "{}", text);
    }
}

#[test]
fn long_literals_are_accepted() {
    let digits = "1234567890".repeat(100);
    assert!(literal(&digits));
    assert!(literal(&format!("-{}.{}e-{}", digits, digits, digits)));
    assert!(!literal(&format!("{}e", digits)));
}
