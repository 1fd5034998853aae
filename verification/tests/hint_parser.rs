use juvix_cairo_vm::juvix_hint_processor::hint::Hint;
use juvix_cairo_vm::juvix_hint_processor::hint_parser::{parse_hint, ParseHintError};

fn assert_rejected(text: &str) {
    match text.parse::<Hint>() {
        Ok(_) => panic!("{text:?} was taken for a hint"),
        Err(ParseHintError { message }) => {
            assert!(message.starts_with("Error parsing hint"), "{message}")
        }
    }
}

#[test]
fn parses_alloc() {
    assert_eq!("Alloc(123)".parse::<Hint>().unwrap(), Hint::Alloc(123));
    assert_eq!("Alloc(0)".parse::<Hint>().unwrap(), Hint::Alloc(0));
    assert_eq!("Alloc(007)".parse::<Hint>().unwrap(), Hint::Alloc(7));
}

#[test]
fn parses_alloc_with_white_space() {
    assert_eq!(" Alloc ( 123 ) ".parse::<Hint>().unwrap(), Hint::Alloc(123));
    assert_eq!(
        "\n\tAlloc\r\n(\t42\n)\n".parse::<Hint>().unwrap(),
        Hint::Alloc(42)
    );
}

#[test]
fn parses_the_largest_size() {
    let text = format!("Alloc({})", usize::MAX);
    assert_eq!(text.parse::<Hint>().unwrap(), Hint::Alloc(usize::MAX));
}

#[test]
fn rejects_a_size_that_is_too_large() {
    let text = format!("Alloc({}0)", usize::MAX);
    let message = parse_hint(&text).unwrap_err().message;
    assert_eq!(
        message,
        format!("Error parsing hint {text}: the size is too large")
    );
    assert_rejected("Alloc(99999999999999999999999999999999999999)");
}

#[test]
fn parses_input() {
    assert_eq!(
        r#"Input("variable")"#.parse::<Hint>().unwrap(),
        Hint::Input(String::from("variable"))
    );
    assert_eq!(
        r#"Input("ident1_1")"#.parse::<Hint>().unwrap(),
        Hint::Input(String::from("ident1_1"))
    );
    assert_eq!(
        r#"Input("__ident_")"#.parse::<Hint>().unwrap(),
        Hint::Input(String::from("__ident_"))
    );
    assert_eq!(
        r#"Input("")"#.parse::<Hint>().unwrap(),
        Hint::Input(String::new())
    );
}

#[test]
fn parses_input_with_white_space() {
    assert_eq!(
        " Input ( \"x y\" ) ".parse::<Hint>().unwrap(),
        Hint::Input(String::from("x y"))
    );
}

#[test]
fn parses_input_with_escapes() {
    assert_eq!(
        r#"Input("a\"b")"#.parse::<Hint>().unwrap(),
        Hint::Input(String::from("a\"b"))
    );
    assert_eq!(
        r#"Input("a\\b")"#.parse::<Hint>().unwrap(),
        Hint::Input(String::from("a\\b"))
    );
    assert_eq!(
        r#"Input("\\\"")"#.parse::<Hint>().unwrap(),
        Hint::Input(String::from("\\\""))
    );
    assert_eq!(
        "Input(\"σ(1) → ∞\")".parse::<Hint>().unwrap(),
        Hint::Input(String::from("σ(1) → ∞"))
    );
}

#[test]
fn rejects_unknown_hints() {
    assert_rejected("nonsense");
    assert_rejected("Incomplete");
    assert_rejected("");
    assert_rejected("alloc(1)");
    assert_rejected("RandomEcPoint");
    assert_eq!(
        parse_hint("nonsense").unwrap_err().message,
        "Error parsing hint nonsense: expected Alloc or Input"
    );
}

#[test]
fn rejects_trailing_characters() {
    assert_rejected("Alloc(34) extra");
    assert_rejected(r#"Input("var") extra"#);
    assert_rejected("Alloc(34))");
    assert_eq!(
        parse_hint("Alloc(34) extra").unwrap_err().message,
        "Error parsing hint Alloc(34) extra: unexpected characters after the hint"
    );
}

#[test]
fn rejects_negative_sizes() {
    assert_rejected("Alloc(-1)");
    assert_eq!(
        parse_hint("Alloc(-1)").unwrap_err().message,
        "Error parsing hint Alloc(-1): expected a size in decimal digits"
    );
}

#[test]
fn rejects_unterminated_strings() {
    assert_rejected(r#"Input("var"#);
    assert_rejected(r#"Input("var)"#);
    assert_rejected(r#"Input("var\"#);
    assert_eq!(
        parse_hint(r#"Input("var"#).unwrap_err().message,
        "Error parsing hint Input(\"var: the name is not closed"
    );
}

#[test]
fn rejects_other_escapes() {
    assert_rejected(r#"Input("a\nb")"#);
    assert_eq!(
        parse_hint(r#"Input("a\nb")"#).unwrap_err().message,
        "Error parsing hint Input(\"a\\nb\"): a backslash in the name escapes nothing"
    );
}

#[test]
fn rejects_names_without_quotes() {
    assert_rejected("Input(var)");
    assert_rejected("Input(1var)");
    assert_rejected("Input(var var)");
    assert_eq!(
        parse_hint("Input(var)").unwrap_err().message,
        "Error parsing hint Input(var): expected a name in double quotes"
    );
}

#[test]
fn rejects_missing_brackets() {
    assert_rejected("Alloc 1");
    assert_rejected("Alloc(1");
    assert_rejected("Alloc(1 2)");
    assert_rejected("Alloc()");
    assert_eq!(
        parse_hint("Alloc 1").unwrap_err().message,
        "Error parsing hint Alloc 1: expected ( after the name of the hint"
    );
    assert_eq!(
        parse_hint("Alloc(1").unwrap_err().message,
        "Error parsing hint Alloc(1: expected ) after the argument"
    );
}

#[test]
fn rejects_white_space_inside_tokens() {
    assert_rejected("Al loc(1)");
    assert_rejected("Alloc(1 0)");
}

#[test]
fn a_copy_of_a_hint_is_the_same_hint() {
    for hint in [
        Hint::Alloc(7),
        Hint::Input(String::from("x")),
        Hint::RandomEcPoint,
    ] {
        assert_eq!(hint.clone(), hint);
    }
}

#[test]
fn a_hint_followed_by_anything_is_rejected() {
    for hint in ["Alloc(1)", " Alloc ( 1 ) ", r#"Input("a")"#, r#"Input("a") "#] {
        assert!(parse_hint(hint).is_ok());
        for more in ["x", ")", "Alloc(1)", " \"", "\t;"] {
            let text = format!("{hint}{more}");
            assert_eq!(
                parse_hint(&text).unwrap_err().message,
                format!("Error parsing hint {text}: unexpected characters after the hint")
            );
        }
    }
}
