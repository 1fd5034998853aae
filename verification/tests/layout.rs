use juvix_cairo_vm::validate_layout;

#[test]
fn test_valid_layouts() {
    let valid_layouts = vec![
        "plain",
        "small",
        "dex",
        "starknet",
        "starknet_with_keccak",
        "recursive_large_output",
        "all_cairo",
        "all_solidity",
    ];

    for layout in valid_layouts {
        assert_eq!(validate_layout(layout), Ok(layout.to_string()));
    }
}

#[test]
fn test_invalid_layout() {
    let invalid_layout = "invalid layout name";
    assert!(validate_layout(invalid_layout).is_err());
}

#[test]
fn takes_every_layout_of_the_machine() {
    for layout in ["recursive", "dynamic"] {
        assert_eq!(validate_layout(layout), Ok(layout.to_string()));
    }
}

#[test]
fn says_which_text_names_no_layout() {
    assert_eq!(
        validate_layout("invalid layout name"),
        Err(String::from("invalid layout name is not a valid layout"))
    );
    assert_eq!(
        validate_layout(""),
        Err(String::from(" is not a valid layout"))
    );
    assert!(validate_layout("Plain").is_err());
    assert!(validate_layout("plain ").is_err());
}
