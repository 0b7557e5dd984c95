use session_wrapper::error::DomainError;
use session_wrapper::identifier::Identifier;

fn parse(value: &str) -> Result<Identifier, DomainError> {
    value.parse()
}

#[test]
fn the_documented_character_set_is_accepted() {
    for value in ["a", "0", "z9", "a-b_c", "work", &"x".repeat(32)] {
        assert!(parse(value).is_ok(), "{value} should parse");
    }
}

#[test]
fn a_leading_separator_is_rejected() {
    assert!(parse("-a").is_err());
    assert!(parse("_a").is_err());
}

#[test]
fn any_uppercase_byte_is_rejected() {
    assert!(parse("A").is_err());
    assert!(parse("aB").is_err());
}

#[test]
fn a_path_or_whitespace_byte_is_rejected() {
    for value in ["a.b", "a/b", "a b", "a\tb", "..", "/"] {
        assert!(parse(value).is_err(), "{value} should not parse");
    }
}

#[test]
fn a_non_ascii_value_is_rejected() {
    assert!(parse("á").is_err());
    assert!(parse("aá").is_err());
}

#[test]
fn an_empty_value_is_rejected() {
    assert!(parse("").is_err());
}

#[test]
fn a_thirty_third_byte_is_rejected() {
    assert!(parse(&"x".repeat(32)).is_ok());
    assert!(parse(&"x".repeat(33)).is_err());
}

#[test]
fn a_rejection_carries_the_original_value_verbatim() {
    let Err(DomainError::InvalidIdentifier(value)) = parse("Has.Dot") else {
        panic!("expected an identifier rejection");
    };
    assert_eq!(value, "Has.Dot");
}

#[test]
fn an_accepted_identifier_keeps_its_text() {
    let identifier = Identifier::parse("work-2").expect("valid");
    assert_eq!(identifier.as_str(), "work-2");
    assert!(identifier.same_as(&identifier.clone()));
    assert_eq!(identifier.into_string(), "work-2");
}
