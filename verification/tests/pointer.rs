use session_wrapper::error::DomainError;
use session_wrapper::pointer::Pointer;

#[test]
fn the_empty_pointer_addresses_the_whole_document() {
    let pointer = Pointer::parse("").expect("the empty pointer is valid");
    assert_eq!(pointer.as_str(), "");
    assert!(pointer.tokens().is_empty());
}

#[test]
fn a_pointer_must_open_with_a_slash() {
    assert!(Pointer::parse("permissions/allow").is_err());
}

#[test]
fn the_escapes_decode_to_a_slash_and_a_tilde() {
    let pointer = Pointer::parse("/a~1b/c~0d").expect("valid escapes");
    assert_eq!(pointer.tokens(), ["a/b".to_owned(), "c~d".to_owned()]);
}

#[test]
fn a_dangling_tilde_is_not_canonical() {
    assert!(Pointer::parse("/a~").is_err());
}

#[test]
fn an_unknown_escape_is_not_canonical() {
    assert!(Pointer::parse("/a~2b").is_err());
}

#[test]
fn a_non_canonical_encoding_is_rejected() {
    assert!(Pointer::parse("/a~b").is_err());
}

#[test]
fn tokens_preserve_order_and_empty_segments() {
    let pointer = Pointer::parse("/a//b").expect("an empty token is legal");
    assert_eq!(
        pointer.tokens(),
        ["a".to_owned(), String::new(), "b".to_owned()]
    );
    assert_eq!(Pointer::from_tokens(&pointer.tokens()), pointer);
}

#[test]
fn ordering_follows_the_canonical_text() {
    let mut pointers = [
        Pointer::parse("/z").expect("valid"),
        Pointer::parse("/a").expect("valid"),
    ];
    pointers.sort_by(|left, right| left.as_str().cmp(right.as_str()));
    assert_eq!(pointers[0].as_str(), "/a");
}

#[test]
fn each_refusal_names_the_pointer_and_its_reason() {
    let message = |text: &str| match Pointer::parse(text) {
        Err(DomainError::Semantic(message)) => message,
        other => panic!("expected a refusal, got {other:?}"),
    };
    assert_eq!(
        message("a/b"),
        "the JSON pointer a/b must be empty or begin with a slash"
    );
    assert_eq!(
        message("/a~2b"),
        "the JSON pointer /a~2b contains the unknown escape ~2"
    );
    assert_eq!(message("/a~"), "the JSON pointer /a~ ends with a dangling tilde");
}

#[test]
fn tokens_round_trip_through_their_encoding() {
    let tokens = vec!["a/b".to_owned(), "~".to_owned(), String::new()];
    let pointer = Pointer::from_tokens(&tokens);
    assert_eq!(pointer.as_str(), "/a~1b/~0/");
    assert_eq!(pointer.tokens(), tokens);
    assert_eq!(Pointer::parse(pointer.as_str()).expect("canonical"), pointer);
}
