use session_wrapper::secret::{Fingerprint, Secret, SecretError};

const MAXIMUM: usize = 8 * 1024;

#[test]
fn one_pasted_line_survives_its_surrounding_whitespace() {
    let secret = Secret::parse_line(b"  sk-value \n").expect("a trimmed line parses");
    assert_eq!(secret.expose(), b"sk-value");
}

#[test]
fn every_refused_shape_names_its_own_reason() {
    let cases: [(&[u8], SecretError); 6] = [
        (b"", SecretError::Empty),
        (b"   \n\t ", SecretError::Empty),
        (b"first\nsecond\n", SecretError::MultipleLines),
        (b"value\r\nother", SecretError::MultipleLines),
        (b"va\x00lue", SecretError::ControlByte),
        (b"va\x7flue", SecretError::ControlByte),
    ];
    for (input, expected) in cases {
        assert_eq!(
            Secret::parse_line(input).err(),
            Some(expected),
            "input {input:?} must be refused"
        );
    }
    let long = vec![b'a'; MAXIMUM + 1];
    assert_eq!(Secret::parse_line(&long).err(), Some(SecretError::TooLong));
    assert!(Secret::parse_line(&long[..MAXIMUM]).is_ok());
}

#[test]
fn a_secret_never_renders_its_own_bytes() {
    let secret = Secret::parse_line(b"sk-not-in-the-output").expect("a line parses");
    let rendered = secret.redacted().to_string();
    assert_eq!(rendered, "Secret(<redacted>)");
    assert!(!rendered.contains("sk-not"));
}

#[test]
fn a_fingerprint_is_eight_lowercase_hexadecimal_characters() {
    let secret = Secret::parse_line(b"token").expect("a line parses");
    let fingerprint = Fingerprint::of(&secret);
    assert_eq!(fingerprint.as_str(), "3c469e9d");
    assert_eq!(Fingerprint::parse("3c469e9d".into()), Ok(fingerprint));
}

#[test]
fn a_malformed_stored_fingerprint_is_refused() {
    for value in ["3C469E9D", "3c469e9", "3c469e9da", "3c469e9g"] {
        assert!(
            Fingerprint::parse(value.into()).is_err(),
            "{value} must be refused"
        );
    }
}

#[test]
fn every_reason_is_its_own_sentence() {
    assert_eq!(SecretError::Empty.reason(), "no token was supplied");
    assert_eq!(
        SecretError::Cancelled.reason(),
        "entry was cancelled at the prompt"
    );
    assert_eq!(Secret::ingest_bound(), 8193);
    let stored = Secret::from_stored(b" kept as is ".to_vec());
    assert_eq!(stored.expose(), b" kept as is ");
}
