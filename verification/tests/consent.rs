use session_wrapper::consent::{decide, Consent};

#[test]
fn only_y_and_yes_consent() {
    for answer in ["y", "Y", "yes", "YES", " yes \n", "\tY\r\n"] {
        assert_eq!(
            decide(Some(answer)),
            Consent::Granted,
            "{answer:?} consents"
        );
    }
}

#[test]
fn everything_else_declines_including_silence() {
    for answer in [
        "",
        "\n",
        " ",
        "n",
        "N",
        "no",
        "maybe",
        "yess",
        "ye",
        "Yes please",
    ] {
        assert_eq!(
            decide(Some(answer)),
            Consent::Declined,
            "{answer:?} declines"
        );
    }
    assert_eq!(decide(None), Consent::Declined);
}

#[test]
fn granted_reports_only_consent() {
    assert!(Consent::Granted.granted());
    assert!(!Consent::Declined.granted());
    assert_eq!(decide(Some("\u{a0}yEs\u{2003}")), Consent::Granted);
}
