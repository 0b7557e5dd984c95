use session_wrapper::account::{
    AccountSelection, AuthMode, AuthModeMetadata, RecordedAt, ReportMode, SelectionSource,
};
use session_wrapper::doc::Doc;
use session_wrapper::identifier::Identifier;
use session_wrapper::resolve::Source;

#[test]
fn invalid_is_the_pinned_list_only_spelling() {
    assert_eq!(ReportMode::Invalid.spelling(), "invalid");
}

#[test]
fn sources_have_only_the_public_account_spellings() {
    assert_eq!(SelectionSource::Flag.spelling(), "flag");
    assert_eq!(SelectionSource::Environment.spelling(), "environment");
    assert_eq!(SelectionSource::UserConfig.spelling(), "user-config");
    assert_eq!(SelectionSource::Marker.spelling(), "marker");
    assert_eq!(SelectionSource::Unselected.spelling(), "none");
    assert_eq!(
        SelectionSource::from(Source::Project),
        SelectionSource::Unselected
    );
}

#[test]
fn every_layer_maps_to_its_selection_source() {
    assert_eq!(SelectionSource::from(Source::Cli), SelectionSource::Flag);
    assert_eq!(
        SelectionSource::from(Source::Environment),
        SelectionSource::Environment
    );
    assert_eq!(SelectionSource::from(Source::User), SelectionSource::UserConfig);
    assert_eq!(
        SelectionSource::from(Source::Default),
        SelectionSource::Unselected
    );
}

#[test]
fn modes_spell_their_metadata_names() {
    assert_eq!(AuthMode::Login.spelling(), "login");
    assert_eq!(AuthMode::Token.spelling(), "token");
    assert_eq!(ReportMode::Login.spelling(), "login");
    assert_eq!(ReportMode::Token.spelling(), "token");
}

#[test]
fn a_recorded_timestamp_reads_back_verbatim() {
    let at = RecordedAt::parse("2026-08-11T12:34:56Z".to_string()).expect("valid");
    assert_eq!(at.as_str(), "2026-08-11T12:34:56Z");
    let metadata = AuthModeMetadata {
        mode: AuthMode::Token,
        recorded_at: at,
    };
    assert_eq!(metadata.mode, AuthMode::Token);
}

#[test]
fn a_leap_day_exists_only_in_leap_years() {
    assert!(RecordedAt::parse("2024-02-29T00:00:00Z".to_string()).is_ok());
    assert!(RecordedAt::parse("2000-02-29T00:00:00Z".to_string()).is_ok());
    assert_eq!(
        RecordedAt::parse("1900-02-29T00:00:00Z".to_string()),
        Err("recorded_at contains an out-of-range component".to_string())
    );
    assert_eq!(
        RecordedAt::parse("2023-02-29T00:00:00Z".to_string()),
        Err("recorded_at contains an out-of-range component".to_string())
    );
}

#[test]
fn an_out_of_range_component_is_refused() {
    for text in [
        "2026-13-01T00:00:00Z",
        "2026-00-01T00:00:00Z",
        "2026-04-31T00:00:00Z",
        "2026-01-00T00:00:00Z",
        "2026-01-01T24:00:00Z",
        "2026-01-01T00:60:00Z",
        "2026-01-01T00:00:60Z",
    ] {
        assert_eq!(
            RecordedAt::parse(text.to_string()),
            Err("recorded_at contains an out-of-range component".to_string()),
            "{text}"
        );
    }
}

#[test]
fn another_shape_is_refused() {
    for text in [
        "",
        "2026-08-11 12:34:56Z",
        "2026-08-11T12:34:56",
        "2026-08-11T12:34:56+00:00",
        "2026-8-11T12:34:56Z",
        "2026-08-1aT12:34:56Z",
    ] {
        assert_eq!(
            RecordedAt::parse(text.to_string()),
            Err("recorded_at must be RFC 3339 UTC seconds".to_string()),
            "{text}"
        );
    }
}

#[test]
fn a_selection_carries_its_account_and_source() {
    let none = AccountSelection::none();
    assert!(none.account().is_none());
    assert_eq!(none.source(), SelectionSource::Unselected);
    let work = Identifier::parse("work").expect("identifier");
    let chosen = AccountSelection::new(work, SelectionSource::Marker);
    assert_eq!(chosen.account().map(|a| a.as_str()), Some("work"));
    assert_eq!(chosen.source(), SelectionSource::Marker);
}

fn doc_of_json(value: serde_json::Value) -> Doc {
    match value {
        serde_json::Value::Null => Doc::Null,
        serde_json::Value::Bool(flag) => Doc::Bool(flag),
        serde_json::Value::Number(number) => Doc::Number(number.to_string()),
        serde_json::Value::String(text) => Doc::Text(text),
        serde_json::Value::Array(items) => Doc::List(items.into_iter().map(doc_of_json).collect()),
        serde_json::Value::Object(entries) => Doc::Mapping(
            entries
                .into_iter()
                .map(|(key, value)| (Doc::Text(key), doc_of_json(value)))
                .collect(),
        ),
    }
}

fn metadata(text: &str) -> Result<AuthModeMetadata, String> {
    let value: serde_json::Value = serde_json::from_str(text).map_err(|error| error.to_string())?;
    AuthModeMetadata::from_document(&doc_of_json(value))
}

#[test]
fn metadata_requires_typed_fields_but_accepts_future_token_fields() {
    let value = metadata(
        r#"{"mode":"token","recorded_at":"2026-08-11T12:34:56Z","fingerprint":"sha256[..8]"}"#,
    )
    .expect("token metadata");
    assert_eq!(value.mode, AuthMode::Token);
    assert!(metadata(r#"{"mode":"login"}"#).is_err());
    assert!(metadata(r#"{"mode":"other","recorded_at":"2026-08-11T12:34:56Z"}"#).is_err());
}

#[test]
fn metadata_refusals_name_the_field() {
    assert_eq!(metadata(r#"{"recorded_at":"2026-08-11T12:34:56Z"}"#).unwrap_err(), "missing field `mode`");
    assert_eq!(metadata(r#"{"mode":"login"}"#).unwrap_err(), "missing field `recorded_at`");
    assert_eq!(metadata(r#"{"mode":1}"#).unwrap_err(), "mode must be login or token");
    assert_eq!(metadata(r#"{"mode":"login","recorded_at":5}"#).unwrap_err(), "recorded_at must be text");
    assert_eq!(metadata("[]").unwrap_err(), "metadata must be an object");
    assert_eq!(
        metadata(r#"{"mode":"login","recorded_at":"2026-02-30T00:00:00Z"}"#).unwrap_err(),
        "recorded_at contains an out-of-range component"
    );
    let login = metadata(r#"{"mode":"login","recorded_at":"2024-02-29T23:59:59Z"}"#).expect("login metadata");
    assert_eq!((login.mode, login.recorded_at.as_str()), (AuthMode::Login, "2024-02-29T23:59:59Z"));
}
