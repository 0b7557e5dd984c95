use session_wrapper::agent::Agent;
use session_wrapper::doc::Doc;
use session_wrapper::identifier::Identifier;
use session_wrapper::namespace::{Discriminator, DiscriminatorSource, Kind, Namespace};
use session_wrapper::witness::{judge, Ground, Marker, Observed, Process, Verdict};

fn space() -> Namespace {
    let machine = Discriminator::new(DiscriminatorSource::Machine, "machine-fixture")
        .expect("a value names a discriminator");
    Namespace::from_link(Kind::Pid, b"pid:[4026531836]", &machine).expect("a link names a namespace")
}

fn marker() -> Marker {
    let agent = Agent::new(space(), 4242, 987_654).expect("a process names an agent");
    Marker::from_agent(&agent, Some("boot-fixture".to_owned())).expect("a boot records")
}

fn observed(marker: &Marker) -> Observed {
    Observed {
        namespace: Some(marker.namespace().clone()),
        boot: Some("boot-fixture".to_owned()),
        process: Process::Running { started: 987_654 },
    }
}

fn doc_of_json(value: serde_json::Value) -> Doc {
    match value {
        serde_json::Value::Null => Doc::Null,
        serde_json::Value::Bool(flag) => Doc::Bool(flag),
        serde_json::Value::Number(number) => Doc::Number(number.to_string()),
        serde_json::Value::String(text) => Doc::Text(text),
        serde_json::Value::Array(items) => Doc::List(items.into_iter().map(doc_of_json).collect()),
        serde_json::Value::Object(entries) => Doc::Mapping(
            entries
                .into_iter()
                .map(|(key, value)| (Doc::Text(key), doc_of_json(value)))
                .collect(),
        ),
    }
}

/// Reads a JSON document's bytes the way a stored record is read back.
fn document(bytes: &[u8]) -> Option<Doc> {
    serde_json::from_slice::<serde_json::Value>(bytes).ok().map(doc_of_json)
}

/// Writes a document as compact JSON, keeping its own key order.
fn render(doc: &Doc) -> String {
    match doc {
        Doc::Null => "null".to_string(),
        Doc::Bool(flag) => flag.to_string(),
        Doc::Number(text) => text.clone(),
        Doc::Text(text) => serde_json::to_string(text).expect("string"),
        Doc::List(items) => format!("[{}]", items.iter().map(render).collect::<Vec<_>>().join(",")),
        Doc::Mapping(entries) => format!(
            "{{{}}}",
            entries
                .iter()
                .map(|(key, value)| format!("{}:{}", render(key), render(value)))
                .collect::<Vec<_>>()
                .join(",")
        ),
    }
}

/// Reads a marker back from stored bytes, as a later run does.
fn from_bytes(bytes: &[u8]) -> Option<Marker> {
    document(bytes).and_then(|doc| Marker::from_document(&doc))
}

fn judged(marker: &Marker, facts: &Observed, ground: Ground, verdict: Verdict) {
    assert_eq!(judge(marker, facts), ground);
    assert_eq!(ground.verdict(), verdict);
}

#[test]
fn a_record_without_a_boot_is_not_built() {
    let agent = Agent::new(space(), 1, 1).expect("a process names an agent");
    assert!(Marker::from_agent(&agent, None).is_none());
}

#[test]
fn a_running_agent_in_scope_is_live() {
    let marker = marker();
    judged(&marker, &observed(&marker), Ground::Running, Verdict::Live);
}

#[test]
fn an_exited_agent_is_dead() {
    let marker = marker();
    let facts = Observed {
        process: Process::Absent,
        ..observed(&marker)
    };
    judged(&marker, &facts, Ground::Gone, Verdict::Dead);
}

#[test]
fn a_reissued_identifier_is_dead() {
    let marker = marker();
    let facts = Observed {
        process: Process::Running { started: 1 },
        ..observed(&marker)
    };
    judged(&marker, &facts, Ground::Gone, Verdict::Dead);
}

#[test]
fn an_agent_under_a_foreign_boot_is_dead() {
    let marker = marker();
    let facts = Observed {
        boot: Some("another-boot".to_owned()),
        process: Process::Running { started: 987_654 },
        ..observed(&marker)
    };
    judged(&marker, &facts, Ground::ForeignBoot, Verdict::Dead);
}

#[test]
fn a_foreign_namespace_is_unknown_rather_than_dead() {
    let marker = marker();
    let facts = Observed {
        namespace: Some(
            "pid-000000000000000000000000"
                .parse::<Identifier>()
                .expect("identifier"),
        ),
        ..observed(&marker)
    };
    judged(&marker, &facts, Ground::Foreign, Verdict::Unknown);
}

#[test]
fn a_run_that_cannot_place_itself_judges_nothing() {
    let marker = marker();
    for facts in [
        Observed {
            namespace: None,
            ..observed(&marker)
        },
        Observed {
            boot: None,
            ..observed(&marker)
        },
    ] {
        judged(&marker, &facts, Ground::Unplaced, Verdict::Unknown);
    }
}

#[test]
fn an_unreadable_start_time_leaves_the_question_open() {
    let marker = marker();
    let facts = Observed {
        process: Process::Unreadable,
        ..observed(&marker)
    };
    judged(&marker, &facts, Ground::Unreadable, Verdict::Unknown);
}

#[test]
fn every_verdict_but_live_is_collectable() {
    assert!(!Verdict::Live.collectable());
    for verdict in [Verdict::Dead, Verdict::Unknown] {
        assert!(verdict.collectable(), "{:?} is collectable", verdict);
    }
}

#[test]
fn every_ground_and_verdict_carries_its_own_spelling() {
    let grounds = [
        Ground::Unrecorded,
        Ground::Unplaced,
        Ground::Foreign,
        Ground::ForeignBoot,
        Ground::Running,
        Ground::Gone,
        Ground::Unreadable,
    ];
    let mut spellings: Vec<&str> = grounds.iter().map(|it| it.spelling()).collect();
    spellings.sort_unstable();
    spellings.dedup();
    assert_eq!(spellings.len(), grounds.len());

    let verdicts = [Verdict::Live, Verdict::Dead, Verdict::Unknown];
    let mut words: Vec<&str> = verdicts.iter().map(|it| it.as_str()).collect();
    words.sort_unstable();
    words.dedup();
    assert_eq!(words.len(), verdicts.len());
}

#[test]
fn a_marker_records_the_agent_it_was_built_from() {
    let marker = marker();
    assert_eq!(marker.pid(), 4242);
    assert_eq!(marker.started(), 987_654);
    assert!(marker.is_current());
    assert_eq!(marker.namespace().as_str().len(), 28);
}

#[test]
fn a_marker_roundtrips_through_its_document() {
    let marker = marker();
    let mut bytes = render(&marker.to_document()).into_bytes();
    bytes.push(b'\n');
    assert_eq!(from_bytes(&bytes), Some(marker));
}

#[test]
fn a_terminal_keyed_record_is_not_read() {
    let v1 = br#"{"version":1,"rung":"tty","device":"/dev/pts/3","namespace":"pid-1"}"#;
    assert_eq!(from_bytes(v1), None);
}

#[test]
fn garbage_is_not_a_marker() {
    assert_eq!(from_bytes(b"not json"), None);
    assert_eq!(from_bytes(b"{}"), None);
}

#[test]
fn the_marker_document_spells_every_field() {
    let marker = marker();
    assert_eq!(
        render(&marker.to_document()),
        format!(
            r#"{{"version":2,"pid":4242,"started":987654,"namespace":"{}","boot":"boot-fixture"}}"#,
            marker.namespace().as_str()
        )
    );
}

#[test]
fn a_marker_of_another_version_or_with_a_bad_field_is_not_read() {
    let namespace = marker().namespace().as_str().to_owned();
    let record = |version: &str, pid: &str, started: &str, namespace: &str| {
        format!(
            r#"{{"version":{version},"pid":{pid},"started":{started},"namespace":"{namespace}","boot":"b","extra":true}}"#
        )
    };
    let current = from_bytes(record("2", "7", "9", &namespace).as_bytes()).expect("a current record reads");
    assert_eq!((current.pid(), current.started(), current.boot.as_str()), (7, 9, "b"));
    assert_eq!(from_bytes(record("3", "7", "9", &namespace).as_bytes()), None);
    assert_eq!(from_bytes(record("2", "4294967296", "9", &namespace).as_bytes()), None);
    assert_eq!(from_bytes(record("2", "-7", "9", &namespace).as_bytes()), None);
    assert_eq!(from_bytes(record("2", "7", "9.5", &namespace).as_bytes()), None);
    assert_eq!(from_bytes(record("2", "7", "9", "Not An Identifier").as_bytes()), None);
}
