use session_wrapper::child::{minimum_child_version, ChildInvocation, ChildVersion};

#[test]
fn a_version_shaped_token_is_read_wherever_it_appears() {
    for bytes in [
        b"2.1.211".as_slice(),
        b"2.1.211\n",
        b"agent 2.1.211\n",
        b"2.1.211 (Agent CLI)\n",
        b"v2.1.211",
        b"Agent CLI 2.1.211 (build 4073f59)\n",
        b"2.1.211.4",
        b"2.1.211-rc.1",
    ] {
        assert_eq!(
            ChildVersion::parse(bytes),
            Some(minimum_child_version()),
            "{}",
            String::from_utf8_lossy(bytes)
        );
    }
}

#[test]
fn versions_order_by_component_rather_than_by_text() {
    let minimum = minimum_child_version();
    assert!(ChildVersion::parse(b"2.1.210").expect("version") < minimum);
    assert!(ChildVersion::parse(b"2.1.212").expect("version") > minimum);
    assert!(ChildVersion::parse(b"2.1.220 (Agent CLI)").expect("version") > minimum);
    assert!(ChildVersion::parse(b"2.1.210").expect("version").is_below(&minimum));
    assert!(!ChildVersion::parse(b"2.1.220").expect("version").is_below(&minimum));
}

#[test]
fn output_with_no_version_shaped_token_is_rejected() {
    for bytes in [
        b"".as_slice(),
        b"2.1",
        b"2.one.3",
        b"unknown",
        b"4294967296.1.1",
        &[0x80],
    ] {
        assert!(
            ChildVersion::parse(bytes).is_none(),
            "{}",
            String::from_utf8_lossy(bytes)
        );
    }
}

#[test]
fn a_later_run_answers_when_an_earlier_one_cannot() {
    assert_eq!(
        ChildVersion::parse(b"4294967296.1.1 then 3.0.07").map(|v| v.render()),
        Some("3.0.7".to_string())
    );
    assert_eq!(
        ChildVersion::parse(b"..1..2..3").map(|v| v.render()),
        Some("1.2.3".to_string())
    );
    assert_eq!(minimum_child_version().render(), "2.1.211");
}

#[test]
fn an_invocation_keeps_its_bytes() {
    let invocation = ChildInvocation::new(
        b"/usr/bin/agent".to_vec(),
        vec![b"--print".to_vec(), vec![0xff]],
        vec![(b"HOME".to_vec(), b"/h".to_vec())],
    );
    assert_eq!(invocation.program(), &b"/usr/bin/agent".to_vec());
    assert_eq!(invocation.argument_count(), 2);
    assert_eq!(invocation.arguments()[1], vec![0xff]);
    assert_eq!(invocation.environment().len(), 1);
}
