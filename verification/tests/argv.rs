use session_wrapper::argv::split;
use session_wrapper::error::DomainError;

fn args(values: &[&[u8]]) -> Vec<Vec<u8>> {
    values.iter().map(|value| value.to_vec()).collect()
}

#[test]
fn golden_argv_table() {
    let raw = vec![
        b"wrapper".to_vec(),
        b"--".to_vec(),
        Vec::new(),
        vec![0x66, 0x80, 0x6f],
        b"--".to_vec(),
    ];
    let result = split(&raw).expect("valid split");
    assert_eq!(result.wrapper(), &vec![b"wrapper".to_vec()]);
    assert_eq!(result.child(), &raw[2..].to_vec());
    assert!(result.sentinel());
    let empty = split(&Vec::new()).expect("total");
    assert!(empty.wrapper().is_empty());
}

#[test]
fn spelling_matrix() {
    for flag in [
        "--verbose",
        "--quiet",
        "-q",
        "--version",
        "-V",
        "--help",
        "-h",
    ] {
        let raw = args(&[b"w", flag.as_bytes(), b"child"]);
        assert_eq!(split(&raw).expect("split").wrapper().len(), 2);
    }
    for raw_flag in ["--Verbose", "--verb", "-qv", "--configg=x"] {
        let raw = args(&[b"w", raw_flag.as_bytes()]);
        assert_eq!(
            split(&raw).expect("split").child(),
            &vec![raw_flag.as_bytes().to_vec()]
        );
    }
    assert!(split(&args(&[b"w", b"--config", b"-x"])).is_err());
    assert_eq!(
        split(&args(&[b"w", b"--config=x"]))
            .expect("attached")
            .wrapper()
            .len(),
        2
    );
}

#[test]
fn split_is_total() {
    for bytes in [vec![], vec![0], vec![0x80], b"anything".to_vec()] {
        let _ = split(&vec![b"w".to_vec(), bytes]);
    }
}

#[test]
fn every_refusal_names_its_flag() {
    let message = |raw: &[&[u8]]| match split(&args(raw)) {
        Err(DomainError::InvalidArguments(message)) => message,
        other => panic!("expected a refusal, got {other:?}"),
    };
    assert_eq!(
        message(&[b"w", b"--verbose", b"-q"]),
        "--quiet conflicts with --verbose"
    );
    assert_eq!(
        message(&[b"w", b"--account=a", b"--account", b"b"]),
        "--account may not be repeated"
    );
    assert_eq!(message(&[b"w", b"--profile"]), "--profile requires a value");
    let repeated = split(&args(&[b"w", b"--verbose", b"--verbose", b"rest"])).expect("repeatable");
    assert_eq!(repeated.wrapper().len(), 3);
    let (wrapper, child) = split(&args(&[b"w", b"--config", b"c.toml", b"--", b"x"]))
        .expect("value and sentinel")
        .into_parts();
    assert_eq!(wrapper.len(), 3);
    assert_eq!(child, vec![b"x".to_vec()]);
}

#[test]
fn the_split_keeps_every_argument_in_order() {
    let cases: Vec<Vec<Vec<u8>>> = vec![
        args(&[b"w", b"--verbose", b"--account", b"work", b"--", b"--help", b"x"]),
        args(&[b"w", b"--config=/c.toml", b"-q", b"chat", b"--verbose"]),
        args(&[b"w"]),
        args(&[b"w", b"--"]),
    ];
    for raw in cases {
        let parts = split(&raw).expect("valid split");
        let mut joined = parts.wrapper().clone();
        if parts.sentinel() {
            joined.push(b"--".to_vec());
        }
        joined.extend(parts.child().iter().cloned());
        assert_eq!(joined, raw);
    }
}
