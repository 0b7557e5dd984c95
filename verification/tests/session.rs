use session_wrapper::error::ErrorKind;
use session_wrapper::session::{clean_confirmation_unavailable, clean_plan};
use session_wrapper::witness::Ground;

#[test]
fn only_a_proven_live_session_is_kept() {
    let grounds = vec![
        Ground::Running,
        Ground::Gone,
        Ground::Foreign,
        Ground::ForeignBoot,
        Ground::Running,
        Ground::Unreadable,
    ];
    assert_eq!(clean_plan(&grounds).expect("plan"), vec![1, 2, 3, 5]);
}

#[test]
fn a_run_that_cannot_place_itself_refuses_to_clean() {
    let error = clean_plan(&vec![Ground::Gone, Ground::Unplaced]).expect_err("refused");
    assert_eq!(error.kind(), ErrorKind::Unavailable);
    assert_eq!(error.diagnostic().what, "session clean cannot judge this tree");
    assert_eq!(
        error.diagnostic().hint,
        "see what each session is judged as with: session-wrapper session list"
    );
}

#[test]
fn nothing_to_collect_is_an_empty_plan() {
    assert!(clean_plan(&vec![Ground::Running]).expect("plan").is_empty());
    assert!(clean_plan(&Vec::new()).expect("plan").is_empty());
    let error = clean_confirmation_unavailable("no tty".to_string());
    assert_eq!(error.diagnostic().hint, "pass --yes to collect without confirming");
}
