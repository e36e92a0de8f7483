use commit_message_lints::lints::Lint;
use commit_message_lints::resolve::get_lint_configuration;
use commit_message_lints::vcs::{InMemory, SnapshotStore, Vcs, VcsError};

#[test]
fn an_absent_key_reads_as_absent_not_false() {
    let store = InMemory::new();
    assert_eq!(Ok(None), store.get_bool("pb.lint.duplicated-trailers"));

    let mut configured = InMemory::new();
    configured
        .set_str("pb.lint.duplicated-trailers", "false")
        .expect("write");
    assert_eq!(
        Ok(Some(false)),
        configured.get_bool("pb.lint.duplicated-trailers")
    );
}

#[test]
fn a_value_that_is_not_a_boolean_is_a_read_error_not_absent() {
    let mut store = InMemory::new();
    store.set_str("pb.lint.duplicated-trailers", "yes").expect("write");
    assert_eq!(
        Err(VcsError::NotABoolean),
        store.get_bool("pb.lint.duplicated-trailers")
    );
}

#[test]
fn a_write_is_visible_to_the_very_next_read_on_the_snapshot_store() {
    let mut store = SnapshotStore::new();
    store.set_str("pb.example", "some value").expect("write");
    assert_eq!(
        Ok(Some("some value".to_string())),
        store.get_str("pb.example")
    );
}

#[test]
fn an_integer_written_reads_back_as_the_same_number() {
    let mut store = SnapshotStore::new();
    store.set_i64("pb.count", -42).expect("write");
    assert_eq!(Ok(Some(-42)), store.get_i64("pb.count"));

    store.set_i64("pb.count", i64::MIN).expect("write");
    assert_eq!(Ok(Some(i64::MIN)), store.get_i64("pb.count"));
    assert_eq!(
        Ok(Some("-9223372036854775808".to_string())),
        store.get_str("pb.count")
    );
}

#[test]
fn a_value_that_is_not_a_number_is_a_read_error() {
    let mut store = InMemory::new();
    store.set_str("pb.count", "7 dwarves").expect("write");
    assert_eq!(Err(VcsError::NotANumber), store.get_i64("pb.count"));
    assert_eq!(Ok(None), store.get_i64("pb.other"));
}

#[test]
fn removing_a_key_makes_it_absent_and_removing_an_absent_key_is_not_an_error() {
    let mut store = SnapshotStore::new();
    store.set_str("pb.example", "value").expect("write");
    store.remove("pb.example").expect("remove");
    assert_eq!(Ok(None), store.get_str("pb.example"));
    store.remove("pb.example").expect("remove absent");
}

#[test]
fn an_unconfigured_store_enables_the_default_on_lints_only() {
    let store = InMemory::new();
    let lints = get_lint_configuration(&store).expect("resolve");
    assert_eq!(&vec![Lint::DuplicatedTrailers], lints.to_vec());
}

#[test]
fn a_lint_explicitly_enabled_is_included_in_declaration_order() {
    let mut store = InMemory::new();
    store
        .set_str("pb.lint.jira-issue-key-missing", "true")
        .expect("write");
    let lints = get_lint_configuration(&store).expect("resolve");
    assert_eq!(
        &vec![Lint::DuplicatedTrailers, Lint::JiraIssueKeyMissing],
        lints.to_vec()
    );
}

#[test]
fn a_lint_explicitly_disabled_is_excluded() {
    let mut store = InMemory::new();
    store
        .set_str("pb.lint.duplicated-trailers", "false")
        .expect("write");
    let lints = get_lint_configuration(&store).expect("resolve");
    assert_eq!(0, lints.to_vec().len());
}

#[test]
fn a_malformed_flag_is_a_resolution_error_not_a_default() {
    let mut store = InMemory::new();
    store
        .set_str("pb.lint.pivotal-tracker-id-missing", "on")
        .expect("write");
    match get_lint_configuration(&store) {
        Err(e) => assert_eq!(VcsError::NotABoolean, e),
        Ok(_) => panic!("a malformed flag must not resolve"),
    }
}
