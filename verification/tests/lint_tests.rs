use commit_message_lints::commit_message::CommitMessage;
use commit_message_lints::lints::{
    lint, lint_duplicated_trailers, lint_missing_jira_issue_key, lint_missing_pivotal_tracker_id,
    Lint, LintCode, LintProblem, Lints,
};
use commit_message_lints::report::format_lint_problems;

fn test_has_missing_pivotal_tracker_id(message: &str, expected: &Option<LintProblem>) {
    let actual = &lint_missing_pivotal_tracker_id(&CommitMessage::new(message.into()));
    assert_eq!(
        actual, expected,
        "Message {:?} should have returned {:?}, found {:?}",
        message, expected, actual
    );
}

fn pivotal_problem() -> Option<LintProblem> {
    Some(LintProblem::new(
        "\nYour commit is missing a Pivotal Tracker Id\n\nYou can fix this by adding the \
         Id in one of the styles below to the commit message\n[Delivers \
         #12345678]\n[fixes #12345678]\n[finishes #12345678]\n[#12345884 \
         #12345678]\n[#12345884,#12345678]\n[#12345678],[#12345884]\nThis will address \
         [#12345884]\n"
            .into(),
        LintCode::PivotalTrackerIdMissing,
    ))
}

#[test]
fn with_id() {
    test_has_missing_pivotal_tracker_id(
        "\nAn example commit\n\nThis is an example commit\n\n[#12345678]\n",
        &None,
    );
}

#[test]
fn multiple_ids() {
    test_has_missing_pivotal_tracker_id(
        "\nAn example commit\n\nThis is an example commit\n\n[#12345678,#87654321]\n",
        &None,
    );
    test_has_missing_pivotal_tracker_id(
        "\nAn example commit\n\nThis is an example commit\n\n[#12345678,#87654321,#11223344]\n",
        &None,
    );
    test_has_missing_pivotal_tracker_id(
        "\nAn example commit\n\nThis is an example commit\n\n[#12345678 #87654321 #11223344]\n",
        &None,
    );
}

#[test]
fn id_with_fixed_state_change() {
    test_has_missing_pivotal_tracker_id(
        "\nAn example commit\n\nThis is an example commit\n\n[fix #12345678]\n",
        &None,
    );
    test_has_missing_pivotal_tracker_id(
        "\nAn example commit\n\nThis is an example commit\n\n[FIX #12345678]\n",
        &None,
    );
    test_has_missing_pivotal_tracker_id(
        "\nAn example commit\n\nThis is an example commit\n\n[Fix #12345678]\n",
        &None,
    );
    test_has_missing_pivotal_tracker_id(
        "\nAn example commit\n\nThis is an example commit\n\n[fixed #12345678]\n",
        &None,
    );
    test_has_missing_pivotal_tracker_id(
        "\nAn example commit\n\nThis is an example commit\n\n[fixes #12345678]\n",
        &None,
    );
}

#[test]
fn id_with_complete_state_change() {
    test_has_missing_pivotal_tracker_id(
        "\nAn example commit\n\nThis is an example commit\n\n[complete #12345678]\n",
        &None,
    );
    test_has_missing_pivotal_tracker_id(
        "\nAn example commit\n\nThis is an example commit\n\n[completed #12345678]\n",
        &None,
    );
    test_has_missing_pivotal_tracker_id(
        "\nAn example commit\n\nThis is an example commit\n\n[Completed #12345678]\n",
        &None,
    );
    test_has_missing_pivotal_tracker_id(
        "\nAn example commit\n\nThis is an example commit\n\n[completes #12345678]\n",
        &None,
    );
}

#[test]
fn id_with_finished_state_change() {
    test_has_missing_pivotal_tracker_id(
        "\nAn example commit\n\nThis is an example commit\n\n[finish #12345678]\n",
        &None,
    );
    test_has_missing_pivotal_tracker_id(
        "\nAn example commit\n\nThis is an example commit\n\n[finished #12345678]\n",
        &None,
    );
    test_has_missing_pivotal_tracker_id(
        "\nAn example commit\n\nThis is an example commit\n\n[finishes #12345678]\n",
        &None,
    );
}

#[test]
fn id_with_delivered_state_change() {
    test_has_missing_pivotal_tracker_id(
        "\nAn example commit\n\nThis is an example commit\n\n[deliver #12345678]\n",
        &None,
    );
    test_has_missing_pivotal_tracker_id(
        "\nAn example commit\n\nThis is an example commit\n\n[delivered #12345678]\n",
        &None,
    );
    test_has_missing_pivotal_tracker_id(
        "\nAn example commit\n\nThis is an example commit\n\n[delivers #12345678]\n",
        &None,
    );
}

#[test]
fn id_with_state_change_and_multiple_ids() {
    test_has_missing_pivotal_tracker_id(
        "\nAn example commit\n\nThis is an example commit\n\n[fix #12345678 #12345678]\n",
        &None,
    );
}

#[test]
fn id_with_prefixed_text() {
    test_has_missing_pivotal_tracker_id(
        "\nAn example commit\n\nThis is an example commit\n\nFinally [fix #12345678 #12345678]\n",
        &None,
    );
}

#[test]
fn invalid_state_change() {
    test_has_missing_pivotal_tracker_id(
        "\nAn example commit\n\nThis is an example commit\n\n[fake #12345678]\n",
        &pivotal_problem(),
    );
}

#[test]
fn missing_id_with_square_brackets() {
    test_has_missing_pivotal_tracker_id(
        "\nAn example commit\n\nThis is an example commit\n",
        &pivotal_problem(),
    );
    test_has_missing_pivotal_tracker_id(
        "\nAn example commit\n\nThis is an example commit\n\n[#]\n",
        &pivotal_problem(),
    );
}

#[test]
fn jira_issue_key_present() {
    let message = CommitMessage::new("JRA-123 An example commit\n".into());
    assert_eq!(None, lint_missing_jira_issue_key(&message));
}

#[test]
fn jira_issue_key_missing() {
    let message = CommitMessage::new("An example commit\n".into());
    let actual = lint_missing_jira_issue_key(&message);
    assert!(actual.is_some());
    assert_eq!(
        LintCode::JiraIssueKeyMissing,
        actual.expect("problem").code()
    );
}

#[test]
fn duplicated_signed_off_by_is_a_problem() {
    let message = CommitMessage::new(
        "An example commit\n\nSigned-off-by: Billie <billie@example.com>\nSigned-off-by: Billie <billie@example.com>\n"
            .into(),
    );
    let actual = lint_duplicated_trailers(&message);
    assert!(actual.is_some());
    assert_eq!(
        LintCode::DuplicatedTrailers,
        actual.expect("problem").code()
    );
}

#[test]
fn distinct_trailers_are_fine() {
    let message = CommitMessage::new(
        "An example commit\n\nSigned-off-by: Billie <billie@example.com>\nSigned-off-by: Ann <ann@example.com>\nCo-authored-by: Sam <sam@example.com>\n"
            .into(),
    );
    assert_eq!(None, lint_duplicated_trailers(&message));
}

#[test]
fn the_engine_preserves_the_active_lint_order() {
    let message = CommitMessage::new("An example commit\n".into());
    let problems = lint(
        &message,
        Lints::new(vec![Lint::PivotalTrackerIdMissing, Lint::JiraIssueKeyMissing]),
    );
    let codes: Vec<LintCode> = problems.iter().map(|p| p.code()).collect();
    assert_eq!(
        vec![LintCode::PivotalTrackerIdMissing, LintCode::JiraIssueKeyMissing],
        codes
    );

    let reversed = lint(
        &message,
        Lints::new(vec![Lint::JiraIssueKeyMissing, Lint::PivotalTrackerIdMissing]),
    );
    let reversed_codes: Vec<LintCode> = reversed.iter().map(|p| p.code()).collect();
    assert_eq!(
        vec![LintCode::JiraIssueKeyMissing, LintCode::PivotalTrackerIdMissing],
        reversed_codes
    );
}

#[test]
fn a_compliant_lint_contributes_nothing() {
    let message = CommitMessage::new("JRA-123 An example commit\n\n[#12345678]\n".into());
    let problems = lint(
        &message,
        Lints::new(vec![Lint::PivotalTrackerIdMissing, Lint::JiraIssueKeyMissing]),
    );
    assert_eq!(0, problems.len());
}

#[test]
fn one_lints_result_does_not_depend_on_the_other_active_lints() {
    let message = CommitMessage::new("An example commit\n\n[#12345678]\n".into());
    let alone = lint(&message, Lints::new(vec![Lint::JiraIssueKeyMissing]));
    let together = lint(
        &message,
        Lints::new(vec![Lint::PivotalTrackerIdMissing, Lint::JiraIssueKeyMissing]),
    );
    let jira_alone: Vec<&LintProblem> = alone
        .iter()
        .filter(|p| p.code() == LintCode::JiraIssueKeyMissing)
        .collect();
    let jira_together: Vec<&LintProblem> = together
        .iter()
        .filter(|p| p.code() == LintCode::JiraIssueKeyMissing)
        .collect();
    assert_eq!(jira_alone, jira_together);
}

#[test]
fn exit_codes_are_stable() {
    assert_eq!(3, LintCode::DuplicatedTrailers.exit_code());
    assert_eq!(4, LintCode::PivotalTrackerIdMissing.exit_code());
    assert_eq!(5, LintCode::JiraIssueKeyMissing.exit_code());
}

#[test]
fn no_problems_is_no_report() {
    let message = CommitMessage::new("An example commit\n".into());
    assert_eq!(None, format_lint_problems(&message, Vec::new()));
}

#[test]
fn a_single_problem_is_appended_after_a_separator() {
    let message = CommitMessage::new("An example commit".into());
    let problems = vec![LintProblem::new("A problem".into(), LintCode::JiraIssueKeyMissing)];
    let actual = format_lint_problems(&message, problems);
    assert_eq!(
        Some((
            "An example commit\n\n---\n\nA problem".to_string(),
            LintCode::JiraIssueKeyMissing
        )),
        actual
    );
}

#[test]
fn the_last_problems_code_wins_the_aggregate_report() {
    let message = CommitMessage::new("An example commit".into());
    let problems = vec![
        LintProblem::new("First problem".into(), LintCode::DuplicatedTrailers),
        LintProblem::new("Second problem".into(), LintCode::JiraIssueKeyMissing),
    ];
    let actual = format_lint_problems(&message, problems);
    assert_eq!(
        Some((
            "An example commit\n\n---\n\nFirst problem\n\nSecond problem".to_string(),
            LintCode::JiraIssueKeyMissing
        )),
        actual
    );
}

#[test]
fn subject_stops_at_the_first_blank_line() {
    let message = CommitMessage::new("Subject line\nstill subject\n\nBody\n".into());
    let subject: Vec<String> = message
        .subject_lines()
        .iter()
        .map(|l| l.iter().collect::<String>())
        .collect();
    assert_eq!(vec!["Subject line".to_string(), "still subject".to_string()], subject);
}

#[test]
fn matches_pattern_finds_a_match_anywhere() {
    let message = CommitMessage::new("An example commit [fixes #12345678]".into());
    assert!(message.matches_pattern(r"fixes #\d+"));
    assert!(!message.matches_pattern(r"closes #\d+"));
}

#[test]
fn trailers_are_the_key_value_lines_at_the_tail() {
    let message = CommitMessage::new(
        "An example commit\n\nBody text\n\nSigned-off-by: Billie <billie@example.com>\nCo-authored-by: Sam <sam@example.com>\n"
            .into(),
    );
    let trailers: Vec<(String, String)> = message
        .trailers()
        .iter()
        .map(|(k, v)| (k.iter().collect(), v.iter().collect()))
        .collect();
    assert_eq!(
        vec![
            (
                "Signed-off-by".to_string(),
                "Billie <billie@example.com>".to_string()
            ),
            (
                "Co-authored-by".to_string(),
                "Sam <sam@example.com>".to_string()
            ),
        ],
        trailers
    );
}

#[test]
fn a_body_line_is_no_trailer() {
    let message = CommitMessage::new("An example commit\n\nJust a body\n".into());
    assert_eq!(0, message.trailers().len());
}
