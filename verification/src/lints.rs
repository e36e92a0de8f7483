//! The lint rules: a closed set of named validators, each a pure function
//! from a commit message to an optional problem, and the engine that runs an
//! ordered collection of them.

use vstd::prelude::*;

use crate::commit_message::{regex_find, CommitMessage};
use crate::text::{chars_eq, chars_start_with, has_prefix, split_lines, to_chars};

verus! {

/// The pattern a commit must match to carry a Pivotal Tracker Id: a
/// bracketed tag of an optional state word followed by `#<digits>` tokens
/// separated by comma or space.
pub const PIVOTAL_TRACKER_ID_PATTERN: &'static str =
    r"(?i)\[(((finish|fix)(ed|es)?|complete[ds]?|deliver(s|ed)?) )?#\d+([, ]#\d+)*]";

pub const PIVOTAL_TRACKER_HELP: &'static str = "\nYour commit is missing a Pivotal Tracker Id\n\nYou can fix this by adding the Id in one of the styles below to the commit message\n[Delivers #12345678]\n[fixes #12345678]\n[finishes #12345678]\n[#12345884 #12345678]\n[#12345884,#12345678]\n[#12345678],[#12345884]\nThis will address [#12345884]\n";

/// The pattern a commit must match to carry a JIRA issue key, such as
/// `JRA-123`.
pub const JIRA_ISSUE_KEY_PATTERN: &'static str = r"(?i)\b[A-Z]{2,}-[0-9]+\b";

pub const JIRA_ISSUE_KEY_HELP: &'static str = "\nYour commit is missing a JIRA Issue Key\n\nYou can fix this by adding a key like `JRA-123` to the commit message\n";

pub const DUPLICATED_TRAILERS_HELP: &'static str = "\nYour commit cannot have duplicated trailers\n\nThese are normally added accidentally when you amend a commit, and you can fix it by removing the duplicated lines\n";

/// One lint kind; the declaration order here is the evaluation and output
/// order of the engine, and the resolver's output order.
#[derive(Debug, Clone, Copy, PartialEq, Eq, Structural)]
pub enum Lint {
    DuplicatedTrailers,
    PivotalTrackerIdMissing,
    JiraIssueKeyMissing,
}

/// The stable identifier of a lint kind; its numeric value is the process
/// exit code hook callers rely on.
#[derive(Debug, Clone, Copy, PartialEq, Eq, Structural)]
pub enum LintCode {
    DuplicatedTrailers,
    PivotalTrackerIdMissing,
    JiraIssueKeyMissing,
}

/// The exit code of each lint code; stable across versions.
pub open spec fn spec_exit_code(code: LintCode) -> int {
    match code {
        LintCode::DuplicatedTrailers => 3,
        LintCode::PivotalTrackerIdMissing => 4,
        LintCode::JiraIssueKeyMissing => 5,
    }
}

impl LintCode {
    pub fn exit_code(&self) -> (r: i32)
        ensures
            r as int == spec_exit_code(*self),
    {
        match self {
            LintCode::DuplicatedTrailers => 3,
            LintCode::PivotalTrackerIdMissing => 4,
            LintCode::JiraIssueKeyMissing => 5,
        }
    }
}

/// The code a lint reports its problems under.
pub open spec fn spec_code_of(lint: Lint) -> LintCode {
    match lint {
        Lint::DuplicatedTrailers => LintCode::DuplicatedTrailers,
        Lint::PivotalTrackerIdMissing => LintCode::PivotalTrackerIdMissing,
        Lint::JiraIssueKeyMissing => LintCode::JiraIssueKeyMissing,
    }
}

/// A problem a lint found: a fixed help message and the code of the lint
/// that produced it.
#[derive(Debug)]
pub struct LintProblem {
    help: String,
    code: LintCode,
}

impl View for LintProblem {
    type V = (Seq<char>, LintCode);

    closed spec fn view(&self) -> (Seq<char>, LintCode) {
        (self.help@, self.code)
    }
}

impl DeepView for LintProblem {
    type V = (Seq<char>, LintCode);

    open spec fn deep_view(&self) -> (Seq<char>, LintCode) {
        self.view()
    }
}

impl LintProblem {
    pub fn new(help: String, code: LintCode) -> (r: LintProblem)
        ensures
            r@ == (help@, code),
    {
        LintProblem { help, code }
    }

    pub fn code(&self) -> (r: LintCode)
        ensures
            r == self@.1,
    {
        self.code
    }

    /// The help message, to show to the committer.
    pub fn help(&self) -> (r: &str)
        ensures
            r@ == self@.0,
    {
        self.help.as_str()
    }
}

impl PartialEq for LintProblem {
    fn eq(&self, other: &LintProblem) -> (r: bool) {
        self.help == other.help && self.code == other.code
    }
}

impl vstd::std_specs::cmp::PartialEqSpecImpl for LintProblem {
    open spec fn obeys_eq_spec() -> bool {
        true
    }

    open spec fn eq_spec(&self, other: &LintProblem) -> bool {
        self@ == other@
    }
}

/// Whether some trailer line with the given key appears twice, letter for
/// letter: two equal lines both starting with `<key>:`.
pub open spec fn spec_dup_trailer(lines: Seq<Seq<char>>, key: Seq<char>) -> bool {
    exists|i: int, j: int|
        0 <= i < j < lines.len() && lines[i] == lines[j] && has_prefix(lines[i], key.push(':'))
}

/// The duplicated-trailers rule: no `Signed-off-by` or `Co-authored-by`
/// line may be repeated.
pub open spec fn spec_has_duplicated_trailers(text: Seq<char>) -> bool {
    spec_dup_trailer(split_lines(text), "Signed-off-by"@) || spec_dup_trailer(
        split_lines(text),
        "Co-authored-by"@,
    )
}

fn has_duplicated_trailer(lines: &Vec<Vec<char>>, key: &str) -> (r: bool)
    ensures
        r == spec_dup_trailer(lines.deep_view(), key@),
{
    let mut prefix = to_chars(key);
    prefix.push(':');
    proof {
        assert(prefix@ =~= key@.push(':'));
    }
    let n: usize = lines.len();
    let ghost dv = lines.deep_view();
    proof {
        assert forall|k: int| 0 <= k < lines@.len() implies #[trigger] dv[k] == lines@[k]@ by {
            assert(dv[k] =~= lines@[k]@);
        }
    }
    let mut i: usize = 0;
    while i < n
        invariant
            n == lines@.len(),
            dv == lines.deep_view(),
            forall|k: int| 0 <= k < n ==> #[trigger] dv[k] == lines@[k]@,
            prefix@ == key@.push(':'),
            i <= n,
            forall|a: int, b: int|
                0 <= a < i && a < b < n ==> !(dv[a] == dv[b] && has_prefix(dv[a], key@.push(':'))),
        decreases n - i,
    {
        if chars_start_with(&lines[i], &prefix) {
            let mut j: usize = i + 1;
            while j < n
                invariant
                    n == lines@.len(),
                    dv == lines.deep_view(),
                    forall|k: int| 0 <= k < n ==> #[trigger] dv[k] == lines@[k]@,
                    prefix@ == key@.push(':'),
                    i < j <= n,
                    has_prefix(dv[i as int], key@.push(':')),
                    forall|b: int| i < b < j ==> dv[i as int] != dv[b],
                decreases n - j,
            {
                if chars_eq(&lines[i], &lines[j]) {
                    proof {
                        assert(dv[i as int] == dv[j as int] && has_prefix(
                            dv[i as int],
                            key@.push(':'),
                        ));
                    }
                    return true;
                }
                j = j + 1;
            }
        }
        i = i + 1;
    }
    false
}

/// Inspect the message for repeated trailer lines; `None` when compliant.
pub fn lint_duplicated_trailers(commit_message: &CommitMessage) -> (r: Option<LintProblem>)
    ensures
        opt_problem_view(r) == spec_lint_one(Lint::DuplicatedTrailers, commit_message@),
{
    let lines = commit_message.lines();
    let signed = has_duplicated_trailer(&lines, "Signed-off-by");
    let coauthored = has_duplicated_trailer(&lines, "Co-authored-by");
    if signed || coauthored {
        Some(
            LintProblem::new(
                String::from_str(DUPLICATED_TRAILERS_HELP),
                LintCode::DuplicatedTrailers,
            ),
        )
    } else {
        None
    }
}

/// Whether the commit text carries no Pivotal Tracker Id tag.
pub fn has_missing_pivotal_tracker_id(commit_message: &CommitMessage) -> (r: bool)
    ensures
        r == !regex_find(PIVOTAL_TRACKER_ID_PATTERN@, commit_message@),
{
    !commit_message.matches_pattern(PIVOTAL_TRACKER_ID_PATTERN)
}

/// Inspect the message for a Pivotal Tracker Id; `None` when compliant.
pub fn lint_missing_pivotal_tracker_id(commit_message: &CommitMessage) -> (r: Option<LintProblem>)
    ensures
        opt_problem_view(r) == spec_lint_one(Lint::PivotalTrackerIdMissing, commit_message@),
{
    if has_missing_pivotal_tracker_id(commit_message) {
        Some(
            LintProblem::new(
                String::from_str(PIVOTAL_TRACKER_HELP),
                LintCode::PivotalTrackerIdMissing,
            ),
        )
    } else {
        None
    }
}

/// Inspect the message for a JIRA issue key; `None` when compliant.
pub fn lint_missing_jira_issue_key(commit_message: &CommitMessage) -> (r: Option<LintProblem>)
    ensures
        opt_problem_view(r) == spec_lint_one(Lint::JiraIssueKeyMissing, commit_message@),
{
    if !commit_message.matches_pattern(JIRA_ISSUE_KEY_PATTERN) {
        Some(
            LintProblem::new(String::from_str(JIRA_ISSUE_KEY_HELP), LintCode::JiraIssueKeyMissing),
        )
    } else {
        None
    }
}

/// What one lint returns on one commit text: `None` when the text is
/// compliant, else the lint's fixed help message and code. A pure function
/// of the lint and the text alone.
pub open spec fn spec_lint_one(lint: Lint, text: Seq<char>) -> Option<(Seq<char>, LintCode)> {
    match lint {
        Lint::DuplicatedTrailers => if spec_has_duplicated_trailers(text) {
            Some((DUPLICATED_TRAILERS_HELP@, LintCode::DuplicatedTrailers))
        } else {
            None
        },
        Lint::PivotalTrackerIdMissing => if !regex_find(PIVOTAL_TRACKER_ID_PATTERN@, text) {
            Some((PIVOTAL_TRACKER_HELP@, LintCode::PivotalTrackerIdMissing))
        } else {
            None
        },
        Lint::JiraIssueKeyMissing => if !regex_find(JIRA_ISSUE_KEY_PATTERN@, text) {
            Some((JIRA_ISSUE_KEY_HELP@, LintCode::JiraIssueKeyMissing))
        } else {
            None
        },
    }
}

pub open spec fn opt_problem_view(o: Option<LintProblem>) -> Option<(Seq<char>, LintCode)> {
    match o {
        Some(p) => Some(p@),
        None => None,
    }
}

impl Lint {
    /// Run this lint against the message; `None` when compliant.
    pub fn lint(&self, commit_message: &CommitMessage) -> (r: Option<LintProblem>)
        ensures
            opt_problem_view(r) == spec_lint_one(*self, commit_message@),
    {
        match self {
            Lint::DuplicatedTrailers => lint_duplicated_trailers(commit_message),
            Lint::PivotalTrackerIdMissing => lint_missing_pivotal_tracker_id(commit_message),
            Lint::JiraIssueKeyMissing => lint_missing_jira_issue_key(commit_message),
        }
    }
}

/// An ordered collection of active lints; insertion order is evaluation
/// order is output order.
pub struct Lints {
    lints: Vec<Lint>,
}

impl View for Lints {
    type V = Seq<Lint>;

    closed spec fn view(&self) -> Seq<Lint> {
        self.lints@
    }
}

impl Lints {
    pub fn new(lints: Vec<Lint>) -> (r: Lints)
        ensures
            r@ == lints@,
    {
        Lints { lints }
    }

    /// The active lints, in order.
    pub fn to_vec(&self) -> (r: &Vec<Lint>)
        ensures
            r@ == self@,
    {
        &self.lints
    }
}

/// Run every active lint, in order, against the same message; a lint that
/// found no problem contributes nothing. The output preserves the
/// active-lint order, filtered to the lints that produced a problem.
pub fn lint(commit_message: &CommitMessage, lints: Lints) -> (r: Vec<LintProblem>)
    ensures
        r.deep_view() == lints@.filter_map(|l: Lint| spec_lint_one(l, commit_message@)),
{
    let ghost f = |l: Lint| spec_lint_one(l, commit_message@);
    let n: usize = lints.lints.len();
    let mut r: Vec<LintProblem> = Vec::new();
    let mut i: usize = 0;
    proof {
        assert(lints@.take(0).filter_map(f) =~= Seq::<(Seq<char>, LintCode)>::empty());
        assert(r.deep_view() =~= lints@.take(0).filter_map(f));
    }
    while i < n
        invariant
            n == lints@.len(),
            i <= n,
            r.deep_view() == lints@.take(i as int).filter_map(
                |l: Lint| spec_lint_one(l, commit_message@),
            ),
        decreases n - i,
    {
        let ghost fm = |l: Lint| spec_lint_one(l, commit_message@);
        let ghost dv = r.deep_view();
        let lint_i = lints.lints[i];
        let outcome = lint_i.lint(commit_message);
        proof {
            let t = lints@.take(i + 1);
            assert(t.drop_last() =~= lints@.take(i as int));
            assert(t.last() == lints@[i as int]);
        }
        match outcome {
            Some(problem) => {
                let ghost pv = problem@;
                r.push(problem);
                proof {
                    assert(r.deep_view() =~~= dv + seq![pv]);
                    assert(lints@.take(i + 1).filter_map(fm) == lints@.take(i as int).filter_map(
                        fm,
                    ) + seq![pv]);
                }
            },
            None => {
                proof {
                    assert(lints@.take(i + 1).filter_map(fm) == lints@.take(i as int).filter_map(
                        fm,
                    ));
                }
            },
        }
        i = i + 1;
    }
    proof {
        assert(lints@.take(n as int) =~= lints@);
    }
    r
}

/// The problems one lint alone would contribute: one element when it finds a
/// problem, none when the text is compliant.
pub open spec fn opt_seq(o: Option<(Seq<char>, LintCode)>) -> Seq<(Seq<char>, LintCode)> {
    match o {
        Some(p) => seq![p],
        None => Seq::empty(),
    }
}

/// Different lints report under different codes.
pub proof fn lemma_code_of_injective(a: Lint, b: Lint)
    requires
        a != b,
    ensures
        spec_code_of(a) != spec_code_of(b),
{
}

proof fn lemma_contribution(s: Seq<Lint>, text: Seq<char>, l: Lint)
    requires
        s.no_duplicates(),
    ensures
        s.contains(l) ==> s.filter_map(|x: Lint| spec_lint_one(x, text)).filter(
            |p: (Seq<char>, LintCode)| p.1 == spec_code_of(l),
        ) == opt_seq(spec_lint_one(l, text)),
        !s.contains(l) ==> s.filter_map(|x: Lint| spec_lint_one(x, text)).filter(
            |p: (Seq<char>, LintCode)| p.1 == spec_code_of(l),
        ) == Seq::<(Seq<char>, LintCode)>::empty(),
    decreases s.len(),
{
    reveal(Seq::filter);
    let f = |x: Lint| spec_lint_one(x, text);
    let pred = |p: (Seq<char>, LintCode)| p.1 == spec_code_of(l);
    if s.len() == 0 {
        assert(s.filter_map(f) == Seq::<(Seq<char>, LintCode)>::empty());
        assert(s.filter_map(f).filter(pred) =~= Seq::<(Seq<char>, LintCode)>::empty());
        assert(!s.contains(l));
    } else {
        let rest = s.drop_last();
        let last = s.last();
        assert(rest.no_duplicates()) by {
            assert(forall|i: int, j: int|
                0 <= i < j < rest.len() ==> s[i] != s[j]);
        }
        lemma_contribution(rest, text, l);
        let fm_rest = rest.filter_map(f);
        match f(last) {
            Some(p) => {
                assert(s.filter_map(f) == fm_rest + seq![p]);
                assert((fm_rest + seq![p]).drop_last() =~= fm_rest);
                assert((fm_rest + seq![p]).last() == p);
                if pred(p) {
                    assert((fm_rest + seq![p]).filter(pred) == fm_rest.filter(pred).push(p));
                } else {
                    assert((fm_rest + seq![p]).filter(pred) == fm_rest.filter(pred));
                }
                assert(p.1 == spec_code_of(last));
            },
            None => {
                assert(s.filter_map(f) == fm_rest);
            },
        }
        if last == l {
            assert(!rest.contains(l)) by {
                if rest.contains(l) {
                    let w = choose|w: int| 0 <= w < rest.len() && rest[w] == l;
                    assert(s[w] == s[s.len() - 1]);
                }
            }
            assert(s.contains(l)) by {
                assert(s[s.len() - 1] == l);
            }
            match f(l) {
                Some(p) => {
                    assert(s.filter_map(f).filter(pred) =~= opt_seq(f(l)));
                },
                None => {
                    assert(s.filter_map(f).filter(pred) =~= opt_seq(f(l)));
                },
            }
        } else {
            lemma_code_of_injective(last, l);
            if s.contains(l) {
                assert(rest.contains(l)) by {
                    let w = choose|w: int| 0 <= w < s.len() && s[w] == l;
                    assert(rest[w] == l);
                }
            } else {
                assert(!rest.contains(l)) by {
                    if rest.contains(l) {
                        let w = choose|w: int| 0 <= w < rest.len() && rest[w] == l;
                        assert(s[w] == l);
                    }
                }
            }
        }
    }
}

/// Independence: what one lint contributes never depends on which other
/// lints are active. In any two duplicate-free active sets that both include
/// lint `l`, the problems reported under `l`'s code are exactly the same —
/// present or absent regardless of the company `l` keeps.
pub proof fn lemma_lint_independence(text: Seq<char>, s1: Seq<Lint>, s2: Seq<Lint>, l: Lint)
    requires
        s1.no_duplicates(),
        s2.no_duplicates(),
        s1.contains(l),
        s2.contains(l),
    ensures
        s1.filter_map(|x: Lint| spec_lint_one(x, text)).filter(
            |p: (Seq<char>, LintCode)| p.1 == spec_code_of(l),
        ) == s2.filter_map(|x: Lint| spec_lint_one(x, text)).filter(
            |p: (Seq<char>, LintCode)| p.1 == spec_code_of(l),
        ),
        s1.filter_map(|x: Lint| spec_lint_one(x, text)).filter(
            |p: (Seq<char>, LintCode)| p.1 == spec_code_of(l),
        ) == opt_seq(spec_lint_one(l, text)),
{
    lemma_contribution(s1, text, l);
    lemma_contribution(s2, text, l);
}

} // verus!
