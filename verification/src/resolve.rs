//! The lint-configuration resolver: reads the config store to decide, per
//! lint, whether it is active, producing the ordered collection the engine
//! runs. Output order is the declaration order of the lint enumeration,
//! never config-file order.

use vstd::prelude::*;

use crate::lints::{Lint, Lints};
use crate::vcs::{spec_get_bool, Vcs, VcsError};

verus! {

/// The configuration key that enables or disables one lint.
pub open spec fn spec_config_key(lint: Lint) -> Seq<char> {
    match lint {
        Lint::DuplicatedTrailers => "pb.lint.duplicated-trailers"@,
        Lint::PivotalTrackerIdMissing => "pb.lint.pivotal-tracker-id-missing"@,
        Lint::JiraIssueKeyMissing => "pb.lint.jira-issue-key-missing"@,
    }
}

/// What a lint defaults to when its key is absent; a per-lint constant.
/// Checking for duplicated trailers is safe on any repository, so it alone
/// defaults on.
pub open spec fn spec_default_enabled(lint: Lint) -> bool {
    match lint {
        Lint::DuplicatedTrailers => true,
        Lint::PivotalTrackerIdMissing => false,
        Lint::JiraIssueKeyMissing => false,
    }
}

impl Lint {
    pub fn config_key(&self) -> (r: &str)
        ensures
            r@ == spec_config_key(*self),
    {
        match self {
            Lint::DuplicatedTrailers => "pb.lint.duplicated-trailers",
            Lint::PivotalTrackerIdMissing => "pb.lint.pivotal-tracker-id-missing",
            Lint::JiraIssueKeyMissing => "pb.lint.jira-issue-key-missing",
        }
    }

    pub fn default_enabled(&self) -> (r: bool)
        ensures
            r == spec_default_enabled(*self),
    {
        match self {
            Lint::DuplicatedTrailers => true,
            Lint::PivotalTrackerIdMissing => false,
            Lint::JiraIssueKeyMissing => false,
        }
    }
}

/// Every known lint, in declaration order.
pub open spec fn spec_all_lints() -> Seq<Lint> {
    seq![Lint::DuplicatedTrailers, Lint::PivotalTrackerIdMissing, Lint::JiraIssueKeyMissing]
}

/// Whether one lint is active under a store: the configured flag when the
/// key is present, the lint's default when absent, and an error when the
/// stored value is not a boolean.
pub open spec fn spec_enabled(store: Map<Seq<char>, Seq<char>>, lint: Lint) -> Result<
    bool,
    VcsError,
> {
    match spec_get_bool(store, spec_config_key(lint)) {
        Ok(Some(b)) => Ok(b),
        Ok(None) => Ok(spec_default_enabled(lint)),
        Err(e) => Err(e),
    }
}

/// The active lints among `lints`, in the order given; the first malformed
/// flag is the error — resolution never proceeds on partial state.
pub open spec fn spec_resolve_list(store: Map<Seq<char>, Seq<char>>, lints: Seq<Lint>) -> Result<
    Seq<Lint>,
    VcsError,
>
    decreases lints.len(),
{
    if lints.len() == 0 {
        Ok(Seq::empty())
    } else {
        match spec_enabled(store, lints[0]) {
            Err(e) => Err(e),
            Ok(enabled) => match spec_resolve_list(store, lints.skip(1)) {
                Err(e) => Err(e),
                Ok(rest) => Ok(
                    if enabled {
                        seq![lints[0]] + rest
                    } else {
                        rest
                    },
                ),
            },
        }
    }
}

/// What the resolver returns on a store: the active lints in declaration
/// order.
pub open spec fn spec_resolve(store: Map<Seq<char>, Seq<char>>) -> Result<Seq<Lint>, VcsError> {
    spec_resolve_list(store, spec_all_lints())
}

fn enabled<V: Vcs>(vcs: &V, lint: Lint) -> (r: Result<bool, VcsError>)
    requires
        vcs.wf(),
    ensures
        r == spec_enabled(vcs.store(), lint),
{
    match vcs.get_bool(lint.config_key()) {
        Ok(Some(b)) => Ok(b),
        Ok(None) => Ok(lint.default_enabled()),
        Err(e) => Err(e),
    }
}

/// Resolve the active lints from the store: for each known lint, its flag
/// when configured, its documented default when absent; a malformed flag is
/// surfaced as an error, never treated as a default.
pub fn get_lint_configuration<V: Vcs>(vcs: &V) -> (r: Result<Lints, VcsError>)
    requires
        vcs.wf(),
    ensures
        match r {
            Ok(lints) => spec_resolve(vcs.store()) == Ok::<Seq<Lint>, VcsError>(lints@)
                && lints@.no_duplicates(),
            Err(e) => spec_resolve(vcs.store()) == Err::<Seq<Lint>, VcsError>(e),
        },
{
    let ghost store = vcs.store();
    let duplicated = match enabled(vcs, Lint::DuplicatedTrailers) {
        Ok(b) => b,
        Err(e) => {
            return Err(e);
        },
    };
    let pivotal = match enabled(vcs, Lint::PivotalTrackerIdMissing) {
        Ok(b) => b,
        Err(e) => {
            proof {
                lemma_resolve_unfold(store);
            }
            return Err(e);
        },
    };
    let jira = match enabled(vcs, Lint::JiraIssueKeyMissing) {
        Ok(b) => b,
        Err(e) => {
            proof {
                lemma_resolve_unfold(store);
            }
            return Err(e);
        },
    };
    let mut active: Vec<Lint> = Vec::new();
    if duplicated {
        active.push(Lint::DuplicatedTrailers);
    }
    if pivotal {
        active.push(Lint::PivotalTrackerIdMissing);
    }
    if jira {
        active.push(Lint::JiraIssueKeyMissing);
    }
    proof {
        lemma_resolve_unfold(store);
        if let Ok(expected) = spec_resolve(store) {
            assert(active@ =~= expected);
        }
        assert(active@.no_duplicates());
    }
    Ok(Lints::new(active))
}

/// `spec_resolve` spelled out over the three known lints.
proof fn lemma_resolve_unfold(store: Map<Seq<char>, Seq<char>>)
    ensures
        spec_resolve(store) == (match spec_enabled(store, Lint::DuplicatedTrailers) {
            Err(e) => Err::<Seq<Lint>, VcsError>(e),
            Ok(duplicated) => match spec_enabled(store, Lint::PivotalTrackerIdMissing) {
                Err(e) => Err::<Seq<Lint>, VcsError>(e),
                Ok(pivotal) => match spec_enabled(store, Lint::JiraIssueKeyMissing) {
                    Err(e) => Err::<Seq<Lint>, VcsError>(e),
                    Ok(jira) => Ok::<Seq<Lint>, VcsError>(
                        (if duplicated {
                            seq![Lint::DuplicatedTrailers]
                        } else {
                            Seq::empty()
                        }) + (if pivotal {
                            seq![Lint::PivotalTrackerIdMissing]
                        } else {
                            Seq::empty()
                        }) + (if jira {
                            seq![Lint::JiraIssueKeyMissing]
                        } else {
                            Seq::empty()
                        }),
                    ),
                },
            },
        }),
{
    let all = spec_all_lints();
    let tail1 = all.skip(1);
    let tail2 = tail1.skip(1);
    let tail3 = tail2.skip(1);
    assert(tail1 =~= seq![Lint::PivotalTrackerIdMissing, Lint::JiraIssueKeyMissing]);
    assert(tail2 =~= seq![Lint::JiraIssueKeyMissing]);
    assert(tail3 =~= Seq::<Lint>::empty());
    assert(spec_resolve_list(store, tail3) == Ok::<Seq<Lint>, VcsError>(Seq::empty()));
    if spec_enabled(store, Lint::DuplicatedTrailers) is Ok && spec_enabled(
        store,
        Lint::PivotalTrackerIdMissing,
    ) is Ok && spec_enabled(store, Lint::JiraIssueKeyMissing) is Ok {
        let duplicated = spec_enabled(store, Lint::DuplicatedTrailers)->Ok_0;
        let pivotal = spec_enabled(store, Lint::PivotalTrackerIdMissing)->Ok_0;
        let jira = spec_enabled(store, Lint::JiraIssueKeyMissing)->Ok_0;
        let expected = (if duplicated {
            seq![Lint::DuplicatedTrailers]
        } else {
            Seq::<Lint>::empty()
        }) + (if pivotal {
            seq![Lint::PivotalTrackerIdMissing]
        } else {
            Seq::<Lint>::empty()
        }) + (if jira {
            seq![Lint::JiraIssueKeyMissing]
        } else {
            Seq::<Lint>::empty()
        });
        assert(spec_resolve_list(store, all) == Ok::<Seq<Lint>, VcsError>(expected)) by {
            let r2 = spec_resolve_list(store, tail2)->Ok_0;
            let r1 = spec_resolve_list(store, tail1)->Ok_0;
            assert(spec_resolve_list(store, all)->Ok_0 =~= expected);
        }
    }
}

/// A lint whose documented default is on is active when its key is absent:
/// the resolver includes it.
pub proof fn lemma_default_enabled_included(store: Map<Seq<char>, Seq<char>>, lint: Lint)
    requires
        !store.contains_key(spec_config_key(lint)),
        spec_default_enabled(lint),
        spec_resolve(store) is Ok,
    ensures
        spec_resolve(store)->Ok_0.contains(lint),
{
    lemma_resolve_unfold(store);
    assert(spec_enabled(store, lint) == Ok::<bool, VcsError>(true));
    let r = spec_resolve(store)->Ok_0;
    assert(lint == Lint::DuplicatedTrailers);
    assert(r[0] == lint);
}

} // verus!
