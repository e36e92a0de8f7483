//! Aggregation of lint problems into one report: the original message, a
//! separator, then every help message in evaluation order; the exit code is
//! the last problem's code.

use vstd::prelude::*;

use crate::commit_message::CommitMessage;
use crate::lints::{LintCode, LintProblem};

verus! {

/// The help messages joined with blank lines, in order.
pub open spec fn joined_helps(ps: Seq<(Seq<char>, LintCode)>) -> Seq<char>
    decreases ps.len(),
{
    if ps.len() <= 1 {
        if ps.len() == 1 {
            ps[0].0
        } else {
            Seq::empty()
        }
    } else {
        ps[0].0 + "\n\n"@ + joined_helps(ps.skip(1))
    }
}

proof fn lemma_joined_helps_snoc(ps: Seq<(Seq<char>, LintCode)>, x: (Seq<char>, LintCode))
    requires
        ps.len() >= 1,
    ensures
        joined_helps(ps.push(x)) == joined_helps(ps) + "\n\n"@ + x.0,
    decreases ps.len(),
{
    let w = ps.push(x);
    if ps.len() == 1 {
        assert(w.skip(1) =~= seq![x]);
        assert(joined_helps(seq![x]) == x.0);
        assert(joined_helps(ps) == ps[0].0);
        assert(joined_helps(w) == ps[0].0 + "\n\n"@ + x.0);
    } else {
        assert(w.skip(1) =~= ps.skip(1).push(x));
        lemma_joined_helps_snoc(ps.skip(1), x);
        assert(joined_helps(w) == ps[0].0 + "\n\n"@ + (joined_helps(ps.skip(1)) + "\n\n"@ + x.0));
        assert(ps[0].0 + "\n\n"@ + (joined_helps(ps.skip(1)) + "\n\n"@ + x.0) =~= (ps[0].0 + "\n\n"@
            + joined_helps(ps.skip(1))) + "\n\n"@ + x.0);
    }
}

/// What the aggregated report of a message and its problems is: nothing when
/// there is no problem; else the original message, a `---` separator, the
/// help messages in order, and the code of the last problem.
pub open spec fn spec_format(msg: Seq<char>, ps: Seq<(Seq<char>, LintCode)>) -> Option<
    (Seq<char>, LintCode),
> {
    if ps.len() == 0 {
        None
    } else {
        Some((msg + "\n\n---\n\n"@ + joined_helps(ps), ps.last().1))
    }
}

pub open spec fn opt_report_view(o: Option<(String, LintCode)>) -> Option<(Seq<char>, LintCode)> {
    match o {
        Some(t) => Some((t.0@, t.1)),
        None => None,
    }
}

/// Aggregate the problems into one report and the exit code to use: the last
/// problem's code, the documented tie-break.
pub fn format_lint_problems(
    original_message: &CommitMessage,
    lint_problems: Vec<LintProblem>,
) -> (r: Option<(String, LintCode)>)
    ensures
        opt_report_view(r) == spec_format(original_message@, lint_problems.deep_view()),
{
    let n: usize = lint_problems.len();
    if n == 0 {
        return None;
    }
    let ghost dv = lint_problems.deep_view();
    proof {
        assert forall|k: int| 0 <= k < lint_problems@.len() implies #[trigger] dv[k]
            == lint_problems@[k]@ by {
            assert(dv[k] == lint_problems@[k].deep_view());
        }
    }
    let mut out = String::from_str(original_message.text());
    out.append("\n\n---\n\n");
    let ghost header = original_message@ + "\n\n---\n\n"@;
    proof {
        assert(out@ =~= header);
    }
    let mut i: usize = 0;
    while i < n
        invariant
            n == lint_problems@.len(),
            dv == lint_problems.deep_view(),
            forall|k: int| 0 <= k < n ==> #[trigger] dv[k] == lint_problems@[k]@,
            header == original_message@ + "\n\n---\n\n"@,
            0 < n,
            i <= n,
            i == 0 ==> out@ == header,
            i >= 1 ==> out@ == header + joined_helps(dv.take(i as int)),
        decreases n - i,
    {
        if i > 0 {
            out.append("\n\n");
        }
        out.append(lint_problems[i].help());
        proof {
            if i == 0 {
                assert(dv.take(1).len() == 1);
                assert(joined_helps(dv.take(1)) == dv.take(1)[0].0);
                assert(out@ =~= header + joined_helps(dv.take(1)));
            } else {
                assert(dv.take(i + 1) =~= dv.take(i as int).push(dv[i as int]));
                lemma_joined_helps_snoc(dv.take(i as int), dv[i as int]);
                assert(out@ =~= header + (joined_helps(dv.take(i as int)) + "\n\n"@
                    + dv[i as int].0));
                assert(header + (joined_helps(dv.take(i as int)) + "\n\n"@ + dv[i as int].0)
                    =~= header + joined_helps(dv.take(i + 1)));
            }
        }
        i = i + 1;
    }
    let code = lint_problems[n - 1].code();
    proof {
        assert(dv.take(n as int) =~= dv);
        assert(code == dv.last().1);
    }
    Some((out, code))
}

} // verus!
