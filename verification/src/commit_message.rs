//! The commit-message value: an immutable wrapper around raw commit text,
//! with pattern matching and structural queries, all pure functions of the
//! text.

use vstd::prelude::*;

use crate::text::{idx_of, lemma_idx_of, lemma_idx_of_first, split_lines, split_lines_exec, subrange, to_chars};

verus! {

/// Whether the regular expression `pattern` matches anywhere in `text`.
/// Matching is a pure function of the pattern and the text; the name is
/// given meaning by `regex_is_match` below.
pub uninterp spec fn regex_find(pattern: Seq<char>, text: Seq<char>) -> bool;

/// Relies on regex::Regex::new and regex::Regex::is_match: whether a pattern
/// matches anywhere in a haystack depends on the pattern and the haystack
/// alone. A pattern that does not compile matches nothing.
#[verifier::external_body]
fn regex_is_match(pattern: &str, text: &str) -> (r: bool)
    ensures
        r == regex_find(pattern@, text@),
{
    match regex::Regex::new(pattern) {
        Ok(re) => re.is_match(text),
        Err(_) => false,
    }
}

/// The index of the first empty line, or the length when every line is
/// nonempty.
pub open spec fn first_empty(lines: Seq<Seq<char>>) -> int
    decreases lines.len(),
{
    if lines.len() == 0 {
        0
    } else if lines[0].len() == 0 {
        0
    } else {
        1 + first_empty(lines.skip(1))
    }
}

pub proof fn lemma_first_empty(lines: Seq<Seq<char>>, k: int)
    requires
        0 <= k <= lines.len(),
        forall|j: int| 0 <= j < k ==> (#[trigger] lines[j]).len() != 0,
        k < lines.len() ==> lines[k].len() == 0,
    ensures
        first_empty(lines) == k,
    decreases lines.len(),
{
    if k > 0 {
        assert(forall|j: int| 0 <= j < k - 1 ==> lines.skip(1)[j] == lines[j + 1]);
        lemma_first_empty(lines.skip(1), k - 1);
    }
}

/// The subject of a commit text: its lines up to the first blank line.
pub open spec fn spec_subject(text: Seq<char>) -> Seq<Seq<char>> {
    split_lines(text).take(first_empty(split_lines(text)))
}

/// A commit message: sole owner of its raw text. All queries are pure
/// functions of that text; the value never changes after construction.
pub struct CommitMessage {
    text: String,
}

impl View for CommitMessage {
    type V = Seq<char>;

    closed spec fn view(&self) -> Seq<char> {
        self.text@
    }
}

impl CommitMessage {
    /// Accepts any text, including empty; no validation.
    pub fn new(text: String) -> (r: CommitMessage)
        ensures
            r@ == text@,
    {
        CommitMessage { text }
    }

    /// The raw text, unchanged.
    pub fn text(&self) -> (r: &str)
        ensures
            r@ == self@,
    {
        self.text.as_str()
    }

    /// True iff the compiled pattern finds at least one match anywhere in
    /// the raw text. Case sensitivity is a property of the pattern.
    pub fn matches_pattern(&self, pattern: &str) -> (r: bool)
        ensures
            r == regex_find(pattern@, self@),
    {
        regex_is_match(pattern, self.text.as_str())
    }

    /// The lines of the raw text, split at every newline.
    pub fn lines(&self) -> (r: Vec<Vec<char>>)
        ensures
            r.deep_view() == split_lines(self@),
    {
        let chars = to_chars(self.text.as_str());
        split_lines_exec(&chars)
    }

    /// The subject: the lines of the text up to the first blank line.
    pub fn subject_lines(&self) -> (r: Vec<Vec<char>>)
        ensures
            r.deep_view() == spec_subject(self@),
    {
        let lines = self.lines();
        let n: usize = lines.len();
        let mut r: Vec<Vec<char>> = Vec::new();
        let mut i: usize = 0;
        while i < n
            invariant
                n == lines@.len(),
                i <= n,
                lines.deep_view() == split_lines(self@),
                r.deep_view() == lines.deep_view().take(i as int),
                forall|j: int| 0 <= j < i ==> (#[trigger] lines.deep_view()[j]).len() != 0,
            decreases n - i,
        {
            let line = &lines[i];
            if line.len() == 0 {
                proof {
                    lemma_first_empty(lines.deep_view(), i as int);
                }
                return r;
            }
            let ghost dv = r.deep_view();
            r.push(subrange(line, 0, line.len()));
            proof {
                assert(line@.subrange(0, line@.len() as int) =~= line@);
                assert(r.deep_view() =~~= dv + seq![lines.deep_view()[i as int]]);
                assert(r.deep_view() =~~= lines.deep_view().take(i + 1));
            }
            i = i + 1;
        }
        proof {
            lemma_first_empty(lines.deep_view(), n as int);
            assert(lines.deep_view().take(n as int) =~= lines.deep_view());
        }
        r
    }
}

/// Whether a line has the shape `<key>: <value>` with a nonempty key: the
/// shape of a trailer.
pub open spec fn is_trailer_line(l: Seq<char>) -> bool {
    l.contains(':') && idx_of(l, ':') >= 1 && idx_of(l, ':') + 1 < l.len() && l[idx_of(l, ':')
        + 1] == ' '
}

/// The key and value of a trailer line, split at the first `: `.
pub open spec fn trailer_of(l: Seq<char>) -> (Seq<char>, Seq<char>) {
    (l.take(idx_of(l, ':')), l.skip(idx_of(l, ':') + 2))
}

/// The lines with any trailing empty lines removed.
pub open spec fn drop_trailing_empty(lines: Seq<Seq<char>>) -> Seq<Seq<char>>
    decreases lines.len(),
{
    if lines.len() > 0 && lines.last().len() == 0 {
        drop_trailing_empty(lines.drop_last())
    } else {
        lines
    }
}

/// The maximal suffix of trailer lines, each split into key and value.
pub open spec fn trailer_suffix(lines: Seq<Seq<char>>) -> Seq<(Seq<char>, Seq<char>)>
    decreases lines.len(),
{
    if lines.len() == 0 {
        Seq::empty()
    } else if is_trailer_line(lines.last()) {
        trailer_suffix(lines.drop_last()).push(trailer_of(lines.last()))
    } else {
        Seq::empty()
    }
}

/// The trailers of a commit text: the `<key>: <value>` lines at its tail,
/// order-preserving, ignoring trailing blank lines.
pub open spec fn spec_trailers(text: Seq<char>) -> Seq<(Seq<char>, Seq<char>)> {
    trailer_suffix(drop_trailing_empty(split_lines(text)))
}

proof fn lemma_drop_trailing_empty_at(lines: Seq<Seq<char>>, end: int)
    requires
        0 <= end <= lines.len(),
        forall|j: int| end <= j < lines.len() ==> (#[trigger] lines[j]).len() == 0,
        end > 0 ==> lines[end - 1].len() != 0,
    ensures
        drop_trailing_empty(lines) == lines.take(end),
    decreases lines.len(),
{
    if lines.len() > 0 && lines.last().len() == 0 {
        assert(end < lines.len());
        assert(forall|j: int|
            end <= j < lines.drop_last().len() ==> lines.drop_last()[j] == lines[j]);
        assert(end > 0 ==> lines.drop_last()[end - 1] == lines[end - 1]);
        lemma_drop_trailing_empty_at(lines.drop_last(), end);
        assert(lines.drop_last().take(end) =~= lines.take(end));
    } else {
        assert(end == lines.len());
        assert(lines.take(end) =~= lines);
    }
}

proof fn lemma_trailer_suffix_at(lines: Seq<Seq<char>>, start: int)
    requires
        0 <= start <= lines.len(),
        forall|j: int| start <= j < lines.len() ==> is_trailer_line(#[trigger] lines[j]),
        start > 0 ==> !is_trailer_line(lines[start - 1]),
    ensures
        trailer_suffix(lines) == Seq::new(
            (lines.len() - start) as nat,
            |k: int| trailer_of(lines[start + k]),
        ),
    decreases lines.len(),
{
    if lines.len() == 0 {
        assert(trailer_suffix(lines) =~= Seq::new(0nat, |k: int| trailer_of(lines[start + k])));
    } else if start == lines.len() {
        assert(!is_trailer_line(lines.last()));
        assert(trailer_suffix(lines) =~= Seq::new(0nat, |k: int| trailer_of(lines[start + k])));
    } else {
        assert(is_trailer_line(lines.last()));
        assert(forall|j: int|
            start <= j < lines.drop_last().len() ==> lines.drop_last()[j] == lines[j]);
        assert(start > 0 ==> lines.drop_last()[start - 1] == lines[start - 1]);
        lemma_trailer_suffix_at(lines.drop_last(), start);
        assert(trailer_suffix(lines) =~= Seq::new(
            (lines.len() - start) as nat,
            |k: int| trailer_of(lines[start + k]),
        ));
    }
}

/// The key and value of one line, when it has the trailer shape.
fn parse_trailer(l: &Vec<char>) -> (r: Option<(Vec<char>, Vec<char>)>)
    ensures
        match r {
            Some(t) => is_trailer_line(l@) && t.0@ == trailer_of(l@).0 && t.1@ == trailer_of(
                l@,
            ).1,
            None => !is_trailer_line(l@),
        },
{
    let n: usize = l.len();
    let mut i: usize = 0;
    while i < n
        invariant
            n == l@.len(),
            i <= n,
            forall|j: int| 0 <= j < i ==> l@[j] != ':',
        decreases n - i,
    {
        if l[i] == ':' {
            proof {
                assert(l@.contains(':')) by {
                    assert(l@[i as int] == ':');
                }
                lemma_idx_of_first(l@, ':', i as int);
            }
            if i >= 1 && i + 1 < n {
                if l[i + 1] == ' ' {
                    let key = subrange(l, 0, i);
                    let value = subrange(l, i + 2, n);
                    proof {
                        assert(key@ =~= trailer_of(l@).0);
                        assert(value@ =~= trailer_of(l@).1);
                    }
                    return Some((key, value));
                }
            }
            return None;
        }
        i = i + 1;
    }
    proof {
        if l@.contains(':') {
            lemma_idx_of(l@, ':');
        }
    }
    None
}

impl CommitMessage {
    /// The trailers: the `<key>: <value>` lines at the tail of the message,
    /// in order, ignoring trailing blank lines.
    pub fn trailers(&self) -> (r: Vec<(Vec<char>, Vec<char>)>)
        ensures
            r.deep_view() == spec_trailers(self@),
    {
        let lines = self.lines();
        let n: usize = lines.len();
        let ghost dv = lines.deep_view();
        proof {
            assert forall|k: int| 0 <= k < lines@.len() implies #[trigger] dv[k] == lines@[k]@ by {
                assert(dv[k] =~= lines@[k]@);
            }
        }
        let mut end: usize = n;
        while end > 0 && lines[end - 1].len() == 0
            invariant
                n == lines@.len(),
                dv == lines.deep_view(),
                forall|k: int| 0 <= k < n ==> #[trigger] dv[k] == lines@[k]@,
                end <= n,
                forall|j: int| end <= j < n ==> (#[trigger] dv[j]).len() == 0,
            decreases end,
        {
            end = end - 1;
        }
        proof {
            lemma_drop_trailing_empty_at(dv, end as int);
        }
        let ghost kept = dv.take(end as int);
        let mut start: usize = end;
        while start > 0 && parse_trailer(&lines[start - 1]).is_some()
            invariant
                n == lines@.len(),
                dv == lines.deep_view(),
                forall|k: int| 0 <= k < n ==> #[trigger] dv[k] == lines@[k]@,
                start <= end <= n,
                kept == dv.take(end as int),
                forall|j: int| start <= j < end ==> is_trailer_line(#[trigger] kept[j]),
            decreases start,
        {
            start = start - 1;
        }
        proof {
            if start > 0 {
                assert(!is_trailer_line(kept[start - 1]));
            }
            lemma_trailer_suffix_at(kept, start as int);
        }
        let mut r: Vec<(Vec<char>, Vec<char>)> = Vec::new();
        let mut i: usize = start;
        while i < end
            invariant
                n == lines@.len(),
                dv == lines.deep_view(),
                forall|k: int| 0 <= k < n ==> #[trigger] dv[k] == lines@[k]@,
                start <= i <= end <= n,
                kept == dv.take(end as int),
                forall|j: int| start <= j < end ==> is_trailer_line(#[trigger] kept[j]),
                r.deep_view() == Seq::new(
                    (i - start) as nat,
                    |k: int| trailer_of(kept[start + k]),
                ),
            decreases end - i,
        {
            let ghost before = r.deep_view();
            match parse_trailer(&lines[i]) {
                Some(t) => {
                    let ghost tv = (t.0@, t.1@);
                    r.push(t);
                    proof {
                        assert(kept[i as int] == dv[i as int]);
                        assert(tv == trailer_of(kept[i as int]));
                        assert(r.deep_view() =~~= before.push(tv));
                        assert(r.deep_view() =~~= Seq::new(
                            (i + 1 - start) as nat,
                            |k: int| trailer_of(kept[start + k]),
                        ));
                    }
                },
                None => {
                    proof {
                        assert(is_trailer_line(kept[i as int]));
                        assert(kept[i as int] == dv[i as int]);
                        assert(false);
                    }
                },
            }
            i = i + 1;
        }
        proof {
            assert(r.deep_view() =~~= trailer_suffix(kept));
        }
        r
    }
}

} // verus!
