//! The author-document codec. The document is a mapping from initials to
//! author records:
//!
//! ```text
//! ---
//! <initials>:
//!   name: <string>
//!   email: <string>
//!   signingkey: <string>     (omitted entirely when absent)
//! ```
//!
//! Encoding emits keys in ascending order, so output is reproducible;
//! decoding rejects a document that is not a mapping of this shape.

use vstd::prelude::*;

use crate::author::{
    entries_view, lemma_registry_of_sorted, sorted_keys, spec_registry_of, Author, AuthorView,
    Authors,
};
use crate::text::{
    chars_eq, chars_start_with, chars_to_string, has_prefix, join_lines, join_lines_exec,
    lemma_split_join, push_all, split_lines, split_lines_exec, subrange, to_chars,
};

verus! {

/// A document that is not a mapping of the expected shape.
#[derive(Debug, Clone, Copy, PartialEq, Eq, Structural)]
pub enum DecodeError {
    Malformed,
}

impl DecodeError {
    /// A short description, for reports to the user.
    pub fn message(&self) -> (r: &str)
        ensures
            r@ == "author document is not a mapping of authors by initials"@,
    {
        "author document is not a mapping of authors by initials"
    }
}

/// The first line of every document.
pub open spec fn header_line() -> Seq<char> {
    seq!['-', '-', '-']
}

/// One field line: two spaces, the field name, a colon and a space, the
/// value.
pub open spec fn field_line(fname: Seq<char>, value: Seq<char>) -> Seq<char> {
    seq![' ', ' '] + fname + seq![':', ' '] + value
}

/// The lines of one entry: the key line, name and email fields, and the
/// signing key only when present.
pub open spec fn entry_lines(e: (Seq<char>, AuthorView)) -> Seq<Seq<char>> {
    seq![e.0.push(':'), field_line("name"@, e.1.0), field_line("email"@, e.1.1)] + (match e.1.2 {
        Some(sk) => seq![field_line("signingkey"@, sk)],
        None => Seq::empty(),
    })
}

pub open spec fn entries_lines(s: Seq<(Seq<char>, AuthorView)>) -> Seq<Seq<char>>
    decreases s.len(),
{
    if s.len() == 0 {
        Seq::empty()
    } else {
        entry_lines(s[0]) + entries_lines(s.skip(1))
    }
}

/// What the encoder produces: the header, then each entry's lines, joined
/// with single newlines and no trailing newline.
pub open spec fn spec_encode(s: Seq<(Seq<char>, AuthorView)>) -> Seq<char> {
    join_lines(seq![header_line()] + entries_lines(s))
}

/// A line without leading spaces whose last character is a colon: the key is
/// everything before the colon.
pub open spec fn is_key_line(l: Seq<char>) -> bool {
    l.len() >= 1 && l.last() == ':' && l[0] != ' '
}

/// The line with its leading spaces removed.
pub open spec fn skip_spaces(l: Seq<char>) -> Seq<char>
    decreases l.len(),
{
    if l.len() > 0 && l[0] == ' ' {
        skip_spaces(l.skip(1))
    } else {
        l
    }
}

/// An indented `<fname>: <value>` line; any positive indent is accepted.
pub open spec fn spec_parse_field(l: Seq<char>, fname: Seq<char>) -> Option<Seq<char>> {
    if l.len() == 0 || l[0] != ' ' {
        None
    } else {
        let stripped = skip_spaces(l);
        let pfx = fname + seq![':', ' '];
        if has_prefix(stripped, pfx) {
            Some(stripped.skip(pfx.len() as int))
        } else {
            None
        }
    }
}

/// The entries of a well-shaped body: each a key line, a name field, an
/// email field, and an optional signingkey field. Anything else is no
/// document.
pub open spec fn parse_entries(ls: Seq<Seq<char>>) -> Option<Seq<(Seq<char>, AuthorView)>>
    decreases ls.len(),
{
    if ls.len() == 0 {
        Some(Seq::empty())
    } else if !is_key_line(ls[0]) || ls.len() < 3 {
        None
    } else {
        let key = ls[0].drop_last();
        match (spec_parse_field(ls[1], "name"@), spec_parse_field(ls[2], "email"@)) {
            (Some(name), Some(email)) => if ls.len() >= 4 && ls[3].len() > 0 && ls[3][0] == ' ' {
                match spec_parse_field(ls[3], "signingkey"@) {
                    Some(sk) => match parse_entries(ls.skip(4)) {
                        Some(rest) => Some(seq![(key, (name, email, Some(sk)))] + rest),
                        None => None,
                    },
                    None => None,
                }
            } else {
                match parse_entries(ls.skip(3)) {
                    Some(rest) => Some(seq![(key, (name, email, None))] + rest),
                    None => None,
                }
            },
            _ => None,
        }
    }
}

/// The nonempty lines, in order.
pub open spec fn nonempty_lines(ls: Seq<Seq<char>>) -> Seq<Seq<char>>
    decreases ls.len(),
{
    if ls.len() == 0 {
        Seq::empty()
    } else if ls[0].len() != 0 {
        seq![ls[0]] + nonempty_lines(ls.skip(1))
    } else {
        nonempty_lines(ls.skip(1))
    }
}

/// What the decoder accepts: the document's nonempty lines, less the
/// header, parsed as entries in document order.
pub open spec fn spec_decode(s: Seq<char>) -> Option<Seq<(Seq<char>, AuthorView)>> {
    let ls = nonempty_lines(split_lines(s));
    let body = if ls.len() > 0 && ls[0] == header_line() {
        ls.skip(1)
    } else {
        ls
    };
    parse_entries(body)
}

/// Keys and fields that survive the document form: no newlines anywhere, and
/// a key may not begin with a space.
pub open spec fn yaml_safe(s: Seq<(Seq<char>, AuthorView)>) -> bool {
    forall|i: int|
        0 <= i < s.len() ==> {
            let e = #[trigger] s[i];
            &&& !e.0.contains('\n')
            &&& (e.0.len() > 0 ==> e.0[0] != ' ')
            &&& !e.1.0.contains('\n')
            &&& !e.1.1.contains('\n')
            &&& (match e.1.2 {
                Some(sk) => !sk.contains('\n'),
                None => true,
            })
        }
}

/// A canonical field line parses back to its value.
proof fn lemma_parse_field_canonical(fname: Seq<char>, value: Seq<char>)
    requires
        fname.len() > 0,
        fname[0] != ' ',
    ensures
        spec_parse_field(field_line(fname, value), fname) == Some(value),
{
    let l = field_line(fname, value);
    let tail = fname + seq![':', ' '] + value;
    assert(l[0] == ' ');
    assert(l.skip(1) =~= seq![' '] + tail);
    assert(l.skip(1).skip(1) =~= tail);
    assert(tail[0] == fname[0]);
    assert(skip_spaces(l) == skip_spaces(l.skip(1)));
    assert(skip_spaces(l.skip(1)) == skip_spaces(tail));
    assert(skip_spaces(tail) == tail);
    let pfx = fname + seq![':', ' '];
    assert(tail.take(pfx.len() as int) =~= pfx);
    assert(has_prefix(tail, pfx));
    assert(tail.skip(pfx.len() as int) =~= value);
}

/// Every line an entry contributes is nonempty and newline-free.
proof fn lemma_entry_lines_wf(e: (Seq<char>, AuthorView))
    requires
        !e.0.contains('\n'),
        !e.1.0.contains('\n'),
        !e.1.1.contains('\n'),
        match e.1.2 {
            Some(sk) => !sk.contains('\n'),
            None => true,
        },
    ensures
        forall|i: int|
            0 <= i < entry_lines(e).len() ==> {
                let l = #[trigger] entry_lines(e)[i];
                l.len() != 0 && !l.contains('\n')
            },
        entry_lines(e).len() == (if e.1.2 is Some {
            4int
        } else {
            3int
        }),
{
    reveal_strlit("name");
    reveal_strlit("email");
    reveal_strlit("signingkey");
    assert(!"name"@.contains('\n')) by {
        assert(forall|j: int| 0 <= j < "name"@.len() ==> "name"@[j] != '\n');
    }
    assert(!"email"@.contains('\n')) by {
        assert(forall|j: int| 0 <= j < "email"@.len() ==> "email"@[j] != '\n');
    }
    assert(!"signingkey"@.contains('\n')) by {
        assert(forall|j: int| 0 <= j < "signingkey"@.len() ==> "signingkey"@[j] != '\n');
    }
    let ls = entry_lines(e);
    assert forall|i: int| 0 <= i < ls.len() implies {
        let l = #[trigger] ls[i];
        l.len() != 0 && !l.contains('\n')
    } by {
        if i == 0 {
            assert(ls[0] == e.0.push(':'));
            assert forall|j: int| 0 <= j < ls[0].len() implies ls[0][j] != '\n' by {
                if j < e.0.len() {
                    assert(ls[0][j] == e.0[j]);
                    assert(!e.0.contains('\n'));
                }
            }
            assert(!ls[0].contains('\n'));
        } else if i == 1 {
            lemma_field_line_wf("name"@, e.1.0);
        } else if i == 2 {
            lemma_field_line_wf("email"@, e.1.1);
        } else {
            if let Some(sk) = e.1.2 {
                assert(ls[3] == field_line("signingkey"@, sk));
                lemma_field_line_wf("signingkey"@, sk);
            }
        }
    }
}

proof fn lemma_field_line_wf(fname: Seq<char>, value: Seq<char>)
    requires
        !fname.contains('\n'),
        !value.contains('\n'),
    ensures
        field_line(fname, value).len() != 0,
        !field_line(fname, value).contains('\n'),
{
    let l = field_line(fname, value);
    assert forall|j: int| 0 <= j < l.len() implies l[j] != '\n' by {
        if j < 2 {
        } else if j < 2 + fname.len() {
            assert(l[j] == fname[j - 2]);
            assert(!fname.contains('\n'));
        } else if j < 4 + fname.len() {
        } else {
            assert(l[j] == value[j - 4 - fname.len()]);
            assert(!value.contains('\n'));
        }
    }
}

/// The canonical lines of safe entries parse back to those entries.
proof fn lemma_parse_entries_canonical(s: Seq<(Seq<char>, AuthorView)>)
    requires
        yaml_safe(s),
    ensures
        parse_entries(entries_lines(s)) == Some(s),
    decreases s.len(),
{
    reveal_strlit("name");
    reveal_strlit("email");
    reveal_strlit("signingkey");
    if s.len() == 0 {
        assert(entries_lines(s) == Seq::<Seq<char>>::empty());
        assert(parse_entries(entries_lines(s)) == Some(Seq::<(Seq<char>, AuthorView)>::empty()));
        assert(s =~= Seq::<(Seq<char>, AuthorView)>::empty());
    } else {
        let e = s[0];
        let el = entry_lines(e);
        let rest = entries_lines(s.skip(1));
        let ls = entries_lines(s);
        assert(ls == el + rest);
        assert(yaml_safe(s.skip(1))) by {
            assert(forall|i: int|
                0 <= i < s.skip(1).len() ==> s.skip(1)[i] == s[i + 1]);
        }
        lemma_parse_entries_canonical(s.skip(1));
        lemma_entry_lines_wf(e);
        let keyline = e.0.push(':');
        assert(ls[0] == keyline);
        assert(is_key_line(ls[0])) by {
            assert(keyline.last() == ':');
            if e.0.len() > 0 {
                assert(keyline[0] == e.0[0]);
            } else {
                assert(keyline[0] == ':');
            }
        }
        assert(ls[0].drop_last() =~= e.0);
        assert(ls[1] == field_line("name"@, e.1.0));
        assert(ls[2] == field_line("email"@, e.1.1));
        lemma_parse_field_canonical("name"@, e.1.0);
        lemma_parse_field_canonical("email"@, e.1.1);
        match e.1.2 {
            Some(sk) => {
                assert(ls.len() == 4 + rest.len());
                assert(ls[3] == field_line("signingkey"@, sk));
                lemma_parse_field_canonical("signingkey"@, sk);
                assert(ls[3].len() > 0 && ls[3][0] == ' ');
                assert(ls.skip(4) =~= rest);
                assert(parse_entries(ls) == Some(seq![(e.0, e.1)] + s.skip(1)));
                assert(seq![(e.0, e.1)] + s.skip(1) =~= s);
            },
            None => {
                assert(ls.len() == 3 + rest.len());
                if rest.len() > 0 {
                    // the next line is the following entry's key line, which
                    // never begins with a space
                    assert(s.skip(1).len() > 0);
                    let e2 = s.skip(1)[0];
                    assert(rest[0] == entry_lines(e2)[0]);
                    assert(rest[0] == e2.0.push(':'));
                    assert(ls[3] == rest[0]);
                    if e2.0.len() > 0 {
                        assert(ls[3][0] == e2.0[0]);
                        assert(e2.0[0] != ' ');
                    } else {
                        assert(ls[3][0] == ':');
                    }
                    assert(!(ls.len() >= 4 && ls[3].len() > 0 && ls[3][0] == ' '));
                } else {
                    assert(ls.len() == 3);
                }
                assert(ls.skip(3) =~= rest);
                assert(parse_entries(ls) == Some(seq![(e.0, e.1)] + s.skip(1)));
                assert(seq![(e.0, e.1)] + s.skip(1) =~= s);
            },
        }
    }
}

/// Dropping empty lines from a list with none leaves it untouched.
proof fn lemma_nonempty_lines_id(ls: Seq<Seq<char>>)
    requires
        forall|i: int| 0 <= i < ls.len() ==> (#[trigger] ls[i]).len() != 0,
    ensures
        nonempty_lines(ls) == ls,
    decreases ls.len(),
{
    if ls.len() == 0 {
        assert(nonempty_lines(ls) =~= ls);
    } else {
        assert(forall|i: int|
            0 <= i < ls.skip(1).len() ==> ls.skip(1)[i] == ls[i + 1]);
        lemma_nonempty_lines_id(ls.skip(1));
        assert(seq![ls[0]] + ls.skip(1) =~= ls);
    }
}

/// Every line of the full document is nonempty and newline-free.
proof fn lemma_all_lines_wf(s: Seq<(Seq<char>, AuthorView)>)
    requires
        yaml_safe(s),
    ensures
        forall|i: int|
            0 <= i < (seq![header_line()] + entries_lines(s)).len() ==> {
                let l = #[trigger] (seq![header_line()] + entries_lines(s))[i];
                l.len() != 0 && !l.contains('\n')
            },
{
    let all = seq![header_line()] + entries_lines(s);
    assert forall|i: int| 0 <= i < all.len() implies {
        let l = #[trigger] all[i];
        l.len() != 0 && !l.contains('\n')
    } by {
        if i == 0 {
            assert(all[0] == header_line());
            assert(forall|j: int| 0 <= j < header_line().len() ==> header_line()[j] != '\n');
        } else {
            assert(all[i] == entries_lines(s)[i - 1]);
            lemma_entries_lines_wf(s, i - 1);
        }
    }
}

/// Round trip: decoding an encoded registry gives the registry back, for any
/// registry whose keys and fields survive the document form.
#[verifier::rlimit(60)]
pub proof fn lemma_yaml_round_trip(s: Seq<(Seq<char>, AuthorView)>)
    requires
        sorted_keys(s),
        yaml_safe(s),
    ensures
        spec_decode(spec_encode(s)) == Some(s),
        spec_registry_of(s) == s,
{
    let all = seq![header_line()] + entries_lines(s);
    lemma_all_lines_wf(s);
    assert(split_lines(spec_encode(s)) == all) by {
        lemma_split_join(all);
    }
    assert(nonempty_lines(all) == all) by {
        lemma_nonempty_lines_id(all);
    }
    assert(all[0] == header_line());
    assert(all.skip(1) =~= entries_lines(s));
    assert(parse_entries(entries_lines(s)) == Some(s)) by {
        lemma_parse_entries_canonical(s);
    }
    lemma_registry_of_sorted(s);
}

/// Every line of every entry is nonempty and newline-free.
proof fn lemma_entries_lines_wf(s: Seq<(Seq<char>, AuthorView)>, i: int)
    requires
        yaml_safe(s),
        0 <= i < entries_lines(s).len(),
    ensures
        entries_lines(s)[i].len() != 0,
        !entries_lines(s)[i].contains('\n'),
    decreases s.len(),
{
    if s.len() > 0 {
        let el = entry_lines(s[0]);
        lemma_entry_lines_wf(s[0]);
        if i < el.len() {
            assert(entries_lines(s)[i] == el[i]);
        } else {
            assert(yaml_safe(s.skip(1))) by {
                assert(forall|j: int|
                    0 <= j < s.skip(1).len() ==> s.skip(1)[j] == s[j + 1]);
            }
            lemma_entries_lines_wf(s.skip(1), i - el.len());
            assert(entries_lines(s)[i] == entries_lines(s.skip(1))[i - el.len()]);
        }
    }
}

/// One encoded field line.
fn field_line_exec(fname: &str, value: &str) -> (r: Vec<char>)
    ensures
        r@ == field_line(fname@, value@),
{
    let mut r: Vec<char> = Vec::new();
    r.push(' ');
    r.push(' ');
    let fchars = to_chars(fname);
    push_all(&mut r, &fchars);
    r.push(':');
    r.push(' ');
    let vchars = to_chars(value);
    push_all(&mut r, &vchars);
    proof {
        assert(r@ =~= field_line(fname@, value@));
    }
    r
}

proof fn lemma_entries_lines_snoc(s: Seq<(Seq<char>, AuthorView)>, e: (Seq<char>, AuthorView))
    ensures
        entries_lines(s.push(e)) == entries_lines(s) + entry_lines(e),
    decreases s.len(),
{
    if s.len() == 0 {
        assert(s.push(e)[0] == e);
        assert(s.push(e).skip(1) =~= Seq::<(Seq<char>, AuthorView)>::empty());
        assert(entries_lines(s.push(e).skip(1)) == Seq::<Seq<char>>::empty());
        assert(entries_lines(s.push(e)) == entry_lines(e) + Seq::<Seq<char>>::empty());
        assert(entries_lines(s) == Seq::<Seq<char>>::empty());
        assert(entry_lines(e) + Seq::<Seq<char>>::empty() =~= Seq::<Seq<char>>::empty()
            + entry_lines(e));
    } else {
        assert(s.push(e).skip(1) =~= s.skip(1).push(e));
        lemma_entries_lines_snoc(s.skip(1), e);
        assert(s.push(e)[0] == s[0]);
        assert(entries_lines(s.push(e)) == entry_lines(s[0]) + (entries_lines(s.skip(1))
            + entry_lines(e)));
        assert(entry_lines(s[0]) + (entries_lines(s.skip(1)) + entry_lines(e)) =~= (entry_lines(
            s[0],
        ) + entries_lines(s.skip(1))) + entry_lines(e));
    }
}

/// Encode a registry as an author document: keys ascending as the registry
/// stores them, the signing key only when present, no trailing newline.
pub fn encode(authors: &Authors) -> (r: String)
    ensures
        r@ == spec_encode(authors@),
{
    let entries = authors.entries();
    let ghost av = authors@;
    let n: usize = entries.len();
    let mut lines: Vec<Vec<char>> = Vec::new();
    let header: Vec<char> = vec!['-', '-', '-'];
    proof {
        assert(header@ =~= header_line());
    }
    lines.push(header);
    proof {
        assert(av.take(0) =~= Seq::<(Seq<char>, AuthorView)>::empty());
        assert(entries_lines(av.take(0)) == Seq::<Seq<char>>::empty());
        assert(lines.deep_view() =~~= seq![header_line()] + entries_lines(av.take(0)));
    }
    let mut i: usize = 0;
    while i < n
        invariant
            n == entries@.len(),
            av == entries_view(entries@),
            av == authors@,
            i <= n,
            lines.deep_view() == seq![header_line()] + entries_lines(av.take(i as int)),
        decreases n - i,
    {
        let ghost before = lines.deep_view();
        proof {
            assert(av[i as int] == (entries@[i as int].0@, entries@[i as int].1@));
        }
        let mut key_line = to_chars(entries[i].0.as_str());
        key_line.push(':');
        proof {
            assert(key_line@ =~= av[i as int].0.push(':'));
        }
        lines.push(key_line);
        let name = entries[i].1.name();
        lines.push(field_line_exec("name", name.as_str()));
        let email = entries[i].1.email();
        lines.push(field_line_exec("email", email.as_str()));
        let signingkey = entries[i].1.signingkey();
        match signingkey {
            Some(sk) => {
                lines.push(field_line_exec("signingkey", sk.as_str()));
                proof {
                    assert(lines.deep_view() =~~= before + entry_lines(av[i as int]));
                }
            },
            None => {
                proof {
                    assert(entry_lines(av[i as int]).len() == 3);
                    assert(lines.deep_view() =~~= before + entry_lines(av[i as int]));
                }
            },
        }
        proof {
            assert(av.take(i + 1).drop_last() =~= av.take(i as int));
            assert(av.take(i + 1) =~= av.take(i as int).push(av[i as int]));
            lemma_entries_lines_snoc(av.take(i as int), av[i as int]);
            assert(lines.deep_view() =~~= seq![header_line()] + entries_lines(av.take(i + 1)));
        }
        i = i + 1;
    }
    proof {
        assert(av.take(n as int) =~= av);
    }
    let joined = join_lines_exec(&lines);
    chars_to_string(&joined)
}

/// One decoded field line.
fn parse_field_exec(l: &Vec<char>, fname: &str) -> (r: Option<Vec<char>>)
    ensures
        match r {
            Some(v) => spec_parse_field(l@, fname@) == Some(v@),
            None => spec_parse_field(l@, fname@) is None,
        },
{
    let n: usize = l.len();
    if n == 0 {
        return None;
    }
    if l[0] != ' ' {
        return None;
    }
    let mut j: usize = 0;
    proof {
        assert(l@.skip(0) =~= l@);
    }
    while j < n && l[j] == ' '
        invariant
            n == l@.len(),
            j <= n,
            skip_spaces(l@) == skip_spaces(l@.skip(j as int)),
        decreases n - j,
    {
        proof {
            assert(l@.skip(j as int)[0] == l@[j as int]);
            assert(l@.skip(j as int).skip(1) =~= l@.skip(j + 1));
        }
        j = j + 1;
    }
    proof {
        if j < n {
            assert(l@.skip(j as int)[0] == l@[j as int]);
        }
        assert(skip_spaces(l@.skip(j as int)) == l@.skip(j as int));
    }
    let stripped = subrange(l, j, n);
    proof {
        assert(stripped@ =~= l@.skip(j as int));
    }
    let mut pfx = to_chars(fname);
    pfx.push(':');
    pfx.push(' ');
    proof {
        assert(pfx@ =~= fname@ + seq![':', ' ']);
    }
    if !chars_start_with(&stripped, &pfx) {
        return None;
    }
    let v = subrange(&stripped, pfx.len(), stripped.len());
    proof {
        assert(v@ =~= stripped@.skip(pfx@.len() as int));
    }
    Some(v)
}

/// Decode an author document; a document that is not a mapping of this shape
/// is an error, never a partial or empty registry.
#[verifier::rlimit(60)]
pub fn decode(yaml: &str) -> (r: Result<Authors, DecodeError>)
    ensures
        match r {
            Ok(authors) => {
                &&& spec_decode(yaml@) is Some
                &&& authors@ == spec_registry_of(spec_decode(yaml@)->Some_0)
                &&& authors.wf()
            },
            Err(_) => spec_decode(yaml@) is None,
        },
{
    let chars = to_chars(yaml);
    let raw_lines = split_lines_exec(&chars);
    let mut lines: Vec<Vec<char>> = Vec::new();
    let rn: usize = raw_lines.len();
    let mut i: usize = 0;
    proof {
        assert(raw_lines.deep_view().skip(0) =~= raw_lines.deep_view());
    }
    while i < rn
        invariant
            rn == raw_lines@.len(),
            i <= rn,
            nonempty_lines(raw_lines.deep_view()) == lines.deep_view() + nonempty_lines(
                raw_lines.deep_view().skip(i as int),
            ),
        decreases rn - i,
    {
        let ghost before = lines.deep_view();
        let ghost rdv = raw_lines.deep_view();
        proof {
            assert(rdv[i as int] == raw_lines@[i as int]@);
            assert(rdv.skip(i as int)[0] == rdv[i as int]);
            assert(rdv.skip(i as int).skip(1) =~= rdv.skip(i + 1));
        }
        let line = &raw_lines[i];
        if line.len() > 0 {
            lines.push(subrange(line, 0, line.len()));
            proof {
                assert(line@.subrange(0, line@.len() as int) =~= line@);
                assert(lines.deep_view() =~~= before.push(rdv[i as int]));
                assert(nonempty_lines(rdv.skip(i as int)) == seq![rdv[i as int]]
                    + nonempty_lines(rdv.skip(i + 1)));
                assert(before + (seq![rdv[i as int]] + nonempty_lines(rdv.skip(i + 1)))
                    =~= before.push(rdv[i as int]) + nonempty_lines(rdv.skip(i + 1)));
            }
        } else {
            proof {
                assert(nonempty_lines(rdv.skip(i as int)) == nonempty_lines(rdv.skip(i + 1)));
            }
        }
        i = i + 1;
    }
    proof {
        assert(raw_lines.deep_view().skip(rn as int) =~= Seq::<Seq<char>>::empty());
        assert(nonempty_lines(Seq::<Seq<char>>::empty()) == Seq::<Seq<char>>::empty());
        assert(lines.deep_view() + Seq::<Seq<char>>::empty() =~~= lines.deep_view());
    }
    let ghost ls = lines.deep_view();
    let n: usize = lines.len();
    let mut start: usize = 0;
    let header: Vec<char> = vec!['-', '-', '-'];
    proof {
        assert(header@ =~= header_line());
    }
    if n > 0 && chars_eq(&lines[0], &header) {
        start = 1;
    }
    let ghost body = ls.skip(start as int);
    proof {
        if n > 0 {
            assert(ls[0] =~= lines@[0]@);
        }
        if start == 0 {
            assert(body =~= ls);
        }
        assert(spec_decode(yaml@) == parse_entries(body));
    }
    let mut entries: Vec<(String, Author)> = Vec::new();
    let mut pos: usize = start;
    proof {
        assert(body.skip(pos - start) =~= ls.skip(pos as int));
        assert(entries_view(entries@) =~= Seq::<(Seq<char>, AuthorView)>::empty());
        if let Some(rest) = parse_entries(ls.skip(pos as int)) {
            assert(entries_view(entries@) + rest =~= rest);
        }
    }
    while pos < n
        invariant
            n == lines@.len(),
            ls == lines.deep_view(),
            start <= pos <= n,
            body == ls.skip(start as int),
            spec_decode(yaml@) == parse_entries(body),
            match parse_entries(ls.skip(pos as int)) {
                Some(rest) => parse_entries(body) == Some(entries_view(entries@) + rest),
                None => parse_entries(body) is None,
            },
        decreases n - pos,
    {
        let ghost remaining = ls.skip(pos as int);
        proof {
            assert(remaining.len() == n - pos);
            assert forall|k: int| 0 <= k < remaining.len() implies #[trigger] remaining[k] == ls[
                pos + k
            ] by {}
            assert(forall|k: int| 0 <= k < n ==> #[trigger] ls[k] == lines@[k]@);
        }
        let l0 = &lines[pos];
        let l0n: usize = l0.len();
        if l0n == 0 || l0[l0n - 1] != ':' || l0[0] == ' ' {
            proof {
                assert(!is_key_line(remaining[0]));
                assert(parse_entries(remaining) is None);
            }
            return Err(DecodeError::Malformed);
        }
        if n - pos < 3 {
            proof {
                assert(remaining.len() < 3);
                assert(parse_entries(remaining) is None);
            }
            return Err(DecodeError::Malformed);
        }
        proof {
            assert(is_key_line(remaining[0]));
        }
        let name_v = match parse_field_exec(&lines[pos + 1], "name") {
            Some(v) => v,
            None => {
                proof {
                    assert(remaining[1] == ls[pos + 1]);
                    assert(parse_entries(remaining) is None);
                }
                return Err(DecodeError::Malformed);
            },
        };
        let email_v = match parse_field_exec(&lines[pos + 2], "email") {
            Some(v) => v,
            None => {
                proof {
                    assert(parse_entries(remaining) is None);
                }
                return Err(DecodeError::Malformed);
            },
        };
        let mut consumed: usize = 3;
        let mut sk_v: Option<Vec<char>> = None;
        if pos + 3 < n {
            let l3 = &lines[pos + 3];
            if l3.len() > 0 && l3[0] == ' ' {
                match parse_field_exec(l3, "signingkey") {
                    Some(v) => {
                        sk_v = Some(v);
                        consumed = 4;
                    },
                    None => {
                        proof {
                            assert(remaining[3] == ls[pos + 3]);
                            assert(parse_entries(remaining) is None);
                        }
                        return Err(DecodeError::Malformed);
                    },
                }
            }
        }
        let key_v = subrange(l0, 0, l0n - 1);
        proof {
            assert(key_v@ =~= remaining[0].drop_last());
        }
        let key_s = chars_to_string(&key_v);
        let name_s = chars_to_string(&name_v);
        let email_s = chars_to_string(&email_v);
        let sk_s: Option<String> = match &sk_v {
            Some(v) => Some(chars_to_string(v)),
            None => None,
        };
        let author = Author::new(
            name_s.as_str(),
            email_s.as_str(),
            match &sk_s {
                Some(x) => Some(x.as_str()),
                None => None,
            },
        );
        let ghost before = entries_view(entries@);
        let ghost entry_v = (key_s@, author@);
        entries.push((key_s, author));
        proof {
            assert(entries_view(entries@) =~~= before.push(entry_v));
            let sk_view: Option<Seq<char>> = match sk_v {
                Some(v) => Some(v@),
                None => None,
            };
            assert(author@ == (name_v@, email_v@, sk_view));
            if consumed == 4 {
                assert(remaining[3].len() > 0 && remaining[3][0] == ' ');
                assert(remaining.len() >= 4);
                assert(remaining.skip(4) =~= ls.skip(pos + 4));
                assert(parse_entries(remaining) == (match parse_entries(ls.skip(pos + 4)) {
                    Some(rest) => Some(seq![entry_v] + rest),
                    None => None::<Seq<(Seq<char>, AuthorView)>>,
                }));
            } else {
                assert(!(remaining.len() >= 4 && remaining[3].len() > 0 && remaining[3][0]
                    == ' '));
                assert(remaining.skip(3) =~= ls.skip(pos + 3));
                assert(parse_entries(remaining) == (match parse_entries(ls.skip(pos + 3)) {
                    Some(rest) => Some(seq![entry_v] + rest),
                    None => None::<Seq<(Seq<char>, AuthorView)>>,
                }));
            }
            if let Some(rest2) = parse_entries(ls.skip(pos + consumed)) {
                assert(entries_view(entries@) + rest2 =~~= before + (seq![entry_v] + rest2));
            }
        }
        pos = pos + consumed;
    }
    proof {
        assert(ls.skip(n as int) =~= Seq::<Seq<char>>::empty());
        assert(parse_entries(ls.skip(n as int)) == Some(Seq::<(Seq<char>, AuthorView)>::empty()));
        assert(entries_view(entries@) + Seq::<(Seq<char>, AuthorView)>::empty() =~= entries_view(
            entries@,
        ));
    }
    let authors = Authors::new(entries);
    Ok(authors)
}

} // verus!
