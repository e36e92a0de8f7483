//! The author registry: authors keyed by short initials. The registry keeps
//! its entries sorted by initials, so the serialized form is reproducible
//! and two registries with the same associations are equal values.

use vstd::prelude::*;

use crate::text::{
    chars_eq, chars_lt, chars_lt_exec, lemma_chars_lt_asym, lemma_chars_lt_connected,
    lemma_chars_lt_irrefl, lemma_chars_lt_trans, to_chars,
};

verus! {

/// The logical content of one author: name, email, optional signing key.
pub type AuthorView = (Seq<char>, Seq<char>, Option<Seq<char>>);

/// One author: a name, an email address, and an optional signing key.
#[derive(Debug)]
pub struct Author {
    name: String,
    email: String,
    signingkey: Option<String>,
}

impl View for Author {
    type V = AuthorView;

    closed spec fn view(&self) -> AuthorView {
        (
            self.name@,
            self.email@,
            match self.signingkey {
                Some(k) => Some(k@),
                None => None,
            },
        )
    }
}

impl Author {
    pub fn new(name: &str, email: &str, signingkey: Option<&str>) -> (r: Author)
        ensures
            r@ == (
                name@,
                email@,
                match signingkey {
                    Some(k) => Some(k@),
                    None => None::<Seq<char>>,
                },
            ),
    {
        Author {
            name: name.to_owned(),
            email: email.to_owned(),
            signingkey: match signingkey {
                Some(k) => Some(k.to_owned()),
                None => None,
            },
        }
    }

    pub fn name(&self) -> (r: String)
        ensures
            r@ == self@.0,
    {
        self.name.clone()
    }

    pub fn email(&self) -> (r: String)
        ensures
            r@ == self@.1,
    {
        self.email.clone()
    }

    pub fn signingkey(&self) -> (r: Option<String>)
        ensures
            match r {
                Some(k) => self@.2 == Some(k@),
                None => self@.2 is None,
            },
    {
        match self.signingkey {
            Some(ref k) => Some(k.clone()),
            None => None,
        }
    }
}

impl Clone for Author {
    fn clone(&self) -> (r: Author)
        ensures
            r@ == self@,
    {
        Author {
            name: self.name.clone(),
            email: self.email.clone(),
            signingkey: match self.signingkey {
                Some(ref k) => Some(k.clone()),
                None => None,
            },
        }
    }
}

/// The logical content of an optional string.
pub open spec fn opt_str_view(o: Option<String>) -> Option<Seq<char>> {
    match o {
        Some(k) => Some(k@),
        None => None,
    }
}

fn opt_str_eq(a: &Option<String>, b: &Option<String>) -> (r: bool)
    ensures
        r == (opt_str_view(*a) == opt_str_view(*b)),
{
    match a {
        Some(x) => match b {
            Some(y) => *x == *y,
            None => false,
        },
        None => match b {
            Some(_) => false,
            None => true,
        },
    }
}

impl PartialEq for Author {
    fn eq(&self, other: &Author) -> (r: bool) {
        let names = self.name == other.name;
        let emails = self.email == other.email;
        let keys = opt_str_eq(&self.signingkey, &other.signingkey);
        let r = names && emails && keys;
        proof {
            assert(self@.2 == opt_str_view(self.signingkey));
            assert(other@.2 == opt_str_view(other.signingkey));
            if r {
                assert(self@ == other@);
            } else {
                assert(!(self@.0 == other@.0 && self@.1 == other@.1 && self@.2 == other@.2));
            }
        }
        r
    }
}

impl vstd::std_specs::cmp::PartialEqSpecImpl for Author {
    open spec fn obeys_eq_spec() -> bool {
        true
    }

    open spec fn eq_spec(&self, other: &Author) -> bool {
        self@ == other@
    }
}

/// The logical content of a registry's entries, in storage order.
pub open spec fn entries_view(entries: Seq<(String, Author)>) -> Seq<(Seq<char>, AuthorView)> {
    entries.map_values(|p: (String, Author)| (p.0@, p.1@))
}

/// Keys strictly ascending: sorted and duplicate-free.
pub open spec fn sorted_keys(s: Seq<(Seq<char>, AuthorView)>) -> bool {
    forall|i: int, j: int| 0 <= i < j < s.len() ==> chars_lt(s[i].0, s[j].0)
}

/// The author stored under a key: the first match, which under sorted keys
/// is the only one.
pub open spec fn spec_lookup(s: Seq<(Seq<char>, AuthorView)>, key: Seq<char>) -> Option<AuthorView>
    decreases s.len(),
{
    if s.len() == 0 {
        None
    } else if s[0].0 == key {
        Some(s[0].1)
    } else {
        spec_lookup(s.skip(1), key)
    }
}

/// One entry placed into a sorted entry list: before the first greater key,
/// replacing an equal key.
pub open spec fn spec_insert(
    s: Seq<(Seq<char>, AuthorView)>,
    key: Seq<char>,
    author: AuthorView,
) -> Seq<(Seq<char>, AuthorView)>
    decreases s.len(),
{
    if s.len() == 0 {
        seq![(key, author)]
    } else if chars_lt(key, s[0].0) {
        seq![(key, author)] + s
    } else if key == s[0].0 {
        seq![(key, author)] + s.skip(1)
    } else {
        seq![s[0]] + spec_insert(s.skip(1), key, author)
    }
}

/// A registry built from entries in order, later entries replacing earlier
/// ones with the same key.
pub open spec fn spec_registry_of(ps: Seq<(Seq<char>, AuthorView)>) -> Seq<(Seq<char>, AuthorView)>
    decreases ps.len(),
{
    if ps.len() == 0 {
        Seq::empty()
    } else {
        spec_insert(spec_registry_of(ps.drop_last()), ps.last().0, ps.last().1)
    }
}

/// Inserting into a sorted list keeps it sorted, and changes exactly the
/// association of the inserted key.
pub proof fn lemma_spec_insert(s: Seq<(Seq<char>, AuthorView)>, key: Seq<char>, author: AuthorView)
    requires
        sorted_keys(s),
    ensures
        sorted_keys(spec_insert(s, key, author)),
        spec_lookup(spec_insert(s, key, author), key) == Some(author),
        forall|q: Seq<char>|
            q != key ==> #[trigger] spec_lookup(spec_insert(s, key, author), q) == spec_lookup(
                s,
                q,
            ),
    decreases s.len(),
{
    let out = spec_insert(s, key, author);
    if s.len() == 0 {
        assert(out == seq![(key, author)]);
        assert forall|q: Seq<char>| q != key implies #[trigger] spec_lookup(out, q) == spec_lookup(
            s,
            q,
        ) by {
            assert(out[0].0 == key);
            assert(out.skip(1) =~= Seq::<(Seq<char>, AuthorView)>::empty());
            assert(spec_lookup(out, q) == spec_lookup(out.skip(1), q));
            assert(spec_lookup(Seq::<(Seq<char>, AuthorView)>::empty(), q) is None);
        }
    } else if chars_lt(key, s[0].0) {
        assert(out == seq![(key, author)] + s);
        assert forall|i: int, j: int| 0 <= i < j < out.len() implies chars_lt(
            out[i].0,
            out[j].0,
        ) by {
            if i == 0 {
                if j == 1 {
                    assert(out[j].0 == s[0].0);
                } else {
                    lemma_chars_lt_trans(key, s[0].0, s[j - 1].0);
                }
            }
        }
        assert(out.skip(1) =~= s);
        assert(spec_lookup(out, key) == Some(author));
        assert forall|q: Seq<char>| q != key implies #[trigger] spec_lookup(out, q) == spec_lookup(
            s,
            q,
        ) by {
            assert(out[0].0 == key);
        }
    } else if key == s[0].0 {
        assert(out == seq![(key, author)] + s.skip(1));
        assert forall|i: int, j: int| 0 <= i < j < out.len() implies chars_lt(
            out[i].0,
            out[j].0,
        ) by {
            if i == 0 {
                assert(out[j].0 == s[j].0);
            } else {
                assert(out[i].0 == s[i].0 && out[j].0 == s[j].0);
            }
        }
        assert(out.skip(1) =~= s.skip(1));
        assert forall|q: Seq<char>| q != key implies #[trigger] spec_lookup(out, q) == spec_lookup(
            s,
            q,
        ) by {
            assert(spec_lookup(out, q) == spec_lookup(s.skip(1), q));
            assert(spec_lookup(s, q) == spec_lookup(s.skip(1), q));
        }
    } else {
        lemma_chars_lt_connected(key, s[0].0);
        assert(chars_lt(s[0].0, key));
        assert(sorted_keys(s.skip(1))) by {
            assert(forall|i: int, j: int|
                0 <= i < j < s.skip(1).len() ==> chars_lt(s.skip(1)[i].0, s.skip(1)[j].0));
        }
        lemma_spec_insert(s.skip(1), key, author);
        let rest = spec_insert(s.skip(1), key, author);
        assert(out == seq![s[0]] + rest);
        assert(out.skip(1) =~= rest);
        // every key in `rest` is either `key` or a key of `s.skip(1)`, so it
        // is above `s[0].0`
        assert forall|j: int| 0 <= j < rest.len() implies chars_lt(s[0].0, rest[j].0) by {
            lemma_spec_insert_keys(s.skip(1), key, author, j);
            if rest[j].0 == key {
            } else {
                let w = choose|w: int| 0 <= w < s.skip(1).len() && s.skip(1)[w].0 == rest[j].0;
                assert(chars_lt(s[0].0, s[w + 1].0));
            }
        }
        assert forall|i: int, j: int| 0 <= i < j < out.len() implies chars_lt(
            out[i].0,
            out[j].0,
        ) by {
            if i >= 1 {
                assert(out[i].0 == rest[i - 1].0 && out[j].0 == rest[j - 1].0);
            }
        }
        assert(s[0].0 != key);
        assert(spec_lookup(out, key) == spec_lookup(rest, key));
        assert forall|q: Seq<char>| q != key implies #[trigger] spec_lookup(out, q) == spec_lookup(
            s,
            q,
        ) by {
            if q == s[0].0 {
            } else {
                assert(spec_lookup(out, q) == spec_lookup(rest, q));
                assert(spec_lookup(s, q) == spec_lookup(s.skip(1), q));
            }
        }
    }
}

/// Every key of an inserted list is the inserted key or a key of the
/// original.
proof fn lemma_spec_insert_keys(
    s: Seq<(Seq<char>, AuthorView)>,
    key: Seq<char>,
    author: AuthorView,
    j: int,
)
    requires
        0 <= j < spec_insert(s, key, author).len(),
    ensures
        spec_insert(s, key, author)[j].0 == key || exists|w: int|
            0 <= w < s.len() && s[w].0 == spec_insert(s, key, author)[j].0,
    decreases s.len(),
{
    let out = spec_insert(s, key, author);
    if s.len() == 0 {
    } else if chars_lt(key, s[0].0) {
        if j > 0 {
            assert(s[j - 1].0 == out[j].0);
        }
    } else if key == s[0].0 {
        if j > 0 {
            assert(s[j].0 == out[j].0);
        }
    } else {
        if j > 0 {
            lemma_spec_insert_keys(s.skip(1), key, author, j - 1);
            let rest = spec_insert(s.skip(1), key, author);
            if rest[j - 1].0 != key {
                let w = choose|w: int| 0 <= w < s.skip(1).len() && s.skip(1)[w].0 == rest[j - 1].0;
                assert(s[w + 1].0 == out[j].0);
            }
        } else {
            assert(s[0].0 == out[0].0);
        }
    }
}

/// Building a registry from an already sorted entry list gives that list
/// back unchanged.
pub proof fn lemma_registry_of_sorted(ps: Seq<(Seq<char>, AuthorView)>)
    requires
        sorted_keys(ps),
    ensures
        spec_registry_of(ps) == ps,
    decreases ps.len(),
{
    if ps.len() > 0 {
        let rest = ps.drop_last();
        assert(sorted_keys(rest)) by {
            assert(forall|i: int, j: int|
                0 <= i < j < rest.len() ==> chars_lt(ps[i].0, ps[j].0));
        }
        lemma_registry_of_sorted(rest);
        let key = ps.last().0;
        // the appended key is above every key of the prefix, so the insert
        // lands at the very end
        lemma_insert_at_end(rest, key, ps.last().1);
        assert(spec_registry_of(ps) =~= ps);
    }
}

/// Inserting a key above every present key appends.
proof fn lemma_insert_at_end(s: Seq<(Seq<char>, AuthorView)>, key: Seq<char>, author: AuthorView)
    requires
        forall|i: int| 0 <= i < s.len() ==> chars_lt((#[trigger] s[i]).0, key),
    ensures
        spec_insert(s, key, author) == s.push((key, author)),
    decreases s.len(),
{
    if s.len() == 0 {
        assert(spec_insert(s, key, author) =~= s.push((key, author)));
    } else {
        lemma_chars_lt_asym(s[0].0, key);
        lemma_chars_lt_irrefl(s[0].0);
        assert(key != s[0].0) by {
            if key == s[0].0 {
                assert(chars_lt(s[0].0, key));
            }
        }
        assert(forall|i: int|
            0 <= i < s.skip(1).len() ==> chars_lt((#[trigger] s.skip(1)[i]).0, key));
        lemma_insert_at_end(s.skip(1), key, author);
        assert(spec_insert(s, key, author) =~= s.push((key, author)));
    }
}

/// The author registry: a mapping from initials to authors, entries kept
/// sorted by initials.
#[derive(Debug)]
pub struct Authors {
    entries: Vec<(String, Author)>,
}

impl View for Authors {
    type V = Seq<(Seq<char>, AuthorView)>;

    closed spec fn view(&self) -> Seq<(Seq<char>, AuthorView)> {
        entries_view(self.entries@)
    }
}

impl Authors {
    pub open spec fn wf(&self) -> bool {
        sorted_keys(self@)
    }

    /// Build a registry from entries; a later entry replaces an earlier one
    /// with the same initials.
    pub fn new(entries: Vec<(String, Author)>) -> (r: Authors)
        ensures
            r.wf(),
            r@ == spec_registry_of(entries_view(entries@)),
    {
        let ghost input = entries_view(entries@);
        let mut source = entries;
        let mut r = Authors { entries: Vec::new() };
        let ghost done: int = 0;
        proof {
            assert(input.take(0) =~= Seq::<(Seq<char>, AuthorView)>::empty());
            assert(r@ =~= spec_registry_of(input.take(0)));
        }
        let n: usize = source.len();
        let mut i: usize = 0;
        while i < n
            invariant
                n == input.len(),
                source@.len() == n,
                entries_view(source@) == input,
                i <= n,
                r.wf(),
                r@ == spec_registry_of(input.take(i as int)),
            decreases n - i,
        {
            let pair = &source[i];
            let key = pair.0.clone();
            let author = pair.1.clone();
            proof {
                assert(input[i as int] == (key@, author@));
                assert(input.take(i + 1).drop_last() =~= input.take(i as int));
                assert(input.take(i + 1).last() == input[i as int]);
                lemma_spec_insert(r@, key@, author@);
            }
            r.insert(key, author);
            i = i + 1;
        }
        proof {
            assert(input.take(n as int) =~= input);
        }
        r
    }

    /// Place one author under the given initials, replacing any author
    /// already there.
    pub fn insert(&mut self, initials: String, author: Author)
        requires
            old(self).wf(),
        ensures
            final(self).wf(),
            final(self)@ == spec_insert(old(self)@, initials@, author@),
    {
        let key_chars = to_chars(initials.as_str());
        let n: usize = self.entries.len();
        let ghost s = self@;
        let i = self.find_pos(&key_chars);
        proof {
            lemma_spec_insert_skip(s, initials@, author@, i as int);
            if i < n {
                assert(s.skip(i as int)[0] == s[i as int]);
            }
        }
        if i < n {
            let here = to_chars(self.entries[i].0.as_str());
            proof {
                assert(s[i as int].0 == self.entries@[i as int].0@);
            }
            if chars_eq(&here, &key_chars) {
                // replace the author under an equal key
                self.entries.remove(i);
                self.entries.insert(i, (initials, author));
                proof {
                    lemma_chars_lt_irrefl(s[i as int].0);
                    assert(spec_insert(s.skip(i as int), initials@, author@) == seq![
                        (initials@, author@),
                    ] + s.skip(i as int).skip(1));
                    assert(s.skip(i as int).skip(1) =~= s.skip(i + 1));
                    assert(self@ =~= s.take(i as int) + (seq![(initials@, author@)] + s.skip(
                        i + 1,
                    )));
                }
            } else {
                proof {
                    lemma_chars_lt_connected(initials@, s[i as int].0);
                }
                self.entries.insert(i, (initials, author));
                proof {
                    assert(chars_lt(initials@, s.skip(i as int)[0].0));
                    assert(spec_insert(s.skip(i as int), initials@, author@) == seq![
                        (initials@, author@),
                    ] + s.skip(i as int));
                    assert(self@ =~= s.take(i as int) + (seq![(initials@, author@)] + s.skip(
                        i as int,
                    )));
                }
            }
        } else {
            self.entries.push((initials, author));
            proof {
                assert(s.skip(n as int) =~= Seq::<(Seq<char>, AuthorView)>::empty());
                assert(spec_insert(s.skip(n as int), initials@, author@) == seq![
                    (initials@, author@),
                ]);
                assert(s.take(n as int) =~= s);
                assert(self@ =~= s.take(n as int) + seq![(initials@, author@)]);
            }
        }
        proof {
            lemma_spec_insert(s, initials@, author@);
        }
    }

    /// The index of the first key not below the given one.
    fn find_pos(&self, key_chars: &Vec<char>) -> (p: usize)
        ensures
            p <= self@.len(),
            forall|j: int| 0 <= j < p ==> chars_lt((#[trigger] self@[j]).0, key_chars@),
            p < self@.len() ==> !chars_lt(self@[p as int].0, key_chars@),
    {
        let n: usize = self.entries.len();
        let mut i: usize = 0;
        while i < n
            invariant
                n == self.entries@.len(),
                i <= n,
                forall|j: int| 0 <= j < i ==> chars_lt((#[trigger] self@[j]).0, key_chars@),
            decreases n - i,
        {
            let here = to_chars(self.entries[i].0.as_str());
            proof {
                assert(self@[i as int].0 == self.entries@[i as int].0@);
            }
            if !chars_lt_exec(&here, &key_chars) {
                return i;
            }
            i = i + 1;
        }
        n
    }

    /// The entries, sorted by initials.
    pub fn entries(&self) -> (r: &Vec<(String, Author)>)
        ensures
            entries_view(r@) == self@,
    {
        &self.entries
    }

    /// One author looked up by initials; `None` when unknown.
    pub fn lookup(&self, initial: &str) -> (r: Option<Author>)
        ensures
            match r {
                Some(a) => spec_lookup(self@, initial@) == Some(a@),
                None => spec_lookup(self@, initial@) is None,
            },
    {
        let key_chars = to_chars(initial);
        let n: usize = self.entries.len();
        let ghost s = self@;
        let mut i: usize = 0;
        proof {
            assert(s.skip(0) =~= s);
        }
        while i < n
            invariant
                n == self.entries@.len(),
                s == self@,
                key_chars@ == initial@,
                i <= n,
                spec_lookup(s, initial@) == spec_lookup(s.skip(i as int), initial@),
            decreases n - i,
        {
            let here = to_chars(self.entries[i].0.as_str());
            proof {
                assert(s.skip(i as int)[0] == s[i as int]);
                assert(s[i as int] == (self.entries@[i as int].0@, self.entries@[i as int].1@));
            }
            if chars_eq(&here, &key_chars) {
                let author = self.entries[i].1.clone();
                return Some(author);
            }
            proof {
                assert(s.skip(i as int).skip(1) =~= s.skip(i + 1));
            }
            i = i + 1;
        }
        proof {
            assert(s.skip(n as int) =~= Seq::<(Seq<char>, AuthorView)>::empty());
        }
        None
    }

    /// One slot per requested initial, in request order, duplicates
    /// included: the author when known, `None` where unknown.
    pub fn get(&self, author_initials: &Vec<String>) -> (r: Vec<Option<Author>>)
        ensures
            r@.len() == author_initials@.len(),
            forall|i: int|
                0 <= i < r@.len() ==> opt_author_view(#[trigger] r@[i]) == spec_lookup(
                    self@,
                    author_initials@[i]@,
                ),
    {
        let n: usize = author_initials.len();
        let mut r: Vec<Option<Author>> = Vec::new();
        let mut i: usize = 0;
        while i < n
            invariant
                n == author_initials@.len(),
                i <= n,
                r@.len() == i,
                forall|j: int|
                    0 <= j < i ==> opt_author_view(#[trigger] r@[j]) == spec_lookup(
                        self@,
                        author_initials@[j]@,
                    ),
            decreases n - i,
        {
            r.push(self.lookup(author_initials[i].as_str()));
            i = i + 1;
        }
        r
    }
}

pub open spec fn opt_author_view(o: Option<Author>) -> Option<AuthorView> {
    match o {
        Some(a) => Some(a@),
        None => None,
    }
}

impl PartialEq for Authors {
    fn eq(&self, other: &Authors) -> (r: bool) {
        let n: usize = self.entries.len();
        if n != other.entries.len() {
            proof {
                assert(self@.len() != other@.len());
            }
            return false;
        }
        let mut i: usize = 0;
        while i < n
            invariant
                n == self.entries@.len() == other.entries@.len(),
                i <= n,
                forall|j: int| 0 <= j < i ==> self@[j] == other@[j],
            decreases n - i,
        {
            let ka = to_chars(self.entries[i].0.as_str());
            let kb = to_chars(other.entries[i].0.as_str());
            proof {
                assert(self@[i as int] == (self.entries@[i as int].0@, self.entries@[i as int].1@));
                assert(other@[i as int] == (
                    other.entries@[i as int].0@,
                    other.entries@[i as int].1@,
                ));
            }
            if !chars_eq(&ka, &kb) {
                return false;
            }
            if !(self.entries[i].1 == other.entries[i].1) {
                return false;
            }
            i = i + 1;
        }
        proof {
            assert(self@ =~= other@);
        }
        true
    }
}

impl vstd::std_specs::cmp::PartialEqSpecImpl for Authors {
    open spec fn obeys_eq_spec() -> bool {
        true
    }

    open spec fn eq_spec(&self, other: &Authors) -> bool {
        self@ == other@
    }
}

/// `spec_insert` skips any prefix whose keys lie below the inserted key.
proof fn lemma_spec_insert_skip(
    s: Seq<(Seq<char>, AuthorView)>,
    key: Seq<char>,
    author: AuthorView,
    p: int,
)
    requires
        0 <= p <= s.len(),
        forall|j: int| 0 <= j < p ==> chars_lt((#[trigger] s[j]).0, key),
    ensures
        spec_insert(s, key, author) == s.take(p) + spec_insert(s.skip(p), key, author),
    decreases p,
{
    if p == 0 {
        assert(s.take(0) =~= Seq::<(Seq<char>, AuthorView)>::empty());
        assert(s.skip(0) =~= s);
        assert(s.take(0) + spec_insert(s.skip(0), key, author) =~= spec_insert(s, key, author));
    } else {
        lemma_chars_lt_asym(s[0].0, key);
        lemma_chars_lt_irrefl(s[0].0);
        assert(key != s[0].0) by {
            if key == s[0].0 {
                assert(chars_lt(s[0].0, key));
            }
        }
        assert(spec_insert(s, key, author) == seq![s[0]] + spec_insert(s.skip(1), key, author));
        assert(forall|j: int|
            0 <= j < p - 1 ==> chars_lt((#[trigger] s.skip(1)[j]).0, key));
        lemma_spec_insert_skip(s.skip(1), key, author, p - 1);
        assert(s.skip(1).take(p - 1) =~= s.take(p).skip(1));
        assert(s.skip(1).skip(p - 1) =~= s.skip(p));
        assert(seq![s[0]] + (s.skip(1).take(p - 1) + spec_insert(s.skip(p), key, author)) =~= s.take(
            p,
        ) + spec_insert(s.skip(p), key, author));
    }
}

} // verus!
