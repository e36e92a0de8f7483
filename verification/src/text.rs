//! Character-level text utilities shared by the lint rules, the
//! configuration store and the author-document codec: conversion between
//! `&str` and `Vec<char>`, prefix tests, and splitting text into lines.

use vstd::prelude::*;
use vstd::slice::{slice_subrange, slice_to_vec};

verus! {

/// The index of the first occurrence of `c` in `s`; meaningful only when
/// `s.contains(c)`.
pub open spec fn idx_of(s: Seq<char>, c: char) -> int
    decreases s.len(),
{
    if s.len() == 0 {
        0
    } else if s[0] == c {
        0
    } else {
        1 + idx_of(s.skip(1), c)
    }
}

pub proof fn lemma_idx_of(s: Seq<char>, c: char)
    requires
        s.contains(c),
    ensures
        0 <= idx_of(s, c) < s.len(),
        s[idx_of(s, c)] == c,
        forall|j: int| 0 <= j < idx_of(s, c) ==> s[j] != c,
    decreases s.len(),
{
    if s.len() > 0 && s[0] != c {
        assert(s.skip(1).contains(c)) by {
            let i = choose|i: int| 0 <= i < s.len() && s[i] == c;
            assert(s.skip(1)[i - 1] == c);
        }
        lemma_idx_of(s.skip(1), c);
        assert(forall|j: int| 1 <= j < idx_of(s, c) ==> s[j] == s.skip(1)[j - 1]);
    }
}

/// The first occurrence characterises `idx_of`: if `c` appears at `k` and
/// nowhere before, then `idx_of` is `k`.
pub proof fn lemma_idx_of_first(s: Seq<char>, c: char, k: int)
    requires
        0 <= k < s.len(),
        s[k] == c,
        forall|j: int| 0 <= j < k ==> s[j] != c,
    ensures
        idx_of(s, c) == k,
    decreases s.len(),
{
    if k > 0 {
        assert(forall|j: int| 0 <= j < k - 1 ==> s.skip(1)[j] == s[j + 1]);
        lemma_idx_of_first(s.skip(1), c, k - 1);
    }
}

/// `s` split at every newline; always at least one element, and no element
/// contains a newline.
pub open spec fn split_lines(s: Seq<char>) -> Seq<Seq<char>>
    decreases s.len(),
    via split_lines_decreases
{
    if s.contains('\n') {
        seq![s.take(idx_of(s, '\n'))] + split_lines(s.skip(idx_of(s, '\n') + 1))
    } else {
        seq![s]
    }
}

#[via_fn]
proof fn split_lines_decreases(s: Seq<char>) {
    if s.contains('\n') {
        lemma_idx_of(s, '\n');
    }
}

/// Lines joined with single newlines; meaningful only for a nonempty list.
pub open spec fn join_lines(ls: Seq<Seq<char>>) -> Seq<char>
    decreases ls.len(),
{
    if ls.len() <= 1 {
        if ls.len() == 1 {
            ls[0]
        } else {
            Seq::empty()
        }
    } else {
        ls[0] + seq!['\n'] + join_lines(ls.skip(1))
    }
}

/// Splitting undoes joining, provided no line holds a newline.
pub proof fn lemma_split_join(ls: Seq<Seq<char>>)
    requires
        ls.len() >= 1,
        forall|i: int| 0 <= i < ls.len() ==> !(#[trigger] ls[i]).contains('\n'),
    ensures
        split_lines(join_lines(ls)) == ls,
    decreases ls.len(),
{
    let s = join_lines(ls);
    if ls.len() == 1 {
        assert(s == ls[0]);
        assert(split_lines(s) == seq![s]);
        assert(split_lines(s) =~= ls);
    } else {
        let rest = join_lines(ls.skip(1));
        assert(s == ls[0] + seq!['\n'] + rest);
        let k = ls[0].len() as int;
        assert(s[k] == '\n');
        assert forall|j: int| 0 <= j < k implies s[j] != '\n' by {
            assert(s[j] == ls[0][j]);
            assert(!ls[0].contains('\n'));
        }
        lemma_idx_of_first(s, '\n', k);
        assert(s.take(k) =~= ls[0]);
        assert(s.skip(k + 1) =~= rest);
        assert(forall|i: int| 0 <= i < ls.skip(1).len() ==> ls.skip(1)[i] == ls[i + 1]);
        lemma_split_join(ls.skip(1));
        assert(split_lines(s) == seq![ls[0]] + ls.skip(1));
        assert(split_lines(s) =~= ls);
    }
}

/// Whether `p` is a prefix of `s`.
pub open spec fn has_prefix(s: Seq<char>, p: Seq<char>) -> bool {
    p.len() <= s.len() && s.take(p.len() as int) == p
}

/// Strict lexicographic order on character sequences, by code point.
pub open spec fn chars_lt(a: Seq<char>, b: Seq<char>) -> bool
    decreases a.len(),
{
    if b.len() == 0 {
        false
    } else if a.len() == 0 {
        true
    } else if a[0] != b[0] {
        a[0] < b[0]
    } else {
        chars_lt(a.skip(1), b.skip(1))
    }
}

pub proof fn lemma_chars_lt_irrefl(a: Seq<char>)
    ensures
        !chars_lt(a, a),
    decreases a.len(),
{
    if a.len() > 0 {
        lemma_chars_lt_irrefl(a.skip(1));
    }
}

pub proof fn lemma_chars_lt_asym(a: Seq<char>, b: Seq<char>)
    requires
        chars_lt(a, b),
    ensures
        !chars_lt(b, a),
    decreases a.len(),
{
    if a.len() > 0 && b.len() > 0 && a[0] == b[0] {
        lemma_chars_lt_asym(a.skip(1), b.skip(1));
    }
}

/// The order is total: two distinct sequences compare one way or the other.
pub proof fn lemma_chars_lt_connected(a: Seq<char>, b: Seq<char>)
    requires
        a != b,
    ensures
        chars_lt(a, b) || chars_lt(b, a),
    decreases a.len(),
{
    if a.len() == 0 && b.len() == 0 {
        assert(a =~= b);
    } else if a.len() > 0 && b.len() > 0 && a[0] == b[0] {
        assert(a.skip(1) != b.skip(1)) by {
            if a.skip(1) == b.skip(1) {
                assert(a =~= seq![a[0]] + a.skip(1));
                assert(b =~= seq![b[0]] + b.skip(1));
            }
        }
        lemma_chars_lt_connected(a.skip(1), b.skip(1));
    }
}

pub proof fn lemma_chars_lt_trans(a: Seq<char>, b: Seq<char>, c: Seq<char>)
    requires
        chars_lt(a, b),
        chars_lt(b, c),
    ensures
        chars_lt(a, c),
    decreases a.len(),
{
    if a.len() > 0 && b.len() > 0 && c.len() > 0 {
        if a[0] == b[0] && b[0] == c[0] {
            lemma_chars_lt_trans(a.skip(1), b.skip(1), c.skip(1));
        }
    }
}

/// Lexicographic comparison, element by element.
pub fn chars_lt_exec(a: &Vec<char>, b: &Vec<char>) -> (r: bool)
    ensures
        r == chars_lt(a@, b@),
{
    let an: usize = a.len();
    let bn: usize = b.len();
    let mut i: usize = 0;
    proof {
        assert(a@.skip(0) =~= a@);
        assert(b@.skip(0) =~= b@);
    }
    while i < an && i < bn
        invariant
            an == a@.len(),
            bn == b@.len(),
            i <= an,
            i <= bn,
            chars_lt(a@, b@) == chars_lt(a@.skip(i as int), b@.skip(i as int)),
        decreases an - i,
    {
        let x = a[i];
        let y = b[i];
        proof {
            assert(a@.skip(i as int)[0] == x);
            assert(b@.skip(i as int)[0] == y);
        }
        if x != y {
            let r = x < y;
            proof {
                assert(chars_lt(a@.skip(i as int), b@.skip(i as int)) == (x < y));
            }
            return r;
        }
        proof {
            assert(a@.skip(i as int).skip(1) =~= a@.skip(i + 1));
            assert(b@.skip(i as int).skip(1) =~= b@.skip(i + 1));
        }
        i = i + 1;
    }
    proof {
        assert(a@.skip(i as int).len() == an - i);
        assert(b@.skip(i as int).len() == bn - i);
    }
    an < bn
}

/// The characters of `s`, one by one.
pub fn to_chars(s: &str) -> (r: Vec<char>)
    ensures
        r@ == s@,
{
    let n: usize = s.unicode_len();
    let mut r: Vec<char> = Vec::new();
    let mut i: usize = 0;
    while i < n
        invariant
            n == s@.len(),
            i <= n,
            r@ == s@.take(i as int),
        decreases n - i,
    {
        r.push(s.get_char(i));
        i = i + 1;
        assert(r@ =~= s@.take(i as int));
    }
    assert(r@ =~= s@);
    r
}

/// Element-wise equality of two character vectors.
pub fn chars_eq(a: &Vec<char>, b: &Vec<char>) -> (r: bool)
    ensures
        r == (a@ == b@),
{
    if a.len() != b.len() {
        assert(a@ != b@);
        return false;
    }
    let n: usize = a.len();
    let mut i: usize = 0;
    while i < n
        invariant
            n == a@.len() == b@.len(),
            i <= n,
            forall|j: int| 0 <= j < i ==> a@[j] == b@[j],
        decreases n - i,
    {
        if a[i] != b[i] {
            return false;
        }
        i = i + 1;
    }
    assert(a@ =~= b@);
    true
}

/// Whether `p` is a prefix of `s`, element-wise.
pub fn chars_start_with(s: &Vec<char>, p: &Vec<char>) -> (r: bool)
    ensures
        r == has_prefix(s@, p@),
{
    if p.len() > s.len() {
        return false;
    }
    let n: usize = p.len();
    let mut i: usize = 0;
    while i < n
        invariant
            n == p@.len() <= s@.len(),
            i <= n,
            forall|j: int| 0 <= j < i ==> s@[j] == p@[j],
        decreases n - i,
    {
        if s[i] != p[i] {
            assert(s@.take(n as int)[i as int] != p@[i as int]);
            return false;
        }
        i = i + 1;
    }
    assert(s@.take(n as int) =~= p@);
    true
}

/// Append every element of `src` to `dst`.
pub fn push_all(dst: &mut Vec<char>, src: &Vec<char>)
    ensures
        final(dst)@ == old(dst)@ + src@,
{
    let n: usize = src.len();
    let mut i: usize = 0;
    proof {
        assert(dst@ =~= old(dst)@ + src@.take(0));
    }
    while i < n
        invariant
            n == src@.len(),
            i <= n,
            dst@ == old(dst)@ + src@.take(i as int),
        decreases n - i,
    {
        dst.push(src[i]);
        i = i + 1;
        proof {
            assert(dst@ =~= old(dst)@ + src@.take(i as int));
        }
    }
    proof {
        assert(src@.take(n as int) =~= src@);
    }
}

/// Relies on std's `FromIterator` for `String`: collecting the characters of
/// a vector yields the string of exactly those characters.
#[verifier::external_body]
pub fn chars_to_string(v: &Vec<char>) -> (r: String)
    ensures
        r@ == v@,
{
    v.iter().collect()
}

/// The elements of `v` from `i` up to `j`.
pub fn subrange(v: &Vec<char>, i: usize, j: usize) -> (r: Vec<char>)
    requires
        i <= j <= v@.len(),
    ensures
        r@ == v@.subrange(i as int, j as int),
{
    slice_to_vec(slice_subrange(v.as_slice(), i, j))
}

/// `v` split at every newline, as `split_lines` describes.
pub fn split_lines_exec(v: &Vec<char>) -> (r: Vec<Vec<char>>)
    ensures
        r.deep_view() == split_lines(v@),
{
    let n: usize = v.len();
    let mut r: Vec<Vec<char>> = Vec::new();
    let mut start: usize = 0;
    let mut i: usize = 0;
    proof {
        assert(v@.skip(0) =~= v@);
    }
    while i < n
        invariant
            n == v@.len(),
            start <= i <= n,
            split_lines(v@) == r.deep_view() + split_lines(v@.skip(start as int)),
            forall|j: int| start <= j < i ==> v@[j] != '\n',
        decreases n - i,
    {
        if v[i] == '\n' {
            let line = subrange(v, start, i);
            let ghost dv = r.deep_view();
            proof {
                let tail = v@.skip(start as int);
                assert(forall|j: int|
                    0 <= j < tail.len() ==> tail[j] == v@[j + start]);
                assert(tail.contains('\n')) by {
                    assert(tail[i - start] == '\n');
                }
                lemma_idx_of_first(tail, '\n', i - start);
                assert(tail.take(i - start) =~= v@.subrange(start as int, i as int));
                assert(tail.skip(i - start + 1) =~= v@.skip(i + 1));
                assert(split_lines(tail) == seq![line@] + split_lines(v@.skip(i + 1)));
            }
            r.push(line);
            proof {
                assert(r.deep_view() =~~= dv + seq![line@]);
                assert(dv + (seq![line@] + split_lines(v@.skip(i + 1))) =~= (dv + seq![line@])
                    + split_lines(v@.skip(i + 1)));
            }
            start = i + 1;
        }
        i = i + 1;
    }
    let line = subrange(v, start, n);
    let ghost dv = r.deep_view();
    proof {
        let tail = v@.skip(start as int);
        assert(forall|j: int| 0 <= j < tail.len() ==> tail[j] == v@[j + start]);
        assert(!tail.contains('\n'));
        assert(split_lines(tail) == seq![tail]);
        assert(tail =~= v@.subrange(start as int, n as int));
    }
    r.push(line);
    proof {
        assert(r.deep_view() =~~= dv + seq![line@]);
    }
    r
}

/// The lines, joined with single newlines.
pub fn join_lines_exec(ls: &Vec<Vec<char>>) -> (r: Vec<char>)
    requires
        ls@.len() >= 1,
    ensures
        r@ == join_lines(ls.deep_view()),
{
    let n: usize = ls.len();
    let mut r: Vec<char> = Vec::new();
    let mut i: usize = n;
    let mut acc: Vec<char> = Vec::new();
    // build from the tail so the recursive spec unfolds directly
    while i > 0
        invariant
            n == ls@.len() >= 1,
            i <= n,
            i < n ==> acc@ == join_lines(ls.deep_view().skip(i as int)),
            i == n ==> acc@.len() == 0,
        decreases i,
    {
        i = i - 1;
        let mut piece: Vec<char> = Vec::new();
        let line = &ls[i];
        let m: usize = line.len();
        let mut k: usize = 0;
        while k < m
            invariant
                m == line@.len(),
                k <= m,
                piece@ == line@.take(k as int),
            decreases m - k,
        {
            piece.push(line[k]);
            k = k + 1;
            assert(piece@ =~= line@.take(k as int));
        }
        assert(piece@ =~= line@);
        if i + 1 < n {
            piece.push('\n');
            let mut j: usize = 0;
            let al: usize = acc.len();
            while j < al
                invariant
                    al == acc@.len(),
                    j <= al,
                    piece@ == line@ + seq!['\n'] + acc@.take(j as int),
                decreases al - j,
            {
                piece.push(acc[j]);
                j = j + 1;
                assert(piece@ =~= line@ + seq!['\n'] + acc@.take(j as int));
            }
            assert(piece@ =~= line@ + seq!['\n'] + acc@);
            proof {
                let lv = ls.deep_view();
                assert(lv.skip(i as int)[0] == line@);
                assert(lv.skip(i as int).skip(1) =~= lv.skip(i + 1));
                assert(lv.skip(i as int).len() >= 2);
            }
        } else {
            proof {
                let lv = ls.deep_view();
                assert(lv.skip(i as int).len() == 1);
                assert(lv.skip(i as int)[0] == line@);
            }
        }
        acc = piece;
    }
    proof {
        assert(ls.deep_view().skip(0) =~= ls.deep_view());
    }
    acc
}

} // verus!
