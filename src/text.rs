//! Character-level helpers: conversion between strings and character
//! vectors, line splitting, and the spec functions that describe them.

use vstd::prelude::*;
use vstd::std_specs::iter::IteratorSpec;

verus! {

broadcast use vstd::string::group_string_axioms;

/// Relies on `String::push`: appends one character.
#[verifier::external_body]
pub(crate) fn push_char(s: &mut String, c: char)
    ensures
        final(s)@ == old(s)@.push(c),
{
    s.push(c);
}

/// The characters of `s`, in order.
pub fn chars_of(s: &str) -> (r: Vec<char>)
    ensures
        r@ == s@,
{
    let mut it = s.chars();
    let mut r: Vec<char> = Vec::new();
    loop
        invariant
            IteratorSpec::obeys_prophetic_iter_laws(&it),
            r@ + IteratorSpec::remaining(&it) == s@,
            IteratorSpec::decrease(&it) is Some,
        ensures
            r@ == s@,
        decreases IteratorSpec::decrease(&it)->0,
    {
        match it.next() {
            Some(c) => {
                r.push(c);
            }
            None => {
                assert(IteratorSpec::remaining(&it).len() == 0);
                assert(r@ =~= s@);
                break;
            }
        }
    }
    r
}

/// Appends every character of `v` to `s`.
pub(crate) fn push_chars(s: &mut String, v: &[char])
    ensures
        final(s)@ == old(s)@ + v@,
{
    let mut i: usize = 0;
    while i < v.len()
        invariant
            0 <= i <= v@.len(),
            s@ == old(s)@ + v@.take(i as int),
        decreases v@.len() - i,
    {
        push_char(s, v[i]);
        assert(v@.take(i + 1) =~= v@.take(i as int).push(v@[i as int]));
        i += 1;
    }
    assert(v@.take(i as int) =~= v@);
}

/// A string holding the characters `v[from..to]`.
pub(crate) fn string_of(v: &[char], from: usize, to: usize) -> (r: String)
    requires
        from <= to <= v@.len(),
    ensures
        r@ == v@.subrange(from as int, to as int),
{
    let mut r = String::new();
    let mut i: usize = from;
    while i < to
        invariant
            from <= i <= to <= v@.len(),
            r@ == v@.subrange(from as int, i as int),
        decreases to - i,
    {
        push_char(&mut r, v[i]);
        assert(v@.subrange(from as int, i + 1) =~= v@.subrange(from as int, i as int).push(
            v@[i as int],
        ));
        i += 1;
    }
    r
}

/// The first index at or after `from` where `s` holds `c`, or `s.len()`
/// when there is none.
pub open spec fn find_from(s: Seq<char>, c: char, from: int) -> int
    decreases s.len() - from,
{
    if from < 0 || from >= s.len() {
        s.len() as int
    } else if s[from] == c {
        from
    } else {
        find_from(s, c, from + 1)
    }
}

/// `find_from` stops at the first occurrence of `c`.
pub proof fn lemma_find_from(s: Seq<char>, c: char, from: int)
    requires
        0 <= from <= s.len(),
    ensures
        from <= find_from(s, c, from) <= s.len(),
        forall|k: int| from <= k < find_from(s, c, from) ==> s[k] != c,
        find_from(s, c, from) < s.len() ==> s[find_from(s, c, from)] == c,
    decreases s.len() - from,
{
    if from < s.len() && s[from] != c {
        lemma_find_from(s, c, from + 1);
    }
}

/// The index of the first `c` in `v` at or after `from`, or `v.len()`.
pub(crate) fn find_char(v: &[char], c: char, from: usize) -> (r: usize)
    requires
        from <= v@.len(),
    ensures
        r == find_from(v@, c, from as int),
{
    let mut i: usize = from;
    while i < v.len() && v[i] != c
        invariant
            from <= i <= v@.len(),
            find_from(v@, c, i as int) == find_from(v@, c, from as int),
        decreases v@.len() - i,
    {
        i += 1;
    }
    i
}

/// The first index at or after `from` where `s` holds no space, or
/// `s.len()`.
pub open spec fn skip_spaces(s: Seq<char>, from: int) -> int
    decreases s.len() - from,
{
    if from < 0 || from >= s.len() {
        s.len() as int
    } else if s[from] != ' ' {
        from
    } else {
        skip_spaces(s, from + 1)
    }
}

/// The end of `s.take(to)` once its trailing spaces are taken off.
pub open spec fn back_spaces(s: Seq<char>, to: int) -> int
    decreases to,
{
    if to <= 0 || to > s.len() {
        0
    } else if s[to - 1] != ' ' {
        to
    } else {
        back_spaces(s, to - 1)
    }
}

/// `s` without its leading spaces.
pub open spec fn trim_start(s: Seq<char>) -> Seq<char> {
    s.skip(skip_spaces(s, 0))
}

/// `s` without its leading and trailing spaces.
pub open spec fn trim(s: Seq<char>) -> Seq<char> {
    let a = skip_spaces(s, 0);
    let b = back_spaces(s, s.len() as int);
    if b <= a {
        Seq::empty()
    } else {
        s.subrange(a, b)
    }
}

/// Whether `s` begins with `p`.
pub open spec fn has_prefix(s: Seq<char>, p: Seq<char>) -> bool {
    p.len() <= s.len() && s.take(p.len() as int) == p
}

/// The characters of `v` without leading spaces.
pub(crate) fn trimmed_start(v: &[char]) -> (r: &[char])
    ensures
        r@ == trim_start(v@),
{
    let mut a: usize = 0;
    while a < v.len() && v[a] == ' '
        invariant
            0 <= a <= v@.len(),
            skip_spaces(v@, a as int) == skip_spaces(v@, 0),
        decreases v@.len() - a,
    {
        a += 1;
    }
    vstd::slice::slice_subrange(v, a, v.len())
}

/// The characters of `v` without leading and trailing spaces.
pub(crate) fn trimmed(v: &[char]) -> (r: &[char])
    ensures
        r@ == trim(v@),
{
    let mut a: usize = 0;
    while a < v.len() && v[a] == ' '
        invariant
            0 <= a <= v@.len(),
            skip_spaces(v@, a as int) == skip_spaces(v@, 0),
        decreases v@.len() - a,
    {
        a += 1;
    }
    let mut b: usize = v.len();
    while b > 0 && v[b - 1] == ' '
        invariant
            0 <= b <= v@.len(),
            back_spaces(v@, b as int) == back_spaces(v@, v@.len() as int),
        decreases b,
    {
        b -= 1;
    }
    if b <= a {
        let e: &[char] = &[];
        assert(e@ =~= Seq::<char>::empty());
        e
    } else {
        vstd::slice::slice_subrange(v, a, b)
    }
}

/// Whether `v` begins with `p`.
pub(crate) fn starts_with(v: &[char], p: &[char]) -> (r: bool)
    ensures
        r == has_prefix(v@, p@),
{
    if p.len() > v.len() {
        return false;
    }
    let mut i: usize = 0;
    while i < p.len()
        invariant
            p@.len() <= v@.len(),
            0 <= i <= p@.len(),
            forall|k: int| 0 <= k < i ==> v@[k] == p@[k],
        decreases p@.len() - i,
    {
        if v[i] != p[i] {
            assert(v@.take(p@.len() as int)[i as int] != p@[i as int]);
            return false;
        }
        i += 1;
    }
    assert(v@.take(p@.len() as int) =~= p@);
    true
}

/// The lines of a text: the pieces between line feeds, without them. A
/// final piece that is empty (the text is empty or ends in a line feed)
/// is not a line.
pub open spec fn lines_of(t: Seq<char>) -> Seq<Seq<char>>
    decreases t.len(),
    via lines_of_decreases
{
    if t.len() == 0 {
        Seq::empty()
    } else {
        let p = find_from(t, '\n', 0);
        if p >= t.len() {
            seq![t]
        } else {
            seq![t.take(p)] + lines_of(t.skip(p + 1))
        }
    }
}

#[via_fn]
proof fn lines_of_decreases(t: Seq<char>) {
    lemma_find_from(t, '\n', 0);
}

/// Searching a suffix is searching the whole from further on.
proof fn lemma_find_skip(s: Seq<char>, c: char, a: int, from: int)
    requires
        0 <= a <= s.len(),
        0 <= from <= s.len() - a,
    ensures
        find_from(s.skip(a), c, from) == find_from(s, c, a + from) - a,
    decreases s.len() - a - from,
{
    if from < s.len() - a {
        lemma_find_skip(s, c, a, from + 1);
    }
}

/// The views of a vector of character vectors.
pub open spec fn views(v: Seq<Vec<char>>) -> Seq<Seq<char>> {
    v.map_values(|l: Vec<char>| l@)
}

/// Splits a text into its lines, as `lines_of` describes.
pub(crate) fn split_lines(t: &Vec<char>) -> (r: Vec<Vec<char>>)
    ensures
        views(r@) == lines_of(t@),
{
    let mut r: Vec<Vec<char>> = Vec::new();
    let mut start: usize = 0;
    assert(t@.skip(0) =~= t@);
    assert(views(r@) =~= Seq::<Seq<char>>::empty());
    assert(lines_of(t@) =~= views(r@) + lines_of(t@.skip(0)));
    while start < t.len()
        invariant
            0 <= start <= t@.len(),
            lines_of(t@) == views(r@) + lines_of(t@.skip(start as int)),
        decreases t@.len() - start,
    {
        let p = find_char(t.as_slice(), '\n', start);
        proof {
            lemma_find_from(t@, '\n', start as int);
            lemma_find_skip(t@, '\n', start as int, 0);
        }
        let ghost rest = t@.skip(start as int);
        let mut line: Vec<char> = Vec::new();
        let mut i: usize = start;
        while i < p
            invariant
                start <= i <= p <= t@.len(),
                line@ == t@.subrange(start as int, i as int),
            decreases p - i,
        {
            line.push(t[i]);
            assert(t@.subrange(start as int, i + 1) =~= t@.subrange(start as int, i as int).push(
                t@[i as int],
            ));
            i += 1;
        }
        let ghost old_r = r@;
        r.push(line);
        assert(views(r@) =~= views(old_r).push(t@.subrange(start as int, p as int)));
        if p == t.len() {
            assert(rest =~= t@.subrange(start as int, p as int));
            assert(t@.skip(p as int) =~= Seq::<char>::empty());
            start = p;
        } else {
            assert(rest.take(p - start) =~= t@.subrange(start as int, p as int));
            assert(rest.skip(p - start + 1) =~= t@.skip(p + 1));
            start = p + 1;
        }
    }
    assert(t@.skip(start as int) =~= Seq::<char>::empty());
    assert(views(r@) + Seq::<Seq<char>>::empty() =~= views(r@));
    r
}

/// Each line followed by a line feed, all concatenated.
pub open spec fn join_lines(ls: Seq<Seq<char>>) -> Seq<char>
    decreases ls.len(),
{
    if ls.len() == 0 {
        Seq::empty()
    } else {
        join_lines(ls.drop_last()) + ls.last() + seq!['\n']
    }
}

/// A text that ends in a line feed, unless it is empty: the text itself,
/// or the text with a line feed added.
pub open spec fn terminated(t: Seq<char>) -> Seq<char> {
    if t.len() == 0 || t.last() == '\n' {
        t
    } else {
        t.push('\n')
    }
}

/// Joining a first line and the rest.
pub proof fn lemma_join_front(a: Seq<char>, rest: Seq<Seq<char>>)
    ensures
        join_lines(seq![a] + rest) == a + seq!['\n'] + join_lines(rest),
    decreases rest.len(),
{
    if rest.len() == 0 {
        assert(seq![a] + rest =~= seq![a]);
        assert(seq![a].drop_last() =~= Seq::<Seq<char>>::empty());
        assert(a + seq!['\n'] + join_lines(rest) =~= join_lines(Seq::<Seq<char>>::empty()) + a
            + seq!['\n']);
    } else {
        lemma_join_front(a, rest.drop_last());
        assert((seq![a] + rest).drop_last() =~= seq![a] + rest.drop_last());
        assert((seq![a] + rest).last() == rest.last());
        assert(a + seq!['\n'] + join_lines(rest) =~= a + seq!['\n'] + join_lines(rest.drop_last())
            + rest.last() + seq!['\n']);
    }
}

/// Joining the lines of a text gives the text back, with a line feed
/// added at its end when one is missing.
pub proof fn lemma_join_lines_of(t: Seq<char>)
    ensures
        join_lines(lines_of(t)) == terminated(t),
    decreases t.len(),
{
    if t.len() > 0 {
        let p = find_from(t, '\n', 0);
        lemma_find_from(t, '\n', 0);
        if p >= t.len() {
            assert(seq![t] =~= seq![t] + Seq::<Seq<char>>::empty());
            lemma_join_front(t, Seq::empty());
            assert(t[t.len() - 1] != '\n');
            assert(t + seq!['\n'] + Seq::<char>::empty() =~= t.push('\n'));
        } else {
            let rest = t.skip(p + 1);
            lemma_join_lines_of(rest);
            lemma_join_front(t.take(p), lines_of(rest));
            if rest.len() == 0 {
                assert(t.take(p) + seq!['\n'] + rest =~= t);
            } else {
                assert(t.last() == rest.last());
                if rest.last() == '\n' {
                    assert(t.take(p) + seq!['\n'] + rest =~= t);
                } else {
                    assert(t.take(p) + seq!['\n'] + rest.push('\n') =~= t.push('\n'));
                }
            }
        }
    }
}

} // verus!
