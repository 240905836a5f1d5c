//! Searching and cutting text.
//!
//! A text is a sequence of characters; positions count characters.

use crate::structuring::lines;
use crate::structuring::lines::is_space;
use crate::text::chars_of;
use vstd::prelude::*;

verus! {

/// Whether `t` stands in `s` at `i`.
pub open spec fn at(s: Seq<char>, t: Seq<char>, i: int) -> bool {
    0 <= i && i + t.len() <= s.len() && s.subrange(i, i + t.len()) == t
}

/// Where `t` stands in `s` for the first time, from `i` on.
pub open spec fn find(s: Seq<char>, t: Seq<char>, i: int) -> Option<int>
    decreases s.len() + 1 - i,
{
    if i < 0 || i + t.len() > s.len() {
        None
    } else if at(s, t, i) {
        Some(i)
    } else {
        find(s, t, i + 1)
    }
}

/// Whether `t` stands somewhere in `s`.
pub open spec fn contains(s: Seq<char>, t: Seq<char>) -> bool {
    find(s, t, 0) is Some
}

/// Whether `s` ends with `t`.
pub open spec fn ends_with(s: Seq<char>, t: Seq<char>) -> bool {
    at(s, t, s.len() - t.len())
}

pub(crate) fn is_at(s: &Vec<char>, t: &Vec<char>, i: usize) -> (r: bool)
    requires
        i <= s@.len(),
    ensures
        r == at(s@, t@, i as int),
{
    let size: usize = s.len();
    if size - i < t.len() {
        return false;
    }
    let ghost part = s@.subrange(i as int, i + t@.len());
    let mut k: usize = 0;
    while k < t.len()
        invariant
            k <= t@.len(),
            i + t@.len() <= s@.len() == size,
            part == s@.subrange(i as int, i + t@.len()),
            forall|j: int| 0 <= j < k ==> part[j] == t@[j],
        decreases t@.len() - k,
    {
        if s[i + k] != t[k] {
            assert(part[k as int] == s@[i + k]);
            return false;
        }
        assert(part[k as int] == s@[i + k]);
        k = k + 1;
    }
    assert(part =~= t@);
    true
}

/// Find a text from a position on.
pub(crate) fn find_from(s: &Vec<char>, t: &str, from: usize) -> (r: Option<usize>)
    requires
        from <= s@.len(),
    ensures
        match r {
            Some(i) => find(s@, t@, from as int) == Some(i as int) && from <= i && i + t@.len()
                <= s@.len() <= usize::MAX,
            None => find(s@, t@, from as int) is None,
        },
{
    let key = chars_of(t);
    let mut i: usize = from;
    while i <= s.len() && s.len() - i >= key.len()
        invariant
            key@ == t@,
            from <= i <= s@.len() + 1,
            find(s@, t@, from as int) == find(s@, t@, i as int),
        decreases s@.len() + 1 - i,
    {
        if is_at(s, &key, i) {
            return Some(i);
        }
        if i == s.len() {
            assert(find(s@, t@, i + 1) is None);
            return None;
        }
        i = i + 1;
    }
    None
}

pub(crate) fn holds_text(s: &Vec<char>, t: &str) -> (r: bool)
    ensures
        r == contains(s@, t@),
{
    match find_from(s, t, 0) {
        Some(_) => true,
        None => false,
    }
}

pub(crate) fn starts(s: &Vec<char>, t: &str) -> (r: bool)
    ensures
        r == at(s@, t@, 0),
{
    let key = chars_of(t);
    is_at(s, &key, 0)
}

pub(crate) fn ends(s: &Vec<char>, t: &str) -> (r: bool)
    ensures
        r == ends_with(s@, t@),
{
    let key = chars_of(t);
    if key.len() > s.len() {
        return false;
    }
    is_at(s, &key, s.len() - key.len())
}

pub(crate) fn is_text(s: &Vec<char>, t: &str) -> (r: bool)
    ensures
        r == (s@ == t@),
{
    let key = chars_of(t);
    let r = key.len() == s.len() && is_at(s, &key, 0);
    assert(s@.subrange(0, s@.len() as int) =~= s@);
    r
}

/// A part of a text.
pub(crate) fn part(s: &Vec<char>, from: usize, to: usize) -> (r: Vec<char>)
    requires
        from <= to <= s@.len(),
    ensures
        r@ == s@.subrange(from as int, to as int),
{
    let mut r: Vec<char> = Vec::new();
    let mut i: usize = from;
    while i < to
        invariant
            from <= i <= to <= s@.len(),
            r@ =~= s@.subrange(from as int, i as int),
        decreases to - i,
    {
        r.push(s[i]);
        i = i + 1;
    }
    r
}

/// The pieces of `s` between the occurrences of `t`.
pub open spec fn pieces(s: Seq<char>, t: Seq<char>) -> Seq<Seq<char>>
    decreases s.len(),
{
    match find(s, t, 0) {
        Some(i) => if t.len() > 0 && 0 <= i && i + t.len() <= s.len() {
            seq![s.subrange(0, i)] + pieces(s.subrange(i + t.len(), s.len() as int), t)
        } else {
            seq![s]
        },
        None => seq![s],
    }
}

/// Split a text at each occurrence of another.
pub(crate) fn split(s: &Vec<char>, t: &str) -> (r: Vec<Vec<char>>)
    requires
        t@.len() > 0,
    ensures
        lines::line_views(r@) == pieces(s@, t@),
{
    let width: usize = chars_of(t).len();
    let mut r: Vec<Vec<char>> = Vec::new();
    let mut rest: Vec<char> = part(s, 0, s.len());
    assert(rest@ =~= s@);
    assert(lines::line_views(r@) + pieces(rest@, t@) =~= pieces(s@, t@));
    loop
        invariant_except_break
            width == t@.len(),
            width > 0,
            lines::line_views(r@) + pieces(rest@, t@) == pieces(s@, t@),
        ensures
            lines::line_views(r@) + seq![rest@] == pieces(s@, t@),
        decreases rest@.len(),
    {
        let size: usize = rest.len();
        match find_from(&rest, t, 0) {
            Some(i) => {
                let ghost held = lines::line_views(r@);
                let front = part(&rest, 0, i);
                let ghost view = front@;
                let back = part(&rest, i + width, size);
                r.push(front);
                proof {
                    assert(lines::line_views(r@) =~= held.push(view));
                    assert(held + (seq![view] + pieces(back@, t@)) =~= held.push(view) + pieces(
                        back@,
                        t@,
                    ));
                }
                rest = back;
            },
            None => {
                break;
            },
        }
    }
    let ghost held = lines::line_views(r@);
    let ghost last = rest@;
    r.push(rest);
    assert(lines::line_views(r@) =~= held + seq![last]);
    r
}

/// Where the word before `i` starts.
pub open spec fn word_start(s: Seq<char>, i: int) -> int
    decreases i,
{
    if i <= 0 || lines::space(s[i - 1]) {
        i
    } else {
        word_start(s, i - 1)
    }
}

/// The last word of a text: words stand between white space.
pub open spec fn last_word(s: Seq<char>) -> Option<Seq<char>> {
    let t = lines::trim_end(s);
    if t.len() == 0 {
        None
    } else {
        Some(t.subrange(word_start(t, t.len() as int), t.len() as int))
    }
}

pub(crate) fn find_last_word(s: &Vec<char>) -> (r: Option<Vec<char>>)
    ensures
        match r {
            Some(w) => last_word(s@) == Some(w@),
            None => last_word(s@) is None,
        },
{
    let mut to: usize = s.len();
    assert(s@.subrange(0, s@.len() as int) =~= s@);
    while to > 0 && is_space(s[to - 1])
        invariant
            to <= s@.len(),
            lines::trim_end(s@) == lines::trim_end(s@.subrange(0, to as int)),
        decreases to,
    {
        assert(s@.subrange(0, to as int).drop_last() =~= s@.subrange(0, to - 1));
        to = to - 1;
    }
    let ghost t = s@.subrange(0, to as int);
    assert(lines::trim_end(s@) == t);
    if to == 0 {
        return None;
    }
    let mut from: usize = to;
    while from > 0 && !is_space(s[from - 1])
        invariant
            from <= to <= s@.len(),
            t == s@.subrange(0, to as int),
            word_start(t, to as int) == word_start(t, from as int),
        decreases from,
    {
        assert(t[from - 1] == s@[from - 1]);
        from = from - 1;
    }
    assert(from > 0 ==> t[from - 1] == s@[from - 1]);
    let w = part(s, from, to);
    assert(w@ =~= t.subrange(from as int, to as int));
    Some(w)
}

/// `s` without any `t` at its end.
pub open spec fn without_ends(s: Seq<char>, t: Seq<char>) -> Seq<char>
    decreases s.len(),
{
    if t.len() > 0 && ends_with(s, t) {
        without_ends(s.subrange(0, s.len() - t.len()), t)
    } else {
        s
    }
}

pub(crate) fn strip_ends(s: &Vec<char>, t: &str) -> (r: Vec<char>)
    requires
        t@.len() > 0,
    ensures
        r@ == without_ends(s@, t@),
{
    let width: usize = chars_of(t).len();
    let mut r: Vec<char> = part(s, 0, s.len());
    assert(r@ =~= s@);
    while ends(&r, t)
        invariant
            width == t@.len(),
            width > 0,
            without_ends(r@, t@) == without_ends(s@, t@),
        decreases r@.len(),
    {
        r = part(&r, 0, r.len() - width);
    }
    r
}

/// `s` without any `c` at its start.
pub open spec fn without_starts(s: Seq<char>, c: char) -> Seq<char>
    decreases s.len(),
{
    if s.len() > 0 && s[0] == c {
        without_starts(s.subrange(1, s.len() as int), c)
    } else {
        s
    }
}

pub(crate) fn strip_starts(s: &Vec<char>, c: char) -> (r: Vec<char>)
    ensures
        r@ == without_starts(s@, c),
{
    let mut from: usize = 0;
    assert(s@.subrange(0, s@.len() as int) =~= s@);
    while from < s.len() && s[from] == c
        invariant
            from <= s@.len(),
            without_starts(s@, c) == without_starts(
                s@.subrange(from as int, s@.len() as int),
                c,
            ),
        decreases s@.len() - from,
    {
        assert(s@.subrange(from as int, s@.len() as int).subrange(
            1,
            s@.subrange(from as int, s@.len() as int).len() as int,
        ) =~= s@.subrange(from + 1, s@.len() as int));
        from = from + 1;
    }
    part(s, from, s.len())
}

/// Append characters to a text.
pub(crate) fn push_chars(out: &mut String, v: &Vec<char>)
    ensures
        final(out)@ == old(out)@ + v@,
{
    let ghost start = out@;
    let mut i: usize = 0;
    assert(start + v@.subrange(0, 0) =~= start);
    while i < v.len()
        invariant
            i <= v@.len(),
            out@ == start + v@.subrange(0, i as int),
        decreases v@.len() - i,
    {
        out.push(v[i]);
        assert(start + v@.subrange(0, i + 1) =~= (start + v@.subrange(0, i as int)).push(
            v@[i as int],
        ));
        i = i + 1;
    }
    assert(v@.subrange(0, v@.len() as int) =~= v@);
}

} // verus!
