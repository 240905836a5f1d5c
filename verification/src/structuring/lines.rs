//! Placement of blank lines in pseudo-code.

use crate::text::{chars_of, string_of};
use vstd::prelude::*;

verus! {

/// White space.
pub open spec fn space(c: char) -> bool {
    ('\u{9}' <= c && c <= '\u{d}') || c == ' ' || c == '\u{85}' || c == '\u{a0}' || c == '\u{1680}'
        || ('\u{2000}' <= c && c <= '\u{200a}') || c == '\u{2028}' || c == '\u{2029}' || c
        == '\u{202f}' || c == '\u{205f}' || c == '\u{3000}'
}

pub fn is_space(c: char) -> (r: bool)
    ensures
        r == space(c),
{
    ('\u{9}' <= c && c <= '\u{d}') || c == ' ' || c == '\u{85}' || c == '\u{a0}' || c == '\u{1680}'
        || ('\u{2000}' <= c && c <= '\u{200a}') || c == '\u{2028}' || c == '\u{2029}' || c
        == '\u{202f}' || c == '\u{205f}' || c == '\u{3000}'
}

/// Without the white space in front.
pub open spec fn trim_start(s: Seq<char>) -> Seq<char>
    decreases s.len(),
{
    if s.len() > 0 && space(s[0]) {
        trim_start(s.subrange(1, s.len() as int))
    } else {
        s
    }
}

/// Without the white space behind.
pub open spec fn trim_end(s: Seq<char>) -> Seq<char>
    decreases s.len(),
{
    if s.len() > 0 && space(s.last()) {
        trim_end(s.drop_last())
    } else {
        s
    }
}

/// Without the white space on both sides.
pub open spec fn trim(s: Seq<char>) -> Seq<char> {
    trim_end(trim_start(s))
}

/// Trim a line.
pub fn trimmed(v: &Vec<char>) -> (r: Vec<char>)
    ensures
        r@ == trim(v@),
{
    let mut from: usize = 0;
    assert(v@.subrange(0, v@.len() as int) =~= v@);
    while from < v.len() && is_space(v[from])
        invariant
            from <= v@.len(),
            trim_start(v@) == trim_start(v@.subrange(from as int, v@.len() as int)),
        decreases v@.len() - from,
    {
        assert(v@.subrange(from as int, v@.len() as int).subrange(
            1,
            v@.subrange(from as int, v@.len() as int).len() as int,
        ) =~= v@.subrange(from + 1, v@.len() as int));
        from = from + 1;
    }
    let ghost rest = v@.subrange(from as int, v@.len() as int);
    assert(trim_start(v@) == rest);
    let mut to: usize = v.len();
    while to > from && is_space(v[to - 1])
        invariant
            from <= to <= v@.len(),
            trim_end(rest) == trim_end(v@.subrange(from as int, to as int)),
        decreases to,
    {
        assert(v@.subrange(from as int, to as int).drop_last() =~= v@.subrange(
            from as int,
            to - 1,
        ));
        to = to - 1;
    }
    let ghost kept = v@.subrange(from as int, to as int);
    assert(trim_end(kept) == kept);
    let mut r: Vec<char> = Vec::new();
    let mut i: usize = from;
    while i < to
        invariant
            from <= i <= to <= v@.len(),
            r@ =~= v@.subrange(from as int, i as int),
        decreases to - i,
    {
        r.push(v[i]);
        i = i + 1;
    }
    r
}

/// Where the first line of `s` from `i` on ends: at a line feed or at the end.
pub open spec fn line_end(s: Seq<char>, i: int) -> int
    decreases s.len() - i,
{
    if i < 0 || i >= s.len() || s[i] == '\n' {
        i
    } else {
        line_end(s, i + 1)
    }
}

/// A line that a line feed ended, without a carriage return behind it.
pub open spec fn without_return(s: Seq<char>) -> Seq<char> {
    if s.len() > 0 && s.last() == '\r' {
        s.drop_last()
    } else {
        s
    }
}


/// The lines of `s` from `i` on.
pub open spec fn lines_from(s: Seq<char>, i: int) -> Seq<Seq<char>>
    decreases s.len() - i,
{
    if i < 0 || i >= s.len() {
        seq![]
    } else {
        let e = line_end(s, i);
        if e < i || e >= s.len() {
            seq![s.subrange(i, s.len() as int)]
        } else {
            seq![without_return(s.subrange(i, e))] + lines_from(s, e + 1)
        }
    }
}

/// The views of a list of lines.
pub open spec fn line_views(v: Seq<Vec<char>>) -> Seq<Seq<char>> {
    v.map_values(|l: Vec<char>| l@)
}

/// Split a text into lines.
pub fn split_lines(v: &Vec<char>) -> (r: Vec<Vec<char>>)
    ensures
        line_views(r@) == lines_from(v@, 0),
{
    let mut r: Vec<Vec<char>> = Vec::new();
    let mut line: Vec<char> = Vec::new();
    let mut start: Ghost<int> = Ghost(0int);
    let mut i: usize = 0;
    while i < v.len()
        invariant
            0 <= start@ <= i <= v@.len(),
            line@ =~= v@.subrange(start@, i as int),
            line_end(v@, start@) == line_end(v@, i as int),
            lines_from(v@, 0) =~= line_views(r@) + lines_from(v@, start@),
        decreases v@.len() - i,
    {
        if v[i] == '\n' {
            proof {
                assert(line_end(v@, start@) == i);
            }
            let ghost held = line_views(r@);
            let ghost whole = line@;
            if line.len() > 0 {
                if line[line.len() - 1] == '\r' {
                    line.pop();
                }
            }
            assert(line@ =~= without_return(whole));
            r.push(line);
            line = Vec::new();
            proof {
                assert(line_views(r@) =~= held.push(without_return(whole)));
                assert(lines_from(v@, start@) == seq![without_return(whole)] + lines_from(
                    v@,
                    i + 1,
                ));
                start@ = i + 1;
            }
        } else {
            line.push(v[i]);
        }
        i = i + 1;
    }
    if line.len() > 0 {
        let ghost held = line_views(r@);
        assert(lines_from(v@, start@) =~= seq![line@]);
        r.push(line);
        assert(line_views(r@) =~= held.push(line@));
    }
    assert(line_views(r@) =~= lines_from(v@, 0));
    r
}

/// Whether a line is blank.
pub open spec fn blank(line: Seq<char>) -> bool {
    trim(line).len() == 0
}

/// Whether a line starts with a closing brace.
pub open spec fn closing(line: Seq<char>) -> bool {
    trim(line).len() > 0 && trim(line)[0] == '}'
}

/// Whether the next line from `i` on that is not blank starts with a closing brace.
pub open spec fn closes_next(lines: Seq<Seq<char>>, i: int) -> bool
    decreases lines.len() - i,
{
    if i < 0 || i >= lines.len() {
        false
    } else if blank(lines[i]) {
        closes_next(lines, i + 1)
    } else {
        closing(lines[i])
    }
}

/// The first `n` lines without the blank ones in front of a closing brace.
pub open spec fn dense(lines: Seq<Seq<char>>, n: nat) -> Seq<Seq<char>>
    decreases n,
{
    if n == 0 {
        seq![]
    } else {
        let rest = dense(lines, (n - 1) as nat);
        if blank(lines[n - 1]) && closes_next(lines, n as int) {
            rest
        } else {
            rest.push(lines[n - 1])
        }
    }
}

/// Whether the line is only a closing brace.
pub open spec fn only_brace(line: Seq<char>) -> bool {
    trim(line) == "}"@ || trim(line) == "};"@
}

/// Whether a blank line goes behind the `i`th: it is only a closing brace, and the next
/// is neither blank nor closing.
pub open spec fn spaced_after(lines: Seq<Seq<char>>, i: int) -> bool {
    only_brace(lines[i]) && i + 1 < lines.len() && !blank(lines[i + 1]) && !closing(lines[i + 1])
}

/// The first `n` lines with blank ones behind closing braces, each line ended by a line
/// feed.
pub open spec fn spaced(lines: Seq<Seq<char>>, n: nat) -> Seq<char>
    decreases n,
{
    if n == 0 {
        seq![]
    } else {
        let rest = spaced(lines, (n - 1) as nat) + lines[n - 1] + "\n"@;
        if spaced_after(lines, n - 1) {
            rest + "\n"@
        } else {
            rest
        }
    }
}

/// The text with its blank lines put right.
pub open spec fn tidy(s: Seq<char>) -> Seq<char> {
    let lines = lines_from(s, 0);
    let kept = dense(lines, lines.len());
    if kept.len() == 0 {
        "\n"@
    } else {
        spaced(kept, kept.len())
    }
}

fn is_blank(line: &Vec<char>) -> (r: bool)
    ensures
        r == blank(line@),
{
    trimmed(line).len() == 0
}

fn is_closing(line: &Vec<char>) -> (r: bool)
    ensures
        r == closing(line@),
{
    let t = trimmed(line);
    t.len() > 0 && t[0] == '}'
}

fn is_only_brace(line: &Vec<char>) -> (r: bool)
    ensures
        r == only_brace(line@),
{
    proof {
        reveal_strlit("}");
        reveal_strlit("};");
    }
    let t = trimmed(line);
    if t.len() == 1 && t[0] == '}' {
        assert(t@ =~= "}"@);
        true
    } else if t.len() == 2 && t[0] == '}' && t[1] == ';' {
        assert(t@ =~= "};"@);
        true
    } else {
        false
    }
}

/// Post-process pseudo-code output to fix blank line placement:
/// - Remove blank lines immediately before lines starting with `}` or `} else {`
/// - Add a blank line after `}` lines (except when followed by another `}` or `} else {`)
pub fn fix_blank_lines(input: &str) -> (r: String)
    ensures
        r@ == tidy(input@),
{
    let chars = chars_of(input);
    let lines = split_lines(&chars);
    let ghost all = line_views(lines@);
    let mut kept: Vec<usize> = Vec::new();
    let mut i: usize = 0;
    while i < lines.len()
        invariant
            i <= lines@.len(),
            all == line_views(lines@),
            all.len() == lines@.len(),
            forall|k: int| 0 <= k < kept@.len() ==> #[trigger] kept@[k] < lines@.len(),
            kept@.map_values(|k: usize| all[k as int]) =~= dense(all, i as nat),
        decreases lines@.len() - i,
    {
        let mut drop_it: bool = false;
        if is_blank(&lines[i]) {
            let mut j: usize = i + 1;
            while j < lines.len() && is_blank(&lines[j])
                invariant
                    i < j <= lines@.len(),
                    all == line_views(lines@),
                    closes_next(all, i + 1) == closes_next(all, j as int),
                decreases lines@.len() - j,
            {
                j = j + 1;
            }
            if j < lines.len() {
                drop_it = is_closing(&lines[j]);
            }
            assert(drop_it == closes_next(all, i + 1));
        }
        if !drop_it {
            kept.push(i);
        }
        i = i + 1;
    }
    let ghost dense_lines = dense(all, all.len());
    let mut out = String::new();
    let mut n: usize = 0;
    while n < kept.len()
        invariant
            n <= kept@.len(),
            all == line_views(lines@),
            all.len() == lines@.len(),
            forall|k: int| 0 <= k < kept@.len() ==> #[trigger] kept@[k] < lines@.len(),
            kept@.map_values(|k: usize| all[k as int]) == dense_lines,
            out@ =~= spaced(dense_lines, n as nat),
        decreases kept@.len() - n,
    {
        assert(dense_lines[n as int] == all[kept@[n as int] as int]);
        let line: &Vec<char> = &lines[kept[n]];
        out.append(string_of(line).as_str());
        out.append("\n");
        if n + 1 < kept.len() {
            assert(dense_lines[n + 1] == all[kept@[n + 1] as int]);
            if is_only_brace(line) && !is_blank(&lines[kept[n + 1]]) && !is_closing(
                &lines[kept[n + 1]],
            ) {
                out.append("\n");
            }
        }
        n = n + 1;
    }
    if kept.len() == 0 {
        return "\n".to_owned();
    }
    out
}

proof fn lemma_dense_end(lines: Seq<Seq<char>>, n: nat)
    requires
        n <= lines.len(),
    ensures
        dense(lines, n).len() > 0 && blank(dense(lines, n).last()) ==> !closes_next(lines, n as int),
        forall|i: int|
            0 <= i && i + 1 < dense(lines, n).len() && blank(#[trigger] dense(lines, n)[i])
                ==> !closing(dense(lines, n)[i + 1]),
    decreases n,
{
    if n > 0 {
        lemma_dense_end(lines, (n - 1) as nat);
        let rest = dense(lines, (n - 1) as nat);
        let all = dense(lines, n);
        assert forall|i: int|
            0 <= i && i + 1 < all.len() && blank(#[trigger] all[i]) implies !closing(all[i + 1]) by {
            if i + 1 < rest.len() {
                assert(all[i] == rest[i] && all[i + 1] == rest[i + 1]);
            } else {
                assert(all[i] == rest.last());
                assert(all[i + 1] == lines[n - 1]);
                assert(!closes_next(lines, n - 1));
            }
        }
    }
}

/// No blank line is kept in front of a closing brace.
pub proof fn law_no_blank_line_before_brace(lines: Seq<Seq<char>>, i: int)
    requires
        0 <= i,
        i + 1 < dense(lines, lines.len()).len(),
        blank(dense(lines, lines.len())[i]),
    ensures
        !closing(dense(lines, lines.len())[i + 1]),
{
    lemma_dense_end(lines, lines.len());
}

/// The first `n` lines with empty ones behind closing braces.
pub open spec fn opened(lines: Seq<Seq<char>>, n: nat) -> Seq<Seq<char>>
    decreases n,
{
    if n == 0 {
        seq![]
    } else {
        let rest = opened(lines, (n - 1) as nat).push(lines[n - 1]);
        if spaced_after(lines, n - 1) {
            rest.push(seq![])
        } else {
            rest
        }
    }
}

/// The first `n` lines, each ended by a line feed.
pub open spec fn joined(lines: Seq<Seq<char>>, n: nat) -> Seq<char>
    decreases n,
{
    if n == 0 {
        seq![]
    } else {
        joined(lines, (n - 1) as nat) + lines[n - 1] + "\n"@
    }
}

/// The lines that are not blank.
pub open spec fn filled(lines: Seq<Seq<char>>) -> Seq<Seq<char>> {
    lines.filter(|l: Seq<char>| !blank(l))
}

/// Whether a line holds no line feed and no carriage return.
#[verifier::opaque]
pub open spec fn plain(line: Seq<char>) -> bool {
    forall|k: int| 0 <= k < line.len() ==> #[trigger] line[k] != '\n' && line[k] != '\r'
}

pub open spec fn all_plain(lines: Seq<Seq<char>>) -> bool {
    forall|k: int| 0 <= k < lines.len() ==> plain(#[trigger] lines[k])
}

proof fn lemma_line_end(s: Seq<char>, i: int, e: int)
    requires
        0 <= i <= e <= s.len(),
        forall|k: int| i <= k < e ==> #[trigger] s[k] != '\n',
        e < s.len() ==> s[e] == '\n',
    ensures
        line_end(s, i) == e,
    decreases e - i,
{
    if i < e {
        lemma_line_end(s, i + 1, e);
    }
}

proof fn lemma_line_end_range(s: Seq<char>, i: int)
    requires
        0 <= i <= s.len(),
    ensures
        i <= line_end(s, i) <= s.len(),
        forall|k: int| i <= k < line_end(s, i) ==> #[trigger] s[k] != '\n',
    decreases s.len() - i,
{
    if i < s.len() && s[i] != '\n' {
        lemma_line_end_range(s, i + 1);
    }
}

proof fn lemma_lines_plain(s: Seq<char>, i: int)
    requires
        0 <= i <= s.len(),
        !s.contains('\r'),
    ensures
        all_plain(lines_from(s, i)),
    decreases s.len() - i,
{
    if i < s.len() {
        reveal(plain);
        let e = line_end(s, i);
        lemma_line_end_range(s, i);
        let all = lines_from(s, i);
        let first = s.subrange(i, e);
        assert forall|k: int| 0 <= k < first.len() implies #[trigger] first[k] != '\n' && first[k]
            != '\r' by {
            assert(first[k] == s[i + k]);
            assert(s.contains(s[i + k]));
        }
        if e < s.len() {
            lemma_lines_plain(s, e + 1);
            let rest = lines_from(s, e + 1);
            assert(all[0] == first);
            assert forall|k: int| 0 <= k < all.len() implies plain(#[trigger] all[k]) by {
                if k > 0 {
                    assert(all[k] == rest[k - 1]);
                }
            }
        } else {
            assert(all =~= seq![first]);
        }
    }
}

pub proof fn lemma_joined_lines(lines: Seq<Seq<char>>, n: nat, rest: Seq<char>)
    requires
        n <= lines.len(),
        all_plain(lines),
    ensures
        lines_from(joined(lines, n) + rest, 0) == lines.take(n as int) + lines_from(
            joined(lines, n) + rest,
            joined(lines, n).len() as int,
        ),
    decreases n,
{
    reveal_strlit("\n");
    reveal(plain);
    let s = joined(lines, n) + rest;
    if n == 0 {
        assert(lines.take(0) =~= seq![]);
    } else {
        let line = lines[n - 1];
        let before = joined(lines, (n - 1) as nat);
        lemma_joined_lines(lines, (n - 1) as nat, line + "\n"@ + rest);
        assert(before + (line + "\n"@ + rest) =~= s);
        let p = before.len() as int;
        let e = p + line.len();
        assert(plain(line));
        assert(s[e] == '\n');
        assert forall|k: int| p <= k < e implies #[trigger] s[k] != '\n' by {
            assert(s[k] == line[k - p]);
        }
        lemma_line_end(s, p, e);
        assert(s.subrange(p, e) =~= line);
        assert(without_return(line) == line);
        assert(lines_from(s, p) == seq![line] + lines_from(s, e + 1));
        assert(joined(lines, n).len() == e + 1);
        assert(lines.take(n as int) =~= lines.take(n - 1) + seq![line]);
        assert(lines.take(n - 1) + (seq![line] + lines_from(s, e + 1)) =~= (lines.take(n - 1)
            + seq![line]) + lines_from(s, e + 1));
    }
}

pub proof fn lemma_joined_prefix(a: Seq<Seq<char>>, b: Seq<Seq<char>>, n: nat)
    requires
        n <= a.len(),
        n <= b.len(),
        forall|k: int| 0 <= k < n ==> #[trigger] a[k] == b[k],
    ensures
        joined(a, n) == joined(b, n),
    decreases n,
{
    if n > 0 {
        lemma_joined_prefix(a, b, (n - 1) as nat);
        assert(a[n - 1] == b[n - 1]);
    }
}

proof fn lemma_spaced_joins(lines: Seq<Seq<char>>, n: nat)
    requires
        n <= lines.len(),
    ensures
        spaced(lines, n) == joined(opened(lines, n), opened(lines, n).len()),
    decreases n,
{
    if n > 0 {
        lemma_spaced_joins(lines, (n - 1) as nat);
        let before = opened(lines, (n - 1) as nat);
        let one = before.push(lines[n - 1]);
        lemma_joined_prefix(one, before, before.len());
        assert(joined(one, one.len()) == joined(before, before.len()) + lines[n - 1] + "\n"@);
        if spaced_after(lines, n - 1) {
            let two = one.push(seq![]);
            lemma_joined_prefix(two, one, one.len());
            assert(joined(two, two.len()) == joined(one, one.len()) + Seq::<char>::empty()
                + "\n"@);
            assert(joined(one, one.len()) + Seq::<char>::empty() =~= joined(one, one.len()));
        }
    }
}

/// Whether no blank line stands before a closing brace, and every line that is only a closing
/// brace is the last one or stands before a blank line or a closing brace.
pub open spec fn well_spaced(lines: Seq<Seq<char>>) -> bool {
    forall|i: int|
        #![trigger lines[i]]
        0 <= i && i + 1 < lines.len() ==> {
            &&& closing(lines[i + 1]) ==> !blank(lines[i])
            &&& only_brace(lines[i]) ==> blank(lines[i + 1]) || closing(lines[i + 1])
        }
}

proof fn lemma_empty_line()
    ensures
        blank(seq![]),
        !closing(seq![]),
        !only_brace(seq![]),
{
    reveal_strlit("}");
    reveal_strlit("};");
    let e: Seq<char> = seq![];
    assert(trim_start(e) == e);
    assert(trim_end(e) == e);
    assert("}"@.len() == 1 && "};"@.len() == 2);
}

proof fn lemma_opened(lines: Seq<Seq<char>>, n: nat)
    requires
        n <= lines.len(),
        forall|i: int|
            0 <= i && i + 1 < lines.len() && blank(#[trigger] lines[i]) ==> !closing(lines[i + 1]),
    ensures
        well_spaced(opened(lines, n)),
        filled(opened(lines, n)) == filled(lines.take(n as int)),
        n > 0 ==> opened(lines, n).len() > 0 && if spaced_after(lines, n - 1) {
            opened(lines, n).last() == Seq::<char>::empty()
        } else {
            opened(lines, n).last() == lines[n - 1]
        },
        all_plain(lines) ==> all_plain(opened(lines, n)),
    decreases n,
{
    let solid = |l: Seq<char>| !blank(l);
    if n == 0 {
        assert(lines.take(0) =~= seq![]);
    } else {
        lemma_opened(lines, (n - 1) as nat);
        reveal(plain);
        lemma_empty_line();
        let before = opened(lines, (n - 1) as nat);
        let line = lines[n - 1];
        let one = before.push(line);
        assert(lines.take(n as int) =~= lines.take(n - 1).push(line));
        lines.take(n - 1).lemma_filter_push(line, solid);
        before.lemma_filter_push(line, solid);
        one.lemma_filter_push(seq![], solid);
        assert forall|i: int|
            #![trigger one[i]]
            0 <= i && i + 1 < one.len() implies {
            &&& closing(one[i + 1]) ==> !blank(one[i])
            &&& only_brace(one[i]) ==> blank(one[i + 1]) || closing(one[i + 1])
        } by {
            if i + 1 < before.len() {
                assert(one[i] == before[i] && one[i + 1] == before[i + 1]);
            } else {
                assert(one[i] == before.last());
                assert(one[i + 1] == line);
                assert(lines[n - 2] == lines[n - 2]);
            }
        }
        assert(well_spaced(one));
        if spaced_after(lines, n - 1) {
            let two = one.push(seq![]);
            assert forall|i: int|
                #![trigger two[i]]
                0 <= i && i + 1 < two.len() implies {
                &&& closing(two[i + 1]) ==> !blank(two[i])
                &&& only_brace(two[i]) ==> blank(two[i + 1]) || closing(two[i + 1])
            } by {
                if i + 1 < one.len() {
                    assert(two[i] == one[i] && two[i + 1] == one[i + 1]);
                }
            }
            assert(well_spaced(two));
        }
    }
}

proof fn lemma_dense_filled(lines: Seq<Seq<char>>, n: nat)
    requires
        n <= lines.len(),
    ensures
        filled(dense(lines, n)) == filled(lines.take(n as int)),
        all_plain(lines) ==> all_plain(dense(lines, n)),
    decreases n,
{
    let solid = |l: Seq<char>| !blank(l);
    if n == 0 {
        assert(lines.take(0) =~= seq![]);
    } else {
        lemma_dense_filled(lines, (n - 1) as nat);
        assert(lines.take(n as int) =~= lines.take(n - 1).push(lines[n - 1]));
        lines.take(n - 1).lemma_filter_push(lines[n - 1], solid);
        dense(lines, (n - 1) as nat).lemma_filter_push(lines[n - 1], solid);
    }
}

proof fn lemma_no_close(lines: Seq<Seq<char>>, i: int)
    requires
        well_spaced(lines),
        0 <= i < lines.len(),
        blank(lines[i]),
    ensures
        !closes_next(lines, i + 1),
    decreases lines.len() - i,
{
    if i + 1 < lines.len() {
        if blank(lines[i + 1]) {
            lemma_no_close(lines, i + 1);
        }
    }
}

proof fn lemma_dense_same(lines: Seq<Seq<char>>, n: nat)
    requires
        well_spaced(lines),
        n <= lines.len(),
    ensures
        dense(lines, n) == lines.take(n as int),
        opened(lines, n) == lines.take(n as int),
    decreases n,
{
    if n == 0 {
        assert(lines.take(0) =~= seq![]);
    } else {
        lemma_dense_same(lines, (n - 1) as nat);
        assert(lines.take(n as int) =~= lines.take(n - 1).push(lines[n - 1]));
        if blank(lines[n - 1]) {
            lemma_no_close(lines, n - 1);
        }
        assert(!spaced_after(lines, n - 1));
    }
}

proof fn lemma_tidy_lines(s: Seq<char>) -> (lines: Seq<Seq<char>>)
    requires
        !s.contains('\r'),
    ensures
        tidy(s) == joined(lines, lines.len()),
        lines_from(tidy(s), 0) == lines,
        lines.len() > 0,
        well_spaced(lines),
        filled(lines) == filled(lines_from(s, 0)),
{
    let given = lines_from(s, 0);
    lemma_lines_plain(s, 0);
    let kept = dense(given, given.len());
    lemma_dense_end(given, given.len());
    lemma_dense_filled(given, given.len());
    assert(given.take(given.len() as int) =~= given);
    let lines = if kept.len() == 0 {
        seq![Seq::<char>::empty()]
    } else {
        opened(kept, kept.len())
    };
    if kept.len() == 0 {
        reveal(plain);
        lemma_empty_line();
        reveal_with_fuel(joined, 2);
        reveal_strlit("\n");
        assert(joined(lines, 1) =~= "\n"@);
        let solid = |l: Seq<char>| !blank(l);
        Seq::<Seq<char>>::empty().lemma_filter_push(seq![], solid);
        assert(Seq::<Seq<char>>::empty().push(seq![]) =~= lines);
        assert(filled(kept) == kept.filter(solid));
        assert(kept =~= Seq::empty());
    } else {
        lemma_opened(kept, kept.len());
        lemma_spaced_joins(kept, kept.len());
        assert(kept.take(kept.len() as int) =~= kept);
    }
    lemma_joined_lines(lines, lines.len(), seq![]);
    let text = joined(lines, lines.len());
    assert(text + Seq::<char>::empty() =~= text);
    assert(lines.take(lines.len() as int) =~= lines);
    assert(lines_from(text, text.len() as int) =~= seq![]);
    assert(lines + lines_from(text, text.len() as int) =~= lines);
    lines
}

/// Where a text holds no carriage returns, putting its blank lines right once is enough. The
/// lines that are not blank stay, in their order; no blank line stands before a closing brace;
/// and behind a line that is only a closing brace comes a blank line, a closing brace or the
/// end.
pub proof fn law_tidied_text(s: Seq<char>)
    requires
        !s.contains('\r'),
    ensures
        tidy(tidy(s)) == tidy(s),
        filled(lines_from(tidy(s), 0)) == filled(lines_from(s, 0)),
        well_spaced(lines_from(tidy(s), 0)),
{
    let lines = lemma_tidy_lines(s);
    lemma_dense_same(lines, lines.len());
    assert(lines.take(lines.len() as int) =~= lines);
    lemma_spaced_joins(lines, lines.len());
}

} // verus!
