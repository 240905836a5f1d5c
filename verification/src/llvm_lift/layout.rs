//! How emitted text splits into lines.
//!
//! Every instruction that sets a temporary is one line, and a line names the temporary that
//! it sets before anything else.

use crate::llvm_lift::lines;
use crate::llvm_lift::ops;
use crate::structuring::lines as split;
use crate::text;
use vstd::prelude::*;

verus! {

/// The line that sets `t`.
pub open spec fn assignment(t: Seq<char>, rest: Seq<char>) -> Seq<char> {
    "  "@ + t + " = "@ + rest
}

/// Whether a line sets the temporary with the number `n`.
pub open spec fn assigns(line: Seq<char>, n: u64) -> bool {
    exists|rest: Seq<char>| line == #[trigger] assignment(ops::tmp_name(n), rest)
}

/// The line that stores a value into a register.
pub open spec fn register_store(v: Seq<char>, reg: u8) -> Seq<char> {
    "  store i64 "@ + v + ", ptr %r"@ + text::dec(reg as nat) + ", align 8"@
}

/// Whether a line is a store.
pub open spec fn is_store(line: Seq<char>) -> bool {
    text::begins_with(line, "  store "@)
}

/// What `to` holds behind `from`.
pub open spec fn added(from: Seq<char>, to: Seq<char>) -> Seq<char> {
    to.skip(from.len() as int)
}

/// Whether a line is `line`.
pub open spec fn same_as(line: Seq<char>) -> spec_fn(Seq<char>) -> bool {
    |l: Seq<char>| l == line
}

/// How often a line occurs.
pub open spec fn occurrences(all: Seq<Seq<char>>, line: Seq<char>) -> nat {
    all.filter(same_as(line)).len()
}

pub(crate) broadcast proof fn lemma_plain_add(a: Seq<char>, b: Seq<char>)
    requires
        split::plain(a),
        split::plain(b),
    ensures
        #[trigger] split::plain(a + b),
{
    reveal(split::plain);
    let c = a + b;
    assert forall|k: int| 0 <= k < c.len() implies #[trigger] c[k] != '\n' && c[k] != '\r' by {
        if k < a.len() {
            assert(c[k] == a[k]);
        } else {
            assert(c[k] == b[k - a.len()]);
        }
    }
}

pub(crate) proof fn lemma_plain_dec(n: nat)
    ensures
        split::plain(text::dec(n)),
{
    reveal(split::plain);
    text::lemma_dec_digits(n);
}

pub(crate) proof fn lemma_plain_hex(n: nat, width: nat)
    ensures
        split::plain(text::hex_padded(n, width)),
{
    reveal(split::plain);
    text::lemma_hex_digits(n, width);
}

pub(crate) proof fn lemma_plain_tmp(n: u64)
    ensures
        split::plain(ops::tmp_name(n)),
{
    broadcast use lemma_plain_add;

    lemma_plain_dec(n as nat);
    assert(split::plain("%t"@)) by {
        reveal(split::plain);
        reveal_strlit("%t");
    }
}

pub(crate) proof fn lemma_plain_signed(i: int)
    ensures
        split::plain(text::dec_signed(i)),
{
    broadcast use lemma_plain_add;

    if i < 0 {
        lemma_plain_dec((-i) as nat);
        assert(split::plain(seq!['-'])) by {
            reveal(split::plain);
        }
    } else {
        lemma_plain_dec(i as nat);
    }
}

/// The parts of lines between their operands.
pub(crate) proof fn lemma_plain_parts()
    ensures
        split::plain("  "@),
        split::plain(" = "@),
        split::plain(" "@),
        split::plain(", "@),
        split::plain(" to "@),
        split::plain("icmp "@),
        split::plain(" i64 "@),
        split::plain("select i1 "@),
        split::plain("call "@),
        split::plain(" @llvm."@),
        split::plain("."@),
        split::plain("("@),
        split::plain(")"@),
{
    reveal(split::plain);
    reveal_strlit("  ");
    reveal_strlit(" = ");
    reveal_strlit(" ");
    reveal_strlit(", ");
    reveal_strlit(" to ");
    reveal_strlit("icmp ");
    reveal_strlit(" i64 ");
    reveal_strlit("select i1 ");
    reveal_strlit("call ");
    reveal_strlit(" @llvm.");
    reveal_strlit(".");
    reveal_strlit("(");
    reveal_strlit(")");
}

pub(crate) proof fn lemma_plain_words()
    ensures
        split::plain("add"@),
        split::plain("sub"@),
        split::plain("mul"@),
        split::plain("udiv"@),
        split::plain("sdiv"@),
        split::plain("urem"@),
        split::plain("srem"@),
        split::plain("shl"@),
        split::plain("lshr"@),
        split::plain("ashr"@),
        split::plain("and"@),
        split::plain("or"@),
        split::plain("xor"@),
        split::plain("fshl"@),
        split::plain("fshr"@),
        split::plain("64"@),
        split::plain("-1"@),
{
    reveal(split::plain);
    reveal_strlit("add");
    reveal_strlit("sub");
    reveal_strlit("mul");
    reveal_strlit("udiv");
    reveal_strlit("sdiv");
    reveal_strlit("urem");
    reveal_strlit("srem");
    reveal_strlit("shl");
    reveal_strlit("lshr");
    reveal_strlit("ashr");
    reveal_strlit("and");
    reveal_strlit("or");
    reveal_strlit("xor");
    reveal_strlit("fshl");
    reveal_strlit("fshr");
    reveal_strlit("64");
    reveal_strlit("-1");
}

pub(crate) proof fn lemma_plain_types()
    ensures
        split::plain("i1"@),
        split::plain("i32"@),
        split::plain("i64"@),
        split::plain("i128"@),
        split::plain("trunc"@),
        split::plain("zext"@),
        split::plain("sext"@),
        split::plain("eq"@),
        split::plain("ne"@),
        split::plain("ult"@),
        split::plain("ule"@),
        split::plain("ugt"@),
        split::plain("uge"@),
        split::plain("slt"@),
        split::plain("sle"@),
        split::plain("sgt"@),
        split::plain("sge"@),
{
    reveal(split::plain);
    reveal_strlit("i1");
    reveal_strlit("i32");
    reveal_strlit("i64");
    reveal_strlit("i128");
    reveal_strlit("trunc");
    reveal_strlit("zext");
    reveal_strlit("sext");
    reveal_strlit("eq");
    reveal_strlit("ne");
    reveal_strlit("ult");
    reveal_strlit("ule");
    reveal_strlit("ugt");
    reveal_strlit("uge");
    reveal_strlit("slt");
    reveal_strlit("sle");
    reveal_strlit("sgt");
    reveal_strlit("sge");
}

/// The lines that set the temporaries `names`.
pub open spec fn assignments(names: Seq<u64>, rests: Seq<Seq<char>>) -> Seq<Seq<char>> {
    Seq::new(names.len(), |i: int| assignment(ops::tmp_name(names[i]), rests[i]))
}

/// Whether `text` is `base` and lines that set the temporaries `names`, in that order.
pub open spec fn fits(
    base: Seq<char>,
    text: Seq<char>,
    names: Seq<u64>,
    rests: Seq<Seq<char>>,
) -> bool {
    &&& rests.len() == names.len()
    &&& split::all_plain(rests)
    &&& text == base + split::joined(assignments(names, rests), names.len())
}

#[verifier::opaque]
pub(crate) open spec fn traced(base: Seq<char>, text: Seq<char>, names: Seq<u64>) -> bool {
    exists|rests: Seq<Seq<char>>| fits(base, text, names, rests)
}

pub(crate) proof fn lemma_start(base: Seq<char>)
    ensures
        traced(base, base, seq![]),
{
    reveal(traced);
    let none: Seq<Seq<char>> = seq![];
    assert(base =~= base + split::joined(assignments(seq![], none), 0));
    assert(fits(base, base, seq![], none));
}

pub(crate) proof fn lemma_step(
    base: Seq<char>,
    text: Seq<char>,
    names: Seq<u64>,
    n: u64,
    rest: Seq<char>,
)
    requires
        traced(base, text, names),
        split::plain(rest),
    ensures
        traced(base, text + assignment(ops::tmp_name(n), rest) + "\n"@, names.push(n)),
{
    reveal(traced);
    let rests = choose|rests: Seq<Seq<char>>| fits(base, text, names, rests);
    let a = assignments(names, rests);
    let b = assignments(names.push(n), rests.push(rest));
    let k = names.len();
    assert forall|i: int| 0 <= i < k implies #[trigger] a[i] == b[i] by {}
    split::lemma_joined_prefix(a, b, k);
    let line = assignment(ops::tmp_name(n), rest);
    assert(b[k as int] == line);
    assert(split::joined(b, k + 1) == split::joined(a, k) + line + "\n"@);
    assert(text + line + "\n"@ =~= base + split::joined(b, k + 1));
    assert(fits(base, text + line + "\n"@, names.push(n), rests.push(rest)));
}

pub(crate) proof fn lemma_op(
    base: Seq<char>,
    s: Seq<char>,
    names: Seq<u64>,
    n: u64,
    op: Seq<char>,
    ty: Seq<char>,
    l: Seq<char>,
    r: Seq<char>,
)
    requires
        traced(base, s, names),
        split::plain(op),
        split::plain(ty),
        split::plain(l),
        split::plain(r),
    ensures
        traced(base, lines::op_line(s, ops::tmp_name(n), op, ty, l, r), names.push(n)),
{
    broadcast use lemma_plain_add;

    lemma_plain_parts();
    let rest = op + " "@ + ty + " "@ + l + ", "@ + r;
    lemma_step(base, s, names, n, rest);
    assert(lines::op_line(s, ops::tmp_name(n), op, ty, l, r) =~= s + assignment(
        ops::tmp_name(n),
        rest,
    ) + "\n"@);
}

pub(crate) proof fn lemma_compare(
    base: Seq<char>,
    s: Seq<char>,
    names: Seq<u64>,
    n: u64,
    cond: Seq<char>,
    ty: Seq<char>,
    l: Seq<char>,
    r: Seq<char>,
)
    requires
        traced(base, s, names),
        split::plain(cond),
        split::plain(ty),
        split::plain(l),
        split::plain(r),
    ensures
        traced(base, lines::compare_line(s, ops::tmp_name(n), cond, ty, l, r), names.push(n)),
{
    broadcast use lemma_plain_add;

    lemma_plain_parts();
    reveal_strlit(" = ");
    reveal_strlit("icmp ");
    reveal_strlit(" = icmp ");
    let rest = "icmp "@ + cond + " "@ + ty + " "@ + l + ", "@ + r;
    lemma_step(base, s, names, n, rest);
    assert(" = icmp "@ =~= " = "@ + "icmp "@);
    assert(lines::compare_line(s, ops::tmp_name(n), cond, ty, l, r) =~= s + assignment(
        ops::tmp_name(n),
        rest,
    ) + "\n"@);
}

pub(crate) proof fn lemma_cast(
    base: Seq<char>,
    s: Seq<char>,
    names: Seq<u64>,
    n: u64,
    op: Seq<char>,
    from: Seq<char>,
    v: Seq<char>,
    to: Seq<char>,
)
    requires
        traced(base, s, names),
        split::plain(op),
        split::plain(from),
        split::plain(v),
        split::plain(to),
    ensures
        traced(base, lines::cast_line(s, ops::tmp_name(n), op, from, v, to), names.push(n)),
{
    broadcast use lemma_plain_add;

    lemma_plain_parts();
    let rest = op + " "@ + from + " "@ + v + " to "@ + to;
    lemma_step(base, s, names, n, rest);
    assert(lines::cast_line(s, ops::tmp_name(n), op, from, v, to) =~= s + assignment(
        ops::tmp_name(n),
        rest,
    ) + "\n"@);
}

pub(crate) proof fn lemma_select(
    base: Seq<char>,
    s: Seq<char>,
    names: Seq<u64>,
    n: u64,
    c: Seq<char>,
    ty: Seq<char>,
    l: Seq<char>,
    r: Seq<char>,
)
    requires
        traced(base, s, names),
        split::plain(c),
        split::plain(ty),
        split::plain(l),
        split::plain(r),
    ensures
        traced(base, lines::select_line(s, ops::tmp_name(n), c, ty, l, r), names.push(n)),
{
    broadcast use lemma_plain_add;

    lemma_plain_parts();
    reveal_strlit(" = ");
    reveal_strlit("select i1 ");
    reveal_strlit(" = select i1 ");
    let rest = "select i1 "@ + c + ", "@ + ty + " "@ + l + ", "@ + ty + " "@ + r;
    lemma_step(base, s, names, n, rest);
    assert(" = select i1 "@ =~= " = "@ + "select i1 "@);
    assert(lines::select_line(s, ops::tmp_name(n), c, ty, l, r) =~= s + assignment(
        ops::tmp_name(n),
        rest,
    ) + "\n"@);
}

#[verifier::spinoff_prover]
#[verifier::rlimit(40)]
pub(crate) proof fn lemma_funnel(
    base: Seq<char>,
    s: Seq<char>,
    names: Seq<u64>,
    n: u64,
    f: Seq<char>,
    ty: Seq<char>,
    l: Seq<char>,
    r: Seq<char>,
)
    requires
        traced(base, s, names),
        split::plain(f),
        split::plain(ty),
        split::plain(l),
        split::plain(r),
    ensures
        traced(base, lines::funnel_line(s, ops::tmp_name(n), f, ty, l, r), names.push(n)),
{
    broadcast use lemma_plain_add;

    lemma_plain_parts();
    reveal_strlit(" = ");
    reveal_strlit("call ");
    reveal_strlit(" = call ");
    reveal_strlit(")");
    reveal_strlit("\n");
    reveal_strlit(")\n");
    let args = ty + " "@ + l + ", "@ + ty + " "@ + l + ", "@ + ty + " "@ + r;
    let rest = "call "@ + ty + " @llvm."@ + f + "."@ + ty + "("@ + args + ")"@;
    lemma_step(base, s, names, n, rest);
    assert(" = call "@ =~= " = "@ + "call "@);
    assert(")\n"@ =~= ")"@ + "\n"@);
    assert(lines::funnel_line(s, ops::tmp_name(n), f, ty, l, r) =~= s + assignment(
        ops::tmp_name(n),
        rest,
    ) + "\n"@);
}

/// The lines behind `base` are those that set `names`, and one more.
pub(crate) proof fn lemma_split(
    base: Seq<char>,
    mid: Seq<char>,
    names: Seq<u64>,
    last: Seq<char>,
) -> (rests: Seq<Seq<char>>)
    requires
        traced(base, mid, names),
        split::plain(last),
    ensures
        base.is_prefix_of(mid + last + "\n"@),
        rests.len() == names.len(),
        split::lines_from(added(base, mid + last + "\n"@), 0) == assignments(names, rests).push(
            last,
        ),
{
    broadcast use lemma_plain_add;

    reveal(traced);
    lemma_plain_parts();
    let rests = choose|rests: Seq<Seq<char>>| fits(base, mid, names, rests);
    let some = assignments(names, rests);
    let all = some.push(last);
    let k = names.len();
    assert forall|i: int| 0 <= i < all.len() implies split::plain(#[trigger] all[i]) by {
        if i < k {
            lemma_plain_tmp(names[i]);
            assert(split::plain(rests[i]));
        }
    }
    assert forall|i: int| 0 <= i < k implies #[trigger] some[i] == all[i] by {}
    split::lemma_joined_prefix(some, all, k);
    let text = split::joined(all, k + 1);
    assert(text == split::joined(some, k) + last + "\n"@);
    assert(mid + last + "\n"@ =~= base + text);
    assert(added(base, mid + last + "\n"@) =~= text);
    split::lemma_joined_lines(all, k + 1, seq![]);
    assert(text + Seq::<char>::empty() =~= text);
    assert(split::lines_from(text, text.len() as int) =~= seq![]);
    assert(all.take((k + 1) as int) + Seq::<Seq<char>>::empty() =~= all);
    rests
}

/// A line sets one temporary at most.
pub proof fn law_line_sets_one_temporary(line: Seq<char>, a: u64, b: u64)
    requires
        assigns(line, a),
        assigns(line, b),
    ensures
        a == b,
{
    reveal_strlit("  ");
    reveal_strlit("%t");
    reveal_strlit(" = ");
    let p = ops::tmp_name(a);
    let q = ops::tmp_name(b);
    let x = choose|x: Seq<char>| line == #[trigger] assignment(p, x);
    let y = choose|y: Seq<char>| line == #[trigger] assignment(q, y);
    let da = text::dec(a as nat);
    let db = text::dec(b as nat);
    text::lemma_dec_digits(a as nat);
    text::lemma_dec_digits(b as nat);
    assert(line[(4 + da.len()) as int] == ' ');
    assert(line[(4 + db.len()) as int] == ' ');
    assert forall|i: int| 0 <= i < da.len() implies line[4 + i] == #[trigger] da[i] by {}
    assert forall|i: int| 0 <= i < db.len() implies line[4 + i] == #[trigger] db[i] by {}
    if da.len() < db.len() {
        assert(line[(4 + da.len()) as int] == db[da.len() as int]);
    } else if db.len() < da.len() {
        assert(line[(4 + db.len()) as int] == da[db.len() as int]);
    } else {
        assert forall|i: int| 0 <= i < da.len() implies da[i] == db[i] by {
            assert(line[4 + i] == da[i]);
            assert(line[4 + i] == db[i]);
        }
        assert(da =~= db);
        text::law_numerals_differ(a as nat, b as nat);
    }
}

/// A line that sets a temporary is no store.
pub(crate) proof fn lemma_no_store(line: Seq<char>, n: u64)
    requires
        assigns(line, n),
    ensures
        !is_store(line),
{
    reveal_strlit("  ");
    reveal_strlit("%t");
    reveal_strlit("  store ");
    let x = choose|x: Seq<char>| line == #[trigger] assignment(ops::tmp_name(n), x);
    assert(line[2] == '%');
    assert("  store "@[2] == 's');
}

pub(crate) proof fn lemma_store(v: Seq<char>, reg: u8)
    ensures
        is_store(register_store(v, reg)),
        split::plain(v) ==> split::plain(register_store(v, reg)),
{
    broadcast use lemma_plain_add;

    reveal_strlit("  store ");
    reveal_strlit("  store i64 ");
    let line = register_store(v, reg);
    assert forall|i: int| 0 <= i < 8 implies "  store "@[i] == line[i] by {
        assert(line[i] == "  store i64 "@[i]);
    }
    lemma_plain_dec(reg as nat);
    assert(split::plain("  store i64 "@) && split::plain(", ptr %r"@) && split::plain(
        ", align 8"@,
    )) by {
        reveal(split::plain);
        reveal_strlit(", ptr %r");
        reveal_strlit(", align 8");
    }
}

/// Whether `text` is `base` and lines behind it, `k` of which are `line`.
#[verifier::opaque]
pub(crate) open spec fn holding(
    base: Seq<char>,
    text: Seq<char>,
    line: Seq<char>,
    k: nat,
) -> bool {
    exists|all: Seq<Seq<char>>|
        {
            &&& split::all_plain(all)
            &&& text == base + #[trigger] split::joined(all, all.len())
            &&& occurrences(all, line) == k
        }
}

pub(crate) proof fn lemma_holding_start(base: Seq<char>, line: Seq<char>)
    ensures
        holding(base, base, line, 0),
{
    reveal(holding);
    let none: Seq<Seq<char>> = seq![];
    assert(base =~= base + split::joined(none, none.len()));
    assert(occurrences(none, line) == 0) by {
        reveal(Seq::filter);
    }
}

pub(crate) proof fn lemma_holding_step(
    base: Seq<char>,
    text: Seq<char>,
    line: Seq<char>,
    k: nat,
    next: Seq<char>,
)
    requires
        holding(base, text, line, k),
        split::plain(next),
    ensures
        holding(
            base,
            text + next + "\n"@,
            line,
            if next == line {
                k + 1
            } else {
                k
            },
        ),
{
    reveal(holding);
    let all = choose|all: Seq<Seq<char>>|
        {
            &&& split::all_plain(all)
            &&& text == base + #[trigger] split::joined(all, all.len())
            &&& occurrences(all, line) == k
        };
    let more = all.push(next);
    assert forall|i: int| 0 <= i < all.len() implies #[trigger] all[i] == more[i] by {}
    split::lemma_joined_prefix(all, more, all.len());
    assert(split::joined(more, more.len()) == split::joined(all, all.len()) + next + "\n"@);
    assert(text + next + "\n"@ =~= base + split::joined(more, more.len()));
    all.lemma_filter_push(next, same_as(line));
    assert(split::all_plain(more));
}

/// The line occurs among those behind `base` as often as it was written.
pub(crate) proof fn lemma_holding_end(base: Seq<char>, text: Seq<char>, line: Seq<char>, k: nat)
    requires
        holding(base, text, line, k),
    ensures
        base.is_prefix_of(text),
        occurrences(split::lines_from(added(base, text), 0), line) == k,
{
    reveal(holding);
    let all = choose|all: Seq<Seq<char>>|
        {
            &&& split::all_plain(all)
            &&& text == base + #[trigger] split::joined(all, all.len())
            &&& occurrences(all, line) == k
        };
    let rest = split::joined(all, all.len());
    assert(added(base, text) =~= rest);
    split::lemma_joined_lines(all, all.len(), seq![]);
    assert(rest + Seq::<char>::empty() =~= rest);
    assert(split::lines_from(rest, rest.len() as int) =~= seq![]);
    assert(all.take(all.len() as int) + Seq::<Seq<char>>::empty() =~= all);
}

/// A line that begins with a blank is not `line`.
pub(crate) proof fn lemma_holding_code(
    base: Seq<char>,
    text: Seq<char>,
    line: Seq<char>,
    k: nat,
    rest: Seq<char>,
)
    requires
        holding(base, text, line, k),
        split::plain(rest),
        line.len() > 0,
        line[0] != ' ',
    ensures
        holding(base, text + "  "@ + rest + "\n"@, line, k),
{
    broadcast use lemma_plain_add;

    lemma_plain_parts();
    reveal_strlit("  ");
    let next = "  "@ + rest;
    assert(next[0] == ' ');
    lemma_holding_step(base, text, line, k, next);
    assert(text + next + "\n"@ =~= text + "  "@ + rest + "\n"@);
}

pub(crate) proof fn lemma_plain_unary_words()
    ensures
        split::plain("0"@),
        split::plain("i8"@),
        split::plain("i16"@),
        split::plain("ctpop"@),
        split::plain("ctlz"@),
        split::plain("cttz"@),
        split::plain("bswap"@),
        split::plain(", i1 false)"@),
        split::plain("call i64 @pvm_sbrk(i64 "@),
{
    reveal(split::plain);
    reveal_strlit("0");
    reveal_strlit("i8");
    reveal_strlit("i16");
    reveal_strlit("ctpop");
    reveal_strlit("ctlz");
    reveal_strlit("cttz");
    reveal_strlit("bswap");
    reveal_strlit(", i1 false)");
    reveal_strlit("call i64 @pvm_sbrk(i64 ");
}

#[verifier::spinoff_prover]
#[verifier::rlimit(40)]
pub(crate) proof fn lemma_intrinsic(
    base: Seq<char>,
    s: Seq<char>,
    names: Seq<u64>,
    n: u64,
    f: Seq<char>,
    ty: Seq<char>,
    v: Seq<char>,
)
    requires
        traced(base, s, names),
        split::plain(f),
        split::plain(ty),
        split::plain(v),
    ensures
        traced(base, lines::intrinsic_line(s, ops::tmp_name(n), f, ty, v), names.push(n)),
{
    broadcast use lemma_plain_add;

    lemma_plain_parts();
    reveal_strlit(" = ");
    reveal_strlit("call ");
    reveal_strlit(" = call ");
    reveal_strlit(")");
    reveal_strlit("\n");
    reveal_strlit(")\n");
    let rest = "call "@ + ty + " @llvm."@ + f + "."@ + ty + "("@ + ty + " "@ + v + ")"@;
    lemma_step(base, s, names, n, rest);
    assert(" = call "@ =~= " = "@ + "call "@);
    assert(")\n"@ =~= ")"@ + "\n"@);
    assert(lines::intrinsic_line(s, ops::tmp_name(n), f, ty, v) =~= s + assignment(
        ops::tmp_name(n),
        rest,
    ) + "\n"@);
}

#[verifier::spinoff_prover]
#[verifier::rlimit(40)]
pub(crate) proof fn lemma_count(
    base: Seq<char>,
    s: Seq<char>,
    names: Seq<u64>,
    n: u64,
    f: Seq<char>,
    ty: Seq<char>,
    v: Seq<char>,
)
    requires
        traced(base, s, names),
        split::plain(f),
        split::plain(ty),
        split::plain(v),
    ensures
        traced(base, lines::count_line(s, ops::tmp_name(n), f, ty, v), names.push(n)),
{
    broadcast use lemma_plain_add;

    lemma_plain_parts();
    lemma_plain_unary_words();
    reveal_strlit(" = ");
    reveal_strlit("call ");
    reveal_strlit(" = call ");
    reveal_strlit("\n");
    reveal_strlit(", i1 false)");
    reveal_strlit(", i1 false)\n");
    let rest = "call "@ + ty + " @llvm."@ + f + "."@ + ty + "("@ + ty + " "@ + v
        + ", i1 false)"@;
    lemma_step(base, s, names, n, rest);
    assert(" = call "@ =~= " = "@ + "call "@);
    assert(", i1 false)\n"@ =~= ", i1 false)"@ + "\n"@);
    assert(lines::count_line(s, ops::tmp_name(n), f, ty, v) =~= s + assignment(
        ops::tmp_name(n),
        rest,
    ) + "\n"@);
}

pub(crate) proof fn lemma_sbrk(
    base: Seq<char>,
    s: Seq<char>,
    names: Seq<u64>,
    n: u64,
    v: Seq<char>,
)
    requires
        traced(base, s, names),
        split::plain(v),
    ensures
        traced(base, lines::sbrk_line(s, ops::tmp_name(n), v), names.push(n)),
{
    broadcast use lemma_plain_add;

    lemma_plain_parts();
    lemma_plain_unary_words();
    reveal_strlit(" = ");
    reveal_strlit("call i64 @pvm_sbrk(i64 ");
    reveal_strlit(" = call i64 @pvm_sbrk(i64 ");
    reveal_strlit(")");
    reveal_strlit("\n");
    reveal_strlit(")\n");
    let rest = "call i64 @pvm_sbrk(i64 "@ + v + ")"@;
    lemma_step(base, s, names, n, rest);
    assert(" = call i64 @pvm_sbrk(i64 "@ =~= " = "@ + "call i64 @pvm_sbrk(i64 "@);
    assert(")\n"@ =~= ")"@ + "\n"@);
    assert(lines::sbrk_line(s, ops::tmp_name(n), v) =~= s + assignment(ops::tmp_name(n), rest)
        + "\n"@);
}

} // verus!
