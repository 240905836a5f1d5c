//! That the lifting passes keep what expressions compute.

use crate::cfg::ControlFlowGraph;
use crate::ir::ssa::SsaProgram;
use crate::lifting::expr;
use crate::lifting::expr::Expr;
use crate::lifting::fold;
use crate::lifting::meaning;
use crate::lifting::meaning::Meaning;
use crate::lifting::program::Lifted;
use crate::lifting::propagate;
use crate::ordered;
use vstd::prelude::*;

verus! {

/// Whether every variable holds the value of its definition.
pub open spec fn holds_definitions(l: Lifted, m: Meaning) -> bool {
    forall|key: (usize, u8)| #[trigger]
        l.variables.contains_key(key) && l.expressions.contains_key(key.0) ==> (m.vars)(
            l.variables[key].name,
        ) == meaning::value(m, l.expressions[key.0])
}

/// Whether the programs have the same variables, and expressions of the same values at the
/// same places.
pub open spec fn same_values(a: Lifted, b: Lifted, m: Meaning) -> bool {
    &&& a.variables == b.variables
    &&& a.expressions.dom() == b.expressions.dom()
    &&& forall|pc: usize| #[trigger]
        a.expressions.contains_key(pc) ==> meaning::value(m, b.expressions[pc]) == meaning::value(
            m,
            a.expressions[pc],
        )
}

proof fn lemma_then_same(a: Lifted, b: Lifted, c: Lifted, m: Meaning)
    requires
        same_values(a, b, m),
        same_values(b, c, m),
    ensures
        same_values(a, c, m),
{
    assert forall|pc: usize| #[trigger] a.expressions.contains_key(pc) implies meaning::value(
        m,
        c.expressions[pc],
    ) == meaning::value(m, a.expressions[pc]) by {
        assert(b.expressions.dom().contains(pc));
        assert(b.expressions.contains_key(pc));
    }
}

proof fn lemma_still_holds(a: Lifted, b: Lifted, m: Meaning)
    requires
        same_values(a, b, m),
        holds_definitions(a, m),
    ensures
        holds_definitions(b, m),
{
    assert forall|key: (usize, u8)| #[trigger]
        b.variables.contains_key(key) && b.expressions.contains_key(key.0) implies (m.vars)(
        b.variables[key].name,
    ) == meaning::value(m, b.expressions[key.0]) by {
        assert(a.variables.contains_key(key));
        assert(b.expressions.dom().contains(key.0));
        assert(a.expressions.contains_key(key.0));
    }
}

proof fn lemma_substituted(m: Meaning, e: Expr, name: Seq<char>, by: Expr)
    requires
        (m.vars)(name) == meaning::value(m, by),
    ensures
        meaning::value(m, expr::substituted(e, name, by)) == meaning::value(m, e),
{
    meaning::law_substitution_evaluates(m, e, name, by);
    let n = meaning::with_var(m, name, meaning::value(m, by));
    assert(n.vars =~= m.vars);
    assert(n == m);
}

/// The keys of the variables are all variables.
proof fn lemma_keys(l: Lifted, n: nat)
    requires
        l.variables.dom().finite(),
        n < ordered::ascending_pairs(l.variables.dom()).len(),
    ensures
        l.variables.contains_key(ordered::ascending_pairs(l.variables.dom())[n as int]),
{
    ordered::lemma_ascending_pairs_exists(l.variables.dom());
    let keys = ordered::ascending_pairs(l.variables.dom());
    assert(keys.to_set().contains(keys[n as int]));
}

proof fn lemma_constants(l: Lifted, m: Meaning, keys: Seq<(usize, u8)>, n: nat, i: int)
    requires
        holds_definitions(l, m),
        n <= keys.len(),
        forall|k: int| 0 <= k < keys.len() ==> l.variables.contains_key(#[trigger] keys[k]),
        0 <= i < propagate::constants(l, keys, n).len(),
    ensures
        ({
            let (name, pc, v) = propagate::constants(l, keys, n)[i];
            (m.vars)(name) == meaning::bits(v)
        }),
    decreases n,
{
    let rest = propagate::constants(l, keys, (n - 1) as nat);
    if i < rest.len() {
        lemma_constants(l, m, keys, (n - 1) as nat, i);
    } else {
        let key = keys[n - 1];
        assert(l.variables.contains_key(key));
        assert(l.expressions.contains_key(key.0));
    }
}

proof fn lemma_inlined(
    l: Lifted,
    m: Meaning,
    list: Seq<(Seq<char>, usize, i64)>,
    n: nat,
)
    requires
        n <= list.len(),
        forall|i: int| 0 <= i < list.len() ==> (m.vars)((#[trigger] list[i]).0) == meaning::bits(list[i].2),
    ensures
        same_values(l, propagate::inline_constants(l, list, n), m),
    decreases n,
{
    if n > 0 {
        lemma_inlined(l, m, list, (n - 1) as nat);
        let a = propagate::inline_constants(l, list, (n - 1) as nat);
        let b = propagate::inline_constants(l, list, n);
        let (name, pc, v) = list[n - 1];
        assert(b.expressions.dom() =~= a.expressions.dom());
        assert forall|p: usize| #[trigger] a.expressions.contains_key(p) implies meaning::value(
            m,
            b.expressions[p],
        ) == meaning::value(m, a.expressions[p]) by {
            assert(meaning::value(m, Expr::Const(v)) == meaning::bits(v));
            lemma_substituted(m, a.expressions[p], name, Expr::Const(v));
        }
        lemma_then_same(l, a, b, m);
    }
}

/// Putting constants in place of variables keeps the value of every expression, where the
/// variables hold the values of their definitions.
pub proof fn law_constants_keep_values(l: Lifted, m: Meaning)
    requires
        l.variables.dom().finite(),
        holds_definitions(l, m),
    ensures
        same_values(l, propagate::constants_propagated(l), m),
        holds_definitions(propagate::constants_propagated(l), m),
{
    let keys = ordered::ascending_pairs(l.variables.dom());
    let list = propagate::constants(l, keys, keys.len());
    assert forall|k: int| 0 <= k < keys.len() implies l.variables.contains_key(
        #[trigger] keys[k],
    ) by {
        lemma_keys(l, k as nat);
    }
    assert forall|i: int| 0 <= i < list.len() implies (m.vars)((#[trigger] list[i]).0)
        == meaning::bits(list[i].2) by {
        lemma_constants(l, m, keys, keys.len(), i);
    }
    lemma_inlined(l, m, list, list.len());
    lemma_still_holds(l, propagate::constants_propagated(l), m);
}

/// Simplifying keeps the value of every expression.
pub proof fn law_simplifying_keeps_values(l: Lifted, m: Meaning)
    requires
        forall|pc: usize| #[trigger]
            l.expressions.contains_key(pc) ==> meaning::strict(m, l.expressions[pc]),
    ensures
        same_values(l, propagate::all_simplified(l), m),
{
    let b = propagate::all_simplified(l);
    assert(b.expressions.dom() =~= l.expressions.dom());
    assert forall|pc: usize| #[trigger] l.expressions.contains_key(pc) implies meaning::value(
        m,
        b.expressions[pc],
    ) == meaning::value(m, l.expressions[pc]) by {
        meaning::law_simplification_keeps_value(m, l.expressions[pc]);
    }
}

/// Whether each rename leads to a name with the same value.
spec fn harmless(m: Meaning, by: Map<Seq<char>, Seq<char>>) -> bool {
    forall|n: Seq<char>| #[trigger] by.contains_key(n) ==> (m.vars)(by[n]) == (m.vars)(n)
}

proof fn lemma_renamed(m: Meaning, e: Expr, by: Map<Seq<char>, Seq<char>>)
    requires
        harmless(m, by),
    ensures
        meaning::value(m, expr::renamed(e, by)) == meaning::value(m, e),
    decreases e,
{
    match e {
        Expr::BinOp { op, lhs, rhs } => {
            lemma_renamed(m, *lhs, by);
            lemma_renamed(m, *rhs, by);
        },
        Expr::UnaryOp { op, operand } => {
            lemma_renamed(m, *operand, by);
        },
        Expr::Load { width, base, offset } => {
            lemma_renamed(m, *base, by);
        },
        Expr::Store { width, base, offset, value: v } => {
            lemma_renamed(m, *base, by);
            lemma_renamed(m, *v, by);
        },
        Expr::Call { name, args } => {
            let out = expr::renamed(e, by)->Call_args;
            assert forall|i: int| 0 <= i < args.len() implies meaning::values(m, out)[i]
                == meaning::values(m, args)[i] by {
                lemma_renamed(m, args[i], by);
                assert(out[i] == expr::renamed(args[i], by));
            }
            assert(meaning::values(m, out) =~= meaning::values(m, args));
        },
        _ => {},
    }
}

proof fn lemma_chain(
    m: Meaning,
    by: Map<Seq<char>, Seq<char>>,
    target: Seq<char>,
    seen: Set<Seq<char>>,
    steps: nat,
)
    requires
        harmless(m, by),
    ensures
        (m.vars)(propagate::chain_end(by, target, seen, steps)) == (m.vars)(target),
    decreases steps,
{
    if !(steps == 0 || !by.contains_key(target) || seen.contains(by[target])) {
        lemma_chain(m, by, by[target], seen.insert(target), (steps - 1) as nat);
    }
}

/// Whether each copy in the list has the value of its source.
spec fn true_copies(m: Meaning, list: Seq<(Seq<char>, Seq<char>, usize)>) -> bool {
    forall|i: int|
        0 <= i < list.len() ==> (m.vars)((#[trigger] list[i]).0) == (m.vars)(list[i].1)
}

proof fn lemma_direct(m: Meaning, list: Seq<(Seq<char>, Seq<char>, usize)>, n: nat)
    requires
        true_copies(m, list),
        n <= list.len(),
    ensures
        harmless(m, propagate::direct_renames(list, n)),
        forall|i: int|
            0 <= i < n ==> propagate::direct_renames(list, n).contains_key((#[trigger] list[i]).0),
    decreases n,
{
    if n > 0 {
        lemma_direct(m, list, (n - 1) as nat);
        assert(list[n - 1].0 == list[n - 1].0);
    }
}

proof fn lemma_full(m: Meaning, list: Seq<(Seq<char>, Seq<char>, usize)>, n: nat)
    requires
        true_copies(m, list),
        n <= list.len(),
    ensures
        harmless(m, propagate::full_renames(list, n)),
        forall|i: int|
            0 <= i < list.len() ==> propagate::full_renames(list, n).contains_key(
                (#[trigger] list[i]).0,
            ),
    decreases n,
{
    if n == 0 {
        lemma_direct(m, list, list.len());
    } else {
        lemma_full(m, list, (n - 1) as nat);
        let by = propagate::full_renames(list, (n - 1) as nat);
        let name = list[n - 1].0;
        assert(by.contains_key(name));
        lemma_chain(m, by, by[name], Set::empty().insert(name), list.len());
    }
}

proof fn lemma_copies(
    l: Lifted,
    m: Meaning,
    done: Set<usize>,
    keys: Seq<(usize, u8)>,
    n: nat,
)
    requires
        holds_definitions(l, m),
        n <= keys.len(),
        forall|k: int| 0 <= k < keys.len() ==> l.variables.contains_key(#[trigger] keys[k]),
    ensures
        true_copies(m, propagate::copies(l, done, keys, n)),
    decreases n,
{
    if n > 0 {
        lemma_copies(l, m, done, keys, (n - 1) as nat);
        let key = keys[n - 1];
        assert(l.variables.contains_key(key));
        if propagate::copied(l, done, key) is Some {
            assert(l.expressions.contains_key(key.0));
            assert(meaning::value(m, l.expressions[key.0]) == (m.vars)(
                propagate::copied(l, done, key)->0,
            ));
        }
    }
}

proof fn lemma_copy_rounds(l: Lifted, m: Meaning, done: Set<usize>, rounds: nat)
    requires
        l.variables.dom().finite(),
        holds_definitions(l, m),
    ensures
        same_values(l, propagate::copy_rounds(l, done, rounds), m),
    decreases rounds,
{
    let keys = ordered::ascending_pairs(l.variables.dom());
    let list = propagate::copies(l, done, keys, keys.len());
    if !(rounds == 0 || list.len() == 0) {
        assert forall|k: int| 0 <= k < keys.len() implies l.variables.contains_key(
            #[trigger] keys[k],
        ) by {
            lemma_keys(l, k as nat);
        }
        lemma_copies(l, m, done, keys, keys.len());
        lemma_full(m, list, list.len());
        let by = propagate::full_renames(list, list.len());
        let b = propagate::copies_applied(l, list);
        assert(b.expressions.dom() =~= l.expressions.dom());
        assert forall|pc: usize| #[trigger] l.expressions.contains_key(pc) implies meaning::value(
            m,
            b.expressions[pc],
        ) == meaning::value(m, l.expressions[pc]) by {
            lemma_renamed(m, l.expressions[pc], by);
        }
        lemma_still_holds(l, b, m);
        let seen = done.union(propagate::copy_places(list, list.len()));
        lemma_copy_rounds(b, m, seen, (rounds - 1) as nat);
        lemma_then_same(l, b, propagate::copy_rounds(b, seen, (rounds - 1) as nat), m);
    }
}

/// Putting the source of a copy in its place keeps the value of every expression, where the
/// variables hold the values of their definitions.
pub proof fn law_copies_keep_values(l: Lifted, m: Meaning)
    requires
        l.variables.dom().finite(),
        holds_definitions(l, m),
    ensures
        same_values(l, propagate::copies_propagated(l), m),
        holds_definitions(propagate::copies_propagated(l), m),
{
    lemma_copy_rounds(l, m, Set::empty(), l.variables.dom().len());
    lemma_still_holds(l, propagate::copies_propagated(l), m);
}

/// Whether each entry names a variable that holds the value of the expression at its place.
spec fn true_folds(l: Lifted, m: Meaning, list: Seq<(usize, Seq<char>, usize)>) -> bool {
    forall|i: int|
        0 <= i < list.len() ==> l.expressions.contains_key((#[trigger] list[i]).0) && (m.vars)(
            list[i].1,
        ) == meaning::value(m, l.expressions[list[i].0])
}

proof fn lemma_fold_each(l: Lifted, m: Meaning, list: Seq<(usize, Seq<char>, usize)>, n: nat)
    requires
        true_folds(l, m, list),
        n <= list.len(),
    ensures
        same_values(l, fold::fold_each(l, list, n).l, m),
    decreases n,
{
    if n > 0 {
        lemma_fold_each(l, m, list, (n - 1) as nat);
        let a = fold::fold_each(l, list, (n - 1) as nat).l;
        let b = fold::fold_each(l, list, n).l;
        let (pc, name, target) = list[n - 1];
        if a.expressions.contains_key(pc) && a.expressions.contains_key(target) {
            assert(l.expressions.contains_key(pc));
            lemma_substituted(m, a.expressions[target], name, a.expressions[pc]);
            assert(b.expressions.dom() =~= a.expressions.dom());
            assert(same_values(a, b, m));
            lemma_then_same(l, a, b, m);
        }
    }
}

proof fn lemma_fold_list(
    l: Lifted,
    m: Meaning,
    cfg: ControlFlowGraph,
    at: Map<usize, (usize, usize)>,
    keys: Seq<(usize, u8)>,
    n: nat,
)
    requires
        holds_definitions(l, m),
        n <= keys.len(),
        forall|k: int| 0 <= k < keys.len() ==> l.variables.contains_key(#[trigger] keys[k]),
    ensures
        true_folds(l, m, fold::fold_list(l, cfg, at, keys, n)),
    decreases n,
{
    if n > 0 {
        lemma_fold_list(l, m, cfg, at, keys, (n - 1) as nat);
        assert(l.variables.contains_key(keys[n - 1]));
    }
}

proof fn lemma_cross_list(
    l: Lifted,
    m: Meaning,
    cfg: ControlFlowGraph,
    idom: Map<usize, usize>,
    ssa: SsaProgram,
    keys: Seq<(usize, u8)>,
    n: nat,
)
    requires
        holds_definitions(l, m),
        n <= keys.len(),
        forall|k: int| 0 <= k < keys.len() ==> l.variables.contains_key(#[trigger] keys[k]),
    ensures
        true_folds(l, m, fold::cross_list(l, cfg, idom, ssa, keys, n)),
    decreases n,
{
    if n > 0 {
        lemma_cross_list(l, m, cfg, idom, ssa, keys, (n - 1) as nat);
        assert(l.variables.contains_key(keys[n - 1]));
    }
}

proof fn lemma_fold_rounds(l: Lifted, m: Meaning, cfg: ControlFlowGraph, rounds: nat)
    requires
        l.variables.dom().finite(),
        holds_definitions(l, m),
    ensures
        same_values(l, fold::fold_rounds(l, cfg, rounds), m),
    decreases rounds,
{
    let keys = ordered::ascending_pairs(l.variables.dom());
    let list = fold::fold_list(l, cfg, fold::places(cfg), keys, keys.len());
    if rounds > 0 {
        assert forall|k: int| 0 <= k < keys.len() implies l.variables.contains_key(
            #[trigger] keys[k],
        ) by {
            lemma_keys(l, k as nat);
        }
        lemma_fold_list(l, m, cfg, fold::places(cfg), keys, keys.len());
        lemma_fold_each(l, m, list, list.len());
        let b = fold::fold_each(l, list, list.len()).l;
        if fold::fold_each(l, list, list.len()).changed {
            lemma_still_holds(l, b, m);
            lemma_fold_rounds(b, m, cfg, (rounds - 1) as nat);
            lemma_then_same(l, b, fold::fold_rounds(b, cfg, (rounds - 1) as nat), m);
        }
    }
}

proof fn lemma_cross_rounds(
    l: Lifted,
    m: Meaning,
    cfg: ControlFlowGraph,
    idom: Map<usize, usize>,
    ssa: SsaProgram,
    rounds: nat,
)
    requires
        l.variables.dom().finite(),
        holds_definitions(l, m),
    ensures
        same_values(l, fold::cross_rounds(l, cfg, idom, ssa, rounds), m),
    decreases rounds,
{
    let keys = ordered::ascending_pairs(l.variables.dom());
    let list = fold::cross_list(l, cfg, idom, ssa, keys, keys.len());
    if rounds > 0 {
        assert forall|k: int| 0 <= k < keys.len() implies l.variables.contains_key(
            #[trigger] keys[k],
        ) by {
            lemma_keys(l, k as nat);
        }
        lemma_cross_list(l, m, cfg, idom, ssa, keys, keys.len());
        lemma_fold_each(l, m, list, list.len());
        let b = fold::fold_each(l, list, list.len()).l;
        if fold::fold_each(l, list, list.len()).changed {
            lemma_still_holds(l, b, m);
            lemma_cross_rounds(b, m, cfg, idom, ssa, (rounds - 1) as nat);
            lemma_then_same(l, b, fold::cross_rounds(b, cfg, idom, ssa, (rounds - 1) as nat), m);
        }
    }
}

/// Folding definitions into their uses, within blocks and across them, keeps the value of
/// every expression, where the variables hold the values of their definitions.
pub proof fn law_folding_keeps_values(
    l: Lifted,
    m: Meaning,
    cfg: ControlFlowGraph,
    idom: Map<usize, usize>,
    ssa: SsaProgram,
)
    requires
        l.variables.dom().finite(),
        holds_definitions(l, m),
    ensures
        same_values(l, fold::folded(l, cfg), m),
        same_values(l, fold::cross_folded(l, cfg, idom, ssa), m),
{
    lemma_fold_rounds(l, m, cfg, l.variables.dom().len());
    lemma_cross_rounds(l, m, cfg, idom, ssa, l.variables.dom().len());
}

} // verus!
