//! That definitions get names of their own, and uses go by definitions that reach them.

use crate::dataflow::{Definition, Use};
use crate::instruction::InstructionShape;
use crate::lifting::assign;
use crate::lifting::assign::{Naming, UseNames};
use crate::lifting::program::{Var, VarType};
use crate::text;
use vstd::prelude::*;

verus! {

/// A name of the kind that the type asks for, with the number `j`.
pub open spec fn numbered(t: VarType, j: nat) -> Seq<char> {
    if t == VarType::Pointer {
        "ptr_"@ + text::dec(j)
    } else if t == VarType::Boolean {
        "cond_"@ + text::dec(j)
    } else {
        "var_"@ + text::dec(j)
    }
}

/// How many names of the kind have been given.
spec fn given(s: Naming, t: VarType) -> nat {
    if t == VarType::Pointer {
        s.ptrs
    } else if t == VarType::Boolean {
        s.conds
    } else {
        s.vars
    }
}

spec fn same_kind(a: VarType, b: VarType) -> bool {
    (a == VarType::Pointer) == (b == VarType::Pointer) && (a == VarType::Boolean) == (b
        == VarType::Boolean)
}

proof fn lemma_numbered(a: VarType, i: nat, b: VarType, j: nat)
    requires
        numbered(a, i) == numbered(b, j),
    ensures
        same_kind(a, b),
        i == j,
{
    reveal_strlit("ptr_");
    reveal_strlit("cond_");
    reveal_strlit("var_");
    let x = numbered(a, i);
    let y = numbered(b, j);
    assert("ptr_"@[0] == 'p' && "cond_"@[0] == 'c' && "var_"@[0] == 'v');
    assert(x[0] == y[0]);
    let k: int = if a == VarType::Boolean {
        5
    } else {
        4
    };
    assert(x.subrange(k, x.len() as int) =~= text::dec(i));
    assert(y.subrange(k, y.len() as int) =~= text::dec(j));
    text::law_numerals_differ(i, j);
}

/// Whether the variable has a name that was given.
spec fn was_given(s: Naming, v: Var) -> bool {
    exists|j: nat| j < given(s, v.var_type) && v.name == #[trigger] numbered(v.var_type, j)
}

/// Whether names are given once, and each is known to come from its definition.
pub open spec fn well_named(s: Naming) -> bool {
    &&& forall|a: (usize, u8), b: (usize, u8)| #[trigger]
        s.variables.contains_key(a) && #[trigger] s.variables.contains_key(b) && a != b
            ==> s.variables[a].name != s.variables[b].name
    &&& forall|a: (usize, u8)| #[trigger]
        s.variables.contains_key(a) ==> s.def_pcs.contains_key(s.variables[a].name)
            && s.def_pcs[s.variables[a].name] == a.0
}

proof fn lemma_named(s: Naming, key: (usize, u8), t: VarType)
    requires
        well_named(s),
        forall|a: (usize, u8)| #[trigger]
            s.variables.contains_key(a) ==> was_given(s, s.variables[a]),
        !s.variables.contains_key(key),
    ensures
        well_named(assign::name_def(s, key, t)),
        forall|a: (usize, u8)| #[trigger]
            assign::name_def(s, key, t).variables.contains_key(a) ==> was_given(
                assign::name_def(s, key, t),
                assign::name_def(s, key, t).variables[a],
            ),
{
    let u = assign::name_def(s, key, t);
    let name = assign::fresh_name(s, t);
    assert(name == numbered(t, given(s, t)));
    assert forall|a: (usize, u8)| #[trigger] s.variables.contains_key(a) implies s.variables[a].name
        != name by {
        let v = s.variables[a];
        assert(was_given(s, v));
        let j = choose|j: nat|
            j < given(s, v.var_type) && v.name == #[trigger] numbered(v.var_type, j);
        if v.name == name {
            lemma_numbered(v.var_type, j, t, given(s, t));
        }
    }
    assert forall|a: (usize, u8)| #[trigger] u.variables.contains_key(a) implies was_given(
        u,
        u.variables[a],
    ) by {
        if a == key {
            assert(given(s, t) < given(u, t));
            assert(u.variables[a].name == numbered(t, given(s, t)));
        } else {
            let v = s.variables[a];
            assert(s.variables.contains_key(a));
            assert(was_given(s, v));
            let j = choose|j: nat|
                j < given(s, v.var_type) && v.name == #[trigger] numbered(v.var_type, j);
            assert(j < given(u, v.var_type));
        }
    }
    assert forall|a: (usize, u8), b: (usize, u8)| #[trigger]
        u.variables.contains_key(a) && #[trigger] u.variables.contains_key(b) && a
            != b implies u.variables[a].name != u.variables[b].name by {
        if a != key {
            assert(s.variables.contains_key(a));
        }
        if b != key {
            assert(s.variables.contains_key(b));
        }
    }
    assert forall|a: (usize, u8)| #[trigger] u.variables.contains_key(a) implies u.def_pcs.contains_key(
        u.variables[a].name,
    ) && u.def_pcs[u.variables[a].name] == a.0 by {
        if a != key {
            assert(s.variables.contains_key(a));
        }
    }
}

proof fn lemma_all_named(
    start: Naming,
    code: Map<usize, InstructionShape>,
    addresses: Set<(usize, u8)>,
    list: Seq<(usize, u8)>,
    n: nat,
)
    requires
        start.variables == Map::<(usize, u8), Var>::empty(),
        list.no_duplicates(),
        n <= list.len(),
    ensures
        ({
            let s = assign::name_defs(start, code, addresses, list, n);
            &&& well_named(s)
            &&& forall|a: (usize, u8)| #[trigger]
                s.variables.contains_key(a) ==> was_given(s, s.variables[a])
            &&& forall|a: (usize, u8)| #[trigger]
                s.variables.contains_key(a) <==> exists|i: int| 0 <= i < n && list[i] == a
        }),
    decreases n,
{
    if n > 0 {
        lemma_all_named(start, code, addresses, list, (n - 1) as nat);
        let s = assign::name_defs(start, code, addresses, list, (n - 1) as nat);
        let key = list[n - 1];
        let t = assign::inferred(code, addresses, key);
        assert(!s.variables.contains_key(key));
        lemma_named(s, key, t);
        let u = assign::name_def(s, key, t);
        assert forall|a: (usize, u8)| #[trigger] u.variables.contains_key(a) <==> exists|i: int|
            0 <= i < n && list[i] == a by {
            if u.variables.contains_key(a) && a != key {
                assert(s.variables.contains_key(a));
            }
            if exists|i: int| 0 <= i < n && list[i] == a {
                let i = choose|i: int| 0 <= i < n && list[i] == a;
                if i < n - 1 {
                    assert(s.variables.contains_key(a));
                }
            }
        }
    }
}

/// Every definition gets a variable, no two the same name, and a name leads back to the
/// program counter of its definition.
pub proof fn law_definitions_get_own_names(
    start: Naming,
    code: Map<usize, InstructionShape>,
    addresses: Set<(usize, u8)>,
    list: Seq<(usize, u8)>,
)
    requires
        start.variables == Map::<(usize, u8), Var>::empty(),
        list.no_duplicates(),
    ensures
        well_named(assign::name_defs(start, code, addresses, list, list.len())),
        forall|a: (usize, u8)| #[trigger]
            assign::name_defs(start, code, addresses, list, list.len()).variables.contains_key(a)
                <==> list.contains(a),
{
    lemma_all_named(start, code, addresses, list, list.len());
}

/// Whether the `i`th pair is a use at `key` of a definition with a variable.
pub open spec fn reached(
    variables: Map<(usize, u8), Var>,
    uses: Seq<(Definition, Use)>,
    key: (usize, u8),
    i: int,
) -> bool {
    &&& 0 <= i < uses.len()
    &&& (uses[i].1.pc, uses[i].1.reg) == key
    &&& variables.contains_key((uses[i].0.pc, uses[i].0.reg))
}

/// Whether a use goes by the least of the definitions that reach it among the first `n`.
pub open spec fn goes_by_least(
    s: UseNames,
    variables: Map<(usize, u8), Var>,
    uses: Seq<(Definition, Use)>,
    n: nat,
    key: (usize, u8),
) -> bool {
    &&& (exists|i: int| i < n && #[trigger] reached(variables, uses, key, i)) ==> s.by.contains_key(
        key,
    )
    &&& s.by.contains_key(key) ==> s.names.contains_key(key) && (exists|i: int|
        i < n && #[trigger] reached(variables, uses, key, i) && uses[i].0.pc == s.by[key]
            && s.names[key] == variables[(uses[i].0.pc, uses[i].0.reg)].name)
    &&& forall|i: int| i < n && #[trigger] reached(variables, uses, key, i) ==> s.by[key]
        <= uses[i].0.pc
}

/// A use goes by the name of a definition that reaches it, of several by that with the least
/// program counter; every use that a named definition reaches has a name.
pub proof fn law_use_goes_by_reaching_definition(
    start: Map<(usize, u8), Seq<char>>,
    variables: Map<(usize, u8), Var>,
    uses: Seq<(Definition, Use)>,
    n: nat,
    key: (usize, u8),
)
    requires
        n <= uses.len(),
    ensures
        goes_by_least(assign::name_uses(start, variables, uses, n), variables, uses, n, key),
    decreases n,
{
    if n > 0 {
        law_use_goes_by_reaching_definition(start, variables, uses, (n - 1) as nat, key);
        let s = assign::name_uses(start, variables, uses, (n - 1) as nat);
        let t = assign::name_uses(start, variables, uses, n);
        let pair = uses[n - 1];
        if (pair.1.pc, pair.1.reg) == key && variables.contains_key((pair.0.pc, pair.0.reg)) {
            assert(reached(variables, uses, key, n - 1));
        }
        if s.by.contains_key(key) {
            let i = choose|i: int|
                i < n - 1 && #[trigger] reached(variables, uses, key, i) && uses[i].0.pc
                    == s.by[key] && s.names[key] == variables[(uses[i].0.pc, uses[i].0.reg)].name;
            assert(reached(variables, uses, key, i));
        }
    }
}

} // verus!
