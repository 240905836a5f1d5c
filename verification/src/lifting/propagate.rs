//! Propagation of constants and copies.

use crate::lifting::expr;
use crate::lifting::expr::{Expr, Expression};
use crate::lifting::program;
use crate::lifting::program::{
    rename_values, rewrite_all, Lifted, LiftedProgram, Rewrite, Var,
};
use crate::lifting::simplify;
use crate::names;
use crate::names::{holds_name, NameMap};
use crate::ordered;
use crate::ordered::pair_keys_of;
use crate::text::same_text;
use std::collections::BTreeSet;
use vstd::prelude::*;

verus! {

broadcast use vstd::laws_cmp::group_laws_cmp;

/// Whether exactly one use goes by `name`.
pub open spec fn used_once(m: Map<(usize, u8), Seq<char>>, name: Seq<char>) -> bool {
    exists|k: (usize, u8)|
        #![trigger m.contains_key(k)]
        m.contains_key(k) && m[k] == name && forall|j: (usize, u8)| #[trigger]
            m.contains_key(j) && m[j] == name ==> j == k
}

/// The constant that the definition at `key` is, where it has exactly one use.
pub open spec fn single_constant(l: Lifted, key: (usize, u8)) -> Option<i64> {
    if l.expressions.contains_key(key.0) && used_once(l.var_at_use, l.variables[key].name) {
        expr::const_value(l.expressions[key.0])
    } else {
        None
    }
}

/// The constants among the first `n` of `keys`: name, place and value.
pub open spec fn constants(l: Lifted, keys: Seq<(usize, u8)>, n: nat) -> Seq<
    (Seq<char>, usize, i64),
>
    decreases n,
{
    if n == 0 {
        seq![]
    } else {
        let rest = constants(l, keys, (n - 1) as nat);
        match single_constant(l, keys[n - 1]) {
            Some(v) => rest.push((l.variables[keys[n - 1]].name, keys[n - 1].0, v)),
            None => rest,
        }
    }
}

/// Put the first `n` of `list` in place of their names, and drop their definitions.
pub open spec fn inline_constants(
    l: Lifted,
    list: Seq<(Seq<char>, usize, i64)>,
    n: nat,
) -> Lifted
    decreases n,
{
    if n == 0 {
        l
    } else {
        let m = inline_constants(l, list, (n - 1) as nat);
        let (name, pc, v) = list[n - 1];
        Lifted {
            expressions: m.expressions.map_values(
                |e: Expr| expr::substituted(e, name, Expr::Const(v)),
            ),
            eliminated: m.eliminated.insert(pc),
            ..m
        }
    }
}

/// The program with constants of a single use put in place.
pub open spec fn constants_propagated(l: Lifted) -> Lifted {
    let keys = ordered::ascending_pairs(l.variables.dom());
    let list = constants(l, keys, keys.len());
    inline_constants(l, list, list.len())
}

spec fn constant_entries(s: Seq<(String, usize, i64)>) -> Seq<(Seq<char>, usize, i64)> {
    s.map_values(|t: (String, usize, i64)| (t.0@, t.1, t.2))
}

impl LiftedProgram {
    fn is_used_once(&self, name: &str) -> (r: bool)
        ensures
            r == used_once(self@.var_at_use, name@),
    {
        let ghost m = self@.var_at_use;
        let keys = pair_keys_of(&self.var_at_use);
        let mut found: Ghost<(usize, u8)> = Ghost((0, 0));
        let mut count: u8 = 0;
        let mut i: usize = 0;
        while i < keys.len()
            invariant
                i <= keys@.len(),
                m == self@.var_at_use,
                keys@.to_set() == self.var_at_use@.dom(),
                keys@.no_duplicates(),
                count <= 1,
                count == 0 ==> forall|j: int| 0 <= j < i ==> m[#[trigger] keys@[j]] != name@,
                count == 1 ==> m.contains_key(found@) && m[found@] == name@ && exists|k: int|
                    0 <= k < i && #[trigger] keys@[k] == found@,
                count == 1 ==> forall|j: int|
                    0 <= j < i && m[#[trigger] keys@[j]] == name@ ==> keys@[j] == found@,
            decreases keys@.len() - i,
        {
            let key: (usize, u8) = keys[i];
            assert(keys@.to_set().contains(key));
            if let Some(n) = self.var_at_use.get(&key) {
                assert(m[key] == n@);
                if same_text(n.as_str(), name) {
                    if count == 1 {
                        assert(m.contains_key(key) && m.contains_key(found@) && key != found@);
                        return false;
                    }
                    count = 1;
                    proof {
                        found@ = key;
                    }
                }
            }
            i = i + 1;
        }
        proof {
            assert forall|j: (usize, u8)| #[trigger] m.contains_key(j) && m[j] == name@ implies count
                == 1 && j == found@ by {
                assert(keys@.to_set().contains(j));
                let k = choose|k: int| 0 <= k < keys@.len() && keys@[k] == j;
                assert(m[keys@[k]] == name@);
            }
        }
        count == 1
    }

    /// Propagate constants: if a definition is LoadImm with a single use,
    /// replace the variable reference in the use-expression with the constant.
    pub fn propagate_constants(&mut self)
        ensures
            final(self)@ == constants_propagated(old(self)@),
    {
        let ghost l = self@;
        let keys = pair_keys_of(&self.variables);
        assert(l.variables.dom() =~= self.variables@.dom());
        let mut list: Vec<(String, usize, i64)> = Vec::new();
        let mut n: usize = 0;
        while n < keys.len()
            invariant
                n <= keys@.len(),
                l == self@,
                keys@.to_set() == self.variables@.dom(),
                constant_entries(list@) =~= constants(l, keys@, n as nat),
            decreases keys@.len() - n,
        {
            let key: (usize, u8) = keys[n];
            assert(keys@.to_set().contains(key));
            assert(l.expressions.contains_key(key.0) == self.expressions@.contains_key(key.0));
            if let Some(v) = self.variables.get(&key) {
                assert(l.variables[key] == v@);
                if let Some(e) = self.expressions.get(&key.0) {
                    if let Expression::Const(value) = e {
                        if self.is_used_once(v.name.as_str()) {
                            list.push((v.name.as_str().to_owned(), key.0, *value));
                        }
                    }
                }
            }
            n = n + 1;
        }
        let ghost entries = constant_entries(list@);
        let mut i: usize = 0;
        while i < list.len()
            invariant
                i <= list@.len(),
                entries == constant_entries(list@),
                self@ == inline_constants(l, entries, i as nat),
            decreases list@.len() - i,
        {
            let ghost before = self@;
            let by = Expression::Const(list[i].2);
            let how = Rewrite::Substitute(list[i].0.as_str(), &by);
            self.expressions = rewrite_all(&self.expressions, &how);
            self.eliminated_pcs.insert(list[i].1);
            proof {
                let (name, pc, v) = entries[i as int];
                assert(self@.expressions =~= before.expressions.map_values(
                    |e: Expr| expr::substituted(e, name, Expr::Const(v)),
                ));
                assert(self@ =~= inline_constants(l, entries, (i + 1) as nat));
            }
            i = i + 1;
        }
    }

    /// Simplify all expressions in the program by folding identity operations.
    pub fn simplify_all_expressions(&mut self)
        ensures
            final(self)@ == all_simplified(old(self)@),
    {
        let ghost l = self@;
        let how = Rewrite::Simplify;
        self.expressions = rewrite_all(&self.expressions, &how);
        assert(self@.expressions =~= all_simplified(l).expressions);
        assert(self@ =~= all_simplified(l));
    }
}

/// The program with all its expressions simplified.
pub open spec fn all_simplified(l: Lifted) -> Lifted {
    Lifted { expressions: l.expressions.map_values(|e: Expr| simplify::simplified(e)), ..l }
}

/// The variable that the definition at `key` copies.
pub open spec fn copied(l: Lifted, done: Set<usize>, key: (usize, u8)) -> Option<Seq<char>> {
    if !done.contains(key.0) && l.expressions.contains_key(key.0) {
        match l.expressions[key.0] {
            Expr::Var(source) => if source != l.variables[key].name {
                Some(source)
            } else {
                None
            },
            _ => None,
        }
    } else {
        None
    }
}

/// The copies among the first `n` of `keys`: name, source and place.
pub open spec fn copies(l: Lifted, done: Set<usize>, keys: Seq<(usize, u8)>, n: nat) -> Seq<
    (Seq<char>, Seq<char>, usize),
>
    decreases n,
{
    if n == 0 {
        seq![]
    } else {
        let rest = copies(l, done, keys, (n - 1) as nat);
        match copied(l, done, keys[n - 1]) {
            Some(source) => rest.push((l.variables[keys[n - 1]].name, source, keys[n - 1].0)),
            None => rest,
        }
    }
}

/// The renames that the first `n` of `list` ask for.
pub open spec fn direct_renames(list: Seq<(Seq<char>, Seq<char>, usize)>, n: nat) -> Map<
    Seq<char>,
    Seq<char>,
>
    decreases n,
{
    if n == 0 {
        Map::empty()
    } else {
        direct_renames(list, (n - 1) as nat).insert(list[n - 1].0, list[n - 1].1)
    }
}

/// Where a chain of renames leads: on from `target` until it ends or comes back to a
/// name that it has `seen`. A chain has at most as many steps as there are names.
pub open spec fn chain_end(
    m: Map<Seq<char>, Seq<char>>,
    target: Seq<char>,
    seen: Set<Seq<char>>,
    steps: nat,
) -> Seq<char>
    decreases steps,
{
    if steps == 0 || !m.contains_key(target) || seen.contains(m[target]) {
        target
    } else {
        chain_end(m, m[target], seen.insert(target), (steps - 1) as nat)
    }
}

/// The renames with the first `n` of `list` followed to the end of their chains.
pub open spec fn full_renames(list: Seq<(Seq<char>, Seq<char>, usize)>, n: nat) -> Map<
    Seq<char>,
    Seq<char>,
>
    decreases n,
{
    if n == 0 {
        direct_renames(list, list.len())
    } else {
        let m = full_renames(list, (n - 1) as nat);
        let name = list[n - 1].0;
        m.insert(name, chain_end(m, m[name], Set::empty().insert(name), list.len()))
    }
}

/// The places of the first `n` of `list`.
pub open spec fn copy_places(list: Seq<(Seq<char>, Seq<char>, usize)>, n: nat) -> Set<usize>
    decreases n,
{
    if n == 0 {
        Set::empty()
    } else {
        copy_places(list, (n - 1) as nat).insert(list[n - 1].2)
    }
}

/// The program with the renames applied and the copies dropped.
pub open spec fn copies_applied(l: Lifted, list: Seq<(Seq<char>, Seq<char>, usize)>) -> Lifted {
    let by = full_renames(list, list.len());
    Lifted {
        expressions: l.expressions.map_values(|e: Expr| expr::renamed(e, by)),
        var_at_use: program::renamed_values(l.var_at_use, by),
        eliminated: l.eliminated.union(copy_places(list, list.len())),
        ..l
    }
}

/// Propagate copies round by round; `done` holds the copies of the rounds before.
pub open spec fn copy_rounds(l: Lifted, done: Set<usize>, rounds: nat) -> Lifted
    decreases rounds,
{
    let keys = ordered::ascending_pairs(l.variables.dom());
    let list = copies(l, done, keys, keys.len());
    if rounds == 0 || list.len() == 0 {
        l
    } else {
        copy_rounds(
            copies_applied(l, list),
            done.union(copy_places(list, list.len())),
            (rounds - 1) as nat,
        )
    }
}

/// The program with copies propagated. A round takes on at least one definition, so
/// there are no more rounds than definitions.
pub open spec fn copies_propagated(l: Lifted) -> Lifted {
    copy_rounds(l, Set::empty(), l.variables.dom().len())
}

spec fn copy_entries(s: Seq<(String, String, usize)>) -> Seq<(Seq<char>, Seq<char>, usize)> {
    s.map_values(|t: (String, String, usize)| (t.0@, t.1@, t.2))
}

fn follow_chain(m: &NameMap<String>, start: &str, steps: usize) -> (r: String)
    requires
        m@.contains_key(start@),
    ensures
        r@ == chain_end(
            names::text_values(m@),
            names::text_values(m@)[start@],
            Set::empty().insert(start@),
            steps as nat,
        ),
{
    let ghost map = names::text_values(m@);
    let mut seen: Vec<String> = Vec::new();
    seen.push(start.to_owned());
    let mut target: String = match m.get(start) {
        Some(t) => t.as_str().to_owned(),
        None => start.to_owned(),
    };
    let ghost goal = chain_end(map, target@, Set::empty().insert(start@), steps as nat);
    proof {
        assert(names::texts(seen@) =~= Seq::empty().push(start@));
        ordered::lemma_push_to_set(Seq::empty(), start@);
        assert(Seq::<Seq<char>>::empty().to_set() =~= Set::empty());
    }
    let mut left: usize = steps;
    while left > 0
        invariant
            map == names::text_values(m@),
            goal == chain_end(map, target@, names::texts(seen@).to_set(), left as nat),
        ensures
            target@ == goal,
        decreases left,
    {
        assert(map.contains_key(target@) == m@.contains_key(target@));
        let next: &String = match m.get(target.as_str()) {
            Some(t) => t,
            None => {
                break;
            },
        };
        assert(map[target@] == next@);
        if holds_name(&seen, next.as_str()) {
            break;
        }
        let ghost before = names::texts(seen@);
        seen.push(target);
        target = next.as_str().to_owned();
        proof {
            assert(names::texts(seen@) =~= before.push(seen@.last()@));
            ordered::lemma_push_to_set(before, seen@.last()@);
        }
        left = left - 1;
    }
    target
}

impl LiftedProgram {
    fn list_copies(&self, done: &BTreeSet<usize>) -> (r: Vec<(String, String, usize)>)
        ensures
            copy_entries(r@) == copies(
                self@,
                done@,
                ordered::ascending_pairs(self@.variables.dom()),
                ordered::ascending_pairs(self@.variables.dom()).len(),
            ),
    {
        let ghost l = self@;
        let keys = pair_keys_of(&self.variables);
        assert(l.variables.dom() =~= self.variables@.dom());
        let mut list: Vec<(String, String, usize)> = Vec::new();
        let mut n: usize = 0;
        while n < keys.len()
            invariant
                n <= keys@.len(),
                l == self@,
                keys@.to_set() == self.variables@.dom(),
                copy_entries(list@) =~= copies(l, done@, keys@, n as nat),
            decreases keys@.len() - n,
        {
            let key: (usize, u8) = keys[n];
            assert(keys@.to_set().contains(key));
            assert(l.expressions.contains_key(key.0) == self.expressions@.contains_key(key.0));
            if let Some(v) = self.variables.get(&key) {
                assert(l.variables[key] == v@);
                if !done.contains(&key.0) {
                    if let Some(e) = self.expressions.get(&key.0) {
                        if let Expression::Var(source) = e {
                            if !same_text(source.as_str(), v.name.as_str()) {
                                list.push(
                                    (
                                        v.name.as_str().to_owned(),
                                        source.as_str().to_owned(),
                                        key.0,
                                    ),
                                );
                            }
                        }
                    }
                }
            }
            n = n + 1;
        }
        list
    }

    /// Copy propagation: when a variable is defined as just another variable
    /// (`dst = src`), replace all uses of `dst` with `src` and eliminate the copy.
    pub fn propagate_copies(&mut self)
        ensures
            final(self)@ == copies_propagated(old(self)@),
    {
        let ghost l = self@;
        let mut done: BTreeSet<usize> = BTreeSet::new();
        let mut rounds: usize = self.variables.len();
        assert(l.variables.dom() =~= self.variables@.dom());
        while rounds > 0
            invariant
                copies_propagated(l) == copy_rounds(self@, done@, rounds as nat),
            ensures
                self@ == copies_propagated(l),
            decreases rounds,
        {
            let list = self.list_copies(&done);
            let ghost before = self@;
            let ghost entries = copy_entries(list@);
            if list.len() == 0 {
                break;
            }
            let renames = chase_all(&list);
            let how = Rewrite::Rename(&renames);
            self.expressions = rewrite_all(&self.expressions, &how);
            self.var_at_use = rename_values(&self.var_at_use, &renames);
            let ghost held = self.eliminated_pcs@;
            let ghost was = done@;
            let mut i: usize = 0;
            assert(held.union(copy_places(entries, 0)) =~= held);
            assert(was.union(copy_places(entries, 0)) =~= was);
            let ghost mid = self@;
            while i < list.len()
                invariant
                    i <= list@.len(),
                    entries == copy_entries(list@),
                    self@ == (Lifted {
                        eliminated: held.union(copy_places(entries, i as nat)),
                        ..mid
                    }),
                    done@ == was.union(copy_places(entries, i as nat)),
                decreases list@.len() - i,
            {
                self.eliminated_pcs.insert(list[i].2);
                done.insert(list[i].2);
                i = i + 1;
                assert(entries[i - 1].2 == list@[i - 1].2);
                assert(self.eliminated_pcs@ =~= held.union(copy_places(entries, i as nat)));
                assert(done@ =~= was.union(copy_places(entries, i as nat)));
                assert(self@ =~= (Lifted {
                    eliminated: held.union(copy_places(entries, i as nat)),
                    ..mid
                }));
            }
            proof {
                let want = copies_applied(before, entries);
                assert(self@.expressions =~= want.expressions);
                assert(self@ =~= want);
            }
            rounds = rounds - 1;
        }
    }
}

fn chase_all(list: &Vec<(String, String, usize)>) -> (m: NameMap<String>)
    ensures
        names::text_values(m@) == full_renames(copy_entries(list@), list@.len()),
{
    let ghost entries = copy_entries(list@);
    let mut m: NameMap<String> = NameMap::new();
    let mut i: usize = 0;
    assert(names::text_values(m@) =~= direct_renames(entries, 0));
    while i < list.len()
        invariant
            i <= list@.len(),
            entries == copy_entries(list@),
            names::text_values(m@) == direct_renames(entries, i as nat),
            forall|k: int| 0 <= k < i ==> m@.contains_key((#[trigger] entries[k]).0),
        decreases list@.len() - i,
    {
        m.insert(list[i].0.as_str().to_owned(), list[i].1.as_str().to_owned());
        i = i + 1;
        assert(names::text_values(m@) =~= direct_renames(entries, i as nat));
    }
    let mut n: usize = 0;
    while n < list.len()
        invariant
            n <= list@.len(),
            entries == copy_entries(list@),
            names::text_values(m@) == full_renames(entries, n as nat),
            forall|k: int| 0 <= k < list@.len() ==> m@.contains_key((#[trigger] entries[k]).0),
        decreases list@.len() - n,
    {
        assert(m@.contains_key(entries[n as int].0));
        let end = follow_chain(&m, list[n].0.as_str(), list.len());
        m.insert(list[n].0.as_str().to_owned(), end);
        n = n + 1;
        assert(names::text_values(m@) =~= full_renames(entries, n as nat));
    }
    m
}

} // verus!
