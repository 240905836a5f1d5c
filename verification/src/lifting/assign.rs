//! Names and types for the register definitions, and the name that each use goes by.

use crate::cfg::ControlFlowGraph;
use crate::dataflow::{DataFlowAnalysis, DefUseChain, Definition, Use};
use crate::instruction;
use crate::instruction::{BinOp, BitWidth, InstructionShape, UnaryOp};
use crate::ir::ssa::{SsaProgram, SsaValueKind};
use crate::lifting::program;
use crate::lifting::program::{Lifted, LiftedProgram, Var, VarType, Variable};
use crate::names;
use crate::ordered;
use crate::ordered::{keys_of, pair_keys_of};
use crate::pvm::Instruction;
use crate::text;
use crate::text::{push_dec_wide, same_text};
use std::collections::{BTreeMap, BTreeSet};
use vstd::prelude::*;

verus! {

broadcast use vstd::laws_cmp::group_laws_cmp;

/// The uses of one definition, each beside it.
pub open spec fn uses_of_chain(c: DefUseChain) -> Seq<(Definition, Use)> {
    c.uses@.map_values(|u: Use| (c.definition, u))
}

/// The same for the first `n` of a list of chains.
pub open spec fn uses_of_chains(cs: Seq<DefUseChain>, n: nat) -> Seq<(Definition, Use)>
    decreases n,
{
    if n == 0 {
        seq![]
    } else {
        uses_of_chains(cs, (n - 1) as nat) + uses_of_chain(cs[n - 1])
    }
}

/// The same for the chains at the first `n` of the program counters `keys`.
pub open spec fn uses_by_pc(
    chains: Map<usize, Vec<DefUseChain>>,
    keys: Seq<usize>,
    n: nat,
) -> Seq<(Definition, Use)>
    decreases n,
{
    if n == 0 {
        seq![]
    } else {
        let cs = chains[keys[n - 1]]@;
        uses_by_pc(chains, keys, (n - 1) as nat) + uses_of_chains(cs, cs.len())
    }
}

/// All definitions with their uses, by program counter.
pub open spec fn all_uses(chains: Map<usize, Vec<DefUseChain>>) -> Seq<(Definition, Use)> {
    let keys = ordered::ascending(chains.dom());
    uses_by_pc(chains, keys, keys.len())
}

fn list_uses(chains: &BTreeMap<usize, Vec<DefUseChain>>) -> (r: Vec<(Definition, Use)>)
    ensures
        r@ == all_uses(chains@),
{
    let keys = keys_of(chains);
    let mut r: Vec<(Definition, Use)> = Vec::new();
    let mut n: usize = 0;
    while n < keys.len()
        invariant
            n <= keys@.len(),
            keys@.to_set() == chains@.dom(),
            r@ =~= uses_by_pc(chains@, keys@, n as nat),
        decreases keys@.len() - n,
    {
        let key: usize = keys[n];
        assert(keys@.to_set().contains(key));
        let ghost head = r@;
        if let Some(cs) = chains.get(&key) {
            let mut i: usize = 0;
            while i < cs.len()
                invariant
                    i <= cs@.len(),
                    r@ =~= head + uses_of_chains(cs@, i as nat),
                decreases cs@.len() - i,
            {
                let ghost part = r@;
                let c: &DefUseChain = &cs[i];
                let mut j: usize = 0;
                while j < c.uses.len()
                    invariant
                        j <= c.uses@.len(),
                        r@ =~= part + uses_of_chain(*c).take(j as int),
                    decreases c.uses@.len() - j,
                {
                    r.push((c.definition, c.uses[j]));
                    assert(uses_of_chain(*c).take(j + 1) =~= uses_of_chain(*c).take(j as int).push(
                        (c.definition, c.uses@[j as int]),
                    ));
                    j = j + 1;
                }
                assert(uses_of_chain(*c).take(j as int) =~= uses_of_chain(*c));
                i = i + 1;
            }
        }
        n = n + 1;
    }
    r
}

/// The shapes of the first `n` instructions of a block, by program counter.
pub open spec fn shapes_of_code(
    m: Map<usize, InstructionShape>,
    code: Seq<(usize, Instruction)>,
    n: nat,
) -> Map<usize, InstructionShape>
    decreases n,
{
    if n == 0 {
        m
    } else {
        shapes_of_code(m, code, (n - 1) as nat).insert(
            code[n - 1].0,
            instruction::classified(code[n - 1].1),
        )
    }
}

pub open spec fn shapes_of_blocks(cfg: ControlFlowGraph, keys: Seq<usize>, n: nat) -> Map<
    usize,
    InstructionShape,
>
    decreases n,
{
    if n == 0 {
        Map::empty()
    } else {
        let code = cfg.blocks@[keys[n - 1]].instructions@;
        shapes_of_code(shapes_of_blocks(cfg, keys, (n - 1) as nat), code, code.len())
    }
}

/// The shape of the instruction at each program counter.
pub open spec fn shapes(cfg: ControlFlowGraph) -> Map<usize, InstructionShape> {
    let keys = ordered::ascending(cfg.blocks@.dom());
    shapes_of_blocks(cfg, keys, keys.len())
}

fn collect_shapes(cfg: &ControlFlowGraph) -> (m: BTreeMap<usize, InstructionShape>)
    ensures
        m@ == shapes(*cfg),
{
    let keys = keys_of(&cfg.blocks);
    let mut m: BTreeMap<usize, InstructionShape> = BTreeMap::new();
    let mut n: usize = 0;
    while n < keys.len()
        invariant
            n <= keys@.len(),
            keys@.to_set() == cfg.blocks@.dom(),
            m@ == shapes_of_blocks(*cfg, keys@, n as nat),
        decreases keys@.len() - n,
    {
        let key: usize = keys[n];
        assert(keys@.to_set().contains(key));
        let ghost head = m@;
        if let Some(block) = cfg.blocks.get(&key) {
            let mut i: usize = 0;
            while i < block.instructions.len()
                invariant
                    i <= block.instructions@.len(),
                    m@ == shapes_of_code(head, block.instructions@, i as nat),
                decreases block.instructions@.len() - i,
            {
                m.insert(
                    block.instructions[i].0,
                    InstructionShape::classify(&block.instructions[i].1),
                );
                i = i + 1;
            }
        }
        n = n + 1;
    }
    m
}

/// Whether the instruction loads or stores with `reg` as the base address.
pub open spec fn based_on(shape: InstructionShape, reg: u8) -> bool {
    match shape {
        InstructionShape::Load { base, .. } => base == reg,
        InstructionShape::Store { base, .. } => base == reg,
        _ => false,
    }
}

fn is_used_as_base(shape: &InstructionShape, reg: u8) -> (r: bool)
    ensures
        r == based_on(*shape, reg),
{
    match shape {
        InstructionShape::Load { base, .. } => *base == reg,
        InstructionShape::Store { base, .. } => *base == reg,
        _ => false,
    }
}

/// Whether a definition is the base address of a load or store that uses it.
pub open spec fn pointer_use(
    code: Map<usize, InstructionShape>,
    pair: (Definition, Use),
    key: (usize, u8),
) -> bool {
    pair.0.pc == key.0 && pair.0.reg == key.1 && code.contains_key(pair.1.pc) && based_on(
        code[pair.1.pc],
        key.1,
    )
}

/// The definitions that are used as addresses.
pub open spec fn pointers(
    code: Map<usize, InstructionShape>,
    uses: Seq<(Definition, Use)>,
) -> Set<(usize, u8)> {
    Set::new(
        |key: (usize, u8)|
            exists|i: int| 0 <= i < uses.len() && pointer_use(code, #[trigger] uses[i], key),
    )
}

fn collect_pointers(
    code: &BTreeMap<usize, InstructionShape>,
    uses: &Vec<(Definition, Use)>,
) -> (r: BTreeSet<(usize, u8)>)
    ensures
        r@ == pointers(code@, uses@),
{
    let mut r: BTreeSet<(usize, u8)> = BTreeSet::new();
    let mut i: usize = 0;
    while i < uses.len()
        invariant
            i <= uses@.len(),
            forall|key: (usize, u8)| #[trigger]
                r@.contains(key) <==> exists|k: int|
                    0 <= k < i && pointer_use(code@, #[trigger] uses@[k], key),
        decreases uses@.len() - i,
    {
        let (d, u) = uses[i];
        let ghost before = r@;
        let mut hit: bool = false;
        if let Some(shape) = code.get(&u.pc) {
            if is_used_as_base(shape, d.reg) {
                r.insert((d.pc, d.reg));
                hit = true;
            }
        }
        assert forall|key: (usize, u8)| #[trigger] r@.contains(key) <==> exists|k: int|
            0 <= k < i + 1 && pointer_use(code@, #[trigger] uses@[k], key) by {
            assert(before.contains(key) <==> exists|k: int|
                0 <= k < i && pointer_use(code@, #[trigger] uses@[k], key));
            if hit && key == (d.pc, d.reg) {
                assert(pointer_use(code@, uses@[i as int], key));
            }
        }
        i = i + 1;
    }
    assert(r@ =~= pointers(code@, uses@));
    r
}

/// Type of the result of an operation: a comparison gives a bool, growing the heap a
/// pointer, what is used as an address is a pointer, and else width and signedness
/// of the operation decide.
pub open spec fn inferred(
    code: Map<usize, InstructionShape>,
    addresses: Set<(usize, u8)>,
    key: (usize, u8),
) -> VarType {
    let pointer = addresses.contains(key);
    if code.contains_key(key.0) {
        match code[key.0] {
            InstructionShape::BinReg { op, width, .. } => op_type(op, width, pointer),
            InstructionShape::BinImm { op, width, .. } => op_type(op, width, pointer),
            InstructionShape::Unary { op, .. } => if op == UnaryOp::Sbrk || pointer {
                VarType::Pointer
            } else if op == UnaryOp::Sext8 || op == UnaryOp::Sext16 {
                VarType::I64
            } else {
                VarType::U64
            },
            _ => if pointer {
                VarType::Pointer
            } else {
                VarType::U64
            },
        }
    } else if pointer {
        VarType::Pointer
    } else {
        VarType::U64
    }
}

pub open spec fn op_type(op: BinOp, width: BitWidth, pointer: bool) -> VarType {
    if op == BinOp::LtU || op == BinOp::LtS {
        VarType::Boolean
    } else if pointer {
        VarType::Pointer
    } else if op == BinOp::DivS || op == BinOp::RemS || op == BinOp::ShrS {
        match width {
            BitWidth::W32 => VarType::I32,
            BitWidth::W64 => VarType::I64,
        }
    } else {
        match width {
            BitWidth::W32 => VarType::U32,
            BitWidth::W64 => VarType::U64,
        }
    }
}

fn type_of_op(op: BinOp, width: BitWidth, pointer: bool) -> (t: VarType)
    ensures
        t == op_type(op, width, pointer),
{
    if op == BinOp::LtU || op == BinOp::LtS {
        VarType::Boolean
    } else if pointer {
        VarType::Pointer
    } else if op == BinOp::DivS || op == BinOp::RemS || op == BinOp::ShrS {
        match width {
            BitWidth::W32 => VarType::I32,
            BitWidth::W64 => VarType::I64,
        }
    } else {
        match width {
            BitWidth::W32 => VarType::U32,
            BitWidth::W64 => VarType::U64,
        }
    }
}

/// Infer the type of a variable from how it is defined and used.
fn infer_type(
    code: &BTreeMap<usize, InstructionShape>,
    addresses: &BTreeSet<(usize, u8)>,
    key: (usize, u8),
) -> (t: VarType)
    ensures
        t == inferred(code@, addresses@, key),
{
    let pointer: bool = addresses.contains(&key);
    match code.get(&key.0) {
        Some(shape) => match shape {
            InstructionShape::BinReg { op, width, .. } => type_of_op(*op, *width, pointer),
            InstructionShape::BinImm { op, width, .. } => type_of_op(*op, *width, pointer),
            InstructionShape::Unary { op, .. } => if *op == UnaryOp::Sbrk || pointer {
                VarType::Pointer
            } else if *op == UnaryOp::Sext8 || *op == UnaryOp::Sext16 {
                VarType::I64
            } else {
                VarType::U64
            },
            _ => if pointer {
                VarType::Pointer
            } else {
                VarType::U64
            },
        },
        None => if pointer {
            VarType::Pointer
        } else {
            VarType::U64
        },
    }
}

/// The definitions at one program counter.
pub open spec fn defs_at(defs: Map<usize, Vec<u8>>, pc: usize) -> Seq<(usize, u8)> {
    if defs.contains_key(pc) {
        defs[pc]@.map_values(|reg: u8| (pc, reg))
    } else {
        seq![]
    }
}

pub open spec fn defs_of_code(
    defs: Map<usize, Vec<u8>>,
    code: Seq<(usize, Instruction)>,
    n: nat,
) -> Seq<(usize, u8)>
    decreases n,
{
    if n == 0 {
        seq![]
    } else {
        defs_of_code(defs, code, (n - 1) as nat) + defs_at(defs, code[n - 1].0)
    }
}

pub open spec fn defs_of_blocks(
    defs: Map<usize, Vec<u8>>,
    cfg: ControlFlowGraph,
    keys: Seq<usize>,
    n: nat,
) -> Seq<(usize, u8)>
    decreases n,
{
    if n == 0 {
        seq![]
    } else {
        let code = cfg.blocks@[keys[n - 1]].instructions@;
        defs_of_blocks(defs, cfg, keys, (n - 1) as nat) + defs_of_code(defs, code, code.len())
    }
}

/// All definitions in the order of the code.
pub open spec fn all_defs(defs: Map<usize, Vec<u8>>, cfg: ControlFlowGraph) -> Seq<(usize, u8)> {
    let keys = ordered::ascending(cfg.blocks@.dom());
    defs_of_blocks(defs, cfg, keys, keys.len())
}

fn list_defs(defs: &BTreeMap<usize, Vec<u8>>, cfg: &ControlFlowGraph) -> (r: Vec<(usize, u8)>)
    ensures
        r@ == all_defs(defs@, *cfg),
{
    let keys = keys_of(&cfg.blocks);
    let mut r: Vec<(usize, u8)> = Vec::new();
    let mut n: usize = 0;
    while n < keys.len()
        invariant
            n <= keys@.len(),
            keys@.to_set() == cfg.blocks@.dom(),
            r@ =~= defs_of_blocks(defs@, *cfg, keys@, n as nat),
        decreases keys@.len() - n,
    {
        let key: usize = keys[n];
        assert(keys@.to_set().contains(key));
        let ghost head = r@;
        if let Some(block) = cfg.blocks.get(&key) {
            let mut i: usize = 0;
            while i < block.instructions.len()
                invariant
                    i <= block.instructions@.len(),
                    r@ =~= head + defs_of_code(defs@, block.instructions@, i as nat),
                decreases block.instructions@.len() - i,
            {
                let ghost part = r@;
                let pc: usize = block.instructions[i].0;
                if let Some(regs) = defs.get(&pc) {
                    let mut j: usize = 0;
                    while j < regs.len()
                        invariant
                            j <= regs@.len(),
                            defs@.contains_key(pc),
                            *regs == defs@[pc],
                            r@ =~= part + defs_at(defs@, pc).take(j as int),
                        decreases regs@.len() - j,
                    {
                        r.push((pc, regs[j]));
                        assert(defs_at(defs@, pc).take(j + 1) =~= defs_at(defs@, pc).take(
                            j as int,
                        ).push((pc, regs@[j as int])));
                        j = j + 1;
                    }
                    assert(defs_at(defs@, pc).take(j as int) =~= defs_at(defs@, pc));
                }
                i = i + 1;
            }
        }
        n = n + 1;
    }
    r
}

/// Names given so far, and how many of each kind.
#[verifier::ext_equal]
pub struct Naming {
    pub variables: Map<(usize, u8), Var>,
    pub def_pcs: Map<Seq<char>, usize>,
    pub vars: nat,
    pub ptrs: nat,
    pub conds: nat,
}

/// Name for the next variable of type `t`.
pub open spec fn fresh_name(s: Naming, t: VarType) -> Seq<char> {
    match t {
        VarType::Pointer => "ptr_"@ + text::dec(s.ptrs),
        VarType::Boolean => "cond_"@ + text::dec(s.conds),
        _ => "var_"@ + text::dec(s.vars),
    }
}

/// Give a name to the definition `key` of type `t`.
pub open spec fn name_def(s: Naming, key: (usize, u8), t: VarType) -> Naming {
    let name = fresh_name(s, t);
    Naming {
        variables: s.variables.insert(key, Var { name, var_type: t }),
        def_pcs: s.def_pcs.insert(name, key.0),
        ptrs: if t == VarType::Pointer {
            s.ptrs + 1
        } else {
            s.ptrs
        },
        conds: if t == VarType::Boolean {
            s.conds + 1
        } else {
            s.conds
        },
        vars: if t == VarType::Pointer || t == VarType::Boolean {
            s.vars
        } else {
            s.vars + 1
        },
    }
}

/// Names for the first `n` of `list`.
pub open spec fn name_defs(
    start: Naming,
    code: Map<usize, InstructionShape>,
    addresses: Set<(usize, u8)>,
    list: Seq<(usize, u8)>,
    n: nat,
) -> Naming
    decreases n,
{
    if n == 0 {
        start
    } else {
        name_def(
            name_defs(start, code, addresses, list, (n - 1) as nat),
            list[n - 1],
            inferred(code, addresses, list[n - 1]),
        )
    }
}

/// Names of the uses so far, and the program counter of the definition behind each.
#[verifier::ext_equal]
pub struct UseNames {
    pub names: Map<(usize, u8), Seq<char>>,
    pub by: Map<(usize, u8), usize>,
}

/// A use goes by the definition with the least program counter that reaches it.
pub open spec fn name_use(
    s: UseNames,
    variables: Map<(usize, u8), Var>,
    pair: (Definition, Use),
) -> UseNames {
    let def = (pair.0.pc, pair.0.reg);
    let key = (pair.1.pc, pair.1.reg);
    if variables.contains_key(def) && (!s.by.contains_key(key) || def.0 < s.by[key]) {
        UseNames {
            names: s.names.insert(key, variables[def].name),
            by: s.by.insert(key, def.0),
        }
    } else {
        s
    }
}

pub open spec fn name_uses(
    start: Map<(usize, u8), Seq<char>>,
    variables: Map<(usize, u8), Var>,
    uses: Seq<(Definition, Use)>,
    n: nat,
) -> UseNames
    decreases n,
{
    if n == 0 {
        UseNames { names: start, by: Map::empty() }
    } else {
        name_use(name_uses(start, variables, uses, (n - 1) as nat), variables, uses[n - 1])
    }
}

/// The program with a variable for each definition, and a name for each use.
pub open spec fn assigned(l: Lifted, cfg: ControlFlowGraph, dataflow: DataFlowAnalysis) -> Lifted {
    let uses = all_uses(dataflow.chains@);
    let code = shapes(cfg);
    let list = all_defs(dataflow.defs_at_pc@, cfg);
    let naming = name_defs(
        Naming { variables: l.variables, def_pcs: l.def_pcs, vars: 0, ptrs: 0, conds: 0 },
        code,
        pointers(code, uses),
        list,
        list.len(),
    );
    Lifted {
        variables: naming.variables,
        def_pcs: naming.def_pcs,
        var_at_use: name_uses(l.var_at_use, naming.variables, uses, uses.len()).names,
        ..l
    }
}

impl LiftedProgram {
    /// Assign variable names to each register definition based on type inference.
    pub fn assign_variables(&mut self, cfg: &ControlFlowGraph, dataflow: &DataFlowAnalysis)
        ensures
            final(self)@ == assigned(old(self)@, *cfg, *dataflow),
    {
        let ghost l = self@;
        let uses = list_uses(&dataflow.chains);
        let code = collect_shapes(cfg);
        let addresses = collect_pointers(&code, &uses);
        let list = list_defs(&dataflow.defs_at_pc, cfg);
        let ghost start = Naming {
            variables: l.variables,
            def_pcs: l.def_pcs,
            vars: 0,
            ptrs: 0,
            conds: 0,
        };
        let mut vars: usize = 0;
        let mut ptrs: usize = 0;
        let mut conds: usize = 0;
        let mut n: usize = 0;
        while n < list.len()
            invariant
                n <= list@.len(),
                vars <= n,
                ptrs <= n,
                conds <= n,
                self@ == (Lifted {
                    variables: self@.variables,
                    def_pcs: self@.def_pcs,
                    ..l
                }),
                name_defs(start, code@, addresses@, list@, n as nat) == (Naming {
                    variables: self@.variables,
                    def_pcs: self@.def_pcs,
                    vars: vars as nat,
                    ptrs: ptrs as nat,
                    conds: conds as nat,
                }),
            decreases list@.len() - n,
        {
            let key: (usize, u8) = list[n];
            let var_type: VarType = infer_type(&code, &addresses, key);
            let ghost held = self.variables@;
            let mut name: String;
            match var_type {
                VarType::Pointer => {
                    name = "ptr_".to_owned();
                    push_dec_wide(&mut name, ptrs as u128);
                    ptrs = ptrs + 1;
                },
                VarType::Boolean => {
                    name = "cond_".to_owned();
                    push_dec_wide(&mut name, conds as u128);
                    conds = conds + 1;
                },
                _ => {
                    name = "var_".to_owned();
                    push_dec_wide(&mut name, vars as u128);
                    vars = vars + 1;
                },
            }
            self.var_name_to_def_pc.insert(name.as_str().to_owned(), key.0);
            self.variables.insert(key, Variable { name, var_type });
            proof {
                assert(program::var_map(self.variables@) =~= program::var_map(held).insert(
                    key,
                    Var { name: name@, var_type },
                ));
                assert(self@ =~= (Lifted {
                    variables: self@.variables,
                    def_pcs: self@.def_pcs,
                    ..l
                }));
            }
            n = n + 1;
        }
        let ghost variables = self@.variables;
        let ghost named = self@;
        let mut by: BTreeMap<(usize, u8), usize> = BTreeMap::new();
        let mut i: usize = 0;
        while i < uses.len()
            invariant
                i <= uses@.len(),
                self@ == (Lifted { var_at_use: self@.var_at_use, ..named }),
                self@.variables == variables,
                name_uses(l.var_at_use, variables, uses@, i as nat) == (UseNames {
                    names: self@.var_at_use,
                    by: by@,
                }),
            decreases uses@.len() - i,
        {
            let (d, u) = uses[i];
            let key: (usize, u8) = (u.pc, u.reg);
            let ghost held = self.var_at_use@;
            assert(variables.contains_key((d.pc, d.reg)) == self.variables@.contains_key(
                (d.pc, d.reg),
            ));
            if let Some(v) = self.variables.get(&(d.pc, d.reg)) {
                let earlier: bool = match by.get(&key) {
                    Some(prev) => d.pc < *prev,
                    None => true,
                };
                if earlier {
                    let name = v.name.as_str().to_owned();
                    self.var_at_use.insert(key, name);
                    by.insert(key, d.pc);
                    assert(names::text_values(self.var_at_use@) =~= names::text_values(
                        held,
                    ).insert(key, name@));
                }
            }
            assert(self@ =~= (Lifted { var_at_use: self@.var_at_use, ..named }));
            i = i + 1;
        }
    }
}

/// The name of the variable for a value that an instruction defines.
pub open spec fn value_name(
    ssa: SsaProgram,
    variables: Map<(usize, u8), Var>,
    value: usize,
) -> Option<Seq<char>> {
    if value < ssa.values@.len() {
        match ssa.values@[value as int].kind {
            SsaValueKind::Instr { pc, reg, .. } => if variables.contains_key((pc, reg)) {
                Some(variables[(pc, reg)].name)
            } else {
                None
            },
            _ => None,
        }
    } else {
        None
    }
}

/// The name that the operands of a merge share.
pub open spec fn phi_name(
    ssa: SsaProgram,
    variables: Map<(usize, u8), Var>,
    value: usize,
) -> Option<Seq<char>> {
    let ops = ssa.values@[value as int].operands@;
    if ops.len() > 0 && value_name(ssa, variables, ops[0]) is Some && (forall|i: int|
        0 <= i < ops.len() ==> value_name(ssa, variables, #[trigger] ops[i]) == value_name(
            ssa,
            variables,
            ops[0],
        )) {
        value_name(ssa, variables, ops[0])
    } else {
        None
    }
}

/// The name for a use that sees `value`, where the value graph settles it.
pub open spec fn settled_name(
    ssa: SsaProgram,
    variables: Map<(usize, u8), Var>,
    value: usize,
) -> Option<Seq<char>> {
    if value < ssa.values@.len() && ssa.values@[value as int].kind is Phi {
        phi_name(ssa, variables, value)
    } else {
        value_name(ssa, variables, value)
    }
}

/// Names of the uses after the first `n` of `keys`.
pub open spec fn lower_uses(l: Lifted, ssa: SsaProgram, keys: Seq<(usize, u8)>, n: nat) -> Map<
    (usize, u8),
    Seq<char>,
>
    decreases n,
{
    if n == 0 {
        l.var_at_use
    } else {
        let m = lower_uses(l, ssa, keys, (n - 1) as nat);
        match settled_name(ssa, l.variables, ssa.use_value_by_pc_reg@[keys[n - 1]]) {
            Some(name) => m.insert(keys[n - 1], name),
            None => m,
        }
    }
}

/// The program with uses named by the values that they see.
pub open spec fn lowered(l: Lifted, ssa: SsaProgram) -> Lifted {
    let keys = ordered::ascending_pairs(ssa.use_value_by_pc_reg@.dom());
    Lifted { var_at_use: lower_uses(l, ssa, keys, keys.len()), ..l }
}

impl LiftedProgram {
    fn name_of_value(&self, ssa: &SsaProgram, value: usize) -> (r: Option<&String>)
        ensures
            match r {
                Some(s) => value_name(*ssa, self@.variables, value) == Some(s@),
                None => value_name(*ssa, self@.variables, value) is None,
            },
    {
        match ssa.value_kind(value) {
            Some(SsaValueKind::Instr { pc, reg, .. }) => {
                assert(self@.variables.contains_key((*pc, *reg)) == self.variables@.contains_key(
                    (*pc, *reg),
                ));
                match self.variables.get(&(*pc, *reg)) {
                    Some(v) => Some(&v.name),
                    None => None,
                }
            },
            _ => None,
        }
    }

    /// If all phi operands resolve to the same concrete definition name,
    /// reuse that name; otherwise leave the existing mapping unchanged.
    fn resolve_phi_to_single_name(&self, ssa: &SsaProgram, phi_id: usize) -> (r: Option<&String>)
        requires
            phi_id < ssa.values@.len(),
        ensures
            match r {
                Some(s) => phi_name(*ssa, self@.variables, phi_id) == Some(s@),
                None => phi_name(*ssa, self@.variables, phi_id) is None,
            },
    {
        let operands: &Vec<usize> = &ssa.values[phi_id].operands;
        let ghost vars = self@.variables;
        if operands.len() == 0 {
            return None;
        }
        let first: &String = match self.name_of_value(ssa, operands[0]) {
            Some(name) => name,
            None => {
                return None;
            },
        };
        let mut i: usize = 1;
        while i < operands.len()
            invariant
                1 <= i <= operands@.len(),
                vars == self@.variables,
                value_name(*ssa, vars, operands@[0]) == Some(first@),
                *operands == ssa.values@[phi_id as int].operands,
                forall|k: int|
                    0 <= k < i ==> value_name(*ssa, vars, #[trigger] operands@[k]) == Some(first@),
            decreases operands@.len() - i,
        {
            match self.name_of_value(ssa, operands[i]) {
                Some(name) => {
                    if !same_text(name.as_str(), first.as_str()) {
                        assert(value_name(*ssa, vars, operands@[i as int]) != value_name(
                            *ssa,
                            vars,
                            operands@[0],
                        ));
                        return None;
                    }
                },
                None => {
                    assert(value_name(*ssa, vars, operands@[i as int]) != value_name(
                        *ssa,
                        vars,
                        operands@[0],
                    ));
                    return None;
                },
            }
            i = i + 1;
        }
        Some(first)
    }

    /// Lower value mappings back to use bindings (`var_at_use`), so that the name at a
    /// use depends on the definition that reaches it.
    pub fn lower_ssa_to_lifted_uses(&mut self, ssa: &SsaProgram)
        ensures
            final(self)@ == lowered(old(self)@, *ssa),
    {
        let ghost l = self@;
        let keys = pair_keys_of(&ssa.use_value_by_pc_reg);
        let mut n: usize = 0;
        while n < keys.len()
            invariant
                n <= keys@.len(),
                keys@.to_set() == ssa.use_value_by_pc_reg@.dom(),
                self@ == (Lifted { var_at_use: lower_uses(l, *ssa, keys@, n as nat), ..l }),
            decreases keys@.len() - n,
        {
            let key: (usize, u8) = keys[n];
            assert(keys@.to_set().contains(key));
            let ghost held = self.var_at_use@;
            if let Some(value) = ssa.use_value_by_pc_reg.get(&key) {
                let is_phi: bool = match ssa.value_kind(*value) {
                    Some(SsaValueKind::Phi { .. }) => true,
                    _ => false,
                };
                let name: Option<&String> = if is_phi {
                    self.resolve_phi_to_single_name(ssa, *value)
                } else {
                    self.name_of_value(ssa, *value)
                };
                let owned: Option<String> = match name {
                    Some(s) => Some(s.as_str().to_owned()),
                    None => None,
                };
                if let Some(s) = owned {
                    self.var_at_use.insert(key, s);
                    assert(names::text_values(self.var_at_use@) =~= names::text_values(
                        held,
                    ).insert(key, s@));
                }
            }
            n = n + 1;
            assert(self@ =~= (Lifted { var_at_use: lower_uses(l, *ssa, keys@, n as nat), ..l }));
        }
    }
}

/// Expressions for the first `n` instructions of a block. An indirect jump is read in
/// the light of the expressions before it.
pub open spec fn express_code(l: Lifted, code: Seq<(usize, Instruction)>, n: nat) -> Lifted
    decreases n,
{
    if n == 0 {
        l
    } else {
        let m = express_code(l, code, (n - 1) as nat);
        Lifted {
            expressions: m.expressions.insert(
                code[n - 1].0,
                m.expression_of(code[n - 1].0, instruction::classified(code[n - 1].1)),
            ),
            ..m
        }
    }
}

pub open spec fn express_blocks(
    l: Lifted,
    cfg: ControlFlowGraph,
    keys: Seq<usize>,
    n: nat,
) -> Lifted
    decreases n,
{
    if n == 0 {
        l
    } else {
        let code = cfg.blocks@[keys[n - 1]].instructions@;
        express_code(express_blocks(l, cfg, keys, (n - 1) as nat), code, code.len())
    }
}

/// The program with an expression for every instruction.
pub open spec fn expressed(l: Lifted, cfg: ControlFlowGraph) -> Lifted {
    let keys = ordered::ascending(cfg.blocks@.dom());
    express_blocks(l, cfg, keys, keys.len())
}

impl LiftedProgram {
    /// Build an Expression for every instruction PC.
    pub fn build_expressions(&mut self, cfg: &ControlFlowGraph)
        ensures
            final(self)@ == expressed(old(self)@, *cfg),
    {
        let ghost l = self@;
        let keys = keys_of(&cfg.blocks);
        let mut n: usize = 0;
        while n < keys.len()
            invariant
                n <= keys@.len(),
                keys@.to_set() == cfg.blocks@.dom(),
                self@ == express_blocks(l, *cfg, keys@, n as nat),
            decreases keys@.len() - n,
        {
            let key: usize = keys[n];
            assert(keys@.to_set().contains(key));
            let ghost head = self@;
            if let Some(block) = cfg.blocks.get(&key) {
                let mut i: usize = 0;
                while i < block.instructions.len()
                    invariant
                        i <= block.instructions@.len(),
                        self@ == express_code(head, block.instructions@, i as nat),
                    decreases block.instructions@.len() - i,
                {
                    let pc: usize = block.instructions[i].0;
                    let ghost held = self.expressions@;
                    let e = self.instruction_to_expression(pc, &block.instructions[i].1);
                    self.expressions.insert(pc, e);
                    assert(program::expr_map(self.expressions@) =~= program::expr_map(held).insert(
                        pc,
                        e@,
                    ));
                    i = i + 1;
                    assert(self@ =~= express_code(head, block.instructions@, i as nat));
                }
            }
            n = n + 1;
        }
    }
}

} // verus!
