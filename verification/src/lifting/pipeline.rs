//! The lifting passes in their order.

use crate::cfg::ControlFlowGraph;
use crate::dataflow::DataFlowAnalysis;
use crate::dominators::DominatorTree;
use crate::ir::ssa::SsaProgram;
use crate::lifting::assign;
use crate::lifting::fold;
use crate::lifting::program::{Lifted, LiftedProgram};
use crate::lifting::propagate;
use crate::lifting::stores;
use vstd::prelude::*;

verus! {

/// Names, expressions and constants.
pub open spec fn first_stage(
    cfg: ControlFlowGraph,
    dataflow: DataFlowAnalysis,
    ssa: SsaProgram,
) -> Lifted {
    let l = assign::assigned(Lifted::empty(), cfg, dataflow);
    let l = assign::expressed(assign::lowered(l, ssa), cfg);
    propagate::all_simplified(propagate::constants_propagated(l))
}

/// Copies and stores. Dead stores go before folding, which can put constants in place
/// of the bases that tell a stack slot.
pub open spec fn second_stage(l: Lifted, cfg: ControlFlowGraph) -> Lifted {
    let l = stores::stores_forwarded(propagate::copies_propagated(l), cfg);
    propagate::all_simplified(stores::dead_stores_eliminated(propagate::copies_propagated(l)))
}

/// Folding, within blocks and across them.
pub open spec fn third_stage(
    l: Lifted,
    cfg: ControlFlowGraph,
    idom: Map<usize, usize>,
    ssa: SsaProgram,
) -> Lifted {
    let l = propagate::all_simplified(fold::folded(l, cfg));
    let l = propagate::all_simplified(fold::folded(l, cfg));
    propagate::all_simplified(fold::cross_folded(l, cfg, idom, ssa))
}

/// Stack slots, which make new copies.
pub open spec fn fourth_stage(l: Lifted, cfg: ControlFlowGraph) -> Lifted {
    let l = propagate::copies_propagated(stores::stack_recovered(l));
    let l = propagate::all_simplified(fold::folded(l, cfg));
    propagate::all_simplified(propagate::copies_propagated(l))
}

/// The lifted program of a control flow graph.
pub open spec fn lifted(
    cfg: ControlFlowGraph,
    dataflow: DataFlowAnalysis,
    idom: Map<usize, usize>,
    ssa: SsaProgram,
) -> Lifted {
    fourth_stage(
        third_stage(second_stage(first_stage(cfg, dataflow, ssa), cfg), cfg, idom, ssa),
        cfg,
    )
}

impl LiftedProgram {
    /// Run the full lifting pipeline on a CFG with dataflow information.
    /// Computes its own dominator tree; use `analyze_with_dom_tree` when sharing a
    /// pre-computed tree.
    pub fn analyze(cfg: &ControlFlowGraph, dataflow: &DataFlowAnalysis) -> (r: Self)
        ensures
            exists|tree: DominatorTree, ssa: SsaProgram|
                #![trigger tree.is_tree_of(*cfg), ssa.is_ssa_of(*cfg, tree.rpo@)]
                tree.is_tree_of(*cfg) && ssa.is_ssa_of(*cfg, tree.rpo@) && r@ == lifted(
                    *cfg,
                    *dataflow,
                    tree.idom@,
                    ssa,
                ),
    {
        let tree = DominatorTree::compute(cfg);
        assert(tree.is_tree_of(*cfg));
        LiftedProgram::analyze_with_dom_tree(cfg, dataflow, &tree)
    }

    /// Run the full lifting pipeline, reusing a pre-computed dominator tree.
    pub fn analyze_with_dom_tree(
        cfg: &ControlFlowGraph,
        dataflow: &DataFlowAnalysis,
        dom_tree: &DominatorTree,
    ) -> (r: Self)
        requires
            dom_tree.wf(),
        ensures
            exists|ssa: SsaProgram| #[trigger]
                ssa.is_ssa_of(*cfg, dom_tree.rpo@) && r@ == lifted(
                    *cfg,
                    *dataflow,
                    dom_tree.idom@,
                    ssa,
                ),
    {
        let mut l = LiftedProgram::new();
        l.assign_variables(cfg, dataflow);
        let ssa = SsaProgram::build(cfg, dom_tree);
        l.lower_ssa_to_lifted_uses(&ssa);
        l.build_expressions(cfg);
        l.propagate_constants();
        l.simplify_all_expressions();
        assert(l@ == first_stage(*cfg, *dataflow, ssa));
        l.propagate_copies();
        l.forward_store_loads(cfg);
        l.propagate_copies();
        l.eliminate_dead_stores();
        l.simplify_all_expressions();
        l.fold_expressions(cfg);
        l.simplify_all_expressions();
        l.fold_expressions(cfg);
        l.simplify_all_expressions();
        l.fold_expressions_cross_block(cfg, dom_tree, &ssa);
        l.simplify_all_expressions();
        l.recover_stack_variables();
        l.propagate_copies();
        l.fold_expressions(cfg);
        l.simplify_all_expressions();
        l.propagate_copies();
        l.simplify_all_expressions();
        assert(ssa.is_ssa_of(*cfg, dom_tree.rpo@));
        l
    }
}

} // verus!
