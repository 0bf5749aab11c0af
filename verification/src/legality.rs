//! Legal programs, and that the pass keeps them legal.

use crate::analyses::AnalysesView;
use crate::flow::{
    goes_on_to, is_reachable, is_reached_by, lemma_reachable_in_range, lemma_same_flow_goes_on,
    lemma_same_flow_reachable, lemma_same_flow_reached_by, same_flow,
};
use crate::ir::{OpKind, ProgramView};
use crate::model::{
    canonical, eliminate_redundant_slots, forwarded_inputs, in_member, is_inner_group,
    propagate_copies, slot_is_redundant, subst_all,
};
use crate::scope::{lemma_eliminate_reads_in_scope, lemma_propagate_reads_in_scope, reads_in_scope};
use crate::settle::{lemma_eliminate_ssa, lemma_propagate_copies_ssa};
use crate::slots::{lemma_keep_all_slots, lemma_keep_slots_count};
use vstd::prelude::*;

verus! {

/// A block hands on as many locals as each block that it goes on to takes in.
pub open spec fn edges_match(program: ProgramView) -> bool {
    forall|b: int, t: int|
        is_reachable(program, b) && #[trigger] goes_on_to(program, b, t)
            ==> program.blocks[b].outputs.len() == program.blocks[t].inputs.len()
}

/// A block, reached or not, hands on as many locals as each block that it goes on to takes in.
pub open spec fn all_edges_match(program: ProgramView) -> bool {
    forall|b: int, t: int| #[trigger]
        goes_on_to(program, b, t) ==> program.blocks[b].outputs.len()
            == program.blocks[t].inputs.len()
}

/// A call passes as many locals as the function takes in, and takes as many as it returns.
pub open spec fn calls_match(program: ProgramView) -> bool {
    forall|b: int, o: int|
        0 <= b < program.blocks.len() && 0 <= o < program.blocks[b].ops.len() ==> ((
        #[trigger] program.blocks[b].ops[o]).kind matches OpKind::InternalCall(f) ==> {
            &&& f < program.functions.len()
            &&& program.functions[f as int].entry < program.blocks.len()
            &&& program.blocks[b].ops[o].inputs.len()
                == program.blocks[program.functions[f as int].entry as int].inputs.len()
            &&& program.blocks[b].ops[o].outputs.len() == program.functions[f as int].outputs
        })
}

/// Where a function returns it hands on as many locals as it says.
pub open spec fn returns_match(program: ProgramView) -> bool {
    forall|f: int, b: int| #[trigger]
        is_reached_by(program, f, b) && program.blocks[b].control is InternalReturn
            ==> program.blocks[b].outputs.len() == program.functions[f].outputs
}

/// A legal program: every local is defined once, blocks that are reached read locals only where
/// these have been set, and the numbers of locals handed over agree everywhere.
pub open spec fn is_legal(program: ProgramView, analyses: AnalysesView) -> bool {
    &&& program.ssa()
    &&& program.copies_one_local()
    &&& forall|b: int| #[trigger]
        is_reachable(program, b) ==> reads_in_scope(program, analyses.idom, b)
    &&& edges_match(program)
    &&& calls_match(program)
    &&& returns_match(program)
}

/// Propagating copies inside blocks leaves the control flow as it is.
pub proof fn lemma_propagate_same_flow(program: ProgramView)
    ensures
        same_flow(program, propagate_copies(program)),
{
}

/// Taking out redundant slots leaves the control flow as it is.
pub proof fn lemma_eliminate_same_flow(program: ProgramView, analyses: AnalysesView)
    ensures
        same_flow(program, eliminate_redundant_slots(program, analyses)),
{
}

/// A block whose inputs are in no group, or in one through which nothing flows, keeps them.
pub proof fn lemma_outer_inputs_stay(program: ProgramView, analyses: AnalysesView, b: int)
    requires
        0 <= b < program.blocks.len(),
        analyses.in_group[b] matches Some(g) ==> !is_inner_group(program, analyses, g),
    ensures
        eliminate_redundant_slots(program, analyses).blocks[b].inputs == program.blocks[b].inputs,
{
    lemma_keep_all_slots(
        program.blocks[b].inputs,
        |slot: int| slot_is_redundant(program, analyses, analyses.in_group[b], slot),
    );
}

/// A block whose outputs are in no group, or in one through which nothing flows, keeps them.
pub proof fn lemma_outer_outputs_stay(program: ProgramView, analyses: AnalysesView, b: int)
    requires
        0 <= b < program.blocks.len(),
        analyses.out_group[b] matches Some(g) ==> !is_inner_group(program, analyses, g),
    ensures
        eliminate_redundant_slots(program, analyses).blocks[b].outputs == subst_all(
            canonical(forwarded_inputs(program, analyses)),
            program.blocks[b].outputs,
        ),
{
    lemma_keep_all_slots(
        subst_all(canonical(forwarded_inputs(program, analyses)), program.blocks[b].outputs),
        |slot: int| slot_is_redundant(program, analyses, analyses.out_group[b], slot),
    );
}

/// The block in which a function starts keeps its inputs.
pub proof fn lemma_entry_inputs_stay(program: ProgramView, analyses: AnalysesView, b: int)
    requires
        analyses.wf(program.blocks.len() as int),
        0 <= b < program.blocks.len(),
        program.is_function_entry(b),
    ensures
        eliminate_redundant_slots(program, analyses).blocks[b].inputs == program.blocks[b].inputs,
{
    if analyses.in_group[b] is Some {
        assert(in_member(analyses, analyses.in_group[b]->0, b));
    }
    lemma_outer_inputs_stay(program, analyses, b);
}

/// A block that returns keeps its outputs.
pub proof fn lemma_return_outputs_stay(program: ProgramView, analyses: AnalysesView, b: int)
    requires
        analyses.describes(program),
        is_reachable(program, b),
        program.blocks[b].control is InternalReturn,
    ensures
        eliminate_redundant_slots(program, analyses).blocks[b].outputs == subst_all(
            canonical(forwarded_inputs(program, analyses)),
            program.blocks[b].outputs,
        ),
{
    lemma_reachable_in_range(program, b);
    if let Some(g) = analyses.out_group[b] {
        if is_inner_group(program, analyses, g) {
            let i = choose|i: int| in_member(analyses, g, i);
            assert(analyses.out_group[b] != analyses.in_group[i]);
        }
    }
    lemma_outer_outputs_stay(program, analyses, b);
}

/// Propagating copies inside blocks keeps a program legal.
pub proof fn lemma_propagate_legal(program: ProgramView, analyses: AnalysesView)
    requires
        analyses.describes(program),
        is_legal(program, analyses),
    ensures
        is_legal(propagate_copies(program), analyses),
{
    let after = propagate_copies(program);
    lemma_propagate_copies_ssa(program);
    assert(same_flow(program, after));
    assert forall|b: int, o: int|
        0 <= b < after.blocks.len() && 0 <= o < after.blocks[b].ops.len() && (
        #[trigger] after.blocks[b].ops[o]).kind is SetCopy implies after.blocks[b].ops[o].inputs.len()
        == 1 && after.blocks[b].ops[o].outputs.len() == 1 by {
        assert(program.blocks[b].ops[o].kind is SetCopy);
    }
    assert forall|b: int| #[trigger] is_reachable(after, b) implies reads_in_scope(
        after,
        analyses.idom,
        b,
    ) by {
        lemma_same_flow_reachable(program, after, b);
        lemma_reachable_in_range(program, b);
        lemma_propagate_reads_in_scope(program, analyses.idom, b);
    }
    assert forall|b: int, t: int|
        is_reachable(after, b) && #[trigger] goes_on_to(after, b, t) implies after.blocks[b].outputs.len()
        == after.blocks[t].inputs.len() by {
        lemma_same_flow_reachable(program, after, b);
        lemma_same_flow_goes_on(program, after, b, t);
    }
    assert(calls_match(after)) by {
        assert forall|b: int, o: int|
            0 <= b < after.blocks.len() && 0 <= o < after.blocks[b].ops.len() implies ((
        #[trigger] after.blocks[b].ops[o]).kind matches OpKind::InternalCall(f) ==> {
            &&& f < after.functions.len()
            &&& after.functions[f as int].entry < after.blocks.len()
            &&& after.blocks[b].ops[o].inputs.len()
                == after.blocks[after.functions[f as int].entry as int].inputs.len()
            &&& after.blocks[b].ops[o].outputs.len() == after.functions[f as int].outputs
        }) by {
            assert(after.blocks[b].ops[o].kind == program.blocks[b].ops[o].kind);
        }
    }
    assert forall|f: int, b: int| #[trigger]
        is_reached_by(after, f, b)
            && after.blocks[b].control is InternalReturn implies after.blocks[b].outputs.len()
        == after.functions[f].outputs by {
        lemma_same_flow_reached_by(program, after, f, b);
        assert(is_reachable(program, b));
        lemma_reachable_in_range(program, b);
        assert(program.blocks[b].control is InternalReturn);
    }
}

/// Taking out redundant slots keeps a program legal.
pub proof fn lemma_eliminate_legal(program: ProgramView, analyses: AnalysesView)
    requires
        analyses.describes(program),
        is_legal(program, analyses),
    ensures
        is_legal(eliminate_redundant_slots(program, analyses), analyses),
{
    let after = eliminate_redundant_slots(program, analyses);
    lemma_eliminate_ssa(program, analyses);
    assert(same_flow(program, after));
    assert forall|b: int, o: int|
        0 <= b < after.blocks.len() && 0 <= o < after.blocks[b].ops.len() && (
        #[trigger] after.blocks[b].ops[o]).kind is SetCopy implies after.blocks[b].ops[o].inputs.len()
        == 1 && after.blocks[b].ops[o].outputs.len() == 1 by {
        assert(program.blocks[b].ops[o].kind is SetCopy);
    }
    assert forall|b: int| #[trigger] is_reachable(after, b) implies reads_in_scope(
        after,
        analyses.idom,
        b,
    ) by {
        lemma_same_flow_reachable(program, after, b);
        lemma_reachable_in_range(program, b);
        lemma_eliminate_reads_in_scope(program, analyses, b);
    }
    assert forall|b: int, t: int|
        is_reachable(after, b) && #[trigger] goes_on_to(after, b, t) implies after.blocks[b].outputs.len()
        == after.blocks[t].inputs.len() by {
        lemma_same_flow_reachable(program, after, b);
        lemma_same_flow_goes_on(program, after, b, t);
        lemma_group_slots(program, analyses, b, t);
    }
    assert(calls_match(after)) by {
        assert forall|b: int, o: int|
            0 <= b < after.blocks.len() && 0 <= o < after.blocks[b].ops.len() implies ((
        #[trigger] after.blocks[b].ops[o]).kind matches OpKind::InternalCall(f) ==> {
            &&& f < after.functions.len()
            &&& after.functions[f as int].entry < after.blocks.len()
            &&& after.blocks[b].ops[o].inputs.len()
                == after.blocks[after.functions[f as int].entry as int].inputs.len()
            &&& after.blocks[b].ops[o].outputs.len() == after.functions[f as int].outputs
        }) by {
            assert(after.blocks[b].ops[o].kind == program.blocks[b].ops[o].kind);
            if let OpKind::InternalCall(f) = program.blocks[b].ops[o].kind {
                let entry = program.functions[f as int].entry as int;
                assert(program.is_function_entry(entry));
                lemma_entry_inputs_stay(program, analyses, entry);
            }
        }
    }
    assert forall|f: int, b: int| #[trigger]
        is_reached_by(after, f, b)
            && after.blocks[b].control is InternalReturn implies after.blocks[b].outputs.len()
        == after.functions[f].outputs by {
        lemma_same_flow_reached_by(program, after, f, b);
        assert(is_reachable(program, b));
        lemma_reachable_in_range(program, b);
        assert(program.blocks[b].control is InternalReturn);
        lemma_return_outputs_stay(program, analyses, b);
    }
}

/// Outputs and inputs of one group lose the same slots.
pub proof fn lemma_group_slots(program: ProgramView, analyses: AnalysesView, b: int, t: int)
    requires
        0 <= b < program.blocks.len(),
        0 <= t < program.blocks.len(),
        analyses.out_group[b] == analyses.in_group[t],
        program.blocks[b].outputs.len() == program.blocks[t].inputs.len(),
    ensures
        eliminate_redundant_slots(program, analyses).blocks[b].outputs.len()
            == eliminate_redundant_slots(program, analyses).blocks[t].inputs.len(),
{
    let removed = |slot: int| slot_is_redundant(program, analyses, analyses.out_group[b], slot);
    let outputs = subst_all(
        canonical(forwarded_inputs(program, analyses)),
        program.blocks[b].outputs,
    );
    lemma_keep_slots_count(outputs, removed);
    lemma_keep_slots_count(program.blocks[t].inputs, removed);
}

} // verus!
