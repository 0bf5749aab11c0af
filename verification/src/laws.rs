//! What holds of the pass as a whole.
//!
//! [`settle`] is what the pass makes of a program. The laws here say what it keeps, what it
//! reaches, and that the program still does the same.

use crate::analyses::{
    dominates_strictly, dominator_above, is_dominator_tree, lemma_above_further, AnalysesView,
};
use crate::copies_alike::lemma_propagate_behaves_alike;
use crate::flow::{
    goes_on_to, lemma_same_flow_describes, lemma_same_flow_goes_on, lemma_same_flow_groups_follow,
    lemma_same_flow_transitive, same_flow,
};
use crate::ir::{BasicBlockId, EthIRProgram, LocalId, OpView, ProgramView};
use crate::layout::{
    foreign_ops_stay, free_locals_stay, lemma_same_tables, same_layout, same_tables,
};
use crate::legality::{
    all_edges_match, is_legal, lemma_eliminate_legal, lemma_eliminate_same_flow,
    lemma_entry_inputs_stay, lemma_group_slots, lemma_outer_outputs_stay, lemma_propagate_legal,
    lemma_propagate_same_flow,
};
use crate::model::{
    canonical, copies_of, eliminate_redundant_slots, has_redundant_slot, in_member, propagate_block,
    propagate_copies, resolves_to, subst_all, subst_block, subst_op, subst_program,
};
use crate::scope::{
    condition_of, lemma_copy_site, lemma_eliminate_reads_in_scope, lemma_propagate_reads_in_scope,
    lemma_subst_condition, reads_in_scope,
};
use crate::semantics::{behave_alike, look_alike, run_for, Machine};
use crate::settle::{
    defines_no_more, lemma_eliminate_ssa, lemma_propagate_copies_ssa, lemma_round_decreases,
    output_slots, settle,
};
use crate::slots::{is_subsequence, lemma_subsequence_transitive};
use crate::slots_alike::lemma_eliminate_behaves_alike;
use vstd::prelude::*;

verus! {

/// In every program a copy has one local that it reads and one that it defines.
pub proof fn law_copies_have_one_local(program: EthIRProgram)
    ensures
        program@.copies_one_local(),
{
}

/// The pass leaves the control flow as it is: the functions, the blocks, and where each block may
/// go on to.
pub proof fn law_control_flow_stays(program: ProgramView, analyses: AnalysesView)
    requires
        analyses.wf(program.blocks.len() as int),
    ensures
        same_flow(program, settle(program, analyses)),
    decreases output_slots(program.blocks),
{
    let propagated = propagate_copies(program);
    lemma_propagate_same_flow(program);
    if has_redundant_slot(propagated, analyses) {
        let next = eliminate_redundant_slots(propagated, analyses);
        lemma_eliminate_same_flow(propagated, analyses);
        lemma_round_decreases(program, analyses);
        law_control_flow_stays(next, analyses);
        lemma_same_flow_transitive(program, propagated, next);
        lemma_same_flow_transitive(program, next, settle(program, analyses));
    }
}

/// Analyses that describe the control flow of a program still describe it after the pass.
pub proof fn law_analyses_stay_valid(program: ProgramView, analyses: AnalysesView)
    requires
        analyses.describes(program),
    ensures
        analyses.describes(settle(program, analyses)),
{
    law_control_flow_stays(program, analyses);
    lemma_same_flow_describes(program, settle(program, analyses), analyses);
}

/// Two programs have the same operations, apart from which locals these read.
pub open spec fn same_operations(before: ProgramView, after: ProgramView) -> bool {
    &&& after.blocks.len() == before.blocks.len()
    &&& forall|b: int|
        0 <= b < before.blocks.len() ==> (#[trigger] after.blocks[b]).ops.len()
            == before.blocks[b].ops.len()
    &&& forall|b: int, o: int|
        0 <= b < before.blocks.len() && 0 <= o < before.blocks[b].ops.len() ==> {
            &&& (#[trigger] after.blocks[b].ops[o]).kind == before.blocks[b].ops[o].kind
            &&& after.blocks[b].ops[o].outputs == before.blocks[b].ops[o].outputs
            &&& after.blocks[b].ops[o].inputs.len() == before.blocks[b].ops[o].inputs.len()
        }
}

/// The pass leaves every operation in its place: what it does, what it defines, and how many
/// locals it reads.
pub proof fn law_operations_stay(program: ProgramView, analyses: AnalysesView)
    requires
        analyses.wf(program.blocks.len() as int),
    ensures
        same_operations(program, settle(program, analyses)),
    decreases output_slots(program.blocks),
{
    let propagated = propagate_copies(program);
    if has_redundant_slot(propagated, analyses) {
        let next = eliminate_redundant_slots(propagated, analyses);
        lemma_round_decreases(program, analyses);
        law_operations_stay(next, analyses);
        let last = settle(next, analyses);
        assert forall|b: int| 0 <= b < program.blocks.len() implies (
        #[trigger] last.blocks[b]).ops.len() == program.blocks[b].ops.len() by {
            assert(next.blocks[b].ops.len() == program.blocks[b].ops.len());
        }
        assert forall|b: int, o: int|
            0 <= b < program.blocks.len() && 0 <= o < program.blocks[b].ops.len() implies {
            &&& (#[trigger] last.blocks[b].ops[o]).kind == program.blocks[b].ops[o].kind
            &&& last.blocks[b].ops[o].outputs == program.blocks[b].ops[o].outputs
            &&& last.blocks[b].ops[o].inputs.len() == program.blocks[b].ops[o].inputs.len()
        } by {
            assert(next.blocks[b].ops[o].kind == program.blocks[b].ops[o].kind);
        }
    }
}

/// The pass keeps static single assignment form. It defines no local anew, and no block takes in
/// a local that it did not take in; what it still takes in stands in the order of before.
pub proof fn law_single_assignment_stays(program: ProgramView, analyses: AnalysesView)
    requires
        program.ssa(),
        analyses.wf(program.blocks.len() as int),
    ensures
        settle(program, analyses).ssa(),
        defines_no_more(program, settle(program, analyses)),
    decreases output_slots(program.blocks),
{
    let propagated = propagate_copies(program);
    lemma_propagate_copies_ssa(program);
    if has_redundant_slot(propagated, analyses) {
        let next = eliminate_redundant_slots(propagated, analyses);
        lemma_eliminate_ssa(propagated, analyses);
        lemma_round_decreases(program, analyses);
        law_single_assignment_stays(next, analyses);
        let last = settle(next, analyses);
        assert forall|b: int| 0 <= b < program.blocks.len() implies {
            &&& (#[trigger] last.blocks[b]).inputs.no_duplicates()
            &&& forall|local: LocalId| #[trigger]
                last.blocks[b].inputs.contains(local) ==> program.blocks[b].inputs.contains(local)
            &&& is_subsequence(last.blocks[b].inputs, program.blocks[b].inputs)
            &&& last.blocks[b].ops.len() == program.blocks[b].ops.len()
            &&& forall|o: int|
                0 <= o < program.blocks[b].ops.len() ==> (#[trigger] last.blocks[b].ops[o]).outputs
                    == program.blocks[b].ops[o].outputs
        } by {
            assert(next.blocks[b].inputs.no_duplicates());
            assert(propagated.blocks[b].inputs == program.blocks[b].inputs);
            lemma_subsequence_transitive(
                last.blocks[b].inputs,
                next.blocks[b].inputs,
                program.blocks[b].inputs,
            );
            assert forall|o: int| 0 <= o < program.blocks[b].ops.len() implies (
            #[trigger] last.blocks[b].ops[o]).outputs == program.blocks[b].ops[o].outputs by {
                assert(next.blocks[b].ops[o].outputs == program.blocks[b].ops[o].outputs);
            }
        }
    }
}

/// The block in which a function starts keeps its inputs, so calls of the function stay as they
/// are.
pub proof fn law_function_inputs_stay(program: ProgramView, analyses: AnalysesView, b: int)
    requires
        analyses.wf(program.blocks.len() as int),
        0 <= b < program.blocks.len(),
        program.is_function_entry(b),
    ensures
        eliminate_redundant_slots(program, analyses).blocks[b].inputs == program.blocks[b].inputs,
        settle(program, analyses).blocks[b].inputs == program.blocks[b].inputs,
    decreases output_slots(program.blocks),
{
    lemma_entry_inputs_stay(program, analyses, b);
    let propagated = propagate_copies(program);
    if has_redundant_slot(propagated, analyses) {
        let next = eliminate_redundant_slots(propagated, analyses);
        assert(next.functions == program.functions);
        assert(propagated.functions == program.functions);
        assert(propagated.is_function_entry(b));
        assert(next.is_function_entry(b));
        lemma_entry_inputs_stay(propagated, analyses, b);
        lemma_round_decreases(program, analyses);
        law_function_inputs_stay(next, analyses, b);
    }
}

/// The pass leaves no redundant slot.
pub proof fn law_no_redundant_slot_left(program: ProgramView, analyses: AnalysesView)
    requires
        analyses.wf(program.blocks.len() as int),
    ensures
        !has_redundant_slot(settle(program, analyses), analyses),
    decreases output_slots(program.blocks),
{
    let propagated = propagate_copies(program);
    if has_redundant_slot(propagated, analyses) {
        lemma_round_decreases(program, analyses);
        law_no_redundant_slot_left(eliminate_redundant_slots(propagated, analyses), analyses);
    }
}

/// A block that reads locals only where they have been set still does after the pass.
pub proof fn law_reads_stay_in_scope(program: ProgramView, analyses: AnalysesView, b: int)
    requires
        program.ssa(),
        program.copies_one_local(),
        analyses.wf(program.blocks.len() as int),
        0 <= b < program.blocks.len(),
        reads_in_scope(program, analyses.idom, b),
    ensures
        reads_in_scope(settle(program, analyses), analyses.idom, b),
    decreases output_slots(program.blocks),
{
    let propagated = propagate_copies(program);
    lemma_propagate_copies_ssa(program);
    lemma_propagate_reads_in_scope(program, analyses.idom, b);
    if has_redundant_slot(propagated, analyses) {
        let next = eliminate_redundant_slots(propagated, analyses);
        lemma_eliminate_ssa(propagated, analyses);
        lemma_eliminate_reads_in_scope(propagated, analyses, b);
        lemma_round_copies(program, analyses);
        lemma_round_decreases(program, analyses);
        law_reads_stay_in_scope(next, analyses, b);
    }
}

/// Rounds leave copies with one local that they read and one that they define.
pub proof fn lemma_round_copies(program: ProgramView, analyses: AnalysesView)
    requires
        program.copies_one_local(),
    ensures
        propagate_copies(program).copies_one_local(),
        eliminate_redundant_slots(propagate_copies(program), analyses).copies_one_local(),
{
    let propagated = propagate_copies(program);
    let next = eliminate_redundant_slots(propagated, analyses);
    assert forall|b: int, o: int|
        0 <= b < propagated.blocks.len() && 0 <= o < propagated.blocks[b].ops.len() && (
        #[trigger] propagated.blocks[b].ops[o]).kind is SetCopy implies propagated.blocks[b].ops[o].inputs.len()
        == 1 && propagated.blocks[b].ops[o].outputs.len() == 1 by {
        assert(program.blocks[b].ops[o].kind is SetCopy);
    }
    assert forall|b: int, o: int|
        0 <= b < next.blocks.len() && 0 <= o < next.blocks[b].ops.len() && (
        #[trigger] next.blocks[b].ops[o]).kind is SetCopy implies next.blocks[b].ops[o].inputs.len()
        == 1 && next.blocks[b].ops[o].outputs.len() == 1 by {
        assert(program.blocks[b].ops[o].kind is SetCopy);
    }
}

/// What the pass makes of a legal program is legal.
pub proof fn law_result_is_legal(program: ProgramView, analyses: AnalysesView)
    requires
        analyses.describes(program),
        is_legal(program, analyses),
    ensures
        is_legal(settle(program, analyses), analyses),
    decreases output_slots(program.blocks),
{
    let propagated = propagate_copies(program);
    lemma_propagate_same_flow(program);
    lemma_same_flow_describes(program, propagated, analyses);
    lemma_propagate_legal(program, analyses);
    if has_redundant_slot(propagated, analyses) {
        let next = eliminate_redundant_slots(propagated, analyses);
        lemma_eliminate_same_flow(propagated, analyses);
        lemma_same_flow_describes(propagated, next, analyses);
        lemma_eliminate_legal(propagated, analyses);
        lemma_round_decreases(program, analyses);
        law_result_is_legal(next, analyses);
    }
}

/// Where groups follow from the control flow, and every block hands on as many locals as each block
/// that it goes on to takes in, so it does after the pass, whether the block is reached or not.
pub proof fn law_all_edges_stay_matched(program: ProgramView, analyses: AnalysesView)
    requires
        analyses.wf(program.blocks.len() as int),
        analyses.groups_follow(program),
        all_edges_match(program),
    ensures
        all_edges_match(eliminate_redundant_slots(program, analyses)),
        all_edges_match(settle(program, analyses)),
    decreases output_slots(program.blocks),
{
    let propagated = propagate_copies(program);
    lemma_propagate_same_flow(program);
    lemma_eliminated_edges_match(program, analyses);
    assert forall|b: int, t: int| #[trigger] goes_on_to(
        propagated,
        b,
        t,
    ) implies propagated.blocks[b].outputs.len() == propagated.blocks[t].inputs.len() by {
        lemma_same_flow_goes_on(program, propagated, b, t);
    }
    if has_redundant_slot(propagated, analyses) {
        let next = eliminate_redundant_slots(propagated, analyses);
        lemma_same_flow_groups_follow(program, propagated, analyses);
        lemma_eliminated_edges_match(propagated, analyses);
        lemma_eliminate_same_flow(propagated, analyses);
        lemma_same_flow_groups_follow(propagated, next, analyses);
        lemma_round_decreases(program, analyses);
        law_all_edges_stay_matched(next, analyses);
    }
}

proof fn lemma_eliminated_edges_match(program: ProgramView, analyses: AnalysesView)
    requires
        analyses.wf(program.blocks.len() as int),
        analyses.groups_follow(program),
        all_edges_match(program),
    ensures
        all_edges_match(eliminate_redundant_slots(program, analyses)),
{
    let after = eliminate_redundant_slots(program, analyses);
    lemma_eliminate_same_flow(program, analyses);
    assert forall|b: int, t: int| #[trigger] goes_on_to(
        after,
        b,
        t,
    ) implies after.blocks[b].outputs.len() == after.blocks[t].inputs.len() by {
        lemma_same_flow_goes_on(program, after, b, t);
        lemma_group_slots(program, analyses, b, t);
    }
}

proof fn lemma_behave_alike_transitive<V, W>(
    machine: Machine<V, W>,
    a: ProgramView,
    b: ProgramView,
    c: ProgramView,
)
    requires
        same_flow(a, b),
        behave_alike(machine, a, b),
        behave_alike(machine, b, c),
    ensures
        behave_alike(machine, a, c),
{
    assert forall|f: int, arguments: Seq<V>, world: W, steps: nat|
        0 <= f < a.functions.len() && a.functions[f].entry < a.blocks.len() implies look_alike(
        a,
        #[trigger] run_for(machine, a, f, arguments, world, steps),
        c,
        run_for(machine, c, f, arguments, world, steps),
    ) by {
        let run_a = run_for(machine, a, f, arguments, world, steps);
        let run_b = run_for(machine, b, f, arguments, world, steps);
        assert(look_alike(a, run_a, b, run_b));
    }
}

/// The pass does not change what a legal program does: whatever the operations mean, from
/// whatever function, arguments and world a run starts, it goes through the same places, every
/// operation, condition and return there reads the same values, the world changes alike, and the
/// run ends in the same way with the same values.
pub proof fn law_behaviour_stays<V, W>(
    machine: Machine<V, W>,
    program: ProgramView,
    analyses: AnalysesView,
)
    requires
        analyses.describes(program),
        is_legal(program, analyses),
    ensures
        behave_alike(machine, program, settle(program, analyses)),
    decreases output_slots(program.blocks),
{
    let propagated = propagate_copies(program);
    lemma_propagate_same_flow(program);
    lemma_same_flow_describes(program, propagated, analyses);
    lemma_propagate_legal(program, analyses);
    lemma_propagate_behaves_alike(machine, program, analyses);
    if has_redundant_slot(propagated, analyses) {
        let next = eliminate_redundant_slots(propagated, analyses);
        lemma_eliminate_same_flow(propagated, analyses);
        lemma_same_flow_describes(propagated, next, analyses);
        lemma_eliminate_legal(propagated, analyses);
        lemma_eliminate_behaves_alike(machine, propagated, analyses);
        lemma_behave_alike_transitive(machine, program, propagated, next);
        lemma_same_flow_transitive(program, propagated, next);
        lemma_round_decreases(program, analyses);
        law_behaviour_stays(machine, next, analyses);
        lemma_behave_alike_transitive(machine, program, next, settle(program, analyses));
    }
}

/// None of these locals is copied inside the block.
pub open spec fn none_copied(ops: Seq<OpView>, locals: Seq<LocalId>) -> bool {
    forall|i: int|
        0 <= i < locals.len() ==> !copies_of(ops).dom().contains(#[trigger] locals[i])
}

/// Block `b` reads no local that it copies.
pub open spec fn reads_no_copies(program: ProgramView, b: int) -> bool {
    let block = program.blocks[b];
    &&& forall|o: int|
        0 <= o < block.ops.len() ==> none_copied(block.ops, (#[trigger] block.ops[o]).inputs)
    &&& none_copied(block.ops, block.outputs)
    &&& none_copied(block.ops, condition_of(block.control))
}

/// Which locals are copied does not depend on what is read.
proof fn lemma_same_copied(ops1: Seq<OpView>, ops2: Seq<OpView>, local: LocalId)
    requires
        ops1.len() == ops2.len(),
        forall|o: int|
            0 <= o < ops1.len() ==> (#[trigger] ops2[o]).kind == ops1[o].kind && ops2[o].outputs
                == ops1[o].outputs,
    ensures
        copies_of(ops2).dom().contains(local) == copies_of(ops1).dom().contains(local),
    decreases ops1.len(),
{
    if ops1.len() > 0 {
        assert forall|o: int| 0 <= o < ops1.len() - 1 implies (
        #[trigger] ops2.drop_last()[o]).kind == ops1.drop_last()[o].kind
            && ops2.drop_last()[o].outputs == ops1.drop_last()[o].outputs by {
            assert(ops2[o].kind == ops1[o].kind);
        }
        lemma_same_copied(ops1.drop_last(), ops2.drop_last(), local);
        assert(ops2[ops1.len() - 1].kind == ops1[ops1.len() - 1].kind);
    }
}

proof fn lemma_origins_not_copied(
    program: ProgramView,
    idom: Seq<Option<BasicBlockId>>,
    b: int,
    locals: Seq<LocalId>,
)
    requires
        program.ssa(),
        program.copies_one_local(),
        is_dominator_tree(idom),
        0 <= b < program.blocks.len(),
        reads_in_scope(program, idom, b),
    ensures
        none_copied(
            propagate_copies(program).blocks[b].ops,
            subst_all(copies_of(program.blocks[b].ops), locals),
        ),
{
    let ops1 = program.blocks[b].ops;
    let ops2 = propagate_copies(program).blocks[b].ops;
    let read = subst_all(copies_of(ops1), locals);
    assert forall|i: int| 0 <= i < read.len() implies !copies_of(ops2).dom().contains(
        #[trigger] read[i],
    ) by {
        assert(ops1.take(ops1.len() as int) =~= ops1);
        lemma_same_copied(ops1, ops2, read[i]);
        if copies_of(ops1).dom().contains(locals[i]) {
            lemma_copy_site(program, idom, b, ops1.len() as int, locals[i]);
        }
    }
}

proof fn lemma_propagated_reads_no_copies(program: ProgramView, idom: Seq<Option<BasicBlockId>>, b: int)
    requires
        program.ssa(),
        program.copies_one_local(),
        is_dominator_tree(idom),
        0 <= b < program.blocks.len(),
        reads_in_scope(program, idom, b),
    ensures
        reads_no_copies(propagate_copies(program), b),
{
    let block = program.blocks[b];
    let after = propagate_copies(program).blocks[b];
    assert forall|o: int| 0 <= o < after.ops.len() implies none_copied(
        after.ops,
        (#[trigger] after.ops[o]).inputs,
    ) by {
        lemma_origins_not_copied(program, idom, b, block.ops[o].inputs);
    }
    lemma_origins_not_copied(program, idom, b, block.outputs);
    lemma_origins_not_copied(program, idom, b, condition_of(block.control));
    lemma_subst_condition(copies_of(block.ops), block.control);
}

/// After the pass a block that reads locals only where they have been set reads no local that it
/// copies.
pub proof fn law_no_copy_read(program: ProgramView, analyses: AnalysesView, b: int)
    requires
        program.ssa(),
        program.copies_one_local(),
        analyses.wf(program.blocks.len() as int),
        0 <= b < program.blocks.len(),
        reads_in_scope(program, analyses.idom, b),
    ensures
        reads_no_copies(settle(program, analyses), b),
    decreases output_slots(program.blocks),
{
    let propagated = propagate_copies(program);
    lemma_propagate_copies_ssa(program);
    lemma_propagate_reads_in_scope(program, analyses.idom, b);
    if has_redundant_slot(propagated, analyses) {
        let next = eliminate_redundant_slots(propagated, analyses);
        lemma_eliminate_ssa(propagated, analyses);
        lemma_eliminate_reads_in_scope(propagated, analyses, b);
        lemma_round_copies(program, analyses);
        lemma_round_decreases(program, analyses);
        law_no_copy_read(next, analyses, b);
    } else {
        lemma_propagated_reads_no_copies(program, analyses.idom, b);
    }
}

proof fn lemma_nothing_to_propagate(program: ProgramView, b: int)
    requires
        0 <= b < program.blocks.len(),
        reads_no_copies(program, b),
    ensures
        propagate_block(program.blocks[b]) == program.blocks[b],
{
    let block = program.blocks[b];
    let map = copies_of(block.ops);
    let after = propagate_block(block);
    assert forall|o: int| 0 <= o < block.ops.len() implies after.ops[o] == #[trigger] block.ops[o] by {
        assert(none_copied(block.ops, block.ops[o].inputs));
        assert(subst_all(map, block.ops[o].inputs) =~= block.ops[o].inputs);
    }
    assert(after.ops =~= block.ops);
    assert(subst_all(map, block.outputs) =~= block.outputs);
    lemma_subst_condition(map, block.control);
    let condition = condition_of(block.control);
    assert(subst_all(map, condition) =~= condition);
    if condition.len() > 0 {
        assert(!map.dom().contains(condition[0]));
    }
}

/// Where all reads are of locals that have been set, reading copies at their origin inside blocks a
/// second time changes nothing.
pub proof fn law_propagating_twice(program: ProgramView, idom: Seq<Option<BasicBlockId>>)
    requires
        program.ssa(),
        program.copies_one_local(),
        is_dominator_tree(idom),
        forall|b: int|
            0 <= b < program.blocks.len() ==> #[trigger] reads_in_scope(program, idom, b),
    ensures
        propagate_copies(propagate_copies(program)) == propagate_copies(program),
{
    let once = propagate_copies(program);
    assert forall|b: int| 0 <= b < once.blocks.len() implies propagate_block(
        #[trigger] once.blocks[b],
    ) == once.blocks[b] by {
        assert(reads_in_scope(program, idom, b));
        lemma_propagated_reads_no_copies(program, idom, b);
        lemma_nothing_to_propagate(once, b);
    }
    assert(propagate_copies(once).blocks =~= once.blocks);
}

/// Where all reads are of locals that have been set, reading copies at their origin inside blocks a
/// second time changes no table of a program and nothing in its arena: `once` is what the first
/// call of `propagate_operation_copies` makes of `program`, and `twice` what the second makes of
/// `once`.
pub proof fn law_propagating_twice_keeps_the_tables(
    program: EthIRProgram,
    once: EthIRProgram,
    twice: EthIRProgram,
    idom: Seq<Option<BasicBlockId>>,
)
    requires
        program@.ssa(),
        is_dominator_tree(idom),
        forall|b: int|
            0 <= b < program@.blocks.len() ==> #[trigger] reads_in_scope(program@, idom, b),
        once.wf(),
        once@ == propagate_copies(program@),
        twice@ == propagate_copies(once@),
        same_layout(once, twice),
        foreign_ops_stay(once, twice),
        free_locals_stay(once, twice),
    ensures
        twice@ == once@,
        same_tables(once, twice),
{
    law_copies_have_one_local(program);
    law_propagating_twice(program@, idom);
    lemma_same_tables(once, twice);
}

/// Replacing reads a second time under a map none of whose values is a key changes nothing.
pub proof fn law_replacing_twice(map: Map<LocalId, LocalId>, program: ProgramView)
    requires
        forall|local: LocalId| #[trigger]
            map.dom().contains(local) ==> !map.dom().contains(map[local]),
    ensures
        subst_program(map, subst_program(map, program)) == subst_program(map, program),
{
    let once = subst_program(map, program);
    assert forall|b: int| 0 <= b < once.blocks.len() implies subst_block(
        map,
        #[trigger] once.blocks[b],
    ) == once.blocks[b] by {
        let block = once.blocks[b];
        assert forall|o: int| 0 <= o < block.ops.len() implies subst_op(
            map,
            #[trigger] block.ops[o],
        ) == block.ops[o] by {
            assert(subst_all(map, block.ops[o].inputs) =~= block.ops[o].inputs);
        }
        assert(subst_block(map, block).ops =~= block.ops);
        assert(subst_all(map, block.outputs) =~= block.outputs);
    }
    assert(subst_program(map, once).blocks =~= once.blocks);
}

/// Where chains are followed to their ends, no end has an entry to be followed further.
pub proof fn law_ends_are_final(map: Map<LocalId, LocalId>, local: LocalId)
    requires
        canonical(map).dom().contains(local),
    ensures
        !map.dom().contains(canonical(map)[local]),
        !canonical(map).dom().contains(canonical(map)[local]),
{
    let end = choose|end: LocalId| resolves_to(map, local, end);
    assert(resolves_to(map, local, end));
}

/// Of two blocks that both lie above a third, one lies above the other, unless they are the same.
pub proof fn law_dominators_are_comparable(
    idom: Seq<Option<BasicBlockId>>,
    a: int,
    b: int,
    c: int,
)
    requires
        dominates_strictly(idom, a, c),
        dominates_strictly(idom, b, c),
    ensures
        a == b || dominates_strictly(idom, a, b) || dominates_strictly(idom, b, a),
{
    let to_a = choose|steps: nat|
        steps > 0 && #[trigger] dominator_above(idom, c, steps) == Some(a);
    let to_b = choose|steps: nat|
        steps > 0 && #[trigger] dominator_above(idom, c, steps) == Some(b);
    if to_a <= to_b {
        lemma_above_further(idom, c, to_a, to_b);
        assert(dominator_above(idom, a, (to_b - to_a) as nat) == Some(b));
    } else {
        lemma_above_further(idom, c, to_b, to_a);
        assert(dominator_above(idom, b, (to_a - to_b) as nat) == Some(a));
    }
}

/// A block whose outputs are in no group with inputs, or in one with the inputs of a block in which
/// a function starts, hands on as many locals as before.
pub proof fn law_outer_outputs_stay(program: ProgramView, analyses: AnalysesView, b: int)
    requires
        analyses.wf(program.blocks.len() as int),
        0 <= b < program.blocks.len(),
        analyses.out_group[b] matches Some(g) ==> (forall|t: int| !#[trigger]
            in_member(analyses, g, t)) || exists|t: int| #[trigger]
            in_member(analyses, g, t) && program.is_function_entry(t),
    ensures
        eliminate_redundant_slots(program, analyses).blocks[b].outputs.len()
            == program.blocks[b].outputs.len(),
        settle(program, analyses).blocks[b].outputs.len() == program.blocks[b].outputs.len(),
    decreases output_slots(program.blocks),
{
    lemma_outer_outputs_stay(program, analyses, b);
    let propagated = propagate_copies(program);
    if has_redundant_slot(propagated, analyses) {
        let next = eliminate_redundant_slots(propagated, analyses);
        assert(propagated.functions == program.functions);
        assert(next.functions == program.functions);
        assert forall|t: int| #[trigger] program.is_function_entry(t) implies (
        propagated.is_function_entry(t) && next.is_function_entry(t)) by {
            let f = choose|f: int|
                0 <= f < program.functions.len() && (#[trigger] program.functions[f]).entry == t;
            assert(propagated.functions[f].entry == t);
            assert(next.functions[f].entry == t);
        }
        lemma_outer_outputs_stay(propagated, analyses, b);
        lemma_round_decreases(program, analyses);
        law_outer_outputs_stay(next, analyses, b);
    }
}

/// Where groups follow from the control flow, a block that goes on nowhere hands on as many locals
/// as before, and so does a block that goes on to where a function starts.
pub proof fn law_outputs_out_of_the_flow_stay(
    program: ProgramView,
    analyses: AnalysesView,
    b: int,
)
    requires
        analyses.wf(program.blocks.len() as int),
        analyses.groups_follow(program),
        0 <= b < program.blocks.len(),
        (forall|t: int| !#[trigger] goes_on_to(program, b, t)) || exists|t: int| #[trigger]
            goes_on_to(program, b, t) && program.is_function_entry(t),
    ensures
        eliminate_redundant_slots(program, analyses).blocks[b].outputs.len()
            == program.blocks[b].outputs.len(),
        settle(program, analyses).blocks[b].outputs.len() == program.blocks[b].outputs.len(),
{
    if let Some(g) = analyses.out_group[b] {
        if forall|t: int| !#[trigger] goes_on_to(program, b, t) {
            assert forall|t: int| !#[trigger] in_member(analyses, g, t) by {
                if in_member(analyses, g, t) {
                    assert(analyses.out_group[b] == analyses.in_group[t]);
                }
            }
        } else {
            let t = choose|t: int| #[trigger]
                goes_on_to(program, b, t) && program.is_function_entry(t);
            assert(analyses.out_group[b] == analyses.in_group[t]);
            assert(in_member(analyses, g, t));
        }
    }
    law_outer_outputs_stay(program, analyses, b);
}

/// The pass leaves a program as it is in which no block reads a local that it copies and no slot is
/// redundant.
pub proof fn law_nothing_to_do(program: ProgramView, analyses: AnalysesView)
    requires
        analyses.wf(program.blocks.len() as int),
        forall|b: int| 0 <= b < program.blocks.len() ==> #[trigger] reads_no_copies(program, b),
        !has_redundant_slot(program, analyses),
    ensures
        settle(program, analyses) == program,
{
    assert forall|b: int| 0 <= b < program.blocks.len() implies propagate_block(
        #[trigger] program.blocks[b],
    ) == program.blocks[b] by {
        assert(reads_no_copies(program, b));
        lemma_nothing_to_propagate(program, b);
    }
    assert(propagate_copies(program).blocks =~= program.blocks);
    assert(propagate_copies(program) == program);
}

/// Where all reads are of locals that have been set, running the pass once more changes nothing.
pub proof fn law_settled_for_good(program: ProgramView, analyses: AnalysesView)
    requires
        program.ssa(),
        program.copies_one_local(),
        analyses.wf(program.blocks.len() as int),
        forall|b: int|
            0 <= b < program.blocks.len() ==> #[trigger] reads_in_scope(program, analyses.idom, b),
    ensures
        settle(settle(program, analyses), analyses) == settle(program, analyses),
{
    let settled = settle(program, analyses);
    law_control_flow_stays(program, analyses);
    law_no_redundant_slot_left(program, analyses);
    assert forall|b: int| 0 <= b < settled.blocks.len() implies #[trigger] reads_no_copies(
        settled,
        b,
    ) by {
        assert(reads_in_scope(program, analyses.idom, b));
        law_no_copy_read(program, analyses, b);
    }
    law_nothing_to_do(settled, analyses);
}

} // verus!
