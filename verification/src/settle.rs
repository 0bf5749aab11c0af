//! The rounds of the pass: they keep static single assignment form, and they come to an end.

use crate::analyses::{AnalysesView, InOutGroupId};
use crate::ir::{BlockView, LocalId, ProgramView};
use crate::model::{
    canonical, eliminate_in_block, eliminate_redundant_slots, forwarded_inputs, has_redundant_slot,
    is_inner_group, is_redundant, out_member, propagate_copies, slot_is_redundant, subst_all,
};
use crate::slots::{
    is_subsequence, lemma_keep_slots_distinct, lemma_keep_slots_len, lemma_keep_slots_shorter,
    lemma_keep_slots_subsequence, lemma_subsequence_reflexive,
};
use vstd::prelude::*;

verus! {

/// A program whose operations define what those of another do and whose blocks take in some of
/// the inputs, in the same order.
pub open spec fn defines_no_more(before: ProgramView, after: ProgramView) -> bool {
    &&& after.next_free_local_id == before.next_free_local_id
    &&& after.blocks.len() == before.blocks.len()
    &&& forall|b: int|
        0 <= b < before.blocks.len() ==> {
            &&& (#[trigger] after.blocks[b]).inputs.no_duplicates()
            &&& forall|local: LocalId| #[trigger]
                after.blocks[b].inputs.contains(local) ==> before.blocks[b].inputs.contains(local)
            &&& is_subsequence(after.blocks[b].inputs, before.blocks[b].inputs)
            &&& after.blocks[b].ops.len() == before.blocks[b].ops.len()
            &&& forall|o: int|
                0 <= o < before.blocks[b].ops.len() ==> (#[trigger] after.blocks[b].ops[o]).outputs
                    == before.blocks[b].ops[o].outputs
        }
}

/// A program that defines no more than one in static single assignment form is in that form.
pub proof fn lemma_defines_no_more_ssa(before: ProgramView, after: ProgramView)
    requires
        before.ssa(),
        defines_no_more(before, after),
    ensures
        after.ssa(),
        forall|b: int, local: LocalId|
            0 <= b < before.blocks.len() && #[trigger] after.blocks[b].defines(local)
                ==> before.blocks[b].defines(local),
{
    assert forall|b: int, local: LocalId|
        0 <= b < before.blocks.len() && #[trigger] after.blocks[b].defines(
            local,
        ) implies before.blocks[b].defines(local) by {
        if !after.blocks[b].inputs.contains(local) {
            let o = choose|o: int|
                0 <= o < after.blocks[b].ops.len() && (
                #[trigger] after.blocks[b].ops[o]).outputs.contains(local);
            assert(before.blocks[b].ops[o].outputs.contains(local));
        }
    }
    assert forall|b: int| 0 <= b < after.blocks.len() implies (#[trigger] after.blocks[b]).ssa() by {
        let was = before.blocks[b];
        let now = after.blocks[b];
        assert(was.ssa());
        assert forall|o: int| 0 <= o < now.ops.len() implies (
        #[trigger] now.ops[o]).outputs.no_duplicates() by {
            assert(was.ops[o].outputs.no_duplicates());
        }
        assert forall|o: int, local: LocalId|
            0 <= o < now.ops.len() && #[trigger] now.ops[o].outputs.contains(
                local,
            ) implies !now.inputs.contains(local) by {
            assert(was.ops[o].outputs.contains(local));
        }
        assert forall|o1: int, o2: int, local: LocalId|
            0 <= o1 < now.ops.len() && 0 <= o2 < now.ops.len() && #[trigger] now.ops[o1].outputs.contains(
                local,
            ) && #[trigger] now.ops[o2].outputs.contains(local) implies o1 == o2 by {
            assert(was.ops[o1].outputs.contains(local));
            assert(was.ops[o2].outputs.contains(local));
        }
    }
    assert forall|b1: int, b2: int, local: LocalId|
        0 <= b1 < after.blocks.len() && 0 <= b2 < after.blocks.len()
            && #[trigger] after.blocks[b1].defines(local) && #[trigger] after.blocks[b2].defines(
            local,
        ) implies b1 == b2 by {
        assert(before.blocks[b1].defines(local));
        assert(before.blocks[b2].defines(local));
    }
}

/// Propagating copies inside blocks keeps what is defined.
pub proof fn lemma_propagate_copies_ssa(program: ProgramView)
    requires
        program.ssa(),
    ensures
        defines_no_more(program, propagate_copies(program)),
        propagate_copies(program).ssa(),
{
    let after = propagate_copies(program);
    assert forall|b: int| 0 <= b < program.blocks.len() implies {
        &&& (#[trigger] after.blocks[b]).inputs.no_duplicates()
        &&& is_subsequence(after.blocks[b].inputs, program.blocks[b].inputs)
    } by {
        assert(program.blocks[b].ssa());
        lemma_subsequence_reflexive(program.blocks[b].inputs);
    }
    lemma_defines_no_more_ssa(program, after);
}

/// Taking out redundant slots keeps what operations define.
pub proof fn lemma_eliminate_ssa(program: ProgramView, analyses: AnalysesView)
    requires
        program.ssa(),
    ensures
        defines_no_more(program, eliminate_redundant_slots(program, analyses)),
        eliminate_redundant_slots(program, analyses).ssa(),
{
    let after = eliminate_redundant_slots(program, analyses);
    assert forall|b: int| 0 <= b < program.blocks.len() implies {
        &&& (#[trigger] after.blocks[b]).inputs.no_duplicates()
        &&& forall|local: LocalId| #[trigger]
            after.blocks[b].inputs.contains(local) ==> program.blocks[b].inputs.contains(local)
        &&& is_subsequence(after.blocks[b].inputs, program.blocks[b].inputs)
    } by {
        assert(program.blocks[b].ssa());
        let removed = |slot: int|
            slot_is_redundant(program, analyses, analyses.in_group[b], slot);
        lemma_keep_slots_distinct(program.blocks[b].inputs, removed);
        lemma_keep_slots_subsequence(program.blocks[b].inputs, removed);
    }
    lemma_defines_no_more_ssa(program, after);
}

/// How many outputs a list of blocks has in all.
pub open spec fn output_slots(blocks: Seq<BlockView>) -> nat
    decreases blocks.len(),
{
    if blocks.len() == 0 {
        0
    } else {
        output_slots(blocks.drop_last()) + blocks.last().outputs.len()
    }
}

proof fn lemma_output_slots_at_most(before: Seq<BlockView>, after: Seq<BlockView>)
    requires
        before.len() == after.len(),
        forall|b: int|
            0 <= b < before.len() ==> (#[trigger] after[b]).outputs.len() <= before[b].outputs.len(),
    ensures
        output_slots(after) <= output_slots(before),
    decreases before.len(),
{
    if before.len() > 0 {
        assert forall|b: int| 0 <= b < before.len() - 1 implies (
        #[trigger] after.drop_last()[b]).outputs.len() <= before.drop_last()[b].outputs.len() by {
            assert(after[b].outputs.len() <= before[b].outputs.len());
        }
        lemma_output_slots_at_most(before.drop_last(), after.drop_last());
        assert(after[before.len() - 1].outputs.len() <= before[before.len() - 1].outputs.len());
    }
}

proof fn lemma_output_slots_less(before: Seq<BlockView>, after: Seq<BlockView>, at: int)
    requires
        before.len() == after.len(),
        forall|b: int|
            0 <= b < before.len() ==> (#[trigger] after[b]).outputs.len() <= before[b].outputs.len(),
        0 <= at < before.len(),
        after[at].outputs.len() < before[at].outputs.len(),
    ensures
        output_slots(after) < output_slots(before),
    decreases before.len(),
{
    assert forall|b: int| 0 <= b < before.len() - 1 implies (
    #[trigger] after.drop_last()[b]).outputs.len() <= before.drop_last()[b].outputs.len() by {
        assert(after[b].outputs.len() <= before[b].outputs.len());
    }
    if at < before.len() - 1 {
        lemma_output_slots_less(before.drop_last(), after.drop_last(), at);
        assert(after[before.len() - 1].outputs.len() <= before[before.len() - 1].outputs.len());
    } else {
        lemma_output_slots_at_most(before.drop_last(), after.drop_last());
    }
}

/// A round that takes a slot out leaves fewer outputs.
pub proof fn lemma_round_decreases(program: ProgramView, analyses: AnalysesView)
    requires
        analyses.wf(program.blocks.len() as int),
        has_redundant_slot(propagate_copies(program), analyses),
    ensures
        output_slots(
            eliminate_redundant_slots(propagate_copies(program), analyses).blocks,
        ) < output_slots(program.blocks),
{
    let middle = propagate_copies(program);
    let after = eliminate_redundant_slots(middle, analyses);
    let (g, slot, source) = choose|g: InOutGroupId, slot: int, source: LocalId|
        is_redundant(middle, analyses, g, slot, source);
    assert(is_inner_group(middle, analyses, g));
    let o = choose|o: int| out_member(analyses, g, o);
    assert(out_member(analyses, g, o));
    assert forall|b: int| 0 <= b < program.blocks.len() implies (
    #[trigger] after.blocks[b]).outputs.len() <= program.blocks[b].outputs.len() by {
        lemma_eliminated_outputs(middle, analyses, b);
    }
    lemma_eliminated_outputs(middle, analyses, o);
    let group = analyses.out_group[o];
    assert(group matches Some(h) && is_redundant(middle, analyses, h, slot, source));
    assert(slot_is_redundant(middle, analyses, group, slot));
    lemma_output_slots_less(program.blocks, after.blocks, o);
}

proof fn lemma_eliminated_outputs(program: ProgramView, analyses: AnalysesView, b: int)
    requires
        0 <= b < program.blocks.len(),
    ensures
        eliminate_in_block(program, analyses, b).outputs.len() <= program.blocks[b].outputs.len(),
        (exists|slot: int|
            0 <= slot < program.blocks[b].outputs.len() && #[trigger] slot_is_redundant(
                program,
                analyses,
                analyses.out_group[b],
                slot,
            )) ==> eliminate_in_block(program, analyses, b).outputs.len()
            < program.blocks[b].outputs.len(),
{
    let origins = canonical(forwarded_inputs(program, analyses));
    let outputs = subst_all(origins, program.blocks[b].outputs);
    let removed = |slot: int|
        slot_is_redundant(program, analyses, analyses.out_group[b], slot);
    lemma_keep_slots_len(outputs, removed);
    if exists|slot: int|
        0 <= slot < program.blocks[b].outputs.len() && #[trigger] slot_is_redundant(
            program,
            analyses,
            analyses.out_group[b],
            slot,
        ) {
        let slot = choose|slot: int|
            0 <= slot < program.blocks[b].outputs.len() && #[trigger] slot_is_redundant(
                program,
                analyses,
                analyses.out_group[b],
                slot,
            );
        lemma_keep_slots_shorter(outputs, removed, slot);
    }
}

/// The program that the rounds of the pass settle on: copies are propagated inside blocks and
/// redundant slots are taken out, in turn, until there is no redundant slot.
pub open spec fn settle(program: ProgramView, analyses: AnalysesView) -> ProgramView
    decreases output_slots(program.blocks),
    when analyses.wf(program.blocks.len() as int)
    via settle_ends
{
    let propagated = propagate_copies(program);
    if has_redundant_slot(propagated, analyses) {
        settle(eliminate_redundant_slots(propagated, analyses), analyses)
    } else {
        propagated
    }
}

#[via_fn]
proof fn settle_ends(program: ProgramView, analyses: AnalysesView) {
    if has_redundant_slot(propagate_copies(program), analyses) {
        lemma_round_decreases(program, analyses);
    }
}

} // verus!
