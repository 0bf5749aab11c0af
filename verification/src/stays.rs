//! Where single reads and slots come to: what the pass leaves alone, because no copy and no slot
//! stands behind it or because a slot says something, and what it reads in place of a copy or of
//! what a block takes in.

use crate::analyses::{AnalysesView, InOutGroupId};
use crate::ir::{LocalId, ProgramView};
use crate::laws::law_single_assignment_stays;
use crate::model::{
    canonical, copies_of, eliminate_redundant_slots, forwarded_inputs, has_redundant_slot,
    in_member, is_inner_group, is_redundant, keep_slots, out_member, propagate_copies,
    slot_is_redundant, subst, subst_all,
};
use crate::plain::{
    block_reads_past_copies, copies_into, law_above_is_a_walk, law_copied_locals,
    law_reads_go_past_copies, law_redundant_says_nothing_new, read_past_copies, says_nothing_new,
    stands_above,
};
use crate::redundancy::{
    lemma_available_definer, lemma_forwarded_entry, lemma_forwarded_site,
    lemma_redundant_slot_in_range, lemma_slot_origin,
};
use crate::scope::lemma_propagated_defines;
use crate::settle::{
    lemma_eliminate_ssa, lemma_propagate_copies_ssa, lemma_round_decreases, output_slots, settle,
};
use crate::slots::{kept_before, lemma_keep_slots_at, lemma_keep_slots_count, lemma_kept_from};
use vstd::prelude::*;

verus! {

/// Block `b` copies into `local` nowhere, and no block takes `local` in but where a function starts:
/// nothing stands behind `local` that the pass could read in its place there.
pub open spec fn is_plain_in(program: ProgramView, b: int, local: LocalId) -> bool {
    &&& forall|j: int|
        0 <= j < program.blocks[b].ops.len() && (#[trigger] program.blocks[b].ops[j]).kind is SetCopy
            ==> program.blocks[b].ops[j].outputs[0] != local
    &&& forall|t: int, i: int|
        0 <= t < program.blocks.len() && 0 <= i < program.blocks[t].inputs.len()
            && #[trigger] program.blocks[t].inputs[i] == local ==> exists|f: int|
            0 <= f < program.functions.len() && (#[trigger] program.functions[f]).entry == t
}

/// A local behind which nothing stands is read as before, within blocks.
pub proof fn law_plain_reads_stay_within_blocks(program: ProgramView, b: int, local: LocalId)
    requires
        0 <= b < program.blocks.len(),
        is_plain_in(program, b, local),
    ensures
        ({
            let before = program.blocks[b];
            let after = propagate_copies(program).blocks[b];
            &&& after.ops.len() == before.ops.len()
            &&& forall|o: int, i: int|
                0 <= o < before.ops.len() && 0 <= i < before.ops[o].inputs.len()
                    && #[trigger] before.ops[o].inputs[i] == local ==> after.ops[o].inputs[i]
                    == local
            &&& after.outputs.len() == before.outputs.len()
            &&& forall|i: int|
                0 <= i < before.outputs.len() && #[trigger] before.outputs[i] == local
                    ==> after.outputs[i] == local
            &&& before.control is Branches && before.control->Branches_0.condition == local
                ==> after.control == before.control
            &&& before.control is Switch && before.control->Switch_0.condition == local
                ==> after.control == before.control
        }),
{
    lemma_not_copied(program, b, local);
    let map = copies_of(program.blocks[b].ops);
    let before = program.blocks[b];
    let after = propagate_copies(program).blocks[b];
    assert forall|o: int, i: int|
        0 <= o < before.ops.len() && 0 <= i < before.ops[o].inputs.len()
            && #[trigger] before.ops[o].inputs[i] == local implies after.ops[o].inputs[i]
        == local by {
        assert(after.ops[o].inputs[i] == subst(map, before.ops[o].inputs[i]));
    }
}

proof fn lemma_not_copied(program: ProgramView, b: int, local: LocalId)
    requires
        0 <= b < program.blocks.len(),
        is_plain_in(program, b, local),
    ensures
        !copies_of(program.blocks[b].ops).dom().contains(local),
        subst(copies_of(program.blocks[b].ops), local) == local,
{
    law_copied_locals(program.blocks[b].ops, local);
    if exists|j: int| copies_into(program.blocks[b].ops, j, local) {
        let j = choose|j: int| copies_into(program.blocks[b].ops, j, local);
        assert(program.blocks[b].ops[j].kind is SetCopy);
    }
}

proof fn lemma_not_forwarded(program: ProgramView, analyses: AnalysesView, b: int, local: LocalId)
    requires
        analyses.wf(program.blocks.len() as int),
        is_plain_in(program, b, local),
    ensures
        !forwarded_inputs(program, analyses).dom().contains(local),
        subst(canonical(forwarded_inputs(program, analyses)), local) == local,
{
    let map = forwarded_inputs(program, analyses);
    if map.dom().contains(local) {
        let (t, slot, g) = lemma_forwarded_site(program, analyses, local);
        assert(program.blocks[t].inputs[slot] == local);
        assert(program.is_function_entry(t));
        assert(in_member(analyses, g, t));
    }
}

/// A round leaves nothing behind a local where nothing stood.
proof fn lemma_plain_round(program: ProgramView, analyses: AnalysesView, b: int, local: LocalId)
    requires
        program.ssa(),
        analyses.wf(program.blocks.len() as int),
        0 <= b < program.blocks.len(),
        is_plain_in(program, b, local),
    ensures
        is_plain_in(propagate_copies(program), b, local),
        is_plain_in(
            eliminate_redundant_slots(propagate_copies(program), analyses),
            b,
            local,
        ),
{
    let propagated = propagate_copies(program);
    let next = eliminate_redundant_slots(propagated, analyses);
    lemma_propagate_copies_ssa(program);
    lemma_eliminate_ssa(propagated, analyses);
    assert forall|j: int|
        0 <= j < propagated.blocks[b].ops.len() && (
        #[trigger] propagated.blocks[b].ops[j]).kind is SetCopy implies
    propagated.blocks[b].ops[j].outputs[0] != local by {
        assert(program.blocks[b].ops[j].kind is SetCopy);
    }
    assert forall|t: int, i: int|
        0 <= t < propagated.blocks.len() && 0 <= i < propagated.blocks[t].inputs.len()
            && #[trigger] propagated.blocks[t].inputs[i] == local implies exists|f: int|
        0 <= f < propagated.functions.len() && (#[trigger] propagated.functions[f]).entry == t by {
        assert(program.blocks[t].inputs[i] == local);
    }
    assert forall|j: int|
        0 <= j < next.blocks[b].ops.len() && (
        #[trigger] next.blocks[b].ops[j]).kind is SetCopy implies next.blocks[b].ops[j].outputs[0]
        != local by {
        assert(program.blocks[b].ops[j].kind is SetCopy);
    }
    assert forall|t: int, i: int|
        0 <= t < next.blocks.len() && 0 <= i < next.blocks[t].inputs.len()
            && #[trigger] next.blocks[t].inputs[i] == local implies exists|f: int|
        0 <= f < next.functions.len() && (#[trigger] next.functions[f]).entry == t by {
        assert(next.blocks[t].inputs.contains(local));
        assert(propagated.blocks[t].inputs.contains(local));
        let inputs = program.blocks[t].inputs;
        let k = choose|k: int| 0 <= k < inputs.len() && inputs[k] == local;
        assert(program.blocks[t].inputs[k] == local);
        let f = choose|f: int|
            0 <= f < program.functions.len() && (#[trigger] program.functions[f]).entry == t;
        assert(next.functions[f].entry == t);
    }
}

/// A local behind which nothing stands is read as before, after the pass: by the operations and by
/// the end of the block.
pub proof fn law_plain_reads_stay(
    program: ProgramView,
    analyses: AnalysesView,
    b: int,
    local: LocalId,
)
    requires
        program.ssa(),
        analyses.wf(program.blocks.len() as int),
        0 <= b < program.blocks.len(),
        is_plain_in(program, b, local),
    ensures
        ({
            let before = program.blocks[b];
            let after = settle(program, analyses).blocks[b];
            &&& forall|o: int, i: int|
                0 <= o < before.ops.len() && 0 <= i < before.ops[o].inputs.len()
                    && #[trigger] before.ops[o].inputs[i] == local ==> after.ops[o].inputs[i]
                    == local
            &&& before.control is Branches && before.control->Branches_0.condition == local
                ==> after.control == before.control
            &&& before.control is Switch && before.control->Switch_0.condition == local
                ==> after.control == before.control
        }),
    decreases output_slots(program.blocks),
{
    let before = program.blocks[b];
    let propagated = propagate_copies(program);
    law_plain_reads_stay_within_blocks(program, b, local);
    lemma_propagate_copies_ssa(program);
    if has_redundant_slot(propagated, analyses) {
        let next = eliminate_redundant_slots(propagated, analyses);
        let origins = canonical(forwarded_inputs(propagated, analyses));
        lemma_plain_round(program, analyses, b, local);
        lemma_not_forwarded(propagated, analyses, b, local);
        lemma_eliminate_ssa(propagated, analyses);
        lemma_round_decreases(program, analyses);
        law_plain_reads_stay(next, analyses, b, local);
        let after = settle(program, analyses).blocks[b];
        assert(settle(program, analyses) == settle(next, analyses));
        assert forall|o: int, i: int|
            0 <= o < before.ops.len() && 0 <= i < before.ops[o].inputs.len()
                && #[trigger] before.ops[o].inputs[i] == local implies after.ops[o].inputs[i]
            == local by {
            assert(propagated.blocks[b].ops[o].inputs[i] == local);
            assert(next.blocks[b].ops[o].inputs[i] == subst(
                origins,
                propagated.blocks[b].ops[o].inputs[i],
            ));
            assert(next.blocks[b].ops[o].inputs[i] == local);
        }
    }
}

/// A slot that does not go moves, in all lists of its group alike, to its position among those that
/// stay; what is handed on at it is read at its origin.
proof fn lemma_slot_moves(
    program: ProgramView,
    analyses: AnalysesView,
    g: InOutGroupId,
    slot: int,
) -> (moved: int)
    requires
        !slot_is_redundant(program, analyses, Some(g), slot),
        0 <= slot,
    ensures
        0 <= moved,
        forall|t: int|
            0 <= t < program.blocks.len() && analyses.in_group[t] == Some(g) && slot
                < program.blocks[t].inputs.len() ==> moved < (
            #[trigger] eliminate_redundant_slots(program, analyses).blocks[t]).inputs.len()
                && eliminate_redundant_slots(program, analyses).blocks[t].inputs[moved]
                == program.blocks[t].inputs[slot],
        forall|h: int|
            0 <= h < program.blocks.len() && analyses.out_group[h] == Some(g) && slot
                < program.blocks[h].outputs.len() ==> moved < (
            #[trigger] eliminate_redundant_slots(program, analyses).blocks[h]).outputs.len()
                && eliminate_redundant_slots(program, analyses).blocks[h].outputs[moved] == subst(
                canonical(forwarded_inputs(program, analyses)),
                program.blocks[h].outputs[slot],
            ),
{
    let after = eliminate_redundant_slots(program, analyses);
    let origins = canonical(forwarded_inputs(program, analyses));
    let removed = |s: int| slot_is_redundant(program, analyses, Some(g), s);
    let moved = kept_before(removed, slot as nat) as int;
    assert forall|t: int|
        0 <= t < program.blocks.len() && analyses.in_group[t] == Some(g) && slot
            < program.blocks[t].inputs.len() implies moved < (
    #[trigger] after.blocks[t]).inputs.len() && after.blocks[t].inputs[moved]
        == program.blocks[t].inputs[slot] by {
        lemma_keep_slots_at(program.blocks[t].inputs, removed, slot);
        assert(after.blocks[t].inputs == keep_slots(program.blocks[t].inputs, removed));
    }
    assert forall|h: int|
        0 <= h < program.blocks.len() && analyses.out_group[h] == Some(g) && slot
            < program.blocks[h].outputs.len() implies moved < (
    #[trigger] after.blocks[h]).outputs.len() && after.blocks[h].outputs[moved] == subst(
        origins,
        program.blocks[h].outputs[slot],
    ) by {
        let outputs = subst_all(origins, program.blocks[h].outputs);
        lemma_keep_slots_at(outputs, removed, slot);
        assert(after.blocks[h].outputs == keep_slots(outputs, removed));
    }
    moved
}

/// Where two blocks hand on different locals at a slot, and nothing stands behind either, what a
/// block takes in at the slot it still takes in after the pass.
pub proof fn law_slot_with_two_locals_stays(
    program: ProgramView,
    analyses: AnalysesView,
    g: InOutGroupId,
    slot: int,
    t: int,
    h1: int,
    h2: int,
)
    requires
        program.ssa(),
        analyses.wf(program.blocks.len() as int),
        0 <= t < program.blocks.len(),
        0 <= h1 < program.blocks.len(),
        0 <= h2 < program.blocks.len(),
        analyses.in_group[t] == Some(g),
        analyses.out_group[h1] == Some(g),
        analyses.out_group[h2] == Some(g),
        0 <= slot < program.blocks[t].inputs.len(),
        slot < program.blocks[h1].outputs.len(),
        slot < program.blocks[h2].outputs.len(),
        program.blocks[h1].outputs[slot] != program.blocks[h2].outputs[slot],
        is_plain_in(program, h1, program.blocks[h1].outputs[slot]),
        is_plain_in(program, h2, program.blocks[h2].outputs[slot]),
    ensures
        exists|i: int|
            0 <= i < settle(program, analyses).blocks[t].inputs.len() && #[trigger] settle(
                program,
                analyses,
            ).blocks[t].inputs[i] == program.blocks[t].inputs[slot],
        exists|i: int|
            0 <= i < settle(program, analyses).blocks[h1].outputs.len() && #[trigger] settle(
                program,
                analyses,
            ).blocks[h1].outputs[i] == program.blocks[h1].outputs[slot],
    decreases output_slots(program.blocks),
{
    let y1 = program.blocks[h1].outputs[slot];
    let y2 = program.blocks[h2].outputs[slot];
    let propagated = propagate_copies(program);
    law_plain_reads_stay_within_blocks(program, h1, y1);
    law_plain_reads_stay_within_blocks(program, h2, y2);
    lemma_propagate_copies_ssa(program);
    assert(propagated.blocks[t].inputs[slot] == program.blocks[t].inputs[slot]);
    if has_redundant_slot(propagated, analyses) {
        let next = eliminate_redundant_slots(propagated, analyses);
        lemma_plain_round(program, analyses, h1, y1);
        lemma_plain_round(program, analyses, h2, y2);
        lemma_not_forwarded(propagated, analyses, h1, y1);
        lemma_not_forwarded(propagated, analyses, h2, y2);
        assert(!slot_is_redundant(propagated, analyses, Some(g), slot)) by {
            assert(out_member(analyses, g, h1));
            assert(out_member(analyses, g, h2));
        }
        let moved = lemma_slot_moves(propagated, analyses, g, slot);
        assert(next.blocks[t].inputs[moved] == program.blocks[t].inputs[slot]);
        assert(next.blocks[h1].outputs[moved] == y1);
        assert(next.blocks[h2].outputs[moved] == y2);
        lemma_eliminate_ssa(propagated, analyses);
        lemma_round_decreases(program, analyses);
        law_slot_with_two_locals_stays(next, analyses, g, moved, t, h1, h2);
        assert(settle(program, analyses) == settle(next, analyses));
    } else {
        assert(settle(program, analyses) == propagated);
    }
}

/// Where a block hands on a local at a slot, nothing stands behind the local, and the block that sets
/// it does not stand above a block that takes from the group, what any block takes in at the slot
/// it still takes in after the pass.
pub proof fn law_slot_of_a_local_not_set_above_stays(
    program: ProgramView,
    analyses: AnalysesView,
    g: InOutGroupId,
    slot: int,
    t: int,
    below: int,
    h: int,
    d: int,
)
    requires
        program.ssa(),
        analyses.wf(program.blocks.len() as int),
        0 <= t < program.blocks.len(),
        0 <= below < program.blocks.len(),
        0 <= h < program.blocks.len(),
        analyses.in_group[t] == Some(g),
        analyses.in_group[below] == Some(g),
        analyses.out_group[h] == Some(g),
        0 <= slot < program.blocks[t].inputs.len(),
        slot < program.blocks[h].outputs.len(),
        is_plain_in(program, h, program.blocks[h].outputs[slot]),
        0 <= d < program.blocks.len(),
        exists|o: int, i: int|
            0 <= o < program.blocks[d].ops.len() && 0 <= i < program.blocks[d].ops[o].outputs.len()
                && #[trigger] program.blocks[d].ops[o].outputs[i]
                == program.blocks[h].outputs[slot],
        !stands_above(analyses.idom, d, below),
    ensures
        exists|i: int|
            0 <= i < settle(program, analyses).blocks[t].inputs.len() && #[trigger] settle(
                program,
                analyses,
            ).blocks[t].inputs[i] == program.blocks[t].inputs[slot],
        exists|i: int|
            0 <= i < settle(program, analyses).blocks[h].outputs.len() && #[trigger] settle(
                program,
                analyses,
            ).blocks[h].outputs[i] == program.blocks[h].outputs[slot],
    decreases output_slots(program.blocks),
{
    let y = program.blocks[h].outputs[slot];
    let (o, i) = choose|o: int, i: int|
        0 <= o < program.blocks[d].ops.len() && 0 <= i < program.blocks[d].ops[o].outputs.len()
            && #[trigger] program.blocks[d].ops[o].outputs[i] == y;
    let propagated = propagate_copies(program);
    law_plain_reads_stay_within_blocks(program, h, y);
    lemma_propagate_copies_ssa(program);
    assert(propagated.blocks[t].inputs[slot] == program.blocks[t].inputs[slot]);
    assert(propagated.blocks[d].ops[o].outputs[i] == y);
    if has_redundant_slot(propagated, analyses) {
        let next = eliminate_redundant_slots(propagated, analyses);
        lemma_plain_round(program, analyses, h, y);
        lemma_not_forwarded(propagated, analyses, h, y);
        assert(!slot_is_redundant(propagated, analyses, Some(g), slot)) by {
            if slot_is_redundant(propagated, analyses, Some(g), slot) {
                let source = choose|source: LocalId|
                    is_redundant(propagated, analyses, g, slot, source);
                assert(is_redundant(propagated, analyses, g, slot, source));
                assert(out_member(analyses, g, h));
                assert(in_member(analyses, g, below));
                let other = lemma_available_definer(propagated, analyses, g, source);
                assert(propagated.blocks[d].ops[o].outputs.contains(y));
                assert(propagated.blocks[d].defines(y));
                assert(other == d);
                law_above_is_a_walk(analyses.idom, d, below);
            }
        }
        let moved = lemma_slot_moves(propagated, analyses, g, slot);
        assert(next.blocks[t].inputs[moved] == program.blocks[t].inputs[slot]);
        assert(next.blocks[h].outputs[moved] == y);
        assert(next.blocks[d].ops[o].outputs[i] == y);
        lemma_eliminate_ssa(propagated, analyses);
        lemma_round_decreases(program, analyses);
        law_slot_of_a_local_not_set_above_stays(next, analyses, g, moved, t, below, h, d);
        assert(settle(program, analyses) == settle(next, analyses));
    } else {
        assert(settle(program, analyses) == propagated);
    }
}

/// Where an operation copies from a local that its block copies into nowhere, all that the block read
/// of the copy it reads of that local.
pub proof fn law_copies_are_read_at_their_source(program: ProgramView, b: int, j: int)
    requires
        program.ssa(),
        program.copies_one_local(),
        0 <= b < program.blocks.len(),
        0 <= j < program.blocks[b].ops.len(),
        program.blocks[b].ops[j].kind is SetCopy,
        forall|k: int|
            0 <= k < program.blocks[b].ops.len() && (
            #[trigger] program.blocks[b].ops[k]).kind is SetCopy
                ==> program.blocks[b].ops[k].outputs[0] != program.blocks[b].ops[j].inputs[0],
    ensures
        ({
            let before = program.blocks[b];
            let after = propagate_copies(program).blocks[b];
            let source = before.ops[j].inputs[0];
            let copy = before.ops[j].outputs[0];
            &&& forall|o: int, i: int|
                0 <= o < before.ops.len() && 0 <= i < before.ops[o].inputs.len()
                    && #[trigger] before.ops[o].inputs[i] == copy ==> after.ops[o].inputs[i]
                    == source
            &&& forall|i: int|
                0 <= i < before.outputs.len() && #[trigger] before.outputs[i] == copy
                    ==> after.outputs[i] == source
            &&& before.control is Branches && before.control->Branches_0.condition == copy
                ==> after.control is Branches && after.control->Branches_0.condition == source
            &&& before.control is Switch && before.control->Switch_0.condition == copy
                ==> after.control is Switch && after.control->Switch_0.condition == source
        }),
{
    let before = program.blocks[b];
    let after = propagate_copies(program).blocks[b];
    let map = copies_of(before.ops);
    let source = before.ops[j].inputs[0];
    let copy = before.ops[j].outputs[0];
    law_reads_go_past_copies(program);
    assert(block_reads_past_copies(before, after));
    assert(copies_into(before.ops, j, copy));
    assert forall|new_local: LocalId| #[trigger]
        read_past_copies(before.ops, after.ops, copy, new_local) implies new_local == source by {
        if exists|i: int| i < j && copies_into(before.ops, i, source) {
            let i = choose|i: int| i < j && copies_into(before.ops, i, source);
            assert(program.blocks[b].ops[i].kind is SetCopy);
        }
    }
    assert forall|o: int, i: int|
        0 <= o < before.ops.len() && 0 <= i < before.ops[o].inputs.len()
            && #[trigger] before.ops[o].inputs[i] == copy implies after.ops[o].inputs[i]
        == source by {
        assert(read_past_copies(before.ops, after.ops, copy, after.ops[o].inputs[i]));
    }
    assert forall|i: int|
        0 <= i < before.outputs.len() && #[trigger] before.outputs[i]
            == copy implies after.outputs[i] == source by {
        assert(read_past_copies(before.ops, after.ops, copy, after.outputs[i]));
    }
}

/// Where an operation copies from what an earlier operation of its block copies into, the two copies
/// are read alike.
pub proof fn law_chained_copies_are_read_alike(program: ProgramView, b: int, j: int, earlier: int)
    requires
        program.ssa(),
        program.copies_one_local(),
        0 <= b < program.blocks.len(),
        0 <= earlier < j < program.blocks[b].ops.len(),
        program.blocks[b].ops[j].kind is SetCopy,
        program.blocks[b].ops[earlier].kind is SetCopy,
        program.blocks[b].ops[earlier].outputs[0] == program.blocks[b].ops[j].inputs[0],
    ensures
        ({
            let before = program.blocks[b];
            let after = propagate_copies(program).blocks[b];
            let copy = before.ops[j].outputs[0];
            &&& forall|o: int, i: int|
                0 <= o < before.ops.len() && 0 <= i < before.ops[o].inputs.len()
                    && #[trigger] before.ops[o].inputs[i] == copy ==> after.ops[o].inputs[i]
                    == after.ops[j].inputs[0]
            &&& forall|i: int|
                0 <= i < before.outputs.len() && #[trigger] before.outputs[i] == copy
                    ==> after.outputs[i] == after.ops[j].inputs[0]
            &&& before.control is Branches && before.control->Branches_0.condition == copy
                ==> after.control is Branches && after.control->Branches_0.condition
                == after.ops[j].inputs[0]
            &&& before.control is Switch && before.control->Switch_0.condition == copy
                ==> after.control is Switch && after.control->Switch_0.condition
                == after.ops[j].inputs[0]
        }),
{
    let before = program.blocks[b];
    let after = propagate_copies(program).blocks[b];
    let copy = before.ops[j].outputs[0];
    law_reads_go_past_copies(program);
    assert(block_reads_past_copies(before, after));
    assert(copies_into(before.ops, j, copy));
    assert(copies_into(before.ops, earlier, before.ops[j].inputs[0]));
    assert forall|o: int, i: int|
        0 <= o < before.ops.len() && 0 <= i < before.ops[o].inputs.len()
            && #[trigger] before.ops[o].inputs[i] == copy implies after.ops[o].inputs[i]
        == after.ops[j].inputs[0] by {
        assert(read_past_copies(before.ops, after.ops, copy, after.ops[o].inputs[i]));
    }
    assert forall|i: int|
        0 <= i < before.outputs.len() && #[trigger] before.outputs[i]
            == copy implies after.outputs[i] == after.ops[j].inputs[0] by {
        assert(read_past_copies(before.ops, after.ops, copy, after.outputs[i]));
    }
}

/// Where all who hand to a group hand on `local` at a slot, nothing stands behind `local` there, and
/// the slot says nothing new, then after the pass no block takes anything in at the slot, and what
/// was taken in at it is read as `local`.
pub proof fn law_idle_slot_is_read_at_its_source(
    program: ProgramView,
    analyses: AnalysesView,
    g: InOutGroupId,
    slot: int,
    local: LocalId,
    t: int,
    b: int,
)
    requires
        program.ssa(),
        program.copies_one_local(),
        analyses.wf(program.blocks.len() as int),
        says_nothing_new(program, analyses, g, slot, local),
        forall|h: int|
            0 <= h < program.blocks.len() && #[trigger] analyses.out_group[h] == Some(g)
                ==> is_plain_in(program, h, local),
        0 <= t < program.blocks.len(),
        analyses.in_group[t] == Some(g),
        0 <= b < program.blocks.len(),
        is_plain_in(program, b, local),
    ensures
        ({
            let before = program.blocks[b];
            let settled = settle(program, analyses);
            let input = program.blocks[t].inputs[slot];
            &&& 0 <= slot < program.blocks[t].inputs.len()
            &&& forall|i: int|
                0 <= i < settled.blocks[t].inputs.len() ==> #[trigger] settled.blocks[t].inputs[i]
                    != input
            &&& forall|o: int, i: int|
                0 <= o < before.ops.len() && 0 <= i < before.ops[o].inputs.len()
                    && #[trigger] before.ops[o].inputs[i] == input
                    ==> settled.blocks[b].ops[o].inputs[i] == local
            &&& before.control is Branches && before.control->Branches_0.condition == input
                ==> settled.blocks[b].control is Branches
                && settled.blocks[b].control->Branches_0.condition == local
            &&& before.control is Switch && before.control->Switch_0.condition == input
                ==> settled.blocks[b].control is Switch
                && settled.blocks[b].control->Switch_0.condition == local
        }),
{
    let before = program.blocks[b];
    let settled = settle(program, analyses);
    let propagated = propagate_copies(program);
    let next = eliminate_redundant_slots(propagated, analyses);
    law_redundant_says_nothing_new(program, analyses, g, slot, local);
    lemma_propagate_copies_ssa(program);
    assert(in_member(analyses, g, t));
    lemma_redundant_after_propagation(program, analyses, g, slot, local);
    lemma_redundant_slot_in_range(propagated, analyses, g, slot, local, t);
    lemma_forwarded_entry(propagated, analyses, g, slot, local, t);
    let input = program.blocks[t].inputs[slot];
    assert(propagated.blocks[t].inputs[slot] == input);
    assert(has_redundant_slot(propagated, analyses));
    assert(settled == settle(next, analyses));
    let map = forwarded_inputs(propagated, analyses);
    let origins = canonical(map);
    lemma_plain_round(program, analyses, b, local);
    lemma_not_forwarded(propagated, analyses, b, local);
    lemma_slot_origin(propagated, analyses, g, slot, local);
    assert(subst(origins, input) == local);
    lemma_eliminate_ssa(propagated, analyses);
    law_plain_reads_stay(next, analyses, b, local);
    law_single_assignment_stays(next, analyses);
    // The input is set by its block alone, so no operation copies into it.
    let copies = copies_of(before.ops);
    assert(subst(copies, input) == input) by {
        law_copied_locals(before.ops, input);
        if exists|j: int| copies_into(before.ops, j, input) {
            let j = choose|j: int| copies_into(before.ops, j, input);
            assert(program.blocks[b].ops[j].kind is SetCopy);
            assert(program.blocks[b].ops[j].outputs[0] == input);
            assert(program.blocks[b].ops[j].outputs.contains(input));
            assert(program.blocks[b].defines(input));
            assert(program.blocks[t].inputs.contains(input));
            assert(program.blocks[t].defines(input));
            assert(program.blocks[t].ssa());
        }
    }
    assert forall|o: int, i: int|
        0 <= o < before.ops.len() && 0 <= i < before.ops[o].inputs.len()
            && #[trigger] before.ops[o].inputs[i] == input implies
    settled.blocks[b].ops[o].inputs[i] == local by {
        assert(propagated.blocks[b].ops[o].inputs[i] == subst(copies, input));
        assert(next.blocks[b].ops[o].inputs[i] == subst(origins, input));
    }
    assert forall|i: int|
        0 <= i < settled.blocks[t].inputs.len() implies #[trigger] settled.blocks[t].inputs[i]
        != input by {
        if settled.blocks[t].inputs[i] == input {
            assert(settled.blocks[t].inputs.contains(input));
            assert(next.blocks[t].inputs.contains(input));
            lemma_removed_input(propagated, analyses, g, slot, local, t);
        }
    }
}

proof fn lemma_redundant_after_propagation(
    program: ProgramView,
    analyses: AnalysesView,
    g: InOutGroupId,
    slot: int,
    local: LocalId,
)
    requires
        program.ssa(),
        analyses.wf(program.blocks.len() as int),
        is_redundant(program, analyses, g, slot, local),
        forall|h: int|
            0 <= h < program.blocks.len() && #[trigger] analyses.out_group[h] == Some(g)
                ==> is_plain_in(program, h, local),
    ensures
        is_redundant(propagate_copies(program), analyses, g, slot, local),
{
    let propagated = propagate_copies(program);
    assert forall|o: int| #[trigger] out_member(analyses, g, o) implies 0 <= slot
        < propagated.blocks[o].outputs.len() && propagated.blocks[o].outputs[slot] == local by {
        assert(analyses.out_group[o] == Some(g));
        law_plain_reads_stay_within_blocks(program, o, local);
        assert(program.blocks[o].outputs[slot] == local);
    }
    assert forall|i: int| #[trigger] in_member(analyses, g, i) implies !propagated.is_function_entry(
        i,
    ) by {
        if propagated.is_function_entry(i) {
            assert(program.is_function_entry(i));
        }
    }
    assert(is_inner_group(propagated, analyses, g)) by {
        let i = choose|i: int| in_member(analyses, g, i);
        let o = choose|o: int| out_member(analyses, g, o);
        assert(in_member(analyses, g, i));
        assert(out_member(analyses, g, o));
    }
    let d = lemma_available_definer(program, analyses, g, local);
    lemma_propagated_defines(program, d, local);
    assert(propagated.blocks[d].defines(local));
}

/// What is taken in at a redundant slot is taken in no more once the slot is out.
proof fn lemma_removed_input(
    program: ProgramView,
    analyses: AnalysesView,
    g: InOutGroupId,
    slot: int,
    local: LocalId,
    t: int,
)
    requires
        program.ssa(),
        analyses.wf(program.blocks.len() as int),
        is_redundant(program, analyses, g, slot, local),
        0 <= t < program.blocks.len(),
        analyses.in_group[t] == Some(g),
        0 <= slot < program.blocks[t].inputs.len(),
    ensures
        !eliminate_redundant_slots(program, analyses).blocks[t].inputs.contains(
            program.blocks[t].inputs[slot],
        ),
{
    let inputs = program.blocks[t].inputs;
    let removed = |s: int| slot_is_redundant(program, analyses, analyses.in_group[t], s);
    let kept = keep_slots(inputs, removed);
    let group = analyses.in_group[t];
    assert(group matches Some(h) && is_redundant(program, analyses, h, slot, local));
    assert(removed(slot));
    assert(program.blocks[t].ssa());
    if kept.contains(inputs[slot]) {
        let i = choose|i: int| 0 <= i < kept.len() && kept[i] == inputs[slot];
        lemma_keep_slots_count(inputs, removed);
        let from = lemma_kept_from(removed, inputs.len(), i as nat);
        lemma_keep_slots_at(inputs, removed, from);
        assert(inputs[from] == inputs[slot]);
    }
}

} // verus!
