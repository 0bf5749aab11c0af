//! Finding the redundant slots of a program.

use crate::analyses::{dominates_strictly, AnalysesView, Dominators, InOutGroupId};
use crate::groups::{
    common_output_at_slot, group_has_matching_arity, slot_inputs, strictly_dominates,
    try_add_slot_replacements, with_inputs, InOutGroupBlocks, RemovalCandidate,
};
use crate::ir::{BasicBlockId, EthIRProgram, LocalId, OperandList, ProgramView};
use crate::model::{
    forwarded_inputs, in_member, is_available, is_inner_group, is_redundant, out_member,
};
use crate::redundancy::{
    lemma_available_definer, lemma_forwarded_differs, lemma_forwarded_entry, lemma_forwarded_site,
};
use super::CopyPropagation;
use super::prepare::{lemma_member_group_id, lemma_members, names_block};
use vstd::prelude::*;

verus! {

impl CopyPropagation {
    /// `local` is noted down as defined above every block that takes its inputs from a group.
    pub(super) open spec fn noted_above(
        self,
        idom: Seq<Option<BasicBlockId>>,
        local: LocalId,
        group: InOutGroupBlocks,
    ) -> bool {
        &&& local < self.def_blocks.len()
        &&& self.def_blocks[local as int] is Some
        &&& forall|k: int|
            0 <= k < group.inputs.len() ==> dominates_strictly(
                idom,
                self.def_blocks[local as int]->0 as int,
                #[trigger] group.inputs[k] as int,
            )
    }

    /// Whether a local is defined above every block that takes its inputs from a group.
    pub(super) fn replacement_is_available_at_inputs(
        &self,
        dominators: &Dominators,
        replacement: LocalId,
        group: &InOutGroupBlocks,
    ) -> (available: bool)
        requires
            dominators.wf(dominators.idom.len() as int),
            group.within(dominators.idom.len() as int),
        ensures
            available == self.noted_above(dominators.idom@, replacement, *group),
    {
        if replacement as usize >= self.def_blocks.len() {
            return false;
        }
        match self.def_blocks[replacement as usize] {
            None => false,
            Some(def_bb) => {
                let mut k: usize = 0;
                while k < group.inputs.len()
                    invariant
                        dominators.wf(dominators.idom.len() as int),
                        group.within(dominators.idom.len() as int),
                        replacement < self.def_blocks.len(),
                        self.def_blocks[replacement as int] == Some(def_bb),
                        k <= group.inputs.len(),
                        forall|j: int|
                            0 <= j < k ==> dominates_strictly(
                                dominators.idom@,
                                def_bb as int,
                                #[trigger] group.inputs[j] as int,
                            ),
                    decreases group.inputs.len() - k,
                {
                    let input_bb: BasicBlockId = group.inputs[k];
                    if !strictly_dominates(dominators, def_bb, input_bb) {
                        assert(group.inputs[k as int] == input_bb);
                        return false;
                    }
                    k += 1;
                }
                true
            },
        }
    }

    /// What is noted down as available is.
    pub(super) proof fn lemma_noted_above(
        self,
        program: ProgramView,
        analyses: AnalysesView,
        g: InOutGroupId,
        local: LocalId,
    )
        requires
            program.ssa(),
            self.prepared(program, analyses),
            g < self.io_groups.len(),
        ensures
            self.noted_above(analyses.idom, local, self.io_groups[g as int]) <==> is_available(
                program,
                analyses,
                g,
                local,
            ),
    {
        let group = self.io_groups[g as int];
        lemma_members(group.inputs@, analyses.in_group, g);
        if self.noted_above(analyses.idom, local, group) {
            let d = self.def_blocks[local as int]->0 as int;
            assert(names_block(self.def_blocks[local as int], d));
            assert(program.blocks[d].defines(local));
            assert forall|i: int| #[trigger] in_member(analyses, g, i) implies dominates_strictly(
                analyses.idom,
                d,
                i,
            ) by {
                assert(analyses.in_group[i] == Some(g));
                let k = choose|k: int|
                    0 <= k < group.inputs@.len() && group.inputs@[k] == i as BasicBlockId;
                assert(group.inputs[k] as int == i);
            }
        }
        if is_available(program, analyses, g, local) {
            let d = lemma_available_definer(program, analyses, g, local);
            assert(program.blocks[d].defines(local));
            assert(local < program.next_free_local_id);
            assert(names_block(self.def_blocks[local as int], d));
            assert forall|k: int| 0 <= k < group.inputs.len() implies dominates_strictly(
                analyses.idom,
                d,
                #[trigger] group.inputs[k] as int,
            ) by {
                assert(in_member(analyses, g, group.inputs[k] as int));
            }
        }
    }

    /// How many slots a group has, if values flow through it.
    fn inner_group_slots(
        &self,
        program: &EthIRProgram,
        g: usize,
        Ghost(analyses): Ghost<AnalysesView>,
    ) -> (slots: Option<usize>)
        requires
            program.wf(),
            self.prepared(program@, analyses),
            g < self.io_groups.len(),
        ensures
            match slots {
                Some(slots) => g <= u32::MAX && is_inner_group(program@, analyses, g as u32)
                    && forall|k: int|
                    0 <= k < self.io_groups[g as int].outputs.len()
                        ==> program@.blocks[#[trigger] self.io_groups[g as int].outputs[k] as int].outputs.len()
                        == slots,
                None => g <= u32::MAX ==> !is_inner_group(program@, analyses, g as u32),
            },
    {
        let group = &self.io_groups[g];
        if group.inputs.len() == 0 || group.outputs.len() == 0 {
            proof {
                let id = g as u32;
                if g <= u32::MAX && is_inner_group(program@, analyses, id) {
                    lemma_members(group.inputs@, analyses.in_group, id);
                    lemma_members(group.outputs@, analyses.out_group, id);
                    let i = choose|i: int| in_member(analyses, id, i);
                    assert(analyses.in_group[i] == Some(id));
                    let o = choose|o: int| out_member(analyses, id, o);
                    assert(analyses.out_group[o] == Some(id));
                }
            }
            return None;
        }
        proof {
            lemma_member_group_id(group.inputs@, analyses.in_group, g as int);
            lemma_members(group.inputs@, analyses.in_group, g as u32);
            lemma_members(group.outputs@, analyses.out_group, g as u32);
        }
        let ghost id = g as u32;
        let mut k: usize = 0;
        while k < group.inputs.len()
            invariant
                self.prepared(program@, analyses),
                k <= group.inputs.len(),
                g <= u32::MAX,
                id == g as u32,
                forall|j: int|
                    0 <= j < group.inputs.len() ==> (#[trigger] group.inputs[j])
                        < program@.blocks.len() && analyses.in_group[group.inputs[j] as int]
                        == Some(id),
                forall|j: int|
                    0 <= j < k ==> !program@.is_function_entry(#[trigger] group.inputs[j] as int),
            decreases group.inputs.len() - k,
        {
            let bb_id: BasicBlockId = group.inputs[k];
            assert(group.inputs[k as int] == bb_id);
            if self.function_entries[bb_id as usize] {
                assert(in_member(analyses, id, bb_id as int));
                return None;
            }
            k += 1;
        }
        let first_id: BasicBlockId = group.outputs[0];
        assert(program.has_list(OperandList::BlockOutputs(first_id as int)));
        let slots: usize = program.basic_blocks[first_id as usize].outputs.len() as usize;
        assert(out_member(analyses, id, group.outputs[0] as int));
        assert(in_member(analyses, id, group.inputs[0] as int));
        if !group_has_matching_arity(program, group, slots) {
            proof {
                if is_inner_group(program@, analyses, id) {
                    let i = group.inputs[0] as int;
                    assert(program@.blocks[i].inputs.len()
                        == program@.blocks[first_id as int].outputs.len());
                    assert forall|k: int|
                        0 <= k < group.outputs.len() implies program@.blocks[#[trigger] group.outputs[k] as int].outputs.len()
                        == slots by {
                        assert(out_member(analyses, id, group.outputs[k] as int));
                    }
                    assert forall|k: int|
                        0 <= k < group.inputs.len() implies program@.blocks[#[trigger] group.inputs[k] as int].inputs.len()
                        == slots by {
                        assert(in_member(analyses, id, group.inputs[k] as int));
                    }
                }
            }
            return None;
        }
        proof {
            assert forall|i: int| #[trigger] in_member(
                analyses,
                id,
                i,
            ) implies !program@.is_function_entry(i) && program@.blocks[i].inputs.len()
                == slots by {
                assert(analyses.in_group[i] == Some(id));
                let k = choose|k: int|
                    0 <= k < group.inputs@.len() && group.inputs@[k] == i as BasicBlockId;
                assert(group.inputs[k] as int == i);
            }
            assert forall|o: int| #[trigger] out_member(
                analyses,
                id,
                o,
            ) implies program@.blocks[o].outputs.len() == slots by {
                assert(analyses.out_group[o] == Some(id));
                let k = choose|k: int|
                    0 <= k < group.outputs@.len() && group.outputs@[k] == o as BasicBlockId;
                assert(group.outputs[k] as int == o);
            }
        }
        Some(slots)
    }

    /// The local that a slot of a group holds, if the slot is redundant.
    fn redundant_slot_source(
        &self,
        program: &EthIRProgram,
        dominators: &Dominators,
        g: usize,
        slot: usize,
        Ghost(analyses): Ghost<AnalysesView>,
    ) -> (source: Option<LocalId>)
        requires
            program.wf(),
            program@.ssa(),
            self.prepared(program@, analyses),
            dominators.wf(program.basic_blocks.len() as int),
            analyses.idom == dominators.idom@,
            g < self.io_groups.len(),
            g <= u32::MAX,
            is_inner_group(program@, analyses, g as u32),
            forall|k: int|
                0 <= k < self.io_groups[g as int].outputs.len() ==> slot
                    < program@.blocks[#[trigger] self.io_groups[g as int].outputs[k] as int].outputs.len(),
        ensures
            match source {
                Some(source) => is_redundant(
                    program@,
                    analyses,
                    g as u32,
                    slot as int,
                    source,
                ),
                None => forall|source: LocalId|
                    !#[trigger] is_redundant(
                        program@,
                        analyses,
                        g as u32,
                        slot as int,
                        source,
                    ),
            },
    {
        let group = &self.io_groups[g];
        let ghost id = g as u32;
        proof {
            lemma_members(group.inputs@, analyses.in_group, id);
            lemma_members(group.outputs@, analyses.out_group, id);
        }
        match common_output_at_slot(program, group, slot) {
            None => {
                proof {
                    assert forall|source: LocalId| !#[trigger] is_redundant(
                        program@,
                        analyses,
                        id,
                        slot as int,
                        source,
                    ) by {
                        if is_redundant(program@, analyses, id, slot as int, source) {
                            if group.outputs.len() == 0 {
                                let o = choose|o: int| out_member(analyses, id, o);
                                assert(analyses.out_group[o] == Some(id));
                            } else {
                                let k = choose|k: int|
                                    0 < k < group.outputs.len()
                                        && program@.blocks[#[trigger] group.outputs[k] as int].outputs[slot as int]
                                        != program@.blocks[group.outputs[0] as int].outputs[slot as int];
                                assert(out_member(analyses, id, group.outputs[k] as int));
                                assert(out_member(analyses, id, group.outputs[0] as int));
                            }
                        }
                    }
                }
                None
            },
            Some(replacement) => {
                let available: bool = self.replacement_is_available_at_inputs(
                    dominators,
                    replacement,
                    group,
                );
                proof {
                    self.lemma_noted_above(program@, analyses, id, replacement);
                    assert forall|o: int| #[trigger] out_member(analyses, id, o) implies 0
                        <= slot < program@.blocks[o].outputs.len()
                        && program@.blocks[o].outputs[slot as int] == replacement by {
                        assert(analyses.out_group[o] == Some(id));
                        let k = choose|k: int|
                            0 <= k < group.outputs@.len() && group.outputs@[k] == o as BasicBlockId;
                        assert(group.outputs[k] as int == o);
                    }
                    assert forall|source: LocalId| #[trigger] is_redundant(
                        program@,
                        analyses,
                        id,
                        slot as int,
                        source,
                    ) implies source == replacement by {
                        let o = choose|o: int| out_member(analyses, id, o);
                        assert(out_member(analyses, id, o));
                    }
                }
                if available {
                    Some(replacement)
                } else {
                    None
                }
            },
        }
    }
}

/// Every candidate is a redundant slot.
pub(super) open spec fn candidates_sound(
    candidates: Seq<RemovalCandidate>,
    program: ProgramView,
    analyses: AnalysesView,
) -> bool {
    forall|i: int|
        0 <= i < candidates.len() ==> is_redundant(
            program,
            analyses,
            (#[trigger] candidates[i]).group,
            candidates[i].slot as int,
            candidates[i].replacement,
        )
}

/// Candidates stand in the order of their groups, those of one group in the order of their slots,
/// and none stands twice.
pub(super) open spec fn candidates_ascend(candidates: Seq<RemovalCandidate>) -> bool {
    forall|i: int, j: int|
        #![trigger candidates[i], candidates[j]]
        0 <= i < j < candidates.len() ==> candidates[i].group < candidates[j].group || (
        candidates[i].group == candidates[j].group && candidates[i].slot < candidates[j].slot)
}

/// This slot is among the candidates.
pub(super) open spec fn is_candidate(
    candidates: Seq<RemovalCandidate>,
    g: InOutGroupId,
    slot: int,
) -> bool {
    exists|i: int|
        0 <= i < candidates.len() && (#[trigger] candidates[i]).group == g && candidates[i].slot
            == slot
}

/// A candidate more.
proof fn lemma_candidates_push(
    candidates: Seq<RemovalCandidate>,
    candidate: RemovalCandidate,
    g: InOutGroupId,
    slot: int,
)
    ensures
        is_candidate(candidates.push(candidate), g, slot) <==> is_candidate(candidates, g, slot)
            || (candidate.group == g && candidate.slot == slot),
{
    let next = candidates.push(candidate);
    if is_candidate(candidates, g, slot) {
        let i = choose|i: int|
            0 <= i < candidates.len() && (#[trigger] candidates[i]).group == g
                && candidates[i].slot == slot;
        assert(next[i].group == g);
    }
    assert(next[candidates.len() as int] == candidate);
    if is_candidate(next, g, slot) {
        let i = choose|i: int|
            0 <= i < next.len() && (#[trigger] next[i]).group == g && next[i].slot == slot;
        if i < candidates.len() {
            assert(candidates[i].group == g);
        }
    }
}

impl CopyPropagation {
    /// Notes down a redundant slot: the inputs that are taken in through it come from
    /// `replacement`, and the slot may go.
    fn note_redundant_slot(
        &mut self,
        program: &EthIRProgram,
        g: usize,
        slot: usize,
        replacement: LocalId,
        Ghost(analyses): Ghost<AnalysesView>,
    )
        requires
            program.wf(),
            program@.ssa(),
            old(self).prepared(program@, analyses),
            g < old(self).io_groups.len(),
            g <= u32::MAX,
            is_redundant(program@, analyses, g as u32, slot as int, replacement),
            forall|x: LocalId| #[trigger]
                old(self).raw_map@.dom().contains(x) ==> forwarded_inputs(
                    program@,
                    analyses,
                ).dom().contains(x) && old(self).raw_map@[x] == forwarded_inputs(
                    program@,
                    analyses,
                )[x],
        ensures
            final(self).candidates@ == old(self).candidates@.push(
                RemovalCandidate { group: g as u32, slot, replacement },
            ),
            forall|x: LocalId| #[trigger]
                final(self).raw_map@.dom().contains(x) ==> forwarded_inputs(
                    program@,
                    analyses,
                ).dom().contains(x) && final(self).raw_map@[x] == forwarded_inputs(
                    program@,
                    analyses,
                )[x],
            forall|x: LocalId| #[trigger]
                old(self).raw_map@.dom().contains(x) ==> final(self).raw_map@.dom().contains(x),
            forall|b: int| #[trigger]
                in_member(analyses, g as u32, b) ==> final(self).raw_map@.dom().contains(
                    program@.blocks[b].inputs[slot as int],
                ),
            *final(self) == (CopyPropagation {
                raw_map: final(self).raw_map,
                candidates: final(self).candidates,
                inserted_inputs: final(self).inserted_inputs,
                ..*old(self)
            }),
    {
        let ghost view = program@;
        let ghost forwarded = forwarded_inputs(view, analyses);
        let ghost id = g as u32;
        let ghost group = self.io_groups[g as int];
        let ghost prev = self.raw_map@;
        let ghost inputs = slot_inputs(view, group, slot as int);
        proof {
            lemma_members(group.inputs@, analyses.in_group, id);
            lemma_members(group.outputs@, analyses.out_group, id);
            assert forall|k: int| 0 <= k < group.inputs.len() implies slot
                < view.blocks[#[trigger] group.inputs[k] as int].inputs.len()
                && forwarded.dom().contains(inputs[k]) && forwarded[inputs[k]] == replacement
                && inputs[k] != replacement by {
                let b = group.inputs[k] as int;
                assert(in_member(analyses, id, b));
                lemma_forwarded_entry(view, analyses, id, slot as int, replacement, b);
                lemma_forwarded_differs(view, analyses, id, slot as int, replacement, b);
            }
            assert forall|x: LocalId| #[trigger]
                inputs.contains(x) implies forwarded.dom().contains(x) && forwarded[x]
                == replacement && x != replacement by {
                let k = choose|k: int| 0 <= k < inputs.len() && inputs[k] == x;
                assert(slot < view.blocks[group.inputs[k] as int].inputs.len());
            }
            assert forall|b: int| #[trigger] in_member(analyses, id, b) implies inputs.contains(
                view.blocks[b].inputs[slot as int],
            ) by {
                assert(analyses.in_group[b] == Some(id));
                let k = choose|k: int|
                    0 <= k < group.inputs@.len() && group.inputs@[k] == b as BasicBlockId;
                assert(inputs[k] == view.blocks[b].inputs[slot as int]);
            }
            let b = choose|b: int| in_member(analyses, id, b);
            assert(in_member(analyses, id, b));
            let k = choose|k: int|
                0 <= k < inputs.len() && inputs[k] == view.blocks[b].inputs[slot as int];
            assert(inputs[k] != replacement);
        }
        let added = try_add_slot_replacements(
            program,
            &self.io_groups[g],
            slot,
            replacement,
            &mut self.raw_map,
            &mut self.inserted_inputs,
        );
        if let Some(has_replacements) = added {
            if has_replacements {
                self.candidates.push(RemovalCandidate { group: g as u32, slot, replacement });
            }
        }
        proof {
            assert(self.raw_map@ == with_inputs(prev, inputs, replacement, replacement));
            assert forall|x: LocalId| #[trigger]
                self.raw_map@.dom().contains(x) implies forwarded.dom().contains(x)
                && self.raw_map@[x] == forwarded[x] by {
                if !inputs.contains(x) {
                    assert(prev.dom().contains(x));
                }
            }
        }
    }
}

/// A slot of group `h` that is dealt with once the groups below `g` and the slots of `g` below
/// `slot` are.
spec fn dealt_with(g: int, slot: int, h: InOutGroupId, s: int) -> bool {
    h < g || (h == g && s < slot)
}

impl CopyPropagation {
    /// Finds the redundant slots of all groups, and notes down for every input that is taken in
    /// through one the local that it comes from.
    pub(super) fn find_redundant_slots(
        &mut self,
        program: &EthIRProgram,
        dominators: &Dominators,
        Ghost(analyses): Ghost<AnalysesView>,
    )
        requires
            program.wf(),
            program@.ssa(),
            old(self).prepared(program@, analyses),
            dominators.wf(program.basic_blocks.len() as int),
            analyses.idom == dominators.idom@,
        ensures
            final(self).raw_map@ == forwarded_inputs(program@, analyses),
            candidates_sound(final(self).candidates@, program@, analyses),
            candidates_ascend(final(self).candidates@),
            forall|h: InOutGroupId, s: int, source: LocalId| #[trigger]
                is_redundant(program@, analyses, h, s, source) ==> is_candidate(
                    final(self).candidates@,
                    h,
                    s,
                ),
            final(self).prepared(program@, analyses),
            *final(self) == (CopyPropagation {
                raw_map: final(self).raw_map,
                candidates: final(self).candidates,
                inserted_inputs: final(self).inserted_inputs,
                ..*old(self)
            }),
    {
        let ghost view = program@;
        let ghost forwarded = forwarded_inputs(view, analyses);
        self.raw_map.clear();
        self.candidates.clear();
        let mut g: usize = 0;
        while g < self.io_groups.len()
            invariant
                program.wf(),
                view == program@,
                view.ssa(),
                self.prepared(view, analyses),
                dominators.wf(program.basic_blocks.len() as int),
                analyses.idom == dominators.idom@,
                g <= self.io_groups.len(),
                forwarded == forwarded_inputs(view, analyses),
                forall|x: LocalId| #[trigger]
                    self.raw_map@.dom().contains(x) ==> forwarded.dom().contains(x)
                        && self.raw_map@[x] == forwarded[x],
                candidates_sound(self.candidates@, view, analyses),
                candidates_ascend(self.candidates@),
                forall|i: int|
                    0 <= i < self.candidates@.len() ==> (#[trigger] self.candidates@[i]).group < g,
                forall|h: InOutGroupId, s: int, source: LocalId, b: int|
                    #![trigger is_redundant(view, analyses, h, s, source), in_member(analyses, h, b)]
                    is_redundant(view, analyses, h, s, source) && in_member(analyses, h, b) && h < g
                        ==> self.raw_map@.dom().contains(view.blocks[b].inputs[s]),
                forall|h: InOutGroupId, s: int, source: LocalId| #[trigger]
                    is_redundant(view, analyses, h, s, source) && h < g ==> is_candidate(
                        self.candidates@,
                        h,
                        s,
                    ),
                *self == (CopyPropagation {
                    raw_map: self.raw_map,
                    candidates: self.candidates,
                    inserted_inputs: self.inserted_inputs,
                    ..*old(self)
                }),
            decreases self.io_groups.len() - g,
        {
            if let Some(slots) = self.inner_group_slots(program, g, Ghost(analyses)) {
                let ghost id = g as u32;
                proof {
                    lemma_members(self.io_groups[g as int].inputs@, analyses.in_group, id);
                    lemma_members(self.io_groups[g as int].outputs@, analyses.out_group, id);
                }
                let mut slot: usize = 0;
                while slot < slots
                    invariant
                        program.wf(),
                        view == program@,
                        view.ssa(),
                        self.prepared(view, analyses),
                        dominators.wf(program.basic_blocks.len() as int),
                        analyses.idom == dominators.idom@,
                        g < self.io_groups.len(),
                        g <= u32::MAX,
                        id == g as u32,
                        slot <= slots,
                        is_inner_group(view, analyses, id),
                        forall|k: int|
                            0 <= k < self.io_groups[g as int].outputs.len()
                                ==> view.blocks[#[trigger] self.io_groups[g as int].outputs[k] as int].outputs.len()
                                == slots,
                        forwarded == forwarded_inputs(view, analyses),
                        forall|x: LocalId| #[trigger]
                            self.raw_map@.dom().contains(x) ==> forwarded.dom().contains(x)
                                && self.raw_map@[x] == forwarded[x],
                        candidates_sound(self.candidates@, view, analyses),
                        candidates_ascend(self.candidates@),
                        forall|i: int|
                            0 <= i < self.candidates@.len() ==> dealt_with(
                                g as int,
                                slot as int,
                                (#[trigger] self.candidates@[i]).group,
                                self.candidates@[i].slot as int,
                            ),
                        forall|h: InOutGroupId, s: int, source: LocalId, b: int|
                            #![trigger is_redundant(view, analyses, h, s, source), in_member(analyses, h, b)]
                            is_redundant(view, analyses, h, s, source) && in_member(analyses, h, b)
                                && dealt_with(g as int, slot as int, h, s)
                                ==> self.raw_map@.dom().contains(view.blocks[b].inputs[s]),
                        forall|h: InOutGroupId, s: int, source: LocalId| #[trigger]
                            is_redundant(view, analyses, h, s, source) && dealt_with(
                                g as int,
                                slot as int,
                                h,
                                s,
                            ) ==> is_candidate(self.candidates@, h, s),
                        *self == (CopyPropagation {
                            raw_map: self.raw_map,
                            candidates: self.candidates,
                            inserted_inputs: self.inserted_inputs,
                            ..*old(self)
                        }),
                    decreases slots - slot,
                {
                    let source = self.redundant_slot_source(
                        program,
                        dominators,
                        g,
                        slot,
                        Ghost(analyses),
                    );
                    if let Some(replacement) = source {
                        let ghost prev = self.raw_map@;
                        let ghost prev_candidates = self.candidates@;
                        self.note_redundant_slot(program, g, slot, replacement, Ghost(analyses));
                        proof {
                            let candidate = RemovalCandidate { group: id, slot, replacement };
                            assert forall|h: InOutGroupId, s: int, source: LocalId, b: int|
                                #![trigger is_redundant(view, analyses, h, s, source), in_member(analyses, h, b)]
                                is_redundant(view, analyses, h, s, source) && in_member(
                                    analyses,
                                    h,
                                    b,
                                ) && dealt_with(
                                    g as int,
                                    slot + 1,
                                    h,
                                    s,
                                ) implies self.raw_map@.dom().contains(view.blocks[b].inputs[s]) by {
                                if dealt_with(g as int, slot as int, h, s) {
                                    assert(prev.dom().contains(view.blocks[b].inputs[s]));
                                }
                            }
                            assert forall|h: InOutGroupId, s: int, source: LocalId| #[trigger]
                                is_redundant(view, analyses, h, s, source) && dealt_with(
                                    g as int,
                                    slot + 1,
                                    h,
                                    s,
                                ) implies is_candidate(self.candidates@, h, s) by {
                                lemma_candidates_push(prev_candidates, candidate, h, s);
                            }
                        }
                    }
                    slot += 1;
                }
                proof {
                    assert forall|h: InOutGroupId, s: int, source: LocalId| #[trigger]
                        is_redundant(view, analyses, h, s, source) && h == g implies dealt_with(
                        g as int,
                        slots as int,
                        h,
                        s,
                    ) by {
                        let o = choose|o: int| out_member(analyses, h, o);
                        assert(out_member(analyses, h, o));
                        assert(analyses.out_group[o] == Some(id));
                        let outs = self.io_groups[g as int].outputs@;
                        let k = choose|k: int| 0 <= k < outs.len() && outs[k] == o as BasicBlockId;
                        assert(self.io_groups[g as int].outputs[k] as int == o);
                    }
                }
            }
            g += 1;
        }
        proof {
            assert forall|h: InOutGroupId, s: int, source: LocalId| #[trigger]
                is_redundant(view, analyses, h, s, source) implies h < self.io_groups.len() by {
                let i = choose|i: int| in_member(analyses, h, i);
                assert(analyses.in_group[i] == Some(h));
            }
            assert forall|x: LocalId| #[trigger]
                forwarded.dom().contains(x) implies self.raw_map@.dom().contains(x) by {
                let (b, slot, h) = lemma_forwarded_site(view, analyses, x);
                assert(is_redundant(view, analyses, h, slot, forwarded[x]));
                assert(in_member(analyses, h, b));
            }
            assert(self.raw_map@ =~= forwarded);
        }
    }
}

} // verus!
