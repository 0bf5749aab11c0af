//! Marking redundant slots for removal, with the origin of what they take in.

use crate::analyses::{AnalysesView, Dominators, InOutGroupId};
use crate::chains::canonicalize;
use crate::groups::{
    insert_candidate_replacements, local_at_slot, slot_inputs, with_inputs, RemovalCandidate,
};
use crate::ir::{BasicBlockId, EthIRProgram, LocalId, OperandList, ProgramView};
use crate::model::{
    canonical, forwarded_inputs, in_member, is_inner_group, is_redundant, out_member,
    slot_is_redundant, subst,
};
use crate::redundancy::{
    lemma_forwarded_differs, lemma_forwarded_entry, lemma_forwarded_site, lemma_slot_origin,
};
use super::CopyPropagation;
use super::find::{candidates_sound, is_candidate};
use super::prepare::lemma_members;
use vstd::prelude::*;

verus! {

impl CopyPropagation {
    /// Follows what is noted down of every input to where it comes from in the end.
    pub(super) fn canonicalize_raw_map(&mut self)
        ensures
            final(self).canonical_map@ == canonical(old(self).raw_map@),
            final(self).raw_map == old(self).raw_map,
            final(self).copy_map == old(self).copy_map,
            *final(self) == (CopyPropagation {
                canonical_map: final(self).canonical_map,
                seen_locals: final(self).seen_locals,
                ..*old(self)
            }),
    {
        canonicalize(&self.raw_map, &mut self.canonical_map, &mut self.seen_locals);
    }
}

/// All inputs but `skip` have the same image under a map, and there is such an input.
spec fn common_image(
    map: Map<LocalId, LocalId>,
    inputs: Seq<LocalId>,
    skip: LocalId,
    image: LocalId,
) -> bool {
    &&& exists|k: int| 0 <= k < inputs.len() && #[trigger] inputs[k] != skip
    &&& forall|k: int|
        0 <= k < inputs.len() && #[trigger] inputs[k] != skip ==> map.dom().contains(inputs[k])
            && map[inputs[k]] == image
}

impl CopyPropagation {
    /// The local that the inputs of a candidate slot come from in the end, if it is the same for
    /// all and available where they are taken in.
    fn candidate_final_replacement(
        &self,
        program: &EthIRProgram,
        dominators: &Dominators,
        candidate: RemovalCandidate,
    ) -> (replacement: Option<LocalId>)
        requires
            program.wf(),
            dominators.wf(program.basic_blocks.len() as int),
            candidate.group < self.io_groups.len(),
            self.io_groups[candidate.group as int].within(program.basic_blocks.len() as int),
            forall|k: int|
                0 <= k < self.io_groups[candidate.group as int].inputs.len() ==> candidate.slot
                    < program@.blocks[#[trigger] self.io_groups[candidate.group as int].inputs[k] as int].inputs.len(),
        ensures
            ({
                let group = self.io_groups[candidate.group as int];
                let inputs = slot_inputs(program@, group, candidate.slot as int);
                match replacement {
                    Some(image) => common_image(
                        self.canonical_map@,
                        inputs,
                        candidate.replacement,
                        image,
                    ) && self.noted_above(dominators.idom@, image, group),
                    None => forall|image: LocalId|
                        common_image(
                            self.canonical_map@,
                            inputs,
                            candidate.replacement,
                            image,
                        ) ==> !#[trigger] self.noted_above(dominators.idom@, image, group),
                }
            }),
    {
        let group = &self.io_groups[candidate.group as usize];
        let ghost inputs = slot_inputs(program@, *group, candidate.slot as int);
        let mut final_replacement: Option<LocalId> = None;
        let mut k: usize = 0;
        while k < group.inputs.len()
            invariant
                program.wf(),
                candidate.group < self.io_groups.len(),
                *group == self.io_groups[candidate.group as int],
                group.within(program.basic_blocks.len() as int),
                forall|k: int|
                    0 <= k < group.inputs.len() ==> candidate.slot
                        < program@.blocks[#[trigger] group.inputs[k] as int].inputs.len(),
                inputs == slot_inputs(program@, *group, candidate.slot as int),
                inputs.len() == group.inputs.len(),
                k <= inputs.len(),
                match final_replacement {
                    None => forall|j: int|
                        0 <= j < k ==> #[trigger] inputs[j] == candidate.replacement,
                    Some(image) => common_image(
                        self.canonical_map@,
                        inputs.take(k as int),
                        candidate.replacement,
                        image,
                    ),
                },
            decreases group.inputs.len() - k,
        {
            let bb_id: BasicBlockId = group.inputs[k];
            assert(program.has_list(OperandList::BlockInputs(bb_id as int)));
            assert(candidate.slot < program@.blocks[group.inputs[k as int] as int].inputs.len());
            let input: LocalId = local_at_slot(
                program,
                program.basic_blocks[bb_id as usize].inputs,
                candidate.slot,
            );
            assert(inputs[k as int] == input);
            let ghost done = inputs.take(k as int);
            let ghost next = inputs.take(k + 1);
            assert(next[k as int] == input);
            assert(forall|j: int| 0 <= j < k ==> #[trigger] next[j] == done[j]);
            assert(forall|j: int| 0 <= j < k ==> #[trigger] next[j] == inputs[j]);
            if input != candidate.replacement {
                match self.canonical_map.get(input) {
                    None => {
                        return None;
                    },
                    Some(replacement) => {
                        match final_replacement {
                            None => {
                                final_replacement = Some(replacement);
                            },
                            Some(existing) => {
                                if existing != replacement {
                                    proof {
                                        let j = choose|j: int|
                                            0 <= j < done.len() && #[trigger] done[j]
                                                != candidate.replacement;
                                        assert(inputs[j] == done[j]);
                                        assert(self.canonical_map@[inputs[j]] == existing);
                                    }
                                    return None;
                                }
                            },
                        }
                    },
                }
            }
            proof {
                if let Some(image) = final_replacement {
                    assert(common_image(
                        self.canonical_map@,
                        next,
                        candidate.replacement,
                        image,
                    )) by {
                        if input == candidate.replacement {
                            let j = choose|j: int|
                                0 <= j < done.len() && #[trigger] done[j] != candidate.replacement;
                            assert(next[j] != candidate.replacement);
                        }
                    }
                }
            }
            k += 1;
        }
        assert(inputs.take(inputs.len() as int) =~= inputs);
        match final_replacement {
            None => None,
            Some(replacement) => {
                proof {
                    let j = choose|j: int|
                        0 <= j < inputs.len() && #[trigger] inputs[j] != candidate.replacement;
                    assert(self.canonical_map@[inputs[j]] == replacement);
                }
                if self.replacement_is_available_at_inputs(dominators, replacement, group) {
                    Some(replacement)
                } else {
                    None
                }
            },
        }
    }
}

/// A slot of a group is marked for removal.
pub(super) open spec fn is_marked(
    marks: Seq<Vec<bool>>,
    group: Option<InOutGroupId>,
    slot: int,
) -> bool {
    group matches Some(g) && g < marks.len() && 0 <= slot < marks[g as int].len()
        && marks[g as int][slot]
}

/// One of the marks of a group is set.
pub(super) open spec fn has_mark(marks: Seq<bool>) -> bool {
    exists|slot: int| 0 <= slot < marks.len() && #[trigger] marks[slot]
}

/// Where a group has a slot marked for removal, it has a mark, set or not, for every slot of its
/// blocks.
pub(super) open spec fn marks_fit(
    marks: Seq<Vec<bool>>,
    program: ProgramView,
    analyses: AnalysesView,
) -> bool {
    &&& forall|g: InOutGroupId, b: int| #[trigger]
        in_member(analyses, g, b) && g < marks.len() && has_mark(marks[g as int]@)
            ==> program.blocks[b].inputs.len() == marks[g as int].len()
    &&& forall|g: InOutGroupId, b: int| #[trigger]
        out_member(analyses, g, b) && g < marks.len() && has_mark(marks[g as int]@)
            ==> program.blocks[b].outputs.len() == marks[g as int].len()
}

/// Marks a slot of a group for removal. Where the group has another number of marks than `slots`, it
/// gets that many new ones first, none of them set.
fn mark_slot(marks: &mut Vec<Vec<bool>>, g: usize, slot: usize, slots: usize)
    requires
        g < old(marks).len(),
        slot < slots,
    ensures
        final(marks).len() == old(marks).len(),
        final(marks)[g as int].len() == slots,
        forall|h: int|
            0 <= h < old(marks).len() && h != g ==> #[trigger] final(marks)[h] == old(marks)[h],
        forall|s: int|
            0 <= s < slots ==> #[trigger] final(marks)[g as int][s] == (s == slot || (old(
                marks,
            )[g as int].len() == slots && old(marks)[g as int][s])),
{
    let ghost before = marks@;
    if marks[g].len() != slots {
        marks[g].clear();
        while marks[g].len() < slots
            invariant
                g < before.len(),
                marks.len() == before.len(),
                marks[g as int].len() <= slots,
                forall|s: int|
                    0 <= s < marks[g as int].len() ==> !#[trigger] marks[g as int][s],
                forall|h: int|
                    0 <= h < before.len() && h != g ==> #[trigger] marks[h] == before[h],
            decreases slots - marks[g as int].len(),
        {
            marks[g].push(false);
        }
    }
    marks[g][slot] = true;
}

/// Where the marks of one group get the length of its slots, the marks fit.
proof fn lemma_marks_still_fit(
    before: Seq<Vec<bool>>,
    after: Seq<Vec<bool>>,
    program: ProgramView,
    analyses: AnalysesView,
    g: InOutGroupId,
    first: int,
)
    requires
        marks_fit(before, program, analyses),
        is_inner_group(program, analyses, g),
        out_member(analyses, g, first),
        g < before.len(),
        after.len() == before.len(),
        forall|h: int| 0 <= h < before.len() && h != g ==> #[trigger] after[h] == before[h],
        after[g as int].len() == program.blocks[first].outputs.len(),
    ensures
        marks_fit(after, program, analyses),
{
    let first_in = choose|i: int| in_member(analyses, g, i);
    assert(in_member(analyses, g, first_in));
    assert forall|h: InOutGroupId, b: int| #[trigger]
        in_member(analyses, h, b) && h < after.len() && has_mark(
            after[h as int]@,
        ) implies program.blocks[b].inputs.len() == after[h as int].len() by {
        if h != g {
            assert(after[h as int] == before[h as int]);
        }
    }
    assert forall|h: InOutGroupId, b: int| #[trigger]
        out_member(analyses, h, b) && h < after.len() && has_mark(
            after[h as int]@,
        ) implies program.blocks[b].outputs.len() == after[h as int].len() by {
        if h != g {
            assert(after[h as int] == before[h as int]);
        }
    }
}

impl CopyPropagation {
    /// Marks a candidate slot for removal, and adds the origin of the inputs that it takes in to
    /// the map of replacements.
    fn accept_candidate(
        &mut self,
        program: &EthIRProgram,
        dominators: &Dominators,
        candidate: RemovalCandidate,
        Ghost(analyses): Ghost<AnalysesView>,
    ) -> (accepted: bool)
        requires
            program.wf(),
            program@.ssa(),
            old(self).prepared(program@, analyses),
            dominators.wf(program.basic_blocks.len() as int),
            analyses.idom == dominators.idom@,
            old(self).canonical_map@ == canonical(forwarded_inputs(program@, analyses)),
            is_redundant(
                program@,
                analyses,
                candidate.group,
                candidate.slot as int,
                candidate.replacement,
            ),
            old(self).slots_to_remove.len() >= old(self).io_groups.len(),
            marks_fit(old(self).slots_to_remove@, program@, analyses),
            forall|x: LocalId| #[trigger]
                old(self).copy_map@.dom().contains(x) ==> old(
                    self,
                ).canonical_map@.dom().contains(x) && old(self).copy_map@[x] == old(
                    self,
                ).canonical_map@[x],
        ensures
            accepted,
            forall|x: LocalId| #[trigger]
                final(self).copy_map@.dom().contains(x) ==> old(
                    self,
                ).canonical_map@.dom().contains(x) && final(self).copy_map@[x] == old(
                    self,
                ).canonical_map@[x],
            forall|x: LocalId| #[trigger]
                old(self).copy_map@.dom().contains(x) ==> final(self).copy_map@.dom().contains(x),
            forall|b: int| #[trigger]
                in_member(analyses, candidate.group, b) ==> final(self).copy_map@.dom().contains(
                    program@.blocks[b].inputs[candidate.slot as int],
                ),
            marks_fit(final(self).slots_to_remove@, program@, analyses),
            final(self).slots_to_remove.len() == old(self).slots_to_remove.len(),
            forall|h: InOutGroupId, s: int| #[trigger]
                is_marked(final(self).slots_to_remove@, Some(h), s) <==> is_marked(
                    old(self).slots_to_remove@,
                    Some(h),
                    s,
                ) || (h == candidate.group && s == candidate.slot),
            *final(self) == (CopyPropagation {
                copy_map: final(self).copy_map,
                slots_to_remove: final(self).slots_to_remove,
                ..*old(self)
            }),
    {
        let ghost view = program@;
        let ghost origins = self.canonical_map@;
        let ghost id = candidate.group;
        let ghost slot = candidate.slot as int;
        let ghost group = self.io_groups[id as int];
        let ghost inputs = slot_inputs(view, group, slot);
        let ghost origin = subst(origins, candidate.replacement);
        let ghost prev = self.copy_map@;
        let ghost marks = self.slots_to_remove@;
        proof {
            let i = choose|i: int| in_member(analyses, id, i);
            assert(in_member(analyses, id, i));
            assert(analyses.in_group[i] == Some(id));
            lemma_members(group.inputs@, analyses.in_group, id);
            lemma_members(group.outputs@, analyses.out_group, id);
            lemma_slot_origin(view, analyses, id, slot, candidate.replacement);
            self.lemma_noted_above(view, analyses, id, origin);
            assert forall|k: int| 0 <= k < group.inputs.len() implies slot
                < view.blocks[#[trigger] group.inputs[k] as int].inputs.len()
                && origins.dom().contains(inputs[k]) && origins[inputs[k]] == origin && inputs[k]
                != candidate.replacement by {
                let b = group.inputs[k] as int;
                assert(in_member(analyses, id, b));
                lemma_forwarded_entry(view, analyses, id, slot, candidate.replacement, b);
                lemma_forwarded_differs(view, analyses, id, slot, candidate.replacement, b);
            }
            assert forall|x: LocalId| #[trigger]
                inputs.contains(x) implies origins.dom().contains(x) && origins[x] == origin && x
                != candidate.replacement by {
                let k = choose|k: int| 0 <= k < inputs.len() && inputs[k] == x;
                assert(slot < view.blocks[group.inputs[k] as int].inputs.len());
            }
            assert forall|b: int| #[trigger] in_member(analyses, id, b) implies inputs.contains(
                view.blocks[b].inputs[slot],
            ) by {
                assert(analyses.in_group[b] == Some(id));
                let k = choose|k: int|
                    0 <= k < group.inputs@.len() && group.inputs@[k] == b as BasicBlockId;
                assert(inputs[k] == view.blocks[b].inputs[slot]);
            }
            let k = choose|k: int| 0 <= k < inputs.len() && inputs[k] == view.blocks[i].inputs[slot];
            assert(inputs.contains(inputs[k]));
            assert forall|k: int| 0 <= k < inputs.len() implies origins.dom().contains(
                #[trigger] inputs[k],
            ) && origins[inputs[k]] == origin by {
                assert(inputs.contains(inputs[k]));
            }
            assert(common_image(origins, inputs, candidate.replacement, origin));
            assert(self.noted_above(dominators.idom@, origin, group));
        }
        match self.candidate_final_replacement(program, dominators, candidate) {
            None => false,
            Some(replacement) => {
                proof {
                    let k = choose|k: int|
                        0 <= k < inputs.len() && #[trigger] inputs[k] != candidate.replacement;
                    assert(origins[inputs[k]] == replacement);
                    assert(replacement == origin);
                }
                insert_candidate_replacements(
                    program,
                    &self.io_groups[candidate.group as usize],
                    candidate,
                    replacement,
                    &mut self.copy_map,
                );
                proof {
                    assert(self.copy_map@ == with_inputs(
                        prev,
                        inputs,
                        candidate.replacement,
                        replacement,
                    ));
                    assert forall|x: LocalId| #[trigger]
                        self.copy_map@.dom().contains(x) implies origins.dom().contains(x)
                        && self.copy_map@[x] == origins[x] by {
                        if !inputs.contains(x) {
                            assert(prev.dom().contains(x));
                        }
                    }
                    let o = choose|o: int| out_member(analyses, id, o);
                    assert(out_member(analyses, id, o));
                    assert(analyses.out_group[o] == Some(id));
                    assert(group.outputs@.contains(o as BasicBlockId));
                }
                let first_id: BasicBlockId = self.io_groups[candidate.group as usize].outputs[0];
                proof {
                    assert(group.outputs[0] == first_id);
                    assert(out_member(analyses, id, first_id as int));
                    assert(program.has_list(OperandList::BlockOutputs(first_id as int)));
                }
                let slots: usize = program.basic_blocks[first_id as usize].outputs.len() as usize;
                mark_slot(
                    &mut self.slots_to_remove,
                    candidate.group as usize,
                    candidate.slot,
                    slots,
                );
                proof {
                    lemma_marks_still_fit(
                        marks,
                        self.slots_to_remove@,
                        view,
                        analyses,
                        id,
                        first_id as int,
                    );
                    assert forall|h: InOutGroupId, s: int| #[trigger] is_marked(
                        self.slots_to_remove@,
                        Some(h),
                        s,
                    ) <==> is_marked(marks, Some(h), s) || (h == id && s == slot) by {
                        if h != id && h < marks.len() {
                            assert(self.slots_to_remove[h as int] == marks[h as int]);
                        }
                        if h == id && is_marked(marks, Some(h), s) {
                            assert(marks[id as int]@[s]);
                            assert(has_mark(marks[id as int]@));
                        }
                    }
                }
                true
            },
        }
    }

    /// Marks every candidate slot for removal, and fills the map of replacements with the origins
    /// of the inputs that they take in.
    pub(super) fn accept_candidates(
        &mut self,
        program: &EthIRProgram,
        dominators: &Dominators,
        Ghost(analyses): Ghost<AnalysesView>,
    ) -> (changed: bool)
        requires
            program.wf(),
            program@.ssa(),
            old(self).prepared(program@, analyses),
            dominators.wf(program.basic_blocks.len() as int),
            analyses.idom == dominators.idom@,
            old(self).canonical_map@ == canonical(forwarded_inputs(program@, analyses)),
            candidates_sound(old(self).candidates@, program@, analyses),
            forall|h: InOutGroupId, s: int, source: LocalId| #[trigger]
                is_redundant(program@, analyses, h, s, source) ==> is_candidate(
                    old(self).candidates@,
                    h,
                    s,
                ),
        ensures
            final(self).copy_map@ == canonical(forwarded_inputs(program@, analyses)),
            final(self).slots_to_remove.len() == if old(self).slots_to_remove.len() < old(
                self,
            ).io_groups.len() {
                old(self).io_groups.len()
            } else {
                old(self).slots_to_remove.len()
            },
            marks_fit(final(self).slots_to_remove@, program@, analyses),
            forall|h: InOutGroupId, s: int| #[trigger]
                is_marked(final(self).slots_to_remove@, Some(h), s) <==> slot_is_redundant(
                    program@,
                    analyses,
                    Some(h),
                    s,
                ),
            changed == (old(self).candidates@.len() > 0),
            *final(self) == (CopyPropagation {
                copy_map: final(self).copy_map,
                slots_to_remove: final(self).slots_to_remove,
                ..*old(self)
            }),
    {
        let ghost view = program@;
        let ghost origins = canonical(forwarded_inputs(view, analyses));
        self.copy_map.clear();
        let ghost length: int = if self.slots_to_remove.len() < self.io_groups.len() {
            self.io_groups.len() as int
        } else {
            self.slots_to_remove.len() as int
        };
        while self.slots_to_remove.len() < self.io_groups.len()
            invariant
                self.slots_to_remove.len() <= length,
                self.io_groups.len() <= length,
                self.slots_to_remove.len() < length ==> self.io_groups.len() == length,
                self.copy_map@ == Map::<LocalId, LocalId>::empty(),
                *self == (CopyPropagation {
                    copy_map: self.copy_map,
                    slots_to_remove: self.slots_to_remove,
                    ..*old(self)
                }),
            decreases self.io_groups.len() - self.slots_to_remove.len(),
        {
            self.slots_to_remove.push(Vec::new());
        }
        let mut g: usize = 0;
        while g < self.slots_to_remove.len()
            invariant
                g <= self.slots_to_remove.len(),
                self.io_groups.len() <= self.slots_to_remove.len() == length,
                forall|h: int| 0 <= h < g ==> (#[trigger] self.slots_to_remove[h]).len() == 0,
                self.copy_map@ == Map::<LocalId, LocalId>::empty(),
                *self == (CopyPropagation {
                    copy_map: self.copy_map,
                    slots_to_remove: self.slots_to_remove,
                    ..*old(self)
                }),
            decreases self.slots_to_remove.len() - g,
        {
            self.slots_to_remove[g].clear();
            g += 1;
        }
        let mut changed: bool = false;
        let mut candidate_idx: usize = 0;
        while candidate_idx < self.candidates.len()
            invariant
                program.wf(),
                view == program@,
                view.ssa(),
                self.prepared(view, analyses),
                dominators.wf(program.basic_blocks.len() as int),
                analyses.idom == dominators.idom@,
                origins == canonical(forwarded_inputs(view, analyses)),
                self.canonical_map@ == origins,
                candidates_sound(self.candidates@, view, analyses),
                candidate_idx <= self.candidates.len(),
                changed == (candidate_idx > 0),
                self.io_groups.len() <= self.slots_to_remove.len() == length,
                forall|x: LocalId| #[trigger]
                    self.copy_map@.dom().contains(x) ==> origins.dom().contains(x)
                        && self.copy_map@[x] == origins[x],
                forall|j: int, b: int|
                    #![trigger self.candidates[j], view.blocks[b]]
                    0 <= j < candidate_idx && in_member(analyses, self.candidates[j].group, b)
                        ==> self.copy_map@.dom().contains(
                        view.blocks[b].inputs[self.candidates[j].slot as int],
                    ),
                marks_fit(self.slots_to_remove@, view, analyses),
                forall|j: int|
                    0 <= j < candidate_idx ==> is_marked(
                        self.slots_to_remove@,
                        Some((#[trigger] self.candidates[j]).group),
                        self.candidates[j].slot as int,
                    ),
                forall|h: InOutGroupId, s: int| #[trigger]
                    is_marked(self.slots_to_remove@, Some(h), s) ==> slot_is_redundant(
                        view,
                        analyses,
                        Some(h),
                        s,
                    ),
                *self == (CopyPropagation {
                    copy_map: self.copy_map,
                    slots_to_remove: self.slots_to_remove,
                    ..*old(self)
                }),
            decreases self.candidates.len() - candidate_idx,
        {
            let candidate = self.candidates[candidate_idx];
            let ghost prev = self.copy_map@;
            let ghost marks = self.slots_to_remove@;
            assert(is_redundant(
                view,
                analyses,
                candidate.group,
                candidate.slot as int,
                candidate.replacement,
            ));
            if self.accept_candidate(program, dominators, candidate, Ghost(analyses)) {
                changed = true;
            }
            proof {
                assert(slot_is_redundant(
                    view,
                    analyses,
                    Some(candidate.group),
                    candidate.slot as int,
                ));
                assert forall|j: int|
                    0 <= j < candidate_idx + 1 implies is_marked(
                    self.slots_to_remove@,
                    Some((#[trigger] self.candidates[j]).group),
                    self.candidates[j].slot as int,
                ) by {
                    if j < candidate_idx {
                        assert(is_marked(
                            marks,
                            Some(self.candidates[j].group),
                            self.candidates[j].slot as int,
                        ));
                    }
                }
                assert forall|j: int, b: int|
                    #![trigger self.candidates[j], view.blocks[b]]
                    0 <= j < candidate_idx + 1 && in_member(
                        analyses,
                        self.candidates[j].group,
                        b,
                    ) implies self.copy_map@.dom().contains(
                    view.blocks[b].inputs[self.candidates[j].slot as int],
                ) by {
                    if j < candidate_idx {
                        assert(prev.dom().contains(
                            view.blocks[b].inputs[self.candidates[j].slot as int],
                        ));
                    }
                }
            }
            candidate_idx += 1;
        }
        proof {
            assert forall|x: LocalId| #[trigger]
                origins.dom().contains(x) implies self.copy_map@.dom().contains(x) by {
                let (b, slot, h) = lemma_forwarded_site(view, analyses, x);
                assert(is_redundant(
                    view,
                    analyses,
                    h,
                    slot,
                    forwarded_inputs(view, analyses)[x],
                ));
                assert(is_candidate(self.candidates@, h, slot));
                let j = choose|j: int|
                    0 <= j < self.candidates@.len() && (#[trigger] self.candidates@[j]).group == h
                        && self.candidates@[j].slot == slot;
                assert(self.candidates[j].group == h);
            }
            assert(self.copy_map@ =~= origins);
            assert forall|h: InOutGroupId, s: int| slot_is_redundant(
                view,
                analyses,
                Some(h),
                s,
            ) implies #[trigger] is_marked(self.slots_to_remove@, Some(h), s) by {
                let source = choose|source: LocalId| is_redundant(view, analyses, h, s, source);
                assert(is_redundant(view, analyses, h, s, source));
                let j = choose|j: int|
                    0 <= j < self.candidates@.len() && (#[trigger] self.candidates@[j]).group == h
                        && self.candidates@[j].slot == s;
                assert(self.candidates[j].group == h);
            }
        }
        changed
    }
}

} // verus!
