//! Taking the marked slots out of a program.

use crate::analyses::{AnalysesView, InOutGroupId};
use crate::compact::{compact_inputs, compact_outputs};
use crate::ir::{BasicBlockId, BlockView, EthIRProgram, LocalId, ProgramView};
use crate::layout::{lemma_lists_shrink_transitive, only_lists_shrink};
use crate::model::{
    canonical, eliminate_redundant_slots, forwarded_inputs, in_member, keep_slots, out_member,
    slot_is_redundant, subst_block,
};
use crate::slots::{lemma_keep_all_slots, lemma_keep_slots_agree};
use super::CopyPropagation;
use super::accept::{has_mark, is_marked, marks_fit};
use super::prepare::{groups_built, lemma_member_group_id, lemma_members};
use vstd::prelude::*;

verus! {

/// Whether one of the marks is set.
fn any_marked(marks: &Vec<bool>) -> (any: bool)
    ensures
        any == has_mark(marks@),
{
    let mut i: usize = 0;
    while i < marks.len()
        invariant
            i <= marks.len(),
            forall|j: int| 0 <= j < i ==> !#[trigger] marks[j],
        decreases marks.len() - i,
    {
        if marks[i] {
            return true;
        }
        i += 1;
    }
    false
}

/// A list without the slots that are marked for a group.
pub(super) open spec fn unmarked_slots(
    locals: Seq<LocalId>,
    marks: Seq<Vec<bool>>,
    group: Option<InOutGroupId>,
) -> Seq<LocalId> {
    keep_slots(locals, |slot: int| is_marked(marks, group, slot))
}

/// Compacting by the marks of one group drops what is marked for it.
proof fn lemma_compacted_by_marks(
    locals: Seq<LocalId>,
    marks: Seq<Vec<bool>>,
    g: InOutGroupId,
)
    requires
        g < marks.len(),
        locals.len() == marks[g as int].len(),
    ensures
        keep_slots(locals, |slot: int| marks[g as int][slot]) == unmarked_slots(
            locals,
            marks,
            Some(g),
        ),
{
    lemma_keep_slots_agree(
        locals,
        |slot: int| marks[g as int][slot],
        |slot: int| is_marked(marks, Some(g), slot),
    );
}

/// A block whose lists lose the slots that are marked for their groups, as far as those groups are
/// among the `inputs` and `outputs` dealt with.
pub(super) open spec fn compacted_block(
    block: BlockView,
    marks: Seq<Vec<bool>>,
    in_group: Option<InOutGroupId>,
    out_group: Option<InOutGroupId>,
    inputs: bool,
    outputs: bool,
) -> BlockView {
    BlockView {
        inputs: if inputs {
            unmarked_slots(block.inputs, marks, in_group)
        } else {
            block.inputs
        },
        outputs: if outputs {
            unmarked_slots(block.outputs, marks, out_group)
        } else {
            block.outputs
        },
        ..block
    }
}

/// A group below `limit`.
spec fn group_below(group: Option<InOutGroupId>, limit: int) -> bool {
    group matches Some(g) && g < limit
}

/// One of the first `count` blocks of a list.
spec fn among_first(list: Seq<BasicBlockId>, count: int, b: int) -> bool {
    exists|k: int| 0 <= k < count && #[trigger] list[k] == b
}

impl CopyPropagation {
    /// Removes the marked slots of one group from the inputs and outputs of its blocks.
    fn compact_group(
        &self,
        program: &mut EthIRProgram,
        g: usize,
        Ghost(analyses): Ghost<AnalysesView>,
        Ghost(before): Ghost<ProgramView>,
    )
        requires
            old(program).wf(),
            groups_built(self.io_groups@, analyses),
            analyses.wf(before.blocks.len() as int),
            marks_fit(self.slots_to_remove@, before, analyses),
            g < self.io_groups.len() <= self.slots_to_remove.len(),
            has_mark(self.slots_to_remove[g as int]@),
            old(program)@.blocks.len() == before.blocks.len(),
            forall|b: int|
                0 <= b < before.blocks.len() ==> #[trigger] old(program)@.blocks[b]
                    == compacted_block(
                    before.blocks[b],
                    self.slots_to_remove@,
                    analyses.in_group[b],
                    analyses.out_group[b],
                    group_below(analyses.in_group[b], g as int),
                    group_below(analyses.out_group[b], g as int),
                ),
        ensures
            final(program).wf(),
            only_lists_shrink(*old(program), *final(program)),
            final(program)@.functions == old(program)@.functions,
            final(program)@.cases == old(program)@.cases,
            final(program)@.next_free_local_id == old(program)@.next_free_local_id,
            final(program)@.blocks.len() == before.blocks.len(),
            forall|b: int|
                0 <= b < before.blocks.len() ==> #[trigger] final(program)@.blocks[b]
                    == compacted_block(
                    before.blocks[b],
                    self.slots_to_remove@,
                    analyses.in_group[b],
                    analyses.out_group[b],
                    group_below(analyses.in_group[b], g + 1),
                    group_below(analyses.out_group[b], g + 1),
                ),
    {
        let group = &self.io_groups[g];
        let remove = &self.slots_to_remove[g];
        let ghost marks = self.slots_to_remove@;
        let ghost start = *program;
        let ghost functions = program@.functions;
        let ghost cases = program@.cases;
        let ghost bound = program@.next_free_local_id;
        let ghost id = g as u32;
        assert(before.blocks.len() <= u32::MAX) by {
            assert(program@.blocks.len() == program.basic_blocks.len());
        }
        proof {
            if group.inputs.len() > 0 {
                lemma_member_group_id(group.inputs@, analyses.in_group, g as int);
            }
            if group.outputs.len() > 0 {
                lemma_member_group_id(group.outputs@, analyses.out_group, g as int);
            }
            if g <= u32::MAX {
                lemma_members(group.inputs@, analyses.in_group, id);
                lemma_members(group.outputs@, analyses.out_group, id);
            }
        }
        let mut k: usize = 0;
        while k < group.inputs.len()
            invariant
                program.wf(),
                analyses.wf(before.blocks.len() as int),
                marks_fit(marks, before, analyses),
                g < marks.len(),
                *remove == marks[g as int],
                has_mark(remove@),
                k > 0 || group.inputs.len() > 0 ==> g <= u32::MAX,
                id == g as u32,
                k <= group.inputs.len(),
                forall|i: int, j: int|
                    0 <= i < j < group.inputs@.len() ==> #[trigger] group.inputs@[i]
                        < #[trigger] group.inputs@[j],
                forall|j: int|
                    0 <= j < group.inputs.len() ==> (#[trigger] group.inputs@[j])
                        < before.blocks.len() && analyses.in_group[group.inputs@[j] as int] == Some(
                        id,
                    ),
                only_lists_shrink(start, *program),
                program@.functions == functions,
                program@.cases == cases,
                program@.next_free_local_id == bound,
                program@.blocks.len() == before.blocks.len(),
                forall|b: int|
                    0 <= b < before.blocks.len() ==> #[trigger] program@.blocks[b]
                        == compacted_block(
                        before.blocks[b],
                        marks,
                        analyses.in_group[b],
                        analyses.out_group[b],
                        group_below(analyses.in_group[b], g as int) || among_first(
                            group.inputs@,
                            k as int,
                            b,
                        ),
                        group_below(analyses.out_group[b], g as int),
                    ),
            decreases group.inputs.len() - k,
        {
            let bb_id: BasicBlockId = group.inputs[k];
            let ghost prev_program = *program;
            let ghost prev = program@;
            proof {
                assert(group.inputs@[k as int] == bb_id);
                assert(in_member(analyses, id, bb_id as int));
                assert(!among_first(group.inputs@, k as int, bb_id as int));
                assert(prev.blocks[bb_id as int].inputs == before.blocks[bb_id as int].inputs);
                lemma_compacted_by_marks(before.blocks[bb_id as int].inputs, marks, id);
            }
            compact_inputs(program, bb_id as usize, remove);
            proof {
                lemma_lists_shrink_transitive(start, prev_program, *program);
                assert forall|b: int| 0 <= b < before.blocks.len() implies (
                #[trigger] program@.blocks[b]) == compacted_block(
                    before.blocks[b],
                    marks,
                    analyses.in_group[b],
                    analyses.out_group[b],
                    group_below(analyses.in_group[b], g as int) || among_first(
                        group.inputs@,
                        k + 1,
                        b,
                    ),
                    group_below(analyses.out_group[b], g as int),
                ) by {
                    assert(prev.blocks[b].ops == before.blocks[b].ops);
                    if among_first(group.inputs@, k as int, b) {
                        let j = choose|j: int| 0 <= j < k && #[trigger] group.inputs@[j] == b;
                        assert(group.inputs@[j] == b);
                    }
                    if b == bb_id {
                        assert(among_first(group.inputs@, k + 1, b));
                    } else if among_first(group.inputs@, k + 1, b) {
                        let j = choose|j: int| 0 <= j < k + 1 && #[trigger] group.inputs@[j] == b;
                        assert(among_first(group.inputs@, k as int, b));
                    }
                }
            }
            k += 1;
        }
        proof {
            assert forall|b: int| 0 <= b < before.blocks.len() implies (#[trigger] group_below(
                analyses.in_group[b],
                g + 1,
            )) == (group_below(analyses.in_group[b], g as int) || among_first(
                group.inputs@,
                k as int,
                b,
            )) by {
                if among_first(group.inputs@, k as int, b) {
                    let j = choose|j: int| 0 <= j < k && #[trigger] group.inputs@[j] == b;
                    assert(group.inputs@[j] == b);
                }
                if analyses.in_group[b] == Some(id) && g <= u32::MAX {
                    let j = choose|j: int|
                        0 <= j < group.inputs@.len() && group.inputs@[j] == b as BasicBlockId;
                    assert(group.inputs@[j] == b);
                }
            }
            assert forall|b: int| 0 <= b < before.blocks.len() implies (
            #[trigger] program@.blocks[b]) == compacted_block(
                before.blocks[b],
                marks,
                analyses.in_group[b],
                analyses.out_group[b],
                group_below(analyses.in_group[b], g + 1),
                group_below(analyses.out_group[b], g as int) || among_first(
                    group.outputs@,
                    0,
                    b,
                ),
            ) by {
                assert(group_below(analyses.in_group[b], g + 1) == (group_below(
                    analyses.in_group[b],
                    g as int,
                ) || among_first(group.inputs@, k as int, b)));
            }
        }
        k = 0;
        while k < group.outputs.len()
            invariant
                program.wf(),
                analyses.wf(before.blocks.len() as int),
                marks_fit(marks, before, analyses),
                g < marks.len(),
                *remove == marks[g as int],
                has_mark(remove@),
                k > 0 || group.outputs.len() > 0 ==> g <= u32::MAX,
                id == g as u32,
                k <= group.outputs.len(),
                forall|i: int, j: int|
                    0 <= i < j < group.outputs@.len() ==> #[trigger] group.outputs@[i]
                        < #[trigger] group.outputs@[j],
                forall|j: int|
                    0 <= j < group.outputs.len() ==> (#[trigger] group.outputs@[j])
                        < before.blocks.len() && analyses.out_group[group.outputs@[j] as int]
                        == Some(id),
                only_lists_shrink(start, *program),
                program@.functions == functions,
                program@.cases == cases,
                program@.next_free_local_id == bound,
                program@.blocks.len() == before.blocks.len(),
                forall|b: int|
                    0 <= b < before.blocks.len() ==> #[trigger] program@.blocks[b]
                        == compacted_block(
                        before.blocks[b],
                        marks,
                        analyses.in_group[b],
                        analyses.out_group[b],
                        group_below(analyses.in_group[b], g + 1),
                        group_below(analyses.out_group[b], g as int) || among_first(
                            group.outputs@,
                            k as int,
                            b,
                        ),
                    ),
            decreases group.outputs.len() - k,
        {
            let bb_id: BasicBlockId = group.outputs[k];
            let ghost prev_program = *program;
            let ghost prev = program@;
            proof {
                assert(group.outputs@[k as int] == bb_id);
                assert(out_member(analyses, id, bb_id as int));
                assert(!among_first(group.outputs@, k as int, bb_id as int));
                assert(prev.blocks[bb_id as int].outputs == before.blocks[bb_id as int].outputs);
                lemma_compacted_by_marks(before.blocks[bb_id as int].outputs, marks, id);
            }
            compact_outputs(program, bb_id as usize, remove);
            proof {
                lemma_lists_shrink_transitive(start, prev_program, *program);
                assert forall|b: int| 0 <= b < before.blocks.len() implies (
                #[trigger] program@.blocks[b]) == compacted_block(
                    before.blocks[b],
                    marks,
                    analyses.in_group[b],
                    analyses.out_group[b],
                    group_below(analyses.in_group[b], g + 1),
                    group_below(analyses.out_group[b], g as int) || among_first(
                        group.outputs@,
                        k + 1,
                        b,
                    ),
                ) by {
                    assert(prev.blocks[b].ops == before.blocks[b].ops);
                    if among_first(group.outputs@, k as int, b) {
                        let j = choose|j: int| 0 <= j < k && #[trigger] group.outputs@[j] == b;
                        assert(group.outputs@[j] == b);
                    }
                    if b == bb_id {
                        assert(among_first(group.outputs@, k + 1, b));
                    } else if among_first(group.outputs@, k + 1, b) {
                        let j = choose|j: int| 0 <= j < k + 1 && #[trigger] group.outputs@[j] == b;
                        assert(among_first(group.outputs@, k as int, b));
                    }
                }
            }
            k += 1;
        }
        proof {
            assert forall|b: int| 0 <= b < before.blocks.len() implies (
            #[trigger] program@.blocks[b]) == compacted_block(
                before.blocks[b],
                marks,
                analyses.in_group[b],
                analyses.out_group[b],
                group_below(analyses.in_group[b], g + 1),
                group_below(analyses.out_group[b], g + 1),
            ) by {
                if among_first(group.outputs@, k as int, b) {
                    let j = choose|j: int| 0 <= j < k && #[trigger] group.outputs@[j] == b;
                    assert(group.outputs@[j] == b);
                }
                if analyses.out_group[b] == Some(id) && g <= u32::MAX {
                    let j = choose|j: int|
                        0 <= j < group.outputs@.len() && group.outputs@[j] == b as BasicBlockId;
                    assert(group.outputs@[j] == b);
                }
            }
        }
    }
}

/// Where nothing is marked for a group, its lists stay.
proof fn lemma_nothing_marked(
    locals: Seq<LocalId>,
    marks: Seq<Vec<bool>>,
    group: Option<InOutGroupId>,
)
    requires
        forall|slot: int| !#[trigger] is_marked(marks, group, slot),
    ensures
        unmarked_slots(locals, marks, group) == locals,
{
    lemma_keep_all_slots(locals, |slot: int| is_marked(marks, group, slot));
}

impl CopyPropagation {
    /// Removes the marked slots of all groups.
    pub(super) fn compact_removed_slots(
        &self,
        program: &mut EthIRProgram,
        Ghost(analyses): Ghost<AnalysesView>,
    )
        requires
            old(program).wf(),
            groups_built(self.io_groups@, analyses),
            analyses.wf(old(program)@.blocks.len() as int),
            marks_fit(self.slots_to_remove@, old(program)@, analyses),
            self.io_groups.len() <= self.slots_to_remove.len(),
        ensures
            final(program).wf(),
            only_lists_shrink(*old(program), *final(program)),
            final(program)@.functions == old(program)@.functions,
            final(program)@.cases == old(program)@.cases,
            final(program)@.next_free_local_id == old(program)@.next_free_local_id,
            final(program)@.blocks.len() == old(program)@.blocks.len(),
            forall|b: int|
                0 <= b < old(program)@.blocks.len() ==> #[trigger] final(program)@.blocks[b]
                    == compacted_block(
                    old(program)@.blocks[b],
                    self.slots_to_remove@,
                    analyses.in_group[b],
                    analyses.out_group[b],
                    true,
                    true,
                ),
    {
        let ghost start = *program;
        let ghost before = program@;
        let ghost marks = self.slots_to_remove@;
        let mut g: usize = 0;
        while g < self.io_groups.len()
            invariant
                program.wf(),
                groups_built(self.io_groups@, analyses),
                analyses.wf(before.blocks.len() as int),
                marks == self.slots_to_remove@,
                marks_fit(marks, before, analyses),
                self.io_groups.len() <= self.slots_to_remove.len(),
                g <= self.io_groups.len(),
                only_lists_shrink(start, *program),
                program@.functions == before.functions,
                program@.cases == before.cases,
                program@.next_free_local_id == before.next_free_local_id,
                program@.blocks.len() == before.blocks.len(),
                forall|b: int|
                    0 <= b < before.blocks.len() ==> #[trigger] program@.blocks[b]
                        == compacted_block(
                        before.blocks[b],
                        marks,
                        analyses.in_group[b],
                        analyses.out_group[b],
                        group_below(analyses.in_group[b], g as int),
                        group_below(analyses.out_group[b], g as int),
                    ),
            decreases self.io_groups.len() - g,
        {
            if any_marked(&self.slots_to_remove[g]) {
                let ghost prev = *program;
                self.compact_group(program, g, Ghost(analyses), Ghost(before));
                proof {
                    lemma_lists_shrink_transitive(start, prev, *program);
                }
            } else {
                proof {
                    assert forall|b: int| 0 <= b < before.blocks.len() implies (
                    #[trigger] program@.blocks[b]) == compacted_block(
                        before.blocks[b],
                        marks,
                        analyses.in_group[b],
                        analyses.out_group[b],
                        group_below(analyses.in_group[b], g + 1),
                        group_below(analyses.out_group[b], g + 1),
                    ) by {
                        assert(forall|s: int|
                            0 <= s < marks[g as int].len() ==> !#[trigger] marks[g as int]@[s]);
                        if analyses.in_group[b] matches Some(h) && h == g {
                            lemma_nothing_marked(
                                before.blocks[b].inputs,
                                marks,
                                analyses.in_group[b],
                            );
                        }
                        if analyses.out_group[b] matches Some(h) && h == g {
                            lemma_nothing_marked(
                                before.blocks[b].outputs,
                                marks,
                                analyses.out_group[b],
                            );
                        }
                    }
                }
            }
            g += 1;
        }
        proof {
            assert forall|b: int| 0 <= b < before.blocks.len() implies (
            #[trigger] program@.blocks[b]) == compacted_block(
                before.blocks[b],
                marks,
                analyses.in_group[b],
                analyses.out_group[b],
                true,
                true,
            ) by {
                if analyses.in_group[b] is None {
                    lemma_nothing_marked(before.blocks[b].inputs, marks, None);
                }
                if analyses.out_group[b] is None {
                    lemma_nothing_marked(before.blocks[b].outputs, marks, None);
                }
            }
        }
    }
}

/// Replacing inputs by their origins and compacting by marks that stand at the redundant slots
/// takes the redundant slots out.
pub(super) proof fn lemma_eliminated(
    before: ProgramView,
    after: ProgramView,
    analyses: AnalysesView,
    marks: Seq<Vec<bool>>,
    groups: int,
)
    requires
        analyses.wf(before.blocks.len() as int),
        after.functions == before.functions,
        after.cases == before.cases,
        after.next_free_local_id == before.next_free_local_id,
        after.blocks.len() == before.blocks.len(),
        forall|b: int|
            0 <= b < before.blocks.len() ==> #[trigger] after.blocks[b] == compacted_block(
                subst_block(canonical(forwarded_inputs(before, analyses)), before.blocks[b]),
                marks,
                analyses.in_group[b],
                analyses.out_group[b],
                true,
                true,
            ),
        forall|b: int| 0 <= b < before.blocks.len() ==> ((#[trigger] analyses.in_group[b])
            matches Some(g) ==> g < groups),
        forall|b: int| 0 <= b < before.blocks.len() ==> ((#[trigger] analyses.out_group[b])
            matches Some(g) ==> g < groups),
        forall|h: InOutGroupId, s: int|
            h < groups ==> (#[trigger] is_marked(marks, Some(h), s) <==> slot_is_redundant(
                before,
                analyses,
                Some(h),
                s,
            )),
    ensures
        after == eliminate_redundant_slots(before, analyses),
{
    let target = eliminate_redundant_slots(before, analyses);
    let origins = canonical(forwarded_inputs(before, analyses));
    assert forall|b: int| 0 <= b < before.blocks.len() implies (#[trigger] after.blocks[b])
        == target.blocks[b] by {
        let block = subst_block(origins, before.blocks[b]);
        let in_group = analyses.in_group[b];
        let out_group = analyses.out_group[b];
        lemma_keep_slots_agree(
            block.inputs,
            |slot: int| is_marked(marks, in_group, slot),
            |slot: int| slot_is_redundant(before, analyses, in_group, slot),
        );
        lemma_keep_slots_agree(
            block.outputs,
            |slot: int| is_marked(marks, out_group, slot),
            |slot: int| slot_is_redundant(before, analyses, out_group, slot),
        );
    }
    assert(after =~= target);
}

} // verus!
