//! Replacing the locals that a program reads, in place.

use crate::ir::{apart, Control, EthIRProgram, LocalId, OperandList, Operation, Switch};
use crate::layout::{
    foreign_ops_stay, free_locals_stay, is_free, is_owned, lemma_foreign_ops_stay_transitive,
    lemma_free_locals_stay_transitive, lemma_other_lists_keep, lemma_same_layout_wf,
    same_but_inputs, same_layout,
};
use crate::local_map::LocalMap;
use crate::model::{subst, subst_all, subst_block, subst_control, subst_op, subst_program};
use crate::plain::{ends_alike, is_image, law_reads_become_images, reads_images};
use vstd::prelude::*;

verus! {

/// Replaces a local by its image under a map, if it has one.
pub fn replace_if_copied(input: &mut LocalId, copy_map: &LocalMap)
    ensures
        *final(input) == subst(copy_map@, *old(input)),
        is_image(copy_map@, *old(input), *final(input)),
{
    if let Some(replacement) = copy_map.get(*input) {
        *input = replacement;
    }
}

/// Replaces the locals from `from` up to `to` of a list by their images under a map.
fn replace_in_list(list: &mut Vec<LocalId>, from: usize, to: usize, copy_map: &LocalMap)
    requires
        from <= to <= old(list).len(),
    ensures
        final(list).len() == old(list).len(),
        forall|i: int|
            0 <= i < old(list).len() ==> #[trigger] final(list)[i] == if from <= i < to {
                subst(copy_map@, old(list)[i])
            } else {
                old(list)[i]
            },
{
    let ghost before = list@;
    let mut i: usize = from;
    while i < to
        invariant
            from <= i <= to <= list.len(),
            list.len() == before.len(),
            forall|j: int|
                0 <= j < before.len() ==> #[trigger] list[j] == if from <= j < i {
                    subst(copy_map@, before[j])
                } else {
                    before[j]
                },
        decreases to - i,
    {
        replace_if_copied(&mut list[i], copy_map);
        i += 1;
    }
}

/// Replaces the locals that an operation reads, wherever they are kept, by their images under a
/// map.
fn replace_op_inputs(op: &mut Operation, locals: &mut Vec<LocalId>, copy_map: &LocalMap)
    requires
        0 <= old(op).inputs_range().0 <= old(op).inputs_range().1 <= old(locals).len(),
    ensures
        same_but_inputs(*old(op), *final(op)),
        final(op).inputs(final(locals)@) == subst_all(copy_map@, old(op).inputs(old(locals)@)),
        final(locals).len() == old(locals).len(),
        forall|i: int|
            0 <= i < old(locals).len() && !(old(op).inputs_range().0 <= i < old(
                op,
            ).inputs_range().1) ==> #[trigger] final(locals)[i] == old(locals)[i],
{
    match op {
        Operation::SetCopy { src, .. } => {
            replace_if_copied(src, copy_map);
        },
        Operation::Inline { ins, .. } => {
            let len: usize = ins.len();
            replace_in_list(ins, 0, len, copy_map);
        },
        Operation::AllocatedIns { ins_span, .. } => {
            replace_in_list(locals, ins_span.start as usize, ins_span.end as usize, copy_map);
        },
        Operation::InternalCall { ins_start, outs_start, .. } => {
            replace_in_list(locals, *ins_start as usize, *outs_start as usize, copy_map);
        },
    }
    assert(op.inputs(locals@) =~= subst_all(copy_map@, old(op).inputs(old(locals)@)));
}

/// Replaces the local that the end of a block reads, if it reads one, by its image under a map.
pub fn replace_control_uses(control: &mut Control, copy_map: &LocalMap)
    ensures
        *final(control) == subst_control(copy_map@, *old(control)),
        ends_alike(
            *old(control),
            *final(control),
            |local: LocalId, image: LocalId| is_image(copy_map@, local, image),
        ),
{
    match control {
        Control::Branches(branch) => {
            replace_if_copied(&mut branch.condition, copy_map);
        },
        Control::Switch(switch) => {
            replace_if_copied(&mut switch.condition, copy_map);
        },
        _ => {},
    }
}

/// Replaces every local that a block reads by its image under a map.
pub fn replace_block_uses(program: &mut EthIRProgram, bb_id: usize, copy_map: &LocalMap)
    requires
        old(program).wf(),
        bb_id < old(program).basic_blocks.len(),
    ensures
        final(program).wf(),
        same_layout(*old(program), *final(program)),
        foreign_ops_stay(*old(program), *final(program)),
        free_locals_stay(*old(program), *final(program)),
        final(program)@.blocks == old(program)@.blocks.update(
            bb_id as int,
            subst_block(copy_map@, old(program)@.blocks[bb_id as int]),
        ),
{
    let ghost before = *program;
    let ops_span = program.basic_blocks[bb_id].operations;
    let mut op_idx: u32 = ops_span.start;
    while op_idx < ops_span.end
        invariant
            before.wf(),
            bb_id < before.basic_blocks.len(),
            ops_span == before.basic_blocks[bb_id as int].operations,
            ops_span.start <= op_idx <= ops_span.end <= before.operations.len(),
            same_layout(before, *program),
            program.wf(),
            program.basic_blocks == before.basic_blocks,
            free_locals_stay(before, *program),
            forall|o: int|
                0 <= o < before.operations.len() && !(ops_span.start <= o < op_idx)
                    ==> #[trigger] program.operations[o] == before.operations[o],
            forall|o: int|
                0 <= o < before.operations.len() ==> #[trigger] program.op_view(o) == if ops_span.start
                    <= o < op_idx {
                    subst_op(copy_map@, before.op_view(o))
                } else {
                    before.op_view(o)
                },
            forall|b: int|
                0 <= b < before.basic_blocks.len() ==> program.span_view(
                    (#[trigger] before.basic_blocks[b]).inputs,
                ) == before.span_view(before.basic_blocks[b].inputs) && program.span_view(
                    before.basic_blocks[b].outputs,
                ) == before.span_view(before.basic_blocks[b].outputs),
        decreases ops_span.end - op_idx,
    {
        let ghost prev = *program;
        let ghost owner = OperandList::OpInputs(op_idx as int);
        assert(prev.has_list(owner));
        replace_op_inputs(
            &mut program.operations[op_idx as usize],
            &mut program.locals,
            copy_map,
        );
        proof {
            assert(same_layout(prev, *program));
            lemma_same_layout_wf(prev, *program);
            lemma_other_lists_keep(prev, program.locals@, owner);
            assert forall|i: int| 0 <= i < prev.locals.len() && #[trigger] is_free(prev, i) implies (
            program.locals[i] == prev.locals[i]) by {
                assert(prev.has_list(owner));
            }
            lemma_free_locals_stay_transitive(before, prev, *program);
            assert forall|o: int| 0 <= o < before.operations.len() && o != op_idx implies (
            #[trigger] program.op_view(o)) == prev.op_view(o) by {
                assert(prev.has_list(OperandList::OpInputs(o)));
                assert(prev.has_list(OperandList::OpOutputs(o)));
            }
            assert(prev.has_list(OperandList::OpOutputs(op_idx as int)));
            assert(program.op_view(op_idx as int) == subst_op(
                copy_map@,
                prev.op_view(op_idx as int),
            ));
            assert forall|b: int| 0 <= b < before.basic_blocks.len() implies program.span_view(
                (#[trigger] before.basic_blocks[b]).inputs,
            ) == before.span_view(before.basic_blocks[b].inputs) && program.span_view(
                before.basic_blocks[b].outputs,
            ) == before.span_view(before.basic_blocks[b].outputs) by {
                assert(prev.has_list(OperandList::BlockInputs(b)));
                assert(prev.has_list(OperandList::BlockOutputs(b)));
            }
        }
        op_idx += 1;
    }
    let ghost after_ops = *program;
    let outputs = program.basic_blocks[bb_id].outputs;
    let ghost owner = OperandList::BlockOutputs(bb_id as int);
    assert(after_ops.has_list(owner));
    replace_in_list(
        &mut program.locals,
        outputs.start as usize,
        outputs.end as usize,
        copy_map,
    );
    proof {
        assert(same_layout(after_ops, *program));
        lemma_other_lists_keep(after_ops, program.locals@, owner);
        assert forall|i: int| 0 <= i < after_ops.locals.len() && #[trigger] is_free(
            after_ops,
            i,
        ) implies program.locals[i] == after_ops.locals[i] by {
            assert(after_ops.has_list(owner));
        }
        lemma_free_locals_stay_transitive(before, after_ops, *program);
    }
    let ghost after_outputs = *program;
    replace_control_uses(&mut program.basic_blocks[bb_id].control, copy_map);
    proof {
        assert(same_layout(before, *program));
        lemma_same_layout_wf(before, *program);
        assert forall|o: int| 0 <= o < before.operations.len() implies (
        #[trigger] program.op_view(o)) == after_ops.op_view(o) by {
            assert(after_ops.has_list(OperandList::OpInputs(o)));
            assert(after_ops.has_list(OperandList::OpOutputs(o)));
        }
        assert forall|o: int|
            0 <= o < before.operations.len() && !#[trigger] is_owned(before, o) implies (
        program.operations[o] == before.operations[o] && program.op_view(o) == before.op_view(o)) by {
            assert(before.basic_blocks[bb_id as int].operations == ops_span);
        }
        assert forall|b: int| 0 <= b < before.basic_blocks.len() implies (
        #[trigger] program.block_view(b)) == if b == bb_id {
            subst_block(copy_map@, before.block_view(b))
        } else {
            before.block_view(b)
        } by {
            let block = before.basic_blocks[b];
            assert(after_ops.has_list(OperandList::BlockInputs(b)));
            assert(after_ops.has_list(OperandList::BlockOutputs(b)));
            assert(program.span_view(block.inputs) == before.span_view(block.inputs));
            assert(apart(
                before.basic_blocks[b].operations.range(),
                before.basic_blocks[bb_id as int].operations.range(),
            ) || b == bb_id);
            if b == bb_id {
                assert(program.span_view(block.outputs) =~= subst_all(
                    copy_map@,
                    before.span_view(block.outputs),
                ));
                assert(program.block_view(b).ops =~= subst_block(
                    copy_map@,
                    before.block_view(b),
                ).ops);
            } else {
                assert(program.span_view(block.outputs) == before.span_view(block.outputs));
                assert(program.block_view(b).ops =~= before.block_view(b).ops);
            }
        }
        assert(program@.blocks =~= before@.blocks.update(
            bb_id as int,
            subst_block(copy_map@, before@.blocks[bb_id as int]),
        ));
    }
}

/// Replaces every local that the blocks of a program read by its image under a map.
pub fn replace_uses(program: &mut EthIRProgram, copy_map: &LocalMap)
    requires
        old(program).wf(),
    ensures
        final(program).wf(),
        same_layout(*old(program), *final(program)),
        foreign_ops_stay(*old(program), *final(program)),
        free_locals_stay(*old(program), *final(program)),
        final(program)@ == subst_program(copy_map@, old(program)@),
        reads_images(copy_map@, old(program)@, final(program)@),
{
    let ghost before = *program;
    let mut bb_id: usize = 0;
    while bb_id < program.basic_blocks.len()
        invariant
            program.wf(),
            same_layout(before, *program),
            foreign_ops_stay(before, *program),
            free_locals_stay(before, *program),
            bb_id <= before.basic_blocks.len(),
            forall|b: int|
                0 <= b < before.basic_blocks.len() ==> #[trigger] program@.blocks[b] == if b
                    < bb_id {
                    subst_block(copy_map@, before@.blocks[b])
                } else {
                    before@.blocks[b]
                },
        decreases before.basic_blocks.len() - bb_id,
    {
        let ghost prev = *program;
        replace_block_uses(program, bb_id, copy_map);
        proof {
            lemma_foreign_ops_stay_transitive(before, prev, *program);
            lemma_free_locals_stay_transitive(before, prev, *program);
        }
        bb_id += 1;
    }
    assert(program@ =~= subst_program(copy_map@, before@));
    proof {
        law_reads_become_images(copy_map@, before@);
    }
}

} // verus!
