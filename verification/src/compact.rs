//! Dropping slots of operand lists, in place.

use crate::ir::{apart, BlockView, EthIRProgram, LocalId, OperandList, Span};
use crate::layout::{is_free, lemma_other_lists_keep, only_lists_shrink};
use crate::model::keep_slots;
use crate::plain::{is_left, law_kept_is_left};
use vstd::prelude::*;

verus! {

/// Removes the marked slots from a span of the arena: the others move up to its start, in order,
/// and the span that they take up is returned.
pub fn compact_span(locals: &mut Vec<LocalId>, span: Span, remove: &Vec<bool>) -> (kept: Span)
    requires
        span.start <= span.end <= old(locals).len(),
        remove.len() == span.end - span.start,
    ensures
        kept.start == span.start,
        kept.start <= kept.end <= span.end,
        final(locals).len() == old(locals).len(),
        final(locals)@.subrange(kept.start as int, kept.end as int) == keep_slots(
            old(locals)@.subrange(span.start as int, span.end as int),
            |slot: int| remove[slot],
        ),
        is_left(
            final(locals)@.subrange(kept.start as int, kept.end as int),
            old(locals)@.subrange(span.start as int, span.end as int),
            |slot: int| remove[slot],
            |local: LocalId, same: LocalId| local == same,
        ),
        forall|i: int|
            0 <= i < old(locals).len() && !(kept.start <= i < kept.end)
                ==> #[trigger] final(locals)[i] == old(locals)[i],
{
    let ghost before = locals@;
    let ghost removed = |slot: int| remove[slot];
    let mut write: u32 = span.start;
    let mut slot: u32 = 0;
    let slots: u32 = span.len();
    assert(locals@.subrange(span.start as int, write as int) =~= keep_slots(
        before.subrange(span.start as int, span.start as int),
        removed,
    ));
    while slot < slots
        invariant
            slots == span.end - span.start,
            remove.len() == slots,
            slot <= slots,
            span.start <= span.end <= locals.len(),
            locals.len() == before.len(),
            span.start <= write <= span.start + slot,
            removed == (|slot: int| remove[slot]),
            locals@.subrange(span.start as int, write as int) == keep_slots(
                before.subrange(span.start as int, span.start + slot),
                removed,
            ),
            forall|i: int|
                0 <= i < before.len() && !(span.start <= i < write) ==> #[trigger] locals[i]
                    == before[i],
        decreases slots - slot,
    {
        let ghost read_to = before.subrange(span.start as int, span.start + slot + 1);
        assert(read_to.drop_last() =~= before.subrange(span.start as int, span.start + slot));
        assert(read_to.last() == before[span.start + slot]);
        if !remove[slot as usize] {
            let ghost prev = locals@;
            let local: LocalId = locals[(span.start + slot) as usize];
            locals[write as usize] = local;
            assert(locals@.subrange(span.start as int, write + 1) =~= prev.subrange(
                span.start as int,
                write as int,
            ).push(local));
            write += 1;
        }
        slot += 1;
    }
    proof {
        law_kept_is_left(before.subrange(span.start as int, span.end as int), removed);
    }
    Span::new(span.start, write)
}

/// One block of a program gets smaller operand lists in place of its own; the rest of the arena
/// stays. Then the program is well-formed, and only that block changes.
proof fn lemma_shrunk_block(a: EthIRProgram, b: EthIRProgram, bb_id: int, owner: OperandList)
    requires
        a.wf(),
        0 <= bb_id < a.basic_blocks.len(),
        owner == OperandList::BlockInputs(bb_id) || owner == OperandList::BlockOutputs(bb_id),
        b.functions == a.functions,
        b.operations == a.operations,
        b.cases == a.cases,
        b.next_free_local_id == a.next_free_local_id,
        b.locals.len() == a.locals.len(),
        b.basic_blocks.len() == a.basic_blocks.len(),
        forall|i: int|
            0 <= i < a.basic_blocks.len() && i != bb_id ==> #[trigger] b.basic_blocks[i]
                == a.basic_blocks[i],
        b.basic_blocks[bb_id].operations == a.basic_blocks[bb_id].operations,
        b.basic_blocks[bb_id].control == a.basic_blocks[bb_id].control,
        owner is BlockInputs ==> b.basic_blocks[bb_id].outputs == a.basic_blocks[bb_id].outputs,
        owner is BlockOutputs ==> b.basic_blocks[bb_id].inputs == a.basic_blocks[bb_id].inputs,
        b.list_range(owner).0 == a.list_range(owner).0,
        b.list_range(owner).0 <= b.list_range(owner).1 <= a.list_range(owner).1,
        forall|i: int|
            0 <= i < a.locals.len() && !(a.list_range(owner).0 <= i < a.list_range(owner).1)
                ==> #[trigger] b.locals[i] == a.locals[i],
    ensures
        b.wf(),
        only_lists_shrink(a, b),
        b@.blocks == a@.blocks.update(
            bb_id,
            if owner is BlockInputs {
                BlockView {
                    inputs: b.span_view(b.basic_blocks[bb_id].inputs),
                    ..a@.blocks[bb_id]
                }
            } else {
                BlockView {
                    outputs: b.span_view(b.basic_blocks[bb_id].outputs),
                    ..a@.blocks[bb_id]
                }
            },
        ),
{
    assert forall|list: OperandList| #[trigger] a.has_list(list) && list != owner implies (
    b.list_range(list) == a.list_range(list)) by {
        match list {
            OperandList::BlockInputs(i) => {
                assert(i != bb_id ==> b.basic_blocks[i] == a.basic_blocks[i]);
            },
            OperandList::BlockOutputs(i) => {
                assert(i != bb_id ==> b.basic_blocks[i] == a.basic_blocks[i]);
            },
            _ => {},
        }
    }
    assert forall|list: OperandList| #[trigger] b.has_list(list) implies 0 <= b.list_range(list).0
        <= b.list_range(list).1 <= b.locals.len() by {
        assert(a.has_list(list));
    }
    assert forall|l1: OperandList, l2: OperandList|
        #![trigger b.has_list(l1), b.has_list(l2)]
        b.has_list(l1) && b.has_list(l2) && l1 != l2 implies apart(
        b.list_range(l1),
        b.list_range(l2),
    ) by {
        assert(a.has_list(l1) && a.has_list(l2));
    }
    assert forall|i: int| 0 <= i < b.basic_blocks.len() implies (
    #[trigger] b.basic_blocks[i]).operations == a.basic_blocks[i].operations by {}
    assert(b.wf());
    lemma_other_lists_keep(a, b.locals@, owner);
    assert forall|i: int| 0 <= i < a.locals.len() && #[trigger] is_free(a, i) implies b.locals[i]
        == a.locals[i] by {
        assert(a.has_list(owner));
    }
    assert forall|o: int| 0 <= o < a.operations.len() implies (#[trigger] b.op_view(o))
        == a.op_view(o) by {
        assert(a.has_list(OperandList::OpInputs(o)));
        assert(a.has_list(OperandList::OpOutputs(o)));
    }
    assert forall|i: int| 0 <= i < a.basic_blocks.len() implies (#[trigger] b.block_view(i)).ops
        == a.block_view(i).ops by {
        assert(b.basic_blocks[i].operations == a.basic_blocks[i].operations);
        assert(b.block_view(i).ops =~= a.block_view(i).ops);
    }
    assert forall|i: int| 0 <= i < a.basic_blocks.len() && i != bb_id implies (
    #[trigger] b.block_view(i)) == a.block_view(i) by {
        assert(b.basic_blocks[i] == a.basic_blocks[i]);
        assert(a.has_list(OperandList::BlockInputs(i)));
        assert(a.has_list(OperandList::BlockOutputs(i)));
    }
    assert(a.has_list(OperandList::BlockInputs(bb_id)));
    assert(a.has_list(OperandList::BlockOutputs(bb_id)));
    assert(b@.blocks =~= a@.blocks.update(bb_id, b.block_view(bb_id)));
}

/// Removes the marked slots from the inputs of a block.
pub fn compact_inputs(program: &mut EthIRProgram, bb_id: usize, remove: &Vec<bool>)
    requires
        old(program).wf(),
        bb_id < old(program).basic_blocks.len(),
        remove.len() == old(program)@.blocks[bb_id as int].inputs.len(),
    ensures
        final(program).wf(),
        only_lists_shrink(*old(program), *final(program)),
        final(program)@.functions == old(program)@.functions,
        final(program)@.cases == old(program)@.cases,
        final(program)@.next_free_local_id == old(program)@.next_free_local_id,
        final(program)@.blocks == old(program)@.blocks.update(
            bb_id as int,
            BlockView {
                inputs: keep_slots(
                    old(program)@.blocks[bb_id as int].inputs,
                    |slot: int| remove[slot],
                ),
                ..old(program)@.blocks[bb_id as int]
            },
        ),
{
    let ghost before = *program;
    let ghost owner = OperandList::BlockInputs(bb_id as int);
    assert(before.has_list(owner));
    let inputs = program.basic_blocks[bb_id].inputs;
    let kept = compact_span(&mut program.locals, inputs, remove);
    program.basic_blocks[bb_id].inputs = kept;
    proof {
        lemma_shrunk_block(before, *program, bb_id as int, owner);
    }
}

/// Removes the marked slots from the outputs of a block.
pub fn compact_outputs(program: &mut EthIRProgram, bb_id: usize, remove: &Vec<bool>)
    requires
        old(program).wf(),
        bb_id < old(program).basic_blocks.len(),
        remove.len() == old(program)@.blocks[bb_id as int].outputs.len(),
    ensures
        final(program).wf(),
        only_lists_shrink(*old(program), *final(program)),
        final(program)@.functions == old(program)@.functions,
        final(program)@.cases == old(program)@.cases,
        final(program)@.next_free_local_id == old(program)@.next_free_local_id,
        final(program)@.blocks == old(program)@.blocks.update(
            bb_id as int,
            BlockView {
                outputs: keep_slots(
                    old(program)@.blocks[bb_id as int].outputs,
                    |slot: int| remove[slot],
                ),
                ..old(program)@.blocks[bb_id as int]
            },
        ),
{
    let ghost before = *program;
    let ghost owner = OperandList::BlockOutputs(bb_id as int);
    assert(before.has_list(owner));
    let outputs = program.basic_blocks[bb_id].outputs;
    let kept = compact_span(&mut program.locals, outputs, remove);
    program.basic_blocks[bb_id].outputs = kept;
    proof {
        lemma_shrunk_block(before, *program, bb_id as int, owner);
    }
}

} // verus!
