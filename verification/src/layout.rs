//! What stays of the layout of a program while its contents change.

use crate::ir::{apart, EthIRProgram, LocalId, OperandList, Operation};
use vstd::prelude::*;

verus! {

/// Two operations that differ at most in the locals that they read and hold themselves.
pub open spec fn same_but_inputs(a: Operation, b: Operation) -> bool {
    match a {
        Operation::SetCopy { src, dst } => b matches Operation::SetCopy { dst: dst2, .. } && dst
            == dst2,
        Operation::Inline { opcode, ins, outs } => b matches Operation::Inline {
            opcode: opcode2,
            outs: outs2,
            ..
        } && opcode == opcode2 && outs == outs2,
        _ => a == b,
    }
}

/// Two programs with the same layout: they differ at most in the contents of the arena, in what
/// operations hold themselves as inputs, and in the ends of the blocks.
pub open spec fn same_layout(a: EthIRProgram, b: EthIRProgram) -> bool {
    &&& a.functions == b.functions
    &&& a.cases == b.cases
    &&& a.next_free_local_id == b.next_free_local_id
    &&& a.locals.len() == b.locals.len()
    &&& a.operations.len() == b.operations.len()
    &&& forall|o: int|
        0 <= o < a.operations.len() ==> same_but_inputs(
            #[trigger] a.operations[o],
            b.operations[o],
        )
    &&& a.basic_blocks.len() == b.basic_blocks.len()
    &&& forall|i: int|
        0 <= i < a.basic_blocks.len() ==> (#[trigger] a.basic_blocks[i]).inputs
            == b.basic_blocks[i].inputs && a.basic_blocks[i].outputs == b.basic_blocks[i].outputs
            && a.basic_blocks[i].operations == b.basic_blocks[i].operations
}

/// A program with the layout of a well-formed one is well-formed.
pub proof fn lemma_same_layout_wf(a: EthIRProgram, b: EthIRProgram)
    requires
        a.wf(),
        same_layout(a, b),
    ensures
        b.wf(),
        forall|list: OperandList| #[trigger] b.has_list(list) <==> a.has_list(list),
        forall|list: OperandList| #[trigger]
            a.has_list(list) ==> b.list_range(list) == a.list_range(list),
{
    assert forall|list: OperandList| #[trigger] a.has_list(list) implies b.list_range(list)
        == a.list_range(list) by {
        match list {
            OperandList::BlockInputs(i) => {
                assert(a.basic_blocks[i].inputs == b.basic_blocks[i].inputs);
            },
            OperandList::BlockOutputs(i) => {
                assert(a.basic_blocks[i].outputs == b.basic_blocks[i].outputs);
            },
            OperandList::OpInputs(o) => {
                assert(same_but_inputs(a.operations[o], b.operations[o]));
            },
            OperandList::OpOutputs(o) => {
                assert(same_but_inputs(a.operations[o], b.operations[o]));
            },
        }
    }
    assert forall|list: OperandList| #[trigger] b.has_list(list) implies 0 <= b.list_range(list).0
        <= b.list_range(list).1 <= b.locals.len() by {
        assert(a.has_list(list));
    }
    assert forall|l1: OperandList, l2: OperandList|
        #![trigger b.has_list(l1), b.has_list(l2)]
        b.has_list(l1) && b.has_list(l2) && l1 != l2 implies apart(
        b.list_range(l1),
        b.list_range(l2),
    ) by {
        assert(a.has_list(l1) && a.has_list(l2));
    }
    assert forall|i: int| 0 <= i < b.basic_blocks.len() implies (
    #[trigger] b.basic_blocks[i]).operations.start <= b.basic_blocks[i].operations.end
        <= b.operations.len() by {
        assert(a.basic_blocks[i].operations == b.basic_blocks[i].operations);
    }
    assert forall|i: int, j: int|
        #![trigger b.basic_blocks[i], b.basic_blocks[j]]
        0 <= i < b.basic_blocks.len() && 0 <= j < b.basic_blocks.len() && i != j implies apart(
        b.basic_blocks[i].operations.range(),
        b.basic_blocks[j].operations.range(),
    ) by {
        assert(a.basic_blocks[i].operations == b.basic_blocks[i].operations);
        assert(a.basic_blocks[j].operations == b.basic_blocks[j].operations);
    }
    assert forall|o: int| 0 <= o < b.operations.len() implies ((#[trigger] b.operations[o]) matches
        Operation::InternalCall { function, .. } ==> function < b.functions.len()) by {
        assert(same_but_inputs(a.operations[o], b.operations[o]));
    }
}

/// A change of the arena inside one operand list leaves the other lists as they are.
pub proof fn lemma_other_lists_keep(a: EthIRProgram, locals: Seq<LocalId>, owner: OperandList)
    requires
        a.wf(),
        a.has_list(owner),
        locals.len() == a.locals.len(),
        forall|i: int|
            0 <= i < locals.len() && !(a.list_range(owner).0 <= i < a.list_range(owner).1)
                ==> #[trigger] locals[i] == a.locals[i],
    ensures
        forall|list: OperandList| #[trigger]
            a.has_list(list) && list != owner ==> locals.subrange(
                a.list_range(list).0,
                a.list_range(list).1,
            ) == a.locals@.subrange(a.list_range(list).0, a.list_range(list).1),
{
    assert forall|list: OperandList| #[trigger]
        a.has_list(list) && list != owner implies locals.subrange(
        a.list_range(list).0,
        a.list_range(list).1,
    ) == a.locals@.subrange(a.list_range(list).0, a.list_range(list).1) by {
        assert(apart(a.list_range(list), a.list_range(owner)));
        assert(locals.subrange(a.list_range(list).0, a.list_range(list).1) =~= a.locals@.subrange(
            a.list_range(list).0,
            a.list_range(list).1,
        ));
    }
}

/// An operation of the table belongs to a block.
pub open spec fn is_owned(program: EthIRProgram, o: int) -> bool {
    exists|b: int|
        0 <= b < program.basic_blocks.len() && (
        #[trigger] program.basic_blocks[b]).operations.start <= o
            < program.basic_blocks[b].operations.end
}

/// Operations that belong to no block stay as they are.
pub open spec fn foreign_ops_stay(a: EthIRProgram, b: EthIRProgram) -> bool {
    forall|o: int|
        0 <= o < a.operations.len() && !#[trigger] is_owned(a, o) ==> b.operations[o]
            == a.operations[o] && b.op_view(o) == a.op_view(o)
}

/// A position of the arena lies in no operand list.
pub open spec fn is_free(program: EthIRProgram, i: int) -> bool {
    forall|list: OperandList| #[trigger]
        program.has_list(list) ==> !(program.list_range(list).0 <= i < program.list_range(list).1)
}

/// What the arena holds outside all operand lists stays as it is.
pub open spec fn free_locals_stay(a: EthIRProgram, b: EthIRProgram) -> bool {
    forall|i: int|
        0 <= i < a.locals.len() && #[trigger] is_free(a, i) ==> b.locals[i] == a.locals[i]
}

/// The tables of a program keep their lengths, the arena among them; functions, switch cases and
/// the bound of the locals stay; operations change at most in the locals that they read and hold
/// themselves; every block keeps its operations; and operand lists of blocks get shorter at most
/// at their end. What belongs to no block or lies in no operand list stays.
pub open spec fn lists_shrink(a: EthIRProgram, b: EthIRProgram) -> bool {
    &&& a.functions == b.functions
    &&& a.cases == b.cases
    &&& a.next_free_local_id == b.next_free_local_id
    &&& a.locals.len() == b.locals.len()
    &&& a.operations.len() == b.operations.len()
    &&& forall|o: int|
        0 <= o < a.operations.len() ==> same_but_inputs(
            #[trigger] a.operations[o],
            b.operations[o],
        )
    &&& a.basic_blocks.len() == b.basic_blocks.len()
    &&& forall|i: int|
        0 <= i < a.basic_blocks.len() ==> {
            &&& (#[trigger] a.basic_blocks[i]).operations == b.basic_blocks[i].operations
            &&& a.basic_blocks[i].inputs.start == b.basic_blocks[i].inputs.start
            &&& a.basic_blocks[i].inputs.end >= b.basic_blocks[i].inputs.end
            &&& a.basic_blocks[i].outputs.start == b.basic_blocks[i].outputs.start
            &&& a.basic_blocks[i].outputs.end >= b.basic_blocks[i].outputs.end
        }
    &&& foreign_ops_stay(a, b)
    &&& free_locals_stay(a, b)
}

/// Nothing changes but operand lists of blocks, which get shorter at most at their end: all
/// operations stay, with what they read and define, and so do the ends of the blocks.
pub open spec fn only_lists_shrink(a: EthIRProgram, b: EthIRProgram) -> bool {
    &&& lists_shrink(a, b)
    &&& a.operations == b.operations
    &&& forall|o: int| 0 <= o < a.operations.len() ==> #[trigger] b.op_view(o) == a.op_view(o)
    &&& forall|i: int|
        0 <= i < a.basic_blocks.len() ==> (#[trigger] a.basic_blocks[i]).control
            == b.basic_blocks[i].control
}

proof fn lemma_same_owned(a: EthIRProgram, b: EthIRProgram, o: int)
    requires
        a.basic_blocks.len() == b.basic_blocks.len(),
        forall|i: int|
            0 <= i < a.basic_blocks.len() ==> (#[trigger] a.basic_blocks[i]).operations
                == b.basic_blocks[i].operations,
    ensures
        is_owned(a, o) == is_owned(b, o),
{
    if is_owned(a, o) {
        let i = choose|i: int|
            0 <= i < a.basic_blocks.len() && (#[trigger] a.basic_blocks[i]).operations.start <= o
                < a.basic_blocks[i].operations.end;
        assert(a.basic_blocks[i].operations == b.basic_blocks[i].operations);
    }
    if is_owned(b, o) {
        let i = choose|i: int|
            0 <= i < b.basic_blocks.len() && (#[trigger] b.basic_blocks[i]).operations.start <= o
                < b.basic_blocks[i].operations.end;
        assert(a.basic_blocks[i].operations == b.basic_blocks[i].operations);
    }
}

/// Operations that stay in two steps stay.
pub proof fn lemma_foreign_ops_stay_transitive(a: EthIRProgram, b: EthIRProgram, c: EthIRProgram)
    requires
        a.operations.len() == b.operations.len(),
        a.basic_blocks.len() == b.basic_blocks.len(),
        forall|i: int|
            0 <= i < a.basic_blocks.len() ==> (#[trigger] a.basic_blocks[i]).operations
                == b.basic_blocks[i].operations,
        foreign_ops_stay(a, b),
        foreign_ops_stay(b, c),
    ensures
        foreign_ops_stay(a, c),
{
    assert forall|o: int| 0 <= o < a.operations.len() && !#[trigger] is_owned(a, o) implies (
    c.operations[o] == a.operations[o] && c.op_view(o) == a.op_view(o)) by {
        lemma_same_owned(a, b, o);
        assert(!is_owned(b, o));
    }
}

/// What is free stays free where the layout stays or lists shrink, so what stays in two steps
/// stays.
pub proof fn lemma_free_locals_stay_transitive(a: EthIRProgram, b: EthIRProgram, c: EthIRProgram)
    requires
        a.locals.len() == b.locals.len(),
        a.operations.len() == b.operations.len(),
        a.basic_blocks.len() == b.basic_blocks.len(),
        a.functions == b.functions,
        forall|o: int|
            0 <= o < a.operations.len() ==> same_but_inputs(
                #[trigger] a.operations[o],
                b.operations[o],
            ),
        forall|i: int|
            0 <= i < a.basic_blocks.len() ==> {
                &&& (#[trigger] a.basic_blocks[i]).inputs.start == b.basic_blocks[i].inputs.start
                &&& a.basic_blocks[i].inputs.end >= b.basic_blocks[i].inputs.end
                &&& a.basic_blocks[i].outputs.start == b.basic_blocks[i].outputs.start
                &&& a.basic_blocks[i].outputs.end >= b.basic_blocks[i].outputs.end
            },
        free_locals_stay(a, b),
        free_locals_stay(b, c),
    ensures
        free_locals_stay(a, c),
{
    assert forall|i: int| 0 <= i < a.locals.len() && #[trigger] is_free(a, i) implies (
    c.locals[i] == a.locals[i]) by {
        assert forall|list: OperandList| #[trigger] b.has_list(list) implies !(b.list_range(
            list,
        ).0 <= i < b.list_range(list).1) by {
            assert(a.has_list(list));
            match list {
                OperandList::BlockInputs(k) => {
                    assert(a.basic_blocks[k].inputs.start == b.basic_blocks[k].inputs.start);
                },
                OperandList::BlockOutputs(k) => {
                    assert(a.basic_blocks[k].outputs.start == b.basic_blocks[k].outputs.start);
                },
                OperandList::OpInputs(o) => {
                    assert(same_but_inputs(a.operations[o], b.operations[o]));
                },
                OperandList::OpOutputs(o) => {
                    assert(same_but_inputs(a.operations[o], b.operations[o]));
                },
            }
        }
        assert(is_free(b, i));
    }
}

/// Shrinking in two steps is shrinking.
pub proof fn lemma_lists_shrink_transitive(a: EthIRProgram, b: EthIRProgram, c: EthIRProgram)
    requires
        lists_shrink(a, b),
        lists_shrink(b, c),
    ensures
        lists_shrink(a, c),
        only_lists_shrink(a, b) && only_lists_shrink(b, c) ==> only_lists_shrink(a, c),
{
    lemma_foreign_ops_stay_transitive(a, b, c);
    lemma_free_locals_stay_transitive(a, b, c);
    assert forall|o: int| 0 <= o < a.operations.len() implies same_but_inputs(
        #[trigger] a.operations[o],
        c.operations[o],
    ) by {
        assert(same_but_inputs(a.operations[o], b.operations[o]));
        assert(same_but_inputs(b.operations[o], c.operations[o]));
    }
    assert forall|i: int| 0 <= i < a.basic_blocks.len() implies {
        &&& (#[trigger] a.basic_blocks[i]).operations == c.basic_blocks[i].operations
        &&& a.basic_blocks[i].inputs.start == c.basic_blocks[i].inputs.start
        &&& a.basic_blocks[i].inputs.end >= c.basic_blocks[i].inputs.end
        &&& a.basic_blocks[i].outputs.start == c.basic_blocks[i].outputs.start
        &&& a.basic_blocks[i].outputs.end >= c.basic_blocks[i].outputs.end
    } by {
        assert(b.basic_blocks[i].operations == c.basic_blocks[i].operations);
    }
    if only_lists_shrink(a, b) && only_lists_shrink(b, c) {
        assert forall|o: int| 0 <= o < a.operations.len() implies (#[trigger] c.op_view(o))
            == a.op_view(o) by {
            assert(b.op_view(o) == a.op_view(o));
        }
        assert forall|i: int| 0 <= i < a.basic_blocks.len() implies (
        #[trigger] a.basic_blocks[i]).control == c.basic_blocks[i].control by {
            assert(b.basic_blocks[i].control == c.basic_blocks[i].control);
        }
    }
}

/// Where the layout stays, and so does what belongs to no block or list, no list grows.
pub proof fn lemma_same_layout_shrinks(a: EthIRProgram, b: EthIRProgram)
    requires
        same_layout(a, b),
        foreign_ops_stay(a, b),
        free_locals_stay(a, b),
    ensures
        lists_shrink(a, b),
{
}

/// Two operations say the same, where they are kept and what they hold.
pub open spec fn same_operation(a: Operation, b: Operation) -> bool {
    match a {
        Operation::Inline { opcode, ins, outs } => b matches Operation::Inline {
            opcode: opcode2,
            ins: ins2,
            outs: outs2,
        } && opcode == opcode2 && ins@ == ins2@ && outs == outs2,
        _ => a == b,
    }
}

/// Two programs have the same tables, entry by entry, and the same arena.
pub open spec fn same_tables(a: EthIRProgram, b: EthIRProgram) -> bool {
    &&& a.functions == b.functions
    &&& a.cases == b.cases
    &&& a.next_free_local_id == b.next_free_local_id
    &&& a.basic_blocks@ == b.basic_blocks@
    &&& a.locals@ == b.locals@
    &&& a.operations.len() == b.operations.len()
    &&& forall|o: int|
        0 <= o < a.operations.len() ==> same_operation(#[trigger] a.operations[o], b.operations[o])
}

/// An operation stays where the program means the same and operations of no block stay.
proof fn lemma_same_view_op(a: EthIRProgram, b: EthIRProgram, o: int)
    requires
        same_layout(a, b),
        foreign_ops_stay(a, b),
        a@ == b@,
        0 <= o < a.operations.len(),
    ensures
        a.op_view(o) == b.op_view(o),
{
    if is_owned(a, o) {
        let k = choose|k: int|
            0 <= k < a.basic_blocks.len() && (#[trigger] a.basic_blocks[k]).operations.start <= o
                < a.basic_blocks[k].operations.end;
        let first = a.basic_blocks[k].operations.start;
        assert(a.basic_blocks[k].operations == b.basic_blocks[k].operations);
        assert(a@.blocks[k].ops[o - first] == a.op_view(o));
        assert(b@.blocks[k].ops[o - first] == b.op_view(o));
    }
}

/// Where the layout stays, and so does what belongs to no block or list, programs that mean the
/// same have the same tables.
pub proof fn lemma_same_tables(a: EthIRProgram, b: EthIRProgram)
    requires
        a.wf(),
        same_layout(a, b),
        foreign_ops_stay(a, b),
        free_locals_stay(a, b),
        a@ == b@,
    ensures
        same_tables(a, b),
{
    lemma_same_layout_wf(a, b);
    assert forall|k: int| 0 <= k < a.basic_blocks.len() implies (#[trigger] a.basic_blocks@[k])
        == b.basic_blocks@[k] by {
        assert(a.basic_blocks[k].inputs == b.basic_blocks[k].inputs);
        assert(a@.blocks[k] == a.block_view(k));
        assert(b@.blocks[k] == b.block_view(k));
        assert(a.basic_blocks[k] == b.basic_blocks[k]);
    }
    assert(a.basic_blocks@ =~= b.basic_blocks@);
    assert forall|i: int| 0 <= i < a.locals.len() implies (#[trigger] a.locals@[i])
        == b.locals@[i] by {
        if is_free(a, i) {
            assert(b.locals[i] == a.locals[i]);
        } else {
            let list = choose|list: OperandList| #[trigger]
                a.has_list(list) && a.list_range(list).0 <= i < a.list_range(list).1;
            let at = i - a.list_range(list).0;
            match list {
                OperandList::BlockInputs(k) => {
                    assert(a@.blocks[k].inputs[at] == a.locals[i]);
                    assert(b@.blocks[k].inputs[at] == b.locals[i]);
                },
                OperandList::BlockOutputs(k) => {
                    assert(a@.blocks[k].outputs[at] == a.locals[i]);
                    assert(b@.blocks[k].outputs[at] == b.locals[i]);
                },
                OperandList::OpInputs(o) => {
                    lemma_same_view_op(a, b, o);
                    assert(same_but_inputs(a.operations[o], b.operations[o]));
                    assert(a.op_view(o).inputs[at] == a.locals[i]);
                    assert(b.op_view(o).inputs[at] == b.locals[i]);
                },
                OperandList::OpOutputs(o) => {
                    lemma_same_view_op(a, b, o);
                    assert(same_but_inputs(a.operations[o], b.operations[o]));
                    assert(a.op_view(o).outputs[at] == a.locals[i]);
                    assert(b.op_view(o).outputs[at] == b.locals[i]);
                },
            }
        }
    }
    assert(a.locals@ =~= b.locals@);
    assert forall|o: int| 0 <= o < a.operations.len() implies same_operation(
        #[trigger] a.operations[o],
        b.operations[o],
    ) by {
        lemma_same_view_op(a, b, o);
        assert(same_but_inputs(a.operations[o], b.operations[o]));
        if let Operation::SetCopy { src, dst } = a.operations[o] {
            assert(a.op_view(o).inputs[0] == src);
            assert(b.op_view(o).inputs[0] == b.operations[o]->src);
        }
    }
}

} // verus!
