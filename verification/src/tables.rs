//! Programs and analyses in plain terms: what their views show of their tables, and which of them
//! the pass takes.

use crate::analyses::{dominator_parent, is_dominator_tree, numbers_dominators_first, AnalysesStore};
use crate::ir::{
    apart, BasicBlockId, EthIRProgram, LocalId, OpKind, OpView, OperandList, Operation, ProgramView,
};
use crate::layout::{
    foreign_ops_stay, free_locals_stay, is_free, is_owned, lists_shrink, same_but_inputs,
    same_layout,
};
use crate::plain::is_walk_up;
use vstd::prelude::*;

verus! {

/// An operation of the table and what its view shows: what it does, the locals that it reads and
/// those that it gives out, wherever these are kept.
pub open spec fn op_shows(program: EthIRProgram, operation: Operation, view: OpView) -> bool {
    match operation {
        Operation::SetCopy { src, dst } => {
            &&& view.kind == OpKind::SetCopy
            &&& view.inputs.len() == 1 && view.inputs[0] == src
            &&& view.outputs.len() == 1 && view.outputs[0] == dst
        },
        Operation::Inline { opcode, ins, outs } => {
            &&& view.kind == OpKind::Inline(opcode)
            &&& view.inputs == ins@
            &&& view.outputs == outs@
        },
        Operation::AllocatedIns { opcode, ins_span, outs } => {
            &&& view.kind == OpKind::AllocatedIns(opcode)
            &&& view.inputs.len() == ins_span.end - ins_span.start
            &&& forall|i: int|
                0 <= i < view.inputs.len() ==> #[trigger] view.inputs[i]
                    == program.locals@[ins_span.start + i]
            &&& view.outputs == outs@
        },
        Operation::InternalCall { function, ins_start, outs_start } => {
            &&& view.kind == OpKind::InternalCall(function)
            &&& view.inputs.len() == outs_start - ins_start
            &&& forall|i: int|
                0 <= i < view.inputs.len() ==> #[trigger] view.inputs[i]
                    == program.locals@[ins_start + i]
            &&& view.outputs.len() == program.functions@[function as int].outputs
            &&& forall|i: int|
                0 <= i < view.outputs.len() ==> #[trigger] view.outputs[i]
                    == program.locals@[outs_start + i]
        },
    }
}

/// The view of a program shows its tables: every block with what lies in its spans, its operations
/// in their order, and its end; the functions, the cases and the bound of the locals.
pub proof fn law_view_shows_the_tables(program: EthIRProgram)
    requires
        program.wf(),
    ensures
        program@.functions == program.functions@,
        program@.next_free_local_id == program.next_free_local_id,
        program@.cases.len() == program.cases@.len(),
        forall|c: int|
            0 <= c < program.cases@.len() ==> #[trigger] program@.cases[c] == program.cases@[c]@,
        program@.blocks.len() == program.basic_blocks@.len(),
        forall|b: int|
            0 <= b < program.basic_blocks@.len() ==> {
                let block = program.basic_blocks@[b];
                let view = #[trigger] program@.blocks[b];
                &&& view.control == block.control
                &&& view.inputs.len() == block.inputs.end - block.inputs.start
                &&& forall|i: int|
                    0 <= i < view.inputs.len() ==> #[trigger] view.inputs[i]
                        == program.locals@[block.inputs.start + i]
                &&& view.outputs.len() == block.outputs.end - block.outputs.start
                &&& forall|i: int|
                    0 <= i < view.outputs.len() ==> #[trigger] view.outputs[i]
                        == program.locals@[block.outputs.start + i]
                &&& view.ops.len() == block.operations.end - block.operations.start
                &&& forall|o: int|
                    0 <= o < view.ops.len() ==> op_shows(
                        program,
                        program.operations@[block.operations.start + o],
                        #[trigger] view.ops[o],
                    )
            },
{
    assert forall|b: int| 0 <= b < program.basic_blocks@.len() implies {
        let block = program.basic_blocks@[b];
        let view = #[trigger] program@.blocks[b];
        &&& view.control == block.control
        &&& view.inputs.len() == block.inputs.end - block.inputs.start
        &&& forall|i: int|
            0 <= i < view.inputs.len() ==> #[trigger] view.inputs[i]
                == program.locals@[block.inputs.start + i]
        &&& view.outputs.len() == block.outputs.end - block.outputs.start
        &&& forall|i: int|
            0 <= i < view.outputs.len() ==> #[trigger] view.outputs[i]
                == program.locals@[block.outputs.start + i]
        &&& view.ops.len() == block.operations.end - block.operations.start
        &&& forall|o: int|
            0 <= o < view.ops.len() ==> op_shows(
                program,
                program.operations@[block.operations.start + o],
                #[trigger] view.ops[o],
            )
    } by {
        assert(program.has_list(OperandList::BlockInputs(b)));
        assert(program.has_list(OperandList::BlockOutputs(b)));
        let block = program.basic_blocks[b];
        let view = program@.blocks[b];
        assert(view == program.block_view(b));
        assert forall|o: int| 0 <= o < view.ops.len() implies op_shows(
            program,
            program.operations@[block.operations.start + o],
            #[trigger] view.ops[o],
        ) by {
            let at = block.operations.start + o;
            assert(program.has_list(OperandList::OpInputs(at)));
            assert(program.has_list(OperandList::OpOutputs(at)));
            assert(view.ops[o] == program.op_view(at));
        }
    }
}

/// What kind of operand list it is: what a block takes in, what a block hands on, what an operation
/// reads, what an operation gives out.
pub enum Holder {
    Inputs(int),
    Outputs(int),
    Reads(int),
    Gives(int),
}

/// The bounds of an operand list in the arena. One that an operation holds itself takes up none of it.
pub open spec fn held(program: EthIRProgram, holder: Holder) -> (int, int) {
    match holder {
        Holder::Inputs(b) => (
            program.basic_blocks@[b].inputs.start as int,
            program.basic_blocks@[b].inputs.end as int,
        ),
        Holder::Outputs(b) => (
            program.basic_blocks@[b].outputs.start as int,
            program.basic_blocks@[b].outputs.end as int,
        ),
        Holder::Reads(o) => match program.operations@[o] {
            Operation::AllocatedIns { ins_span, .. } => (
                ins_span.start as int,
                ins_span.end as int,
            ),
            Operation::InternalCall { ins_start, outs_start, .. } => (
                ins_start as int,
                outs_start as int,
            ),
            _ => (0, 0),
        },
        Holder::Gives(o) => match program.operations@[o] {
            Operation::InternalCall { function, outs_start, .. } => (
                outs_start as int,
                outs_start + program.functions@[function as int].outputs,
            ),
            _ => (0, 0),
        },
    }
}

/// The block or the operation is one of the program.
pub open spec fn holds(program: EthIRProgram, holder: Holder) -> bool {
    match holder {
        Holder::Inputs(b) => 0 <= b < program.basic_blocks@.len(),
        Holder::Outputs(b) => 0 <= b < program.basic_blocks@.len(),
        Holder::Reads(o) => 0 <= o < program.operations@.len(),
        Holder::Gives(o) => 0 <= o < program.operations@.len(),
    }
}

/// A program that the pass takes: positions fit the type of positions; operand lists lie inside the
/// arena and share no position of it; so do the operations of blocks in their table; and functions
/// that are called or start in a block exist.
pub open spec fn is_laid_out(program: EthIRProgram) -> bool {
    &&& program.basic_blocks@.len() <= u32::MAX
    &&& program.operations@.len() <= u32::MAX
    &&& program.locals@.len() <= u32::MAX
    &&& forall|holder: Holder| #[trigger]
        holds(program, holder) ==> 0 <= held(program, holder).0 <= held(program, holder).1
            <= program.locals@.len()
    &&& forall|holder: Holder, other: Holder, i: int|
        #![trigger holds(program, holder), holds(program, other), program.locals@[i]]
        holds(program, holder) && holds(program, other) && holder != other ==> !(held(
            program,
            holder,
        ).0 <= i < held(program, holder).1 && held(program, other).0 <= i < held(
            program,
            other,
        ).1)
    &&& forall|b: int|
        0 <= b < program.basic_blocks@.len() ==> (
        #[trigger] program.basic_blocks@[b]).operations.start
            <= program.basic_blocks@[b].operations.end <= program.operations@.len()
    &&& forall|b: int, c: int, o: int|
        #![trigger program.basic_blocks@[b], program.basic_blocks@[c], program.operations@[o]]
        0 <= b < program.basic_blocks@.len() && 0 <= c < program.basic_blocks@.len() && b != c
            ==> !(program.basic_blocks@[b].operations.start <= o
            < program.basic_blocks@[b].operations.end
            && program.basic_blocks@[c].operations.start <= o
            < program.basic_blocks@[c].operations.end)
    &&& forall|o: int|
        0 <= o < program.operations@.len() && (
        #[trigger] program.operations@[o]) is InternalCall
            ==> program.operations@[o]->InternalCall_function < program.functions@.len()
    &&& forall|f: int|
        0 <= f < program.functions@.len() ==> (#[trigger] program.functions@[f]).entry
            < program.basic_blocks@.len()
}

spec fn as_list(holder: Holder) -> OperandList {
    match holder {
        Holder::Inputs(b) => OperandList::BlockInputs(b),
        Holder::Outputs(b) => OperandList::BlockOutputs(b),
        Holder::Reads(o) => OperandList::OpInputs(o),
        Holder::Gives(o) => OperandList::OpOutputs(o),
    }
}

spec fn as_holder(list: OperandList) -> Holder {
    match list {
        OperandList::BlockInputs(b) => Holder::Inputs(b),
        OperandList::BlockOutputs(b) => Holder::Outputs(b),
        OperandList::OpInputs(o) => Holder::Reads(o),
        OperandList::OpOutputs(o) => Holder::Gives(o),
    }
}

/// The programs that the pass takes are those that are laid out so.
pub proof fn law_layout_invariant(program: EthIRProgram)
    ensures
        program.wf() <==> is_laid_out(program),
{
    assert forall|holder: Holder| #[trigger] holds(program, holder) implies program.has_list(
        as_list(holder),
    ) && program.list_range(as_list(holder)) == held(program, holder) by {}
    assert forall|list: OperandList| #[trigger] program.has_list(list) implies holds(
        program,
        as_holder(list),
    ) && program.list_range(list) == held(program, as_holder(list)) && as_list(as_holder(list))
        == list by {}
    if program.wf() {
        assert forall|holder: Holder| #[trigger] holds(program, holder) implies 0 <= held(
            program,
            holder,
        ).0 <= held(program, holder).1 <= program.locals@.len() by {
            assert(program.has_list(as_list(holder)));
        }
        assert forall|holder: Holder, other: Holder, i: int|
            #![trigger holds(program, holder), holds(program, other), program.locals@[i]]
            holds(program, holder) && holds(program, other) && holder != other implies !(held(
            program,
            holder,
        ).0 <= i < held(program, holder).1 && held(program, other).0 <= i < held(
            program,
            other,
        ).1) by {
            assert(program.has_list(as_list(holder)) && program.has_list(as_list(other)));
            assert(as_list(holder) != as_list(other));
        }
        assert forall|b: int, c: int, o: int|
            #![trigger program.basic_blocks@[b], program.basic_blocks@[c], program.operations@[o]]
            0 <= b < program.basic_blocks@.len() && 0 <= c < program.basic_blocks@.len() && b
                != c implies !(program.basic_blocks@[b].operations.start <= o
            < program.basic_blocks@[b].operations.end
            && program.basic_blocks@[c].operations.start <= o
            < program.basic_blocks@[c].operations.end) by {
            assert(apart(
                program.basic_blocks[b].operations.range(),
                program.basic_blocks[c].operations.range(),
            ));
        }
        assert forall|b: int| 0 <= b < program.basic_blocks@.len() implies (
        #[trigger] program.basic_blocks@[b]).operations.start
            <= program.basic_blocks@[b].operations.end <= program.operations@.len() by {
            assert(program.basic_blocks[b].operations.end <= program.operations.len());
        }
        assert forall|o: int|
            0 <= o < program.operations@.len() && (
            #[trigger] program.operations@[o]) is InternalCall implies
        program.operations@[o]->InternalCall_function < program.functions@.len() by {
            assert(program.operations[o] is InternalCall);
        }
        assert forall|f: int| 0 <= f < program.functions@.len() implies (
        #[trigger] program.functions@[f]).entry < program.basic_blocks@.len() by {
            assert(program.functions[f].entry < program.basic_blocks.len());
        }
    }
    if is_laid_out(program) {
        assert forall|list: OperandList| #[trigger] program.has_list(list) implies 0
            <= program.list_range(list).0 <= program.list_range(list).1 <= program.locals.len() by {
            assert(holds(program, as_holder(list)));
        }
        assert forall|a: OperandList, b: OperandList|
            #![trigger program.has_list(a), program.has_list(b)]
            program.has_list(a) && program.has_list(b) && a != b implies apart(
            program.list_range(a),
            program.list_range(b),
        ) by {
            assert(holds(program, as_holder(a)) && holds(program, as_holder(b)));
            assert(as_holder(a) != as_holder(b));
            let at = if program.list_range(a).0 <= program.list_range(b).0 {
                program.list_range(b).0
            } else {
                program.list_range(a).0
            };
            let held_there = program.locals@[at];
        }
        assert forall|a: int, b: int|
            #![trigger program.basic_blocks[a], program.basic_blocks[b]]
            0 <= a < program.basic_blocks.len() && 0 <= b < program.basic_blocks.len() && a
                != b implies apart(
            program.basic_blocks[a].operations.range(),
            program.basic_blocks[b].operations.range(),
        ) by {
            let first = program.basic_blocks@[a].operations;
            let second = program.basic_blocks@[b].operations;
            let at = if first.start <= second.start {
                second.start as int
            } else {
                first.start as int
            };
            let there = program.operations@[at];
        }
        assert forall|b: int| 0 <= b < program.basic_blocks.len() implies (
        #[trigger] program.basic_blocks[b]).operations.start
            <= program.basic_blocks[b].operations.end <= program.operations.len() by {
            assert(program.basic_blocks@[b].operations.end <= program.operations@.len());
        }
        assert forall|o: int| 0 <= o < program.operations.len() implies ((
        #[trigger] program.operations[o]) matches Operation::InternalCall { function, .. }
            ==> function < program.functions.len()) by {
            let operation = program.operations@[o];
        }
        assert forall|f: int| 0 <= f < program.functions.len() implies (
        #[trigger] program.functions[f]).entry < program.basic_blocks.len() by {
            assert(program.functions@[f].entry < program.basic_blocks@.len());
        }
    }
}

/// Where a local is set: at an input of a block, or at an output of an operation of a block.
pub enum Site {
    Input { b: int, i: int },
    Output { b: int, o: int, i: int },
}

/// The program sets `local` at this site.
pub open spec fn set_at(program: ProgramView, site: Site, local: LocalId) -> bool {
    match site {
        Site::Input { b, i } => {
            &&& 0 <= b < program.blocks.len()
            &&& 0 <= i < program.blocks[b].inputs.len()
            &&& program.blocks[b].inputs[i] == local
        },
        Site::Output { b, o, i } => {
            &&& 0 <= b < program.blocks.len()
            &&& 0 <= o < program.blocks[b].ops.len()
            &&& 0 <= i < program.blocks[b].ops[o].outputs.len()
            &&& program.blocks[b].ops[o].outputs[i] == local
        },
    }
}

/// Static single assignment: no local is set at two sites, and all that are set lie below the bound.
pub proof fn law_single_assignment(program: ProgramView)
    ensures
        program.ssa() <==> {
            &&& forall|site: Site, other: Site, local: LocalId| #[trigger]
                set_at(program, site, local) && #[trigger] set_at(program, other, local) ==> site
                    == other
            &&& forall|site: Site, local: LocalId| #[trigger]
                set_at(program, site, local) ==> local < program.next_free_local_id
        },
{
    assert forall|site: Site, local: LocalId| #[trigger] set_at(program, site, local) implies ({
        let b = match site {
            Site::Input { b, .. } => b,
            Site::Output { b, .. } => b,
        };
        program.blocks[b].defines(local)
    }) by {
        match site {
            Site::Input { b, i } => {
                assert(program.blocks[b].inputs.contains(local));
            },
            Site::Output { b, o, i } => {
                assert(program.blocks[b].ops[o].outputs.contains(local));
            },
        }
    }
    if program.ssa() {
        assert forall|site: Site, other: Site, local: LocalId| #[trigger]
            set_at(program, site, local) && #[trigger] set_at(program, other, local) implies site
            == other by {
            lemma_one_site(program, site, other, local);
        }
    }
    if {
        &&& forall|site: Site, other: Site, local: LocalId| #[trigger]
            set_at(program, site, local) && #[trigger] set_at(program, other, local) ==> site
                == other
        &&& forall|site: Site, local: LocalId| #[trigger]
            set_at(program, site, local) ==> local < program.next_free_local_id
    } {
        assert forall|b: int| 0 <= b < program.blocks.len() implies (
        #[trigger] program.blocks[b]).ssa() by {
            lemma_block_single(program, b);
        }
        assert forall|b1: int, b2: int, local: LocalId|
            0 <= b1 < program.blocks.len() && 0 <= b2 < program.blocks.len()
                && #[trigger] program.blocks[b1].defines(local)
                && #[trigger] program.blocks[b2].defines(local) implies b1 == b2 by {
            let s1 = lemma_site(program, b1, local);
            let s2 = lemma_site(program, b2, local);
        }
        assert forall|b: int, local: LocalId|
            0 <= b < program.blocks.len() && #[trigger] program.blocks[b].defines(
                local,
            ) implies local < program.next_free_local_id by {
            let s = lemma_site(program, b, local);
        }
    }
}

proof fn lemma_site(program: ProgramView, b: int, local: LocalId) -> (site: Site)
    requires
        0 <= b < program.blocks.len(),
        program.blocks[b].defines(local),
    ensures
        set_at(program, site, local),
        site matches Site::Input { b: c, .. } ==> c == b,
        site matches Site::Output { b: c, .. } ==> c == b,
{
    let block = program.blocks[b];
    if block.inputs.contains(local) {
        let i = choose|i: int| 0 <= i < block.inputs.len() && block.inputs[i] == local;
        Site::Input { b, i }
    } else {
        let o = choose|o: int|
            0 <= o < block.ops.len() && (#[trigger] block.ops[o]).outputs.contains(local);
        let outputs = block.ops[o].outputs;
        let i = choose|i: int| 0 <= i < outputs.len() && outputs[i] == local;
        Site::Output { b, o, i }
    }
}

proof fn lemma_one_site(program: ProgramView, site: Site, other: Site, local: LocalId)
    requires
        program.ssa(),
        set_at(program, site, local),
        set_at(program, other, local),
    ensures
        site == other,
{
    let b = match site {
        Site::Input { b, .. } => b,
        Site::Output { b, .. } => b,
    };
    let c = match other {
        Site::Input { b, .. } => b,
        Site::Output { b, .. } => b,
    };
    match site {
        Site::Input { b, i } => {
            assert(program.blocks[b].inputs.contains(local));
        },
        Site::Output { b, o, i } => {
            assert(program.blocks[b].ops[o].outputs.contains(local));
        },
    }
    match other {
        Site::Input { b, i } => {
            assert(program.blocks[b].inputs.contains(local));
        },
        Site::Output { b, o, i } => {
            assert(program.blocks[b].ops[o].outputs.contains(local));
        },
    }
    assert(program.blocks[b].defines(local));
    assert(program.blocks[c].defines(local));
    assert(program.blocks[b].ssa());
    if let Site::Output { b, o, i } = site {
        assert(program.blocks[b].ops[o].outputs.no_duplicates());
    }
}

proof fn lemma_block_single(program: ProgramView, b: int)
    requires
        0 <= b < program.blocks.len(),
        forall|site: Site, other: Site, local: LocalId| #[trigger]
            set_at(program, site, local) && #[trigger] set_at(program, other, local) ==> site
                == other,
    ensures
        program.blocks[b].ssa(),
{
    let block = program.blocks[b];
    assert forall|i: int, j: int|
        0 <= i < block.inputs.len() && 0 <= j < block.inputs.len() && i
            != j implies block.inputs[i] != block.inputs[j] by {
        assert(set_at(program, Site::Input { b, i }, block.inputs[i]));
        assert(set_at(program, Site::Input { b, i: j }, block.inputs[j]));
    }
    assert forall|o: int| 0 <= o < block.ops.len() implies (
    #[trigger] block.ops[o]).outputs.no_duplicates() by {
        let outputs = block.ops[o].outputs;
        assert forall|i: int, j: int|
            0 <= i < outputs.len() && 0 <= j < outputs.len() && i != j implies outputs[i]
            != outputs[j] by {
            assert(set_at(program, Site::Output { b, o, i }, outputs[i]));
            assert(set_at(program, Site::Output { b, o, i: j }, outputs[j]));
        }
    }
    assert forall|o: int, local: LocalId|
        0 <= o < block.ops.len() && #[trigger] block.ops[o].outputs.contains(
            local,
        ) implies !block.inputs.contains(local) by {
        let outputs = block.ops[o].outputs;
        let i = choose|i: int| 0 <= i < outputs.len() && outputs[i] == local;
        assert(set_at(program, Site::Output { b, o, i }, local));
        if block.inputs.contains(local) {
            let j = choose|j: int| 0 <= j < block.inputs.len() && block.inputs[j] == local;
            assert(set_at(program, Site::Input { b, i: j }, local));
        }
    }
    assert forall|o1: int, o2: int, local: LocalId|
        0 <= o1 < block.ops.len() && 0 <= o2 < block.ops.len()
            && #[trigger] block.ops[o1].outputs.contains(local)
            && #[trigger] block.ops[o2].outputs.contains(local) implies o1 == o2 by {
        let out1 = block.ops[o1].outputs;
        let out2 = block.ops[o2].outputs;
        let i = choose|i: int| 0 <= i < out1.len() && out1[i] == local;
        let j = choose|j: int| 0 <= j < out2.len() && out2[j] == local;
        assert(set_at(program, Site::Output { b, o: o1, i }, local));
        assert(set_at(program, Site::Output { b, o: o2, i: j }, local));
    }
}

/// A walk up from block `b` comes to a block that has no immediate dominator but itself.
pub open spec fn comes_to_a_root(idom: Seq<Option<BasicBlockId>>, b: int) -> bool {
    exists|walk: Seq<int>| #[trigger]
        is_walk_up(idom, walk) && walk[0] == b && ({
            let root = walk[walk.len() - 1];
            !(0 <= root < idom.len()) || idom[root] is None || idom[root]->0 == root
        })
}

/// The walk from a block to a root.
spec fn root_walk(idom: Seq<Option<BasicBlockId>>, b: int) -> Seq<int> {
    choose|walk: Seq<int>| #[trigger]
        is_walk_up(idom, walk) && walk[0] == b && ({
            let root = walk[walk.len() - 1];
            !(0 <= root < idom.len()) || idom[root] is None || idom[root]->0 == root
        })
}

proof fn lemma_root_walks(idom: Seq<Option<BasicBlockId>>, one: Seq<int>, two: Seq<int>)
    requires
        is_walk_up(idom, one),
        is_walk_up(idom, two),
        one[0] == two[0],
        dominator_parent(idom, one[one.len() - 1]) is None,
        dominator_parent(idom, two[two.len() - 1]) is None,
    ensures
        one.len() == two.len(),
    decreases one.len(),
{
    if one.len() == 1 {
        if two.len() > 1 {
            assert(0 <= two[0] < idom.len());
        }
    } else {
        assert(0 <= one[0] < idom.len());
        if two.len() == 1 {
        } else {
            assert(0 <= two[0] < idom.len());
            lemma_walk_tail(idom, one);
            lemma_walk_tail(idom, two);
            lemma_root_walks(idom, one.skip(1), two.skip(1));
        }
    }
}

proof fn lemma_walk_tail(idom: Seq<Option<BasicBlockId>>, walk: Seq<int>)
    requires
        is_walk_up(idom, walk),
        walk.len() > 1,
    ensures
        is_walk_up(idom, walk.skip(1)),
{
    let rest = walk.skip(1);
    assert forall|k: int| 0 <= k < rest.len() - 1 implies {
        &&& 0 <= #[trigger] rest[k] < idom.len()
        &&& idom[rest[k]] is Some
        &&& idom[rest[k]]->0 == rest[k + 1]
        &&& rest[k + 1] != rest[k]
    } by {
        assert(rest[k] == walk[k + 1]);
    }
}

/// The immediate dominators that the pass takes are those from which every walk up comes to a root.
pub proof fn law_dominator_trees(idom: Seq<Option<BasicBlockId>>)
    ensures
        is_dominator_tree(idom) <==> forall|b: int| #[trigger] comes_to_a_root(idom, b),
{
    if is_dominator_tree(idom) {
        let number = choose|number: spec_fn(int) -> nat| numbers_dominators_first(idom, number);
        assert forall|b: int| #[trigger] comes_to_a_root(idom, b) by {
            lemma_walk_to_root(idom, number, b);
        }
    }
    if forall|b: int| #[trigger] comes_to_a_root(idom, b) {
        let number = |b: int| root_walk(idom, b).len();
        assert forall|block: int|
            (#[trigger] dominator_parent(idom, block)) matches Some(parent) ==> number(parent)
                < number(block) by {
            if let Some(parent) = dominator_parent(idom, block) {
                assert(comes_to_a_root(idom, block));
                assert(comes_to_a_root(idom, parent));
                let walk = root_walk(idom, block);
                assert(walk.len() > 1);
                assert(walk[0] == block);
                assert(0 <= walk[0] < idom.len());
                assert(walk[1] == parent);
                lemma_walk_tail(idom, walk);
                let rest = walk.skip(1);
                assert(rest[rest.len() - 1] == walk[walk.len() - 1]);
                lemma_root_walks(idom, rest, root_walk(idom, parent));
            }
        }
        assert(numbers_dominators_first(idom, number));
    }
}

proof fn lemma_walk_to_root(
    idom: Seq<Option<BasicBlockId>>,
    number: spec_fn(int) -> nat,
    b: int,
) -> (walk: Seq<int>)
    requires
        numbers_dominators_first(idom, number),
    ensures
        is_walk_up(idom, walk),
        walk[0] == b,
        dominator_parent(idom, walk[walk.len() - 1]) is None,
        comes_to_a_root(idom, b),
    decreases number(b),
{
    match dominator_parent(idom, b) {
        None => {
            let walk = seq![b];
            assert(is_walk_up(idom, walk) && walk[0] == b);
            walk
        },
        Some(parent) => {
            let rest = lemma_walk_to_root(idom, number, parent);
            let walk = seq![b] + rest;
            assert forall|k: int| 0 <= k < walk.len() - 1 implies {
                &&& 0 <= #[trigger] walk[k] < idom.len()
                &&& idom[walk[k]] is Some
                &&& idom[walk[k]]->0 == walk[k + 1]
                &&& walk[k + 1] != walk[k]
            } by {
                if k > 0 {
                    assert(walk[k] == rest[k - 1]);
                    assert(walk[k + 1] == rest[k]);
                } else {
                    assert(walk[1] == rest[0]);
                }
            }
            assert(walk[walk.len() - 1] == rest[rest.len() - 1]);
            assert(is_walk_up(idom, walk) && walk[0] == b);
            walk
        },
    }
}

/// The stores that the pass takes for a program: an entry for every block, blocks and groups that
/// exist, and walks up that come to a root. And what their views show.
pub proof fn law_stores(store: AnalysesStore, blocks: int)
    ensures
        store@.idom == store.dominators.idom@,
        store@.in_group == store.in_out_bundling.in_group@,
        store@.out_group == store.in_out_bundling.out_group@,
        store@.total_groups == store.in_out_bundling.total_groups,
        store.wf(blocks) <==> {
            &&& store@.idom.len() == blocks
            &&& store@.in_group.len() == blocks
            &&& store@.out_group.len() == blocks
            &&& forall|b: int|
                0 <= b < blocks && (#[trigger] store@.idom[b]) is Some ==> store@.idom[b]->0
                    < blocks
            &&& forall|b: int|
                0 <= b < blocks && (#[trigger] store@.in_group[b]) is Some ==> store@.in_group[b]->0
                    < store@.total_groups
            &&& forall|b: int|
                0 <= b < blocks && (#[trigger] store@.out_group[b]) is Some
                    ==> store@.out_group[b]->0 < store@.total_groups
            &&& forall|b: int| #[trigger] comes_to_a_root(store@.idom, b)
        },
        store@.wf(blocks) <==> {
            &&& store@.idom.len() == blocks
            &&& store@.in_group.len() == blocks
            &&& store@.out_group.len() == blocks
            &&& forall|b: int| #[trigger] comes_to_a_root(store@.idom, b)
        },
{
    law_dominator_trees(store@.idom);
    if store.wf(blocks) {
        assert forall|b: int|
            0 <= b < blocks && (#[trigger] store@.idom[b]) is Some implies store@.idom[b]->0
            < blocks by {
            assert(store.dominators.idom[b] is Some);
        }
        assert forall|b: int|
            0 <= b < blocks && (#[trigger] store@.in_group[b]) is Some implies store@.in_group[b]->0
            < store@.total_groups by {
            assert(store.in_out_bundling.in_group[b] is Some);
        }
        assert forall|b: int|
            0 <= b < blocks && (
            #[trigger] store@.out_group[b]) is Some implies store@.out_group[b]->0
            < store@.total_groups by {
            assert(store.in_out_bundling.out_group[b] is Some);
        }
    }
    if {
        &&& store@.idom.len() == blocks
        &&& store@.in_group.len() == blocks
        &&& store@.out_group.len() == blocks
        &&& forall|b: int|
            0 <= b < blocks && (#[trigger] store@.idom[b]) is Some ==> store@.idom[b]->0 < blocks
        &&& forall|b: int|
            0 <= b < blocks && (#[trigger] store@.in_group[b]) is Some ==> store@.in_group[b]->0
                < store@.total_groups
        &&& forall|b: int|
            0 <= b < blocks && (#[trigger] store@.out_group[b]) is Some ==> store@.out_group[b]->0
                < store@.total_groups
        &&& forall|b: int| #[trigger] comes_to_a_root(store@.idom, b)
    } {
        assert forall|b: int| 0 <= b < blocks implies ((
        #[trigger] store.dominators.idom[b]) matches Some(d) ==> d < blocks) by {
            let dominator = store@.idom[b];
        }
        assert forall|b: int| 0 <= b < blocks implies ((
        #[trigger] store.in_out_bundling.in_group[b]) matches Some(g) ==> g
            < store.in_out_bundling.total_groups) by {
            let group = store@.in_group[b];
        }
        assert forall|b: int| 0 <= b < blocks implies ((
        #[trigger] store.in_out_bundling.out_group[b]) matches Some(g) ==> g
            < store.in_out_bundling.total_groups) by {
            let group = store@.out_group[b];
        }
    }
}

/// A position of the arena lies in no operand list, whoever holds it.
pub open spec fn lies_free(program: EthIRProgram, i: int) -> bool {
    forall|holder: Holder| #[trigger]
        holds(program, holder) ==> !(held(program, holder).0 <= i < held(program, holder).1)
}

/// An operation of the table lies in the operations of no block.
pub open spec fn is_of_no_block(program: EthIRProgram, o: int) -> bool {
    forall|b: int|
        0 <= b < program.basic_blocks@.len() ==> !((
        #[trigger] program.basic_blocks@[b]).operations.start <= o
            < program.basic_blocks@[b].operations.end)
}

/// An operation that changes at most in the locals that it reads and holds itself.
pub open spec fn keeps_its_form(before: Operation, after: Operation) -> bool {
    match before {
        Operation::SetCopy { src, dst } => after is SetCopy && after->SetCopy_dst == dst,
        Operation::Inline { opcode, ins, outs } => after is Inline && after->Inline_opcode == opcode
            && after->Inline_outs == outs,
        _ => after == before,
    }
}

/// What shrinking lists leave as it is.
pub proof fn law_what_shrinking_leaves(before: EthIRProgram, after: EthIRProgram)
    requires
        lists_shrink(before, after),
    ensures
        after.functions == before.functions,
        after.cases == before.cases,
        after.next_free_local_id == before.next_free_local_id,
        after.locals@.len() == before.locals@.len(),
        forall|i: int|
            0 <= i < before.locals@.len() && lies_free(before, i) ==> #[trigger] after.locals@[i]
                == before.locals@[i],
        after.operations@.len() == before.operations@.len(),
        forall|o: int|
            0 <= o < before.operations@.len() ==> keeps_its_form(
                before.operations@[o],
                #[trigger] after.operations@[o],
            ),
        forall|o: int|
            0 <= o < before.operations@.len() && is_of_no_block(before, o)
                ==> #[trigger] after.operations@[o] == before.operations@[o],
        after.basic_blocks@.len() == before.basic_blocks@.len(),
        forall|b: int|
            0 <= b < before.basic_blocks@.len() ==> {
                let now = #[trigger] after.basic_blocks@[b];
                let was = before.basic_blocks@[b];
                &&& now.operations == was.operations
                &&& now.inputs.start == was.inputs.start && now.inputs.end <= was.inputs.end
                &&& now.outputs.start == was.outputs.start && now.outputs.end <= was.outputs.end
            },
{
    lemma_tables_stay(before, after);
    assert forall|b: int| 0 <= b < before.basic_blocks@.len() implies {
        let now = #[trigger] after.basic_blocks@[b];
        let was = before.basic_blocks@[b];
        &&& now.operations == was.operations
        &&& now.inputs.start == was.inputs.start && now.inputs.end <= was.inputs.end
        &&& now.outputs.start == was.outputs.start && now.outputs.end <= was.outputs.end
    } by {
        assert(before.basic_blocks[b].operations == after.basic_blocks[b].operations);
    }
    assert forall|o: int| 0 <= o < before.operations@.len() implies keeps_its_form(
        before.operations@[o],
        #[trigger] after.operations@[o],
    ) by {
        assert(same_but_inputs(before.operations[o], after.operations[o]));
    }
}

/// What a layout that stays leaves as it is.
pub proof fn law_what_a_layout_leaves(before: EthIRProgram, after: EthIRProgram)
    requires
        same_layout(before, after),
        foreign_ops_stay(before, after),
        free_locals_stay(before, after),
    ensures
        after.functions == before.functions,
        after.cases == before.cases,
        after.next_free_local_id == before.next_free_local_id,
        after.locals@.len() == before.locals@.len(),
        forall|i: int|
            0 <= i < before.locals@.len() && lies_free(before, i) ==> #[trigger] after.locals@[i]
                == before.locals@[i],
        after.operations@.len() == before.operations@.len(),
        forall|o: int|
            0 <= o < before.operations@.len() ==> keeps_its_form(
                before.operations@[o],
                #[trigger] after.operations@[o],
            ),
        forall|o: int|
            0 <= o < before.operations@.len() && is_of_no_block(before, o)
                ==> #[trigger] after.operations@[o] == before.operations@[o],
        after.basic_blocks@.len() == before.basic_blocks@.len(),
        forall|b: int|
            0 <= b < before.basic_blocks@.len() ==> {
                let now = #[trigger] after.basic_blocks@[b];
                let was = before.basic_blocks@[b];
                &&& now.operations == was.operations
                &&& now.inputs == was.inputs
                &&& now.outputs == was.outputs
            },
{
    lemma_tables_stay(before, after);
    assert forall|b: int| 0 <= b < before.basic_blocks@.len() implies {
        let now = #[trigger] after.basic_blocks@[b];
        let was = before.basic_blocks@[b];
        &&& now.operations == was.operations
        &&& now.inputs == was.inputs
        &&& now.outputs == was.outputs
    } by {
        assert(before.basic_blocks[b].operations == after.basic_blocks[b].operations);
    }
    assert forall|o: int| 0 <= o < before.operations@.len() implies keeps_its_form(
        before.operations@[o],
        #[trigger] after.operations@[o],
    ) by {
        assert(same_but_inputs(before.operations[o], after.operations[o]));
    }
}

proof fn lemma_tables_stay(before: EthIRProgram, after: EthIRProgram)
    requires
        after.locals@.len() == before.locals@.len(),
        foreign_ops_stay(before, after),
        free_locals_stay(before, after),
    ensures
        forall|i: int|
            0 <= i < before.locals@.len() && lies_free(before, i) ==> #[trigger] after.locals@[i]
                == before.locals@[i],
        forall|o: int|
            0 <= o < before.operations@.len() && is_of_no_block(before, o)
                ==> #[trigger] after.operations@[o] == before.operations@[o],
{
    assert forall|i: int|
        0 <= i < before.locals@.len() && lies_free(before, i) implies #[trigger] after.locals@[i]
        == before.locals@[i] by {
        assert forall|list: OperandList| #[trigger] before.has_list(list) implies !(
        before.list_range(list).0 <= i < before.list_range(list).1) by {
            assert(holds(before, as_holder(list)));
        }
        assert(is_free(before, i));
    }
    assert forall|o: int|
        0 <= o < before.operations@.len() && is_of_no_block(before, o) implies
    #[trigger] after.operations@[o] == before.operations@[o] by {
        if is_owned(before, o) {
            let b = choose|b: int|
                0 <= b < before.basic_blocks.len() && (
                #[trigger] before.basic_blocks[b]).operations.start <= o
                    < before.basic_blocks[b].operations.end;
            assert(before.basic_blocks@[b].operations.start <= o);
        }
        assert(after.operations[o] == before.operations[o]);
    }
}

} // verus!
