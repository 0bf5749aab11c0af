//! What the pass does to a program, stated over the program's view.

use crate::analyses::{dominates_strictly, AnalysesView, InOutGroupId};
use crate::ir::{BlockView, Branch, Control, LocalId, OpView, ProgramView, Switch};
use vstd::prelude::*;

verus! {

/// The local that stands for `local` under a map: its image, or itself.
pub open spec fn subst(map: Map<LocalId, LocalId>, local: LocalId) -> LocalId {
    if map.dom().contains(local) {
        map[local]
    } else {
        local
    }
}

/// A list of locals with each replaced under a map.
pub open spec fn subst_all(map: Map<LocalId, LocalId>, locals: Seq<LocalId>) -> Seq<LocalId> {
    Seq::new(locals.len(), |i: int| subst(map, locals[i]))
}

/// An operation with the locals that it reads replaced under a map.
pub open spec fn subst_op(map: Map<LocalId, LocalId>, op: OpView) -> OpView {
    OpView { kind: op.kind, inputs: subst_all(map, op.inputs), outputs: op.outputs }
}

/// The end of a block with the local that it reads replaced under a map.
pub open spec fn subst_control(map: Map<LocalId, LocalId>, control: Control) -> Control {
    match control {
        Control::Branches(branch) => Control::Branches(
            Branch { condition: subst(map, branch.condition), ..branch },
        ),
        Control::Switch(switch) => Control::Switch(
            Switch { condition: subst(map, switch.condition), ..switch },
        ),
        _ => control,
    }
}

/// A block with every local that it reads replaced under a map. What it defines stays.
pub open spec fn subst_block(map: Map<LocalId, LocalId>, block: BlockView) -> BlockView {
    BlockView {
        inputs: block.inputs,
        ops: Seq::new(block.ops.len(), |o: int| subst_op(map, block.ops[o])),
        outputs: subst_all(map, block.outputs),
        control: subst_control(map, block.control),
    }
}

/// A program with every local that its blocks read replaced under a map.
pub open spec fn subst_program(map: Map<LocalId, LocalId>, program: ProgramView) -> ProgramView {
    ProgramView {
        blocks: Seq::new(program.blocks.len(), |b: int| subst_block(map, program.blocks[b])),
        ..program
    }
}

/// What is known of the copies of a block behind one more operation: the target of a copy stands
/// for what its source stood for.
pub open spec fn with_copy(map: Map<LocalId, LocalId>, op: OpView) -> Map<LocalId, LocalId> {
    if op.kind is SetCopy {
        map.insert(op.outputs[0], subst(map, op.inputs[0]))
    } else {
        map
    }
}

/// The copies that a list of operations makes: each copied local with the local that its value
/// comes from.
pub open spec fn copies_of(ops: Seq<OpView>) -> Map<LocalId, LocalId>
    decreases ops.len(),
{
    if ops.len() == 0 {
        Map::empty()
    } else {
        with_copy(copies_of(ops.drop_last()), ops.last())
    }
}

/// A block in which the copies that it makes are read at their origin.
pub open spec fn propagate_block(block: BlockView) -> BlockView {
    subst_block(copies_of(block.ops), block)
}

/// A program in which every block reads the copies that it makes at their origin.
pub open spec fn propagate_copies(program: ProgramView) -> ProgramView {
    ProgramView {
        blocks: Seq::new(program.blocks.len(), |b: int| propagate_block(program.blocks[b])),
        ..program
    }
}

impl BlockView {
    /// The block defines this local, as an input or by an operation.
    pub open spec fn defines(self, local: LocalId) -> bool {
        self.inputs.contains(local) || exists|o: int|
            0 <= o < self.ops.len() && (#[trigger] self.ops[o]).outputs.contains(local)
    }

    /// No local is defined twice in the block.
    pub open spec fn ssa(self) -> bool {
        &&& self.inputs.no_duplicates()
        &&& forall|o: int|
            0 <= o < self.ops.len() ==> (#[trigger] self.ops[o]).outputs.no_duplicates()
        &&& forall|o: int, local: LocalId|
            0 <= o < self.ops.len() && #[trigger] self.ops[o].outputs.contains(local)
                ==> !self.inputs.contains(local)
        &&& forall|o1: int, o2: int, local: LocalId|
            0 <= o1 < self.ops.len() && 0 <= o2 < self.ops.len()
                && #[trigger] self.ops[o1].outputs.contains(local)
                && #[trigger] self.ops[o2].outputs.contains(local) ==> o1 == o2
    }
}

impl ProgramView {
    /// Static single assignment: no local is defined twice, and every defined local lies below
    /// the bound.
    pub open spec fn ssa(self) -> bool {
        &&& forall|b: int| 0 <= b < self.blocks.len() ==> (#[trigger] self.blocks[b]).ssa()
        &&& forall|b1: int, b2: int, local: LocalId|
            0 <= b1 < self.blocks.len() && 0 <= b2 < self.blocks.len()
                && #[trigger] self.blocks[b1].defines(local)
                && #[trigger] self.blocks[b2].defines(local) ==> b1 == b2
        &&& forall|b: int, local: LocalId|
            0 <= b < self.blocks.len() && #[trigger] self.blocks[b].defines(local) ==> local
                < self.next_free_local_id
    }

    /// Every copy has one local that it reads and one that it defines.
    pub open spec fn copies_one_local(self) -> bool {
        forall|b: int, o: int|
            0 <= b < self.blocks.len() && 0 <= o < self.blocks[b].ops.len() && (
            #[trigger] self.blocks[b].ops[o]).kind is SetCopy ==> self.blocks[b].ops[o].inputs.len()
                == 1 && self.blocks[b].ops[o].outputs.len() == 1
    }

    /// The block that defines a local.
    pub open spec fn definer(self, local: LocalId) -> int {
        choose|b: int| 0 <= b < self.blocks.len() && #[trigger] self.blocks[b].defines(local)
    }

    /// A function starts in this block.
    pub open spec fn is_function_entry(self, b: int) -> bool {
        exists|f: int| 0 <= f < self.functions.len() && (#[trigger] self.functions[f]).entry == b
    }
}

/// The inputs of block `b` belong to group `g`.
pub open spec fn in_member(analyses: AnalysesView, g: InOutGroupId, b: int) -> bool {
    0 <= b < analyses.in_group.len() && analyses.in_group[b] == Some(g)
}

/// The outputs of block `b` belong to group `g`.
pub open spec fn out_member(analyses: AnalysesView, g: InOutGroupId, b: int) -> bool {
    0 <= b < analyses.out_group.len() && analyses.out_group[b] == Some(g)
}

/// Values flow through group `g`: it has inputs and outputs, as many slots on each side, and no
/// block of it gets its inputs from a call.
pub open spec fn is_inner_group(
    program: ProgramView,
    analyses: AnalysesView,
    g: InOutGroupId,
) -> bool {
    &&& exists|i: int| in_member(analyses, g, i)
    &&& exists|o: int| out_member(analyses, g, o)
    &&& forall|i: int| #[trigger] in_member(analyses, g, i) ==> !program.is_function_entry(i)
    &&& forall|i: int, o: int| #[trigger]
        in_member(analyses, g, i) && #[trigger] out_member(analyses, g, o)
            ==> program.blocks[i].inputs.len() == program.blocks[o].outputs.len()
}

/// `local` is defined above every block that takes its inputs from group `g`.
pub open spec fn is_available(
    program: ProgramView,
    analyses: AnalysesView,
    g: InOutGroupId,
    local: LocalId,
) -> bool {
    exists|d: int|
        0 <= d < program.blocks.len() && #[trigger] program.blocks[d].defines(local) && forall|
            i: int,
        | #[trigger]
            in_member(analyses, g, i) ==> dominates_strictly(analyses.idom, d, i)
}

/// Whichever block hands its outputs to group `g`, slot `slot` holds `source`, and that local is
/// available where the inputs are taken. So the slot says nothing new.
pub open spec fn is_redundant(
    program: ProgramView,
    analyses: AnalysesView,
    g: InOutGroupId,
    slot: int,
    source: LocalId,
) -> bool {
    &&& is_inner_group(program, analyses, g)
    &&& forall|o: int| #[trigger]
        out_member(analyses, g, o) ==> 0 <= slot < program.blocks[o].outputs.len()
            && program.blocks[o].outputs[slot] == source
    &&& is_available(program, analyses, g, source)
}

/// A slot of a group is redundant.
pub open spec fn has_redundant_slot(program: ProgramView, analyses: AnalysesView) -> bool {
    exists|g: InOutGroupId, slot: int, source: LocalId|
        is_redundant(program, analyses, g, slot, source)
}

/// Slot `slot` of a group is redundant.
pub open spec fn slot_is_redundant(
    program: ProgramView,
    analyses: AnalysesView,
    group: Option<InOutGroupId>,
    slot: int,
) -> bool {
    group matches Some(g) && exists|source: LocalId|
        is_redundant(program, analyses, g, slot, source)
}

/// `input` is taken in through a redundant slot that holds `source`.
pub open spec fn is_forwarded(
    program: ProgramView,
    analyses: AnalysesView,
    input: LocalId,
    source: LocalId,
) -> bool {
    exists|b: int, slot: int|
        #![trigger program.blocks[b].inputs[slot]]
        0 <= b < program.blocks.len() && 0 <= slot < program.blocks[b].inputs.len()
            && program.blocks[b].inputs[slot] == input && (analyses.in_group[b] matches Some(g)
            && is_redundant(program, analyses, g, slot, source))
}

/// Every input that is taken in through a redundant slot, with the local that the slot holds.
pub open spec fn forwarded_inputs(
    program: ProgramView,
    analyses: AnalysesView,
) -> Map<LocalId, LocalId> {
    Map::new(
        |input: LocalId| exists|source: LocalId| is_forwarded(program, analyses, input, source),
        |input: LocalId| choose|source: LocalId| is_forwarded(program, analyses, input, source),
    )
}

/// The local reached from `local` in at most `steps` steps along a map.
pub open spec fn follow(map: Map<LocalId, LocalId>, local: LocalId, steps: nat) -> LocalId
    decreases steps,
{
    if steps == 0 || !map.dom().contains(local) {
        local
    } else {
        follow(map, map[local], (steps - 1) as nat)
    }
}

/// Following a map from `local` ends at `end`.
pub open spec fn resolves_to(map: Map<LocalId, LocalId>, local: LocalId, end: LocalId) -> bool {
    !map.dom().contains(end) && exists|steps: nat| #[trigger] follow(map, local, steps) == end
}

/// Following a map from `local` ends.
pub open spec fn resolves(map: Map<LocalId, LocalId>, local: LocalId) -> bool {
    exists|end: LocalId| resolves_to(map, local, end)
}

/// A map with every chain of it followed to its end. Keys from which no end is reached are left
/// out.
pub open spec fn canonical(map: Map<LocalId, LocalId>) -> Map<LocalId, LocalId> {
    Map::new(
        |local: LocalId| map.dom().contains(local) && resolves(map, local),
        |local: LocalId| choose|end: LocalId| resolves_to(map, local, end),
    )
}

/// A list without the slots that are removed.
pub open spec fn keep_slots(locals: Seq<LocalId>, removed: spec_fn(int) -> bool) -> Seq<LocalId>
    decreases locals.len(),
{
    if locals.len() == 0 {
        locals
    } else {
        let kept = keep_slots(locals.drop_last(), removed);
        if removed(locals.len() - 1) {
            kept
        } else {
            kept.push(locals.last())
        }
    }
}

/// Block `b` without its redundant slots, with the inputs that they brought in read at their
/// origin.
pub open spec fn eliminate_in_block(
    program: ProgramView,
    analyses: AnalysesView,
    b: int,
) -> BlockView {
    let origin = canonical(forwarded_inputs(program, analyses));
    let block = subst_block(origin, program.blocks[b]);
    BlockView {
        inputs: keep_slots(
            block.inputs,
            |slot: int| slot_is_redundant(program, analyses, analyses.in_group[b], slot),
        ),
        outputs: keep_slots(
            block.outputs,
            |slot: int| slot_is_redundant(program, analyses, analyses.out_group[b], slot),
        ),
        ..block
    }
}

/// A program without its redundant slots.
pub open spec fn eliminate_redundant_slots(
    program: ProgramView,
    analyses: AnalysesView,
) -> ProgramView {
    ProgramView {
        blocks: Seq::new(
            program.blocks.len(),
            |b: int| eliminate_in_block(program, analyses, b),
        ),
        ..program
    }
}

} // verus!
