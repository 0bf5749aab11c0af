//! The pass in plain terms.
//!
//! What is said here is said over the fields of programs and analyses alone: lists and their
//! positions, who hands what to whom, walks up the dominator tree, chains of locals. Nothing is
//! shared with the spec functions that compute what the pass makes of a program, so that these and
//! the pass are held to an account of their own.

use crate::analyses::{
    dominates_strictly, dominator_above, dominator_parent, AnalysesView, InOutGroupId,
};
use crate::ir::{BasicBlockId, BlockView, Control, LocalId, OpView, ProgramView};
use crate::laws::{
    law_control_flow_stays, law_no_copy_read, law_no_redundant_slot_left, law_operations_stay,
    lemma_round_copies, none_copied,
};
use crate::model::{
    canonical, copies_of, eliminate_redundant_slots, follow, forwarded_inputs, has_redundant_slot,
    in_member, is_available, is_inner_group, is_redundant, keep_slots, out_member, propagate_copies,
    resolves, resolves_to, slot_is_redundant, subst, subst_all, subst_program,
};
use crate::redundancy::{lemma_forwarded_entry, lemma_forwarded_site};
use crate::scope::{
    all_in_scope, condition_of, copies_before, in_scope, lemma_copies_stay, lemma_copies_step,
    lemma_origin_above, reads_in_scope,
};
use crate::settle::{
    lemma_eliminate_ssa, lemma_propagate_copies_ssa, lemma_round_decreases, output_slots, settle,
};
use vstd::prelude::*;

verus! {

/// A walk from block to block, each time to the immediate dominator, which is another block.
pub open spec fn is_walk_up(idom: Seq<Option<BasicBlockId>>, walk: Seq<int>) -> bool {
    &&& walk.len() > 0
    &&& forall|k: int|
        0 <= k < walk.len() - 1 ==> {
            &&& 0 <= #[trigger] walk[k] < idom.len()
            &&& idom[walk[k]] is Some
            &&& idom[walk[k]]->0 == walk[k + 1]
            &&& walk[k + 1] != walk[k]
        }
}

/// A walk up from block `b` comes to block `d`, after one step at least.
pub open spec fn stands_above(idom: Seq<Option<BasicBlockId>>, d: int, b: int) -> bool {
    exists|walk: Seq<int>| #[trigger]
        is_walk_up(idom, walk) && walk.len() >= 2 && walk[0] == b && walk[walk.len() - 1] == d
}

proof fn lemma_walk_to(idom: Seq<Option<BasicBlockId>>, b: int, steps: nat) -> (walk: Seq<int>)
    requires
        dominator_above(idom, b, steps) is Some,
    ensures
        is_walk_up(idom, walk),
        walk.len() == steps + 1,
        walk[0] == b,
        walk[steps as int] == dominator_above(idom, b, steps)->0,
    decreases steps,
{
    if steps == 0 {
        seq![b]
    } else {
        let parent = dominator_parent(idom, b)->0;
        let rest = lemma_walk_to(idom, parent, (steps - 1) as nat);
        let walk = seq![b] + rest;
        assert forall|k: int| 0 <= k < walk.len() - 1 implies {
            &&& 0 <= #[trigger] walk[k] < idom.len()
            &&& idom[walk[k]] is Some
            &&& idom[walk[k]]->0 == walk[k + 1]
            &&& walk[k + 1] != walk[k]
        } by {
            if k > 0 {
                assert(walk[k] == rest[k - 1]);
                assert(walk[k + 1] == rest[k]);
            } else {
                assert(walk[1] == rest[0]);
            }
        }
        walk
    }
}

proof fn lemma_walk_is_above(idom: Seq<Option<BasicBlockId>>, walk: Seq<int>)
    requires
        is_walk_up(idom, walk),
    ensures
        dominator_above(idom, walk[0], (walk.len() - 1) as nat) == Some(walk[walk.len() - 1]),
    decreases walk.len(),
{
    if walk.len() > 1 {
        let rest = walk.skip(1);
        assert forall|k: int| 0 <= k < rest.len() - 1 implies {
            &&& 0 <= #[trigger] rest[k] < idom.len()
            &&& idom[rest[k]] is Some
            &&& idom[rest[k]]->0 == rest[k + 1]
            &&& rest[k + 1] != rest[k]
        } by {
            assert(rest[k] == walk[k + 1]);
        }
        lemma_walk_is_above(idom, rest);
        assert(0 <= walk[0] < idom.len());
        assert(dominator_parent(idom, walk[0]) == Some(walk[1]));
    }
}

/// To lie above in the dominator tree is to be come to by a walk up.
pub proof fn law_above_is_a_walk(idom: Seq<Option<BasicBlockId>>, d: int, b: int)
    ensures
        dominates_strictly(idom, d, b) <==> stands_above(idom, d, b),
{
    if dominates_strictly(idom, d, b) {
        let steps = choose|steps: nat|
            steps > 0 && #[trigger] dominator_above(idom, b, steps) == Some(d);
        let walk = lemma_walk_to(idom, b, steps);
        assert(is_walk_up(idom, walk) && walk.len() >= 2);
    }
    if stands_above(idom, d, b) {
        let walk = choose|walk: Seq<int>| #[trigger]
            is_walk_up(idom, walk) && walk.len() >= 2 && walk[0] == b && walk[walk.len() - 1] == d;
        lemma_walk_is_above(idom, walk);
    }
}

/// Block `t` takes its inputs from group `g`.
pub open spec fn takes_from(analyses: AnalysesView, g: InOutGroupId, t: int) -> bool {
    0 <= t < analyses.in_group.len() && analyses.in_group[t] == Some(g)
}

/// Block `o` hands its outputs to group `g`.
pub open spec fn hands_to(analyses: AnalysesView, g: InOutGroupId, o: int) -> bool {
    0 <= o < analyses.out_group.len() && analyses.out_group[o] == Some(g)
}

/// Block `b` sets `local`: it takes it in, or an operation of it, whichever it is, gives it out.
pub open spec fn sets(block: BlockView, local: LocalId) -> bool {
    ||| exists|i: int| 0 <= i < block.inputs.len() && #[trigger] block.inputs[i] == local
    ||| exists|o: int, i: int|
        0 <= o < block.ops.len() && 0 <= i < block.ops[o].outputs.len()
            && #[trigger] block.ops[o].outputs[i] == local
}

/// Slot `slot` of group `g` says nothing new: somebody hands to the group and somebody takes from
/// it, as many locals on both sides; no function starts where they are taken; all hand on `local`
/// at the slot; and a block that sets `local` stands above all who take.
pub open spec fn says_nothing_new(
    program: ProgramView,
    analyses: AnalysesView,
    g: InOutGroupId,
    slot: int,
    local: LocalId,
) -> bool {
    &&& exists|t: int| takes_from(analyses, g, t)
    &&& exists|o: int| hands_to(analyses, g, o)
    &&& forall|t: int, f: int|
        #![trigger takes_from(analyses, g, t), program.functions[f]]
        takes_from(analyses, g, t) && 0 <= f < program.functions.len()
            ==> program.functions[f].entry != t
    &&& forall|t: int, o: int| #[trigger]
        takes_from(analyses, g, t) && #[trigger] hands_to(analyses, g, o)
            ==> program.blocks[t].inputs.len() == program.blocks[o].outputs.len()
    &&& forall|o: int| #[trigger]
        hands_to(analyses, g, o) ==> 0 <= slot < program.blocks[o].outputs.len()
            && program.blocks[o].outputs[slot] == local
    &&& exists|d: int|
        0 <= d < program.blocks.len() && #[trigger] sets(program.blocks[d], local) && forall|
            t: int,
        | #[trigger]
            takes_from(analyses, g, t) ==> stands_above(analyses.idom, d, t)
}

proof fn lemma_sets(block: BlockView, local: LocalId)
    ensures
        sets(block, local) <==> block.defines(local),
{
    if block.inputs.contains(local) {
        let i = choose|i: int| 0 <= i < block.inputs.len() && block.inputs[i] == local;
        assert(block.inputs[i] == local);
    } else if block.defines(local) {
        let o = choose|o: int|
            0 <= o < block.ops.len() && (#[trigger] block.ops[o]).outputs.contains(local);
        let outputs = block.ops[o].outputs;
        let i = choose|i: int| 0 <= i < outputs.len() && outputs[i] == local;
        assert(block.ops[o].outputs[i] == local);
    }
    if sets(block, local) && !block.inputs.contains(local) {
        let (o, i) = choose|o: int, i: int|
            0 <= o < block.ops.len() && 0 <= i < block.ops[o].outputs.len()
                && #[trigger] block.ops[o].outputs[i] == local;
        assert(block.ops[o].outputs.contains(local));
    }
}

/// A slot is redundant just where it says nothing new.
pub proof fn law_redundant_says_nothing_new(
    program: ProgramView,
    analyses: AnalysesView,
    g: InOutGroupId,
    slot: int,
    local: LocalId,
)
    ensures
        is_redundant(program, analyses, g, slot, local) <==> says_nothing_new(
            program,
            analyses,
            g,
            slot,
            local,
        ),
{
    assert forall|t: int| #[trigger] takes_from(analyses, g, t) == in_member(analyses, g, t) by {}
    assert forall|o: int| #[trigger] hands_to(analyses, g, o) == out_member(analyses, g, o) by {}
    if is_redundant(program, analyses, g, slot, local) {
        let i = choose|i: int| in_member(analyses, g, i);
        let o = choose|o: int| out_member(analyses, g, o);
        assert(takes_from(analyses, g, i));
        assert(hands_to(analyses, g, o));
        assert forall|t: int, f: int|
            #![trigger takes_from(analyses, g, t), program.functions[f]]
            takes_from(analyses, g, t) && 0 <= f
                < program.functions.len() implies program.functions[f].entry != t by {
            assert(in_member(analyses, g, t));
            assert(!program.is_function_entry(t));
        }
        assert forall|t: int, o: int| #[trigger]
            takes_from(analyses, g, t) && #[trigger] hands_to(
                analyses,
                g,
                o,
            ) implies program.blocks[t].inputs.len() == program.blocks[o].outputs.len() by {
            assert(in_member(analyses, g, t) && out_member(analyses, g, o));
        }
        let d = choose|d: int|
            0 <= d < program.blocks.len() && #[trigger] program.blocks[d].defines(local) && forall|
                i: int,
            | #[trigger]
                in_member(analyses, g, i) ==> dominates_strictly(analyses.idom, d, i);
        lemma_sets(program.blocks[d], local);
        assert forall|t: int| #[trigger] takes_from(analyses, g, t) implies stands_above(
            analyses.idom,
            d,
            t,
        ) by {
            assert(in_member(analyses, g, t));
            law_above_is_a_walk(analyses.idom, d, t);
        }
        assert(sets(program.blocks[d], local));
    }
    if says_nothing_new(program, analyses, g, slot, local) {
        let t = choose|t: int| takes_from(analyses, g, t);
        let o = choose|o: int| hands_to(analyses, g, o);
        assert(in_member(analyses, g, t));
        assert(out_member(analyses, g, o));
        assert forall|i: int| #[trigger] in_member(
            analyses,
            g,
            i,
        ) implies !program.is_function_entry(i) by {
            assert(takes_from(analyses, g, i));
        }
        assert forall|i: int, o: int| #[trigger]
            in_member(analyses, g, i) && #[trigger] out_member(
                analyses,
                g,
                o,
            ) implies program.blocks[i].inputs.len() == program.blocks[o].outputs.len() by {
            assert(takes_from(analyses, g, i) && hands_to(analyses, g, o));
        }
        assert(is_inner_group(program, analyses, g));
        let d = choose|d: int|
            0 <= d < program.blocks.len() && #[trigger] sets(program.blocks[d], local) && forall|
                t: int,
            | #[trigger]
                takes_from(analyses, g, t) ==> stands_above(analyses.idom, d, t);
        lemma_sets(program.blocks[d], local);
        assert forall|i: int| #[trigger] in_member(analyses, g, i) implies dominates_strictly(
            analyses.idom,
            d,
            i,
        ) by {
            assert(takes_from(analyses, g, i));
            law_above_is_a_walk(analyses.idom, d, i);
        }
        assert(program.blocks[d].defines(local));
        assert(is_available(program, analyses, g, local));
        assert forall|o: int| #[trigger] out_member(analyses, g, o) implies 0 <= slot
            < program.blocks[o].outputs.len() && program.blocks[o].outputs[slot] == local by {
            assert(hands_to(analyses, g, o));
        }
    }
}

/// How a block ends stays: in the same way, with the same targets and cases, and where a local is
/// read it becomes another as `becomes` says.
pub open spec fn ends_alike(
    before: Control,
    after: Control,
    becomes: spec_fn(LocalId, LocalId) -> bool,
) -> bool {
    match before {
        Control::LastOpTerminates => after is LastOpTerminates,
        Control::InternalReturn => after is InternalReturn,
        Control::ContinuesTo(target) => after == Control::ContinuesTo(target),
        Control::Branches(branch) => {
            &&& after is Branches
            &&& after->Branches_0.non_zero_target == branch.non_zero_target
            &&& after->Branches_0.zero_target == branch.zero_target
            &&& becomes(branch.condition, after->Branches_0.condition)
        },
        Control::Switch(switch) => {
            &&& after is Switch
            &&& after->Switch_0.fallback == switch.fallback
            &&& after->Switch_0.cases == switch.cases
            &&& becomes(switch.condition, after->Switch_0.condition)
        },
    }
}

/// Operations stay: as many, doing the same, giving out the same locals, and reading as many, of
/// which each becomes another as `becomes` says.
pub open spec fn ops_alike(
    before: Seq<OpView>,
    after: Seq<OpView>,
    becomes: spec_fn(LocalId, LocalId) -> bool,
) -> bool {
    &&& after.len() == before.len()
    &&& forall|o: int|
        0 <= o < before.len() ==> {
            &&& (#[trigger] after[o]).kind == before[o].kind
            &&& after[o].outputs == before[o].outputs
            &&& after[o].inputs.len() == before[o].inputs.len()
        }
    &&& forall|o: int, i: int|
        0 <= o < before.len() && 0 <= i < before[o].inputs.len() ==> becomes(
            before[o].inputs[i],
            #[trigger] after[o].inputs[i],
        )
}

/// Operation `j` of a block copies into `local`.
pub open spec fn copies_into(ops: Seq<OpView>, j: int, local: LocalId) -> bool {
    0 <= j < ops.len() && ops[j].kind is SetCopy && ops[j].outputs[0] == local
}

/// Inside a block reads of `old` become reads of `new`. A local that no operation of the block copies
/// into is read as before. One that an operation copies into is read as what that operation copies
/// from, or, where an earlier operation copies into that in turn, as what the copying operation
/// itself now reads.
pub open spec fn read_past_copies(
    before: Seq<OpView>,
    after: Seq<OpView>,
    old_local: LocalId,
    new_local: LocalId,
) -> bool {
    &&& (forall|j: int| !#[trigger] copies_into(before, j, old_local)) ==> new_local == old_local
    &&& forall|j: int| #[trigger]
        copies_into(before, j, old_local) ==> new_local == if exists|i: int|
            i < j && copies_into(before, i, before[j].inputs[0]) {
            after[j].inputs[0]
        } else {
            before[j].inputs[0]
        }
}

/// In every block all reads are past the copies of the block, and nothing else changes.
pub open spec fn reads_past_copies(before: ProgramView, after: ProgramView) -> bool {
    &&& after.functions == before.functions
    &&& after.cases == before.cases
    &&& after.next_free_local_id == before.next_free_local_id
    &&& after.blocks.len() == before.blocks.len()
    &&& forall|b: int|
        0 <= b < before.blocks.len() ==> block_reads_past_copies(
            before.blocks[b],
            #[trigger] after.blocks[b],
        )
}

/// In a block all reads, of operations, of what is handed on and of the end, are past the copies of
/// the block, and nothing else changes.
pub open spec fn block_reads_past_copies(before: BlockView, after: BlockView) -> bool {
    let becomes = |old_local: LocalId, new_local: LocalId|
        read_past_copies(before.ops, after.ops, old_local, new_local);
    &&& after.inputs == before.inputs
    &&& ops_alike(before.ops, after.ops, becomes)
    &&& after.outputs.len() == before.outputs.len()
    &&& forall|i: int|
        0 <= i < before.outputs.len() ==> becomes(before.outputs[i], #[trigger] after.outputs[i])
    &&& ends_alike(before.control, after.control, becomes)
}

proof fn lemma_copies_entry(ops: Seq<OpView>, o: int, local: LocalId)
    requires
        0 <= o <= ops.len(),
    ensures
        copies_before(ops, o).dom().contains(local) <==> exists|j: int|
            j < o && copies_into(ops, j, local),
    decreases o,
{
    if o == 0 {
        assert(ops.take(0) =~= Seq::empty());
    } else {
        lemma_copies_step(ops, o - 1);
        lemma_copies_entry(ops, o - 1, local);
        if copies_before(ops, o).dom().contains(local) {
            if copies_into(ops, o - 1, local) {
            } else {
                let j = choose|j: int| j < o - 1 && copies_into(ops, j, local);
                assert(copies_into(ops, j, local));
            }
        }
        if exists|j: int| j < o && copies_into(ops, j, local) {
            let j = choose|j: int| j < o && copies_into(ops, j, local);
            assert(copies_into(ops, j, local));
        }
    }
}

/// A local has an entry among the copies of a block just where an operation copies into it.
pub proof fn law_copied_locals(ops: Seq<OpView>, local: LocalId)
    ensures
        copies_of(ops).dom().contains(local) <==> exists|j: int| copies_into(ops, j, local),
{
    lemma_copies_entry(ops, ops.len() as int, local);
    assert(ops.take(ops.len() as int) =~= ops);
    if exists|j: int| copies_into(ops, j, local) {
        let j = choose|j: int| copies_into(ops, j, local);
        assert(j < ops.len() && copies_into(ops, j, local));
    }
}

proof fn lemma_entry_of_copy(program: ProgramView, b: int, o: int, j: int, local: LocalId)
    requires
        program.ssa(),
        program.copies_one_local(),
        0 <= b < program.blocks.len(),
        0 <= j < o <= program.blocks[b].ops.len(),
        copies_into(program.blocks[b].ops, j, local),
    ensures
        copies_before(program.blocks[b].ops, o).dom().contains(local),
        copies_before(program.blocks[b].ops, o)[local] == subst(
            copies_before(program.blocks[b].ops, j),
            program.blocks[b].ops[j].inputs[0],
        ),
{
    let ops = program.blocks[b].ops;
    assert(program.blocks[b].ops[j].outputs.contains(local)) by {
        assert(program.blocks[b].ops[j].outputs[0] == local);
    }
    lemma_copies_step(ops, j);
    lemma_copies_stay(program, b, j + 1, o, local);
}

proof fn lemma_read_past_copies(program: ProgramView, b: int, local: LocalId)
    requires
        program.ssa(),
        program.copies_one_local(),
        0 <= b < program.blocks.len(),
    ensures
        read_past_copies(
            program.blocks[b].ops,
            propagate_copies(program).blocks[b].ops,
            local,
            subst(copies_of(program.blocks[b].ops), local),
        ),
{
    let ops = program.blocks[b].ops;
    let n = ops.len() as int;
    assert(ops.take(n) =~= ops);
    law_copied_locals(ops, local);
    let map = copies_of(ops);
    assert forall|j: int| #[trigger] copies_into(ops, j, local) implies subst(map, local)
        == if exists|i: int| i < j && copies_into(ops, i, ops[j].inputs[0]) {
        propagate_copies(program).blocks[b].ops[j].inputs[0]
    } else {
        ops[j].inputs[0]
    } by {
        let source = ops[j].inputs[0];
        assert(program.blocks[b].ops[j].kind is SetCopy);
        lemma_entry_of_copy(program, b, n, j, local);
        lemma_copies_entry(ops, j, source);
        if exists|i: int| i < j && copies_into(ops, i, source) {
            let i = choose|i: int| i < j && copies_into(ops, i, source);
            lemma_entry_of_copy(program, b, n, i, source);
            lemma_entry_of_copy(program, b, j, i, source);
            assert(propagate_copies(program).blocks[b].ops[j].inputs[0] == subst(map, source));
        }
    }
}

/// What reading copies at their origin inside blocks makes of a program.
pub proof fn law_reads_go_past_copies(program: ProgramView)
    requires
        program.ssa(),
        program.copies_one_local(),
    ensures
        reads_past_copies(program, propagate_copies(program)),
{
    let after = propagate_copies(program);
    assert forall|b: int| 0 <= b < program.blocks.len() implies block_reads_past_copies(
        program.blocks[b],
        #[trigger] after.blocks[b],
    ) by {
        let ops = program.blocks[b].ops;
        let map = copies_of(ops);
        assert forall|local: LocalId| read_past_copies(
            ops,
            after.blocks[b].ops,
            local,
            #[trigger] subst(map, local),
        ) by {
            lemma_read_past_copies(program, b, local);
        }
        assert forall|o: int, i: int|
            0 <= o < ops.len() && 0 <= i < ops[o].inputs.len() implies read_past_copies(
            ops,
            after.blocks[b].ops,
            ops[o].inputs[i],
            #[trigger] after.blocks[b].ops[o].inputs[i],
        ) by {
            assert(after.blocks[b].ops[o].inputs[i] == subst(map, ops[o].inputs[i]));
        }
        assert forall|i: int|
            0 <= i < program.blocks[b].outputs.len() implies read_past_copies(
            ops,
            after.blocks[b].ops,
            program.blocks[b].outputs[i],
            #[trigger] after.blocks[b].outputs[i],
        ) by {
            assert(after.blocks[b].outputs[i] == subst(map, program.blocks[b].outputs[i]));
        }
    }
}

/// These positions, in ascending order, are all those of `list` that are not `gone`, and what stands
/// at them has become what stands in `part`.
pub open spec fn picks(
    part: Seq<LocalId>,
    list: Seq<LocalId>,
    gone: spec_fn(int) -> bool,
    becomes: spec_fn(LocalId, LocalId) -> bool,
    at: Seq<int>,
) -> bool {
    &&& at.len() == part.len()
    &&& forall|i: int|
        0 <= i < at.len() ==> 0 <= #[trigger] at[i] < list.len() && !gone(at[i]) && becomes(
            list[at[i]],
            part[i],
        )
    &&& forall|i: int, j: int| 0 <= i < j < at.len() ==> #[trigger] at[i] < #[trigger] at[j]
    &&& forall|slot: int|
        0 <= slot < list.len() && !#[trigger] gone(slot) ==> exists|i: int|
            0 <= i < at.len() && at[i] == slot
}

/// `part` is what is left of `list` without what is gone.
pub open spec fn is_left(
    part: Seq<LocalId>,
    list: Seq<LocalId>,
    gone: spec_fn(int) -> bool,
    becomes: spec_fn(LocalId, LocalId) -> bool,
) -> bool {
    exists|at: Seq<int>| picks(part, list, gone, becomes, at)
}

/// Slot `slot` of a group, if it is one, says nothing new.
pub open spec fn goes(
    program: ProgramView,
    analyses: AnalysesView,
    group: Option<InOutGroupId>,
    slot: int,
) -> bool {
    group is Some && exists|local: LocalId|
        says_nothing_new(program, analyses, group->0, slot, local)
}

/// `input` is taken in through a slot that says nothing new but `source`.
pub open spec fn brings_in(
    program: ProgramView,
    analyses: AnalysesView,
    input: LocalId,
    source: LocalId,
) -> bool {
    exists|t: int, slot: int, g: InOutGroupId|
        0 <= t < program.blocks.len() && 0 <= slot < program.blocks[t].inputs.len()
            && program.blocks[t].inputs[slot] == input && #[trigger] takes_from(analyses, g, t)
            && #[trigger] says_nothing_new(program, analyses, g, slot, source)
}

/// Each local of a chain is taken in through a slot that says nothing new but the next.
pub open spec fn is_chain(
    program: ProgramView,
    analyses: AnalysesView,
    chain: Seq<LocalId>,
) -> bool {
    &&& chain.len() > 0
    &&& forall|k: int|
        0 <= k < chain.len() - 1 ==> brings_in(
            program,
            analyses,
            #[trigger] chain[k],
            chain[k + 1],
        )
}

/// A chain leads from one local to another, which is taken in through no slot that says nothing new.
pub open spec fn leads_to(
    program: ProgramView,
    analyses: AnalysesView,
    local: LocalId,
    end: LocalId,
) -> bool {
    &&& exists|chain: Seq<LocalId>| #[trigger]
        is_chain(program, analyses, chain) && chain[0] == local && chain[chain.len() - 1] == end
    &&& forall|source: LocalId| !#[trigger] brings_in(program, analyses, end, source)
}

/// Of what a block takes in and hands on just the slots that say nothing new have gone, the others
/// standing in their order; every local that it reads has become the one that a chain leads to; and
/// nothing else has changed.
pub open spec fn block_loses_idle_slots(
    program: ProgramView,
    analyses: AnalysesView,
    b: int,
    after: BlockView,
) -> bool {
    let before = program.blocks[b];
    let becomes = |local: LocalId, end: LocalId| leads_to(program, analyses, local, end);
    &&& is_left(
        after.inputs,
        before.inputs,
        |slot: int| goes(program, analyses, analyses.in_group[b], slot),
        |local: LocalId, same: LocalId| local == same,
    )
    &&& is_left(
        after.outputs,
        before.outputs,
        |slot: int| goes(program, analyses, analyses.out_group[b], slot),
        becomes,
    )
    &&& ops_alike(before.ops, after.ops, becomes)
    &&& ends_alike(before.control, after.control, becomes)
}

/// Every block has lost the slots that say nothing new, and nothing else has changed.
pub open spec fn loses_idle_slots(
    before: ProgramView,
    analyses: AnalysesView,
    after: ProgramView,
) -> bool {
    &&& after.functions == before.functions
    &&& after.cases == before.cases
    &&& after.next_free_local_id == before.next_free_local_id
    &&& after.blocks.len() == before.blocks.len()
    &&& forall|b: int|
        0 <= b < before.blocks.len() ==> block_loses_idle_slots(
            before,
            analyses,
            b,
            #[trigger] after.blocks[b],
        )
}

/// Some slot says nothing new.
pub open spec fn has_idle_slot(program: ProgramView, analyses: AnalysesView) -> bool {
    exists|g: InOutGroupId, slot: int, local: LocalId|
        says_nothing_new(program, analyses, g, slot, local)
}

/// There is a redundant slot just where some slot says nothing new.
pub proof fn law_idle_slots(program: ProgramView, analyses: AnalysesView)
    ensures
        has_redundant_slot(program, analyses) <==> has_idle_slot(program, analyses),
{
    if has_redundant_slot(program, analyses) {
        let (g, slot, local) = choose|g: InOutGroupId, slot: int, local: LocalId|
            is_redundant(program, analyses, g, slot, local);
        law_redundant_says_nothing_new(program, analyses, g, slot, local);
        assert(says_nothing_new(program, analyses, g, slot, local));
    }
    if has_idle_slot(program, analyses) {
        let (g, slot, local) = choose|g: InOutGroupId, slot: int, local: LocalId|
            says_nothing_new(program, analyses, g, slot, local);
        law_redundant_says_nothing_new(program, analyses, g, slot, local);
        assert(is_redundant(program, analyses, g, slot, local));
    }
}

proof fn lemma_goes(
    program: ProgramView,
    analyses: AnalysesView,
    group: Option<InOutGroupId>,
    slot: int,
)
    ensures
        goes(program, analyses, group, slot) <==> slot_is_redundant(
            program,
            analyses,
            group,
            slot,
        ),
{
    if group is Some {
        let g = group->0;
        if goes(program, analyses, group, slot) {
            let local = choose|local: LocalId|
                says_nothing_new(program, analyses, g, slot, local);
            law_redundant_says_nothing_new(program, analyses, g, slot, local);
            assert(is_redundant(program, analyses, g, slot, local));
        }
        if slot_is_redundant(program, analyses, group, slot) {
            let local = choose|local: LocalId| is_redundant(program, analyses, g, slot, local);
            law_redundant_says_nothing_new(program, analyses, g, slot, local);
            assert(says_nothing_new(program, analyses, g, slot, local));
        }
    }
}

proof fn lemma_brings_in(
    program: ProgramView,
    analyses: AnalysesView,
    input: LocalId,
    source: LocalId,
)
    requires
        program.ssa(),
        analyses.wf(program.blocks.len() as int),
    ensures
        brings_in(program, analyses, input, source) <==> forwarded_inputs(
            program,
            analyses,
        ).dom().contains(input) && forwarded_inputs(program, analyses)[input] == source,
{
    let map = forwarded_inputs(program, analyses);
    if brings_in(program, analyses, input, source) {
        let (t, slot, g) = choose|t: int, slot: int, g: InOutGroupId|
            0 <= t < program.blocks.len() && 0 <= slot < program.blocks[t].inputs.len()
                && program.blocks[t].inputs[slot] == input && #[trigger] takes_from(analyses, g, t)
                && #[trigger] says_nothing_new(program, analyses, g, slot, source);
        law_redundant_says_nothing_new(program, analyses, g, slot, source);
        assert(in_member(analyses, g, t));
        lemma_forwarded_entry(program, analyses, g, slot, source, t);
    }
    if map.dom().contains(input) && map[input] == source {
        let (t, slot, g) = lemma_forwarded_site(program, analyses, input);
        law_redundant_says_nothing_new(program, analyses, g, slot, source);
        assert(takes_from(analyses, g, t));
        assert(says_nothing_new(program, analyses, g, slot, source));
    }
}

proof fn lemma_chain_to(
    program: ProgramView,
    analyses: AnalysesView,
    local: LocalId,
    steps: nat,
) -> (chain: Seq<LocalId>)
    requires
        program.ssa(),
        analyses.wf(program.blocks.len() as int),
    ensures
        is_chain(program, analyses, chain),
        chain[0] == local,
        chain[chain.len() - 1] == follow(forwarded_inputs(program, analyses), local, steps),
    decreases steps,
{
    let map = forwarded_inputs(program, analyses);
    if steps == 0 || !map.dom().contains(local) {
        seq![local]
    } else {
        let rest = lemma_chain_to(program, analyses, map[local], (steps - 1) as nat);
        let chain = seq![local] + rest;
        lemma_brings_in(program, analyses, local, map[local]);
        assert forall|k: int| 0 <= k < chain.len() - 1 implies brings_in(
            program,
            analyses,
            #[trigger] chain[k],
            chain[k + 1],
        ) by {
            if k > 0 {
                assert(chain[k] == rest[k - 1]);
                assert(chain[k + 1] == rest[k]);
            } else {
                assert(chain[1] == rest[0]);
            }
        }
        chain
    }
}

proof fn lemma_leads_to(program: ProgramView, analyses: AnalysesView, local: LocalId)
    requires
        program.ssa(),
        analyses.wf(program.blocks.len() as int),
    ensures
        leads_to(
            program,
            analyses,
            local,
            subst(canonical(forwarded_inputs(program, analyses)), local),
        ),
{
    let map = forwarded_inputs(program, analyses);
    let end = subst(canonical(map), local);
    let steps = if map.dom().contains(local) {
        let (site, slot, g) = lemma_forwarded_site(program, analyses, local);
        assert(program.blocks[site].inputs.contains(local));
        lemma_origin_above(program, analyses, local, site);
        assert(resolves(map, local));
        assert(resolves_to(map, local, end));
        choose|steps: nat| #[trigger] follow(map, local, steps) == end
    } else {
        0
    };
    let chain = lemma_chain_to(program, analyses, local, steps);
    assert(is_chain(program, analyses, chain) && chain[0] == local);
    assert forall|source: LocalId| !#[trigger] brings_in(program, analyses, end, source) by {
        lemma_brings_in(program, analyses, end, source);
    }
}

proof fn lemma_picks(
    list: Seq<LocalId>,
    renamed: Seq<LocalId>,
    removed: spec_fn(int) -> bool,
    gone: spec_fn(int) -> bool,
    becomes: spec_fn(LocalId, LocalId) -> bool,
)
    requires
        renamed.len() == list.len(),
        forall|slot: int| 0 <= slot < list.len() ==> #[trigger] removed(slot) == gone(slot),
        forall|slot: int|
            0 <= slot < list.len() ==> becomes(list[slot], #[trigger] renamed[slot]),
    ensures
        is_left(keep_slots(renamed, removed), list, gone, becomes),
    decreases list.len(),
{
    let part = keep_slots(renamed, removed);
    if list.len() == 0 {
        assert(picks(part, list, gone, becomes, Seq::empty()));
    } else {
        let shorter = list.drop_last();
        let last = list.len() - 1;
        assert forall|slot: int| 0 <= slot < shorter.len() implies becomes(
            shorter[slot],
            #[trigger] renamed.drop_last()[slot],
        ) by {
            assert(becomes(list[slot], renamed[slot]));
        }
        lemma_picks(shorter, renamed.drop_last(), removed, gone, becomes);
        let kept = keep_slots(renamed.drop_last(), removed);
        let at = choose|at: Seq<int>| picks(kept, shorter, gone, becomes, at);
        assert(removed(last) == gone(last));
        if removed(last) {
            assert forall|slot: int| 0 <= slot < list.len() && !#[trigger] gone(slot) implies exists|i: int|
                0 <= i < at.len() && at[i] == slot by {
                assert(slot < shorter.len());
            }
            assert(picks(part, list, gone, becomes, at));
        } else {
            let all = at.push(last);
            assert(becomes(list[last], renamed[last]));
            assert forall|slot: int| 0 <= slot < list.len() && !#[trigger] gone(slot) implies exists|i: int|
                0 <= i < all.len() && all[i] == slot by {
                if slot < last {
                    let i = choose|i: int| 0 <= i < at.len() && at[i] == slot;
                    assert(all[i] == slot);
                } else {
                    assert(all[at.len() as int] == slot);
                }
            }
            assert forall|i: int| 0 <= i < all.len() implies 0 <= #[trigger] all[i] < list.len()
                && !gone(all[i]) && becomes(list[all[i]], part[i]) by {
                if i < at.len() {
                    assert(all[i] == at[i]);
                }
            }
            assert(picks(part, list, gone, becomes, all));
        }
    }
}

/// What taking out redundant slots makes of a program.
pub proof fn law_idle_slots_are_lost(program: ProgramView, analyses: AnalysesView)
    requires
        program.ssa(),
        analyses.wf(program.blocks.len() as int),
    ensures
        loses_idle_slots(program, analyses, eliminate_redundant_slots(program, analyses)),
{
    let after = eliminate_redundant_slots(program, analyses);
    let origins = canonical(forwarded_inputs(program, analyses));
    assert forall|local: LocalId| leads_to(
        program,
        analyses,
        local,
        #[trigger] subst(origins, local),
    ) by {
        lemma_leads_to(program, analyses, local);
    }
    assert forall|b: int| 0 <= b < program.blocks.len() implies block_loses_idle_slots(
        program,
        analyses,
        b,
        #[trigger] after.blocks[b],
    ) by {
        let before = program.blocks[b];
        let becomes = |local: LocalId, end: LocalId| leads_to(program, analyses, local, end);
        let same = |local: LocalId, same: LocalId| local == same;
        let in_gone = |slot: int| goes(program, analyses, analyses.in_group[b], slot);
        let out_gone = |slot: int| goes(program, analyses, analyses.out_group[b], slot);
        let in_removed = |slot: int|
            slot_is_redundant(program, analyses, analyses.in_group[b], slot);
        let out_removed = |slot: int|
            slot_is_redundant(program, analyses, analyses.out_group[b], slot);
        assert forall|slot: int| #[trigger] in_removed(slot) == in_gone(slot) by {
            lemma_goes(program, analyses, analyses.in_group[b], slot);
        }
        assert forall|slot: int| #[trigger] out_removed(slot) == out_gone(slot) by {
            lemma_goes(program, analyses, analyses.out_group[b], slot);
        }
        lemma_picks(before.inputs, before.inputs, in_removed, in_gone, same);
        let renamed = subst_all(origins, before.outputs);
        assert forall|slot: int| 0 <= slot < before.outputs.len() implies becomes(
            before.outputs[slot],
            #[trigger] renamed[slot],
        ) by {
            assert(renamed[slot] == subst(origins, before.outputs[slot]));
        }
        lemma_picks(before.outputs, renamed, out_removed, out_gone, becomes);
        assert forall|o: int, i: int|
            0 <= o < before.ops.len() && 0 <= i < before.ops[o].inputs.len() implies becomes(
            before.ops[o].inputs[i],
            #[trigger] after.blocks[b].ops[o].inputs[i],
        ) by {
            assert(after.blocks[b].ops[o].inputs[i] == subst(origins, before.ops[o].inputs[i]));
        }
    }
}

/// The pass in rounds: in each the reads go past copies and idle slots are lost, until, once the
/// reads have gone past copies, no slot is idle.
pub open spec fn is_outcome(
    program: ProgramView,
    analyses: AnalysesView,
    rounds: Seq<ProgramView>,
    halves: Seq<ProgramView>,
    outcome: ProgramView,
) -> bool {
    &&& rounds.len() > 0
    &&& halves.len() == rounds.len()
    &&& rounds[0] == program
    &&& halves[halves.len() - 1] == outcome
    &&& forall|k: int|
        0 <= k < rounds.len() ==> reads_past_copies(#[trigger] rounds[k], halves[k])
    &&& forall|k: int|
        0 <= k < rounds.len() - 1 ==> has_idle_slot(#[trigger] halves[k], analyses)
            && loses_idle_slots(halves[k], analyses, rounds[k + 1])
    &&& !has_idle_slot(outcome, analyses)
}

/// What the pass makes of a program is the outcome of such rounds.
pub proof fn law_outcome(program: ProgramView, analyses: AnalysesView) -> (rounds: (
    Seq<ProgramView>,
    Seq<ProgramView>,
))
    requires
        program.ssa(),
        program.copies_one_local(),
        analyses.wf(program.blocks.len() as int),
    ensures
        is_outcome(program, analyses, rounds.0, rounds.1, settle(program, analyses)),
    decreases output_slots(program.blocks),
{
    let propagated = propagate_copies(program);
    law_reads_go_past_copies(program);
    lemma_propagate_copies_ssa(program);
    law_idle_slots(propagated, analyses);
    if has_redundant_slot(propagated, analyses) {
        let next = eliminate_redundant_slots(propagated, analyses);
        law_idle_slots_are_lost(propagated, analyses);
        lemma_eliminate_ssa(propagated, analyses);
        lemma_round_copies(program, analyses);
        lemma_round_decreases(program, analyses);
        let (rest, rest_halves) = law_outcome(next, analyses);
        let rounds = seq![program] + rest;
        let halves = seq![propagated] + rest_halves;
        assert forall|k: int| 0 <= k < rounds.len() implies reads_past_copies(
            #[trigger] rounds[k],
            halves[k],
        ) by {
            if k > 0 {
                assert(rounds[k] == rest[k - 1]);
                assert(halves[k] == rest_halves[k - 1]);
            }
        }
        assert forall|k: int| 0 <= k < rounds.len() - 1 implies has_idle_slot(
            #[trigger] halves[k],
            analyses,
        ) && loses_idle_slots(halves[k], analyses, rounds[k + 1]) by {
            assert(rounds[k + 1] == rest[k]);
            if k > 0 {
                assert(halves[k] == rest_halves[k - 1]);
            }
        }
        (rounds, halves)
    } else {
        (seq![program], seq![propagated])
    }
}

/// After the pass no group hands on, at the same slot wherever control comes from, a local that some
/// operation sets above: whatever the operation does, however the blocks that hand the local on
/// end, how many take it, and also where a block both hands on and takes. Only where a function
/// starts in one of the blocks that take, or where the blocks do not agree on the number of locals,
/// can there be such a slot.
///
/// `walks` leads from each block that takes from the group up to block `d`, whose operation `o` sets
/// the local.
pub proof fn law_what_an_operation_sets_needs_no_slot(
    program: ProgramView,
    analyses: AnalysesView,
    g: InOutGroupId,
    slot: int,
    d: int,
    o: int,
    i: int,
    walks: spec_fn(int) -> Seq<int>,
)
    requires
        analyses.wf(program.blocks.len() as int),
    ensures
        ({
            let after = settle(program, analyses);
            let local = after.blocks[d].ops[o].outputs[i];
            !({
                &&& 0 <= d < after.blocks.len()
                &&& 0 <= o < after.blocks[d].ops.len()
                &&& 0 <= i < after.blocks[d].ops[o].outputs.len()
                &&& exists|t: int|
                    0 <= t < analyses.in_group.len() && #[trigger] analyses.in_group[t] == Some(g)
                &&& exists|h: int|
                    0 <= h < analyses.out_group.len() && #[trigger] analyses.out_group[h] == Some(
                        g,
                    )
                &&& forall|t: int|
                    0 <= t < analyses.in_group.len() && #[trigger] analyses.in_group[t] == Some(g)
                        ==> {
                        &&& forall|f: int|
                            0 <= f < after.functions.len() ==> (
                            #[trigger] after.functions[f]).entry != t
                        &&& walks(t).len() >= 2
                        &&& walks(t)[0] == t
                        &&& walks(t)[walks(t).len() - 1] == d
                        &&& forall|k: int|
                            0 <= k < walks(t).len() - 1 ==> {
                                &&& 0 <= #[trigger] walks(t)[k] < analyses.idom.len()
                                &&& analyses.idom[walks(t)[k]] is Some
                                &&& analyses.idom[walks(t)[k]]->0 == walks(t)[k + 1]
                                &&& walks(t)[k + 1] != walks(t)[k]
                            }
                    }
                &&& forall|t: int, h: int|
                    0 <= t < analyses.in_group.len() && #[trigger] analyses.in_group[t] == Some(g)
                        && 0 <= h < analyses.out_group.len() && #[trigger] analyses.out_group[h]
                        == Some(g) ==> after.blocks[t].inputs.len()
                        == after.blocks[h].outputs.len()
                &&& forall|h: int|
                    0 <= h < analyses.out_group.len() && #[trigger] analyses.out_group[h] == Some(
                        g,
                    ) ==> 0 <= slot < after.blocks[h].outputs.len()
                        && after.blocks[h].outputs[slot] == local
            })
        }),
{
    let after = settle(program, analyses);
    law_no_redundant_slot_left(program, analyses);
    law_control_flow_stays(program, analyses);
    law_idle_slots(after, analyses);
    let local = after.blocks[d].ops[o].outputs[i];
    if 0 <= d < after.blocks.len() && 0 <= o < after.blocks[d].ops.len() && 0 <= i
        < after.blocks[d].ops[o].outputs.len() {
        assert(sets(after.blocks[d], local));
        lemma_idle_slot(after, analyses, g, slot, local, d, walks);
    }
}

/// After the pass no group hands on, at the same slot wherever control comes from, a local that some
/// block above takes in, be it the start of a function, a loop or a place where ways join: however
/// the blocks that hand the local on end, how many take it, and also where a block both hands on
/// and takes. Only where a function starts in one of the blocks that take, or where the blocks do
/// not agree on the number of locals, can there be such a slot.
///
/// `walks` leads from each block that takes from the group up to block `d`, which takes the local in
/// at its input `i`.
pub proof fn law_what_a_block_takes_in_needs_no_slot(
    program: ProgramView,
    analyses: AnalysesView,
    g: InOutGroupId,
    slot: int,
    d: int,
    i: int,
    walks: spec_fn(int) -> Seq<int>,
)
    requires
        analyses.wf(program.blocks.len() as int),
    ensures
        ({
            let after = settle(program, analyses);
            let local = after.blocks[d].inputs[i];
            !({
                &&& 0 <= d < after.blocks.len()
                &&& 0 <= i < after.blocks[d].inputs.len()
                &&& exists|t: int|
                    0 <= t < analyses.in_group.len() && #[trigger] analyses.in_group[t] == Some(g)
                &&& exists|h: int|
                    0 <= h < analyses.out_group.len() && #[trigger] analyses.out_group[h] == Some(
                        g,
                    )
                &&& forall|t: int|
                    0 <= t < analyses.in_group.len() && #[trigger] analyses.in_group[t] == Some(g)
                        ==> {
                        &&& forall|f: int|
                            0 <= f < after.functions.len() ==> (
                            #[trigger] after.functions[f]).entry != t
                        &&& walks(t).len() >= 2
                        &&& walks(t)[0] == t
                        &&& walks(t)[walks(t).len() - 1] == d
                        &&& forall|k: int|
                            0 <= k < walks(t).len() - 1 ==> {
                                &&& 0 <= #[trigger] walks(t)[k] < analyses.idom.len()
                                &&& analyses.idom[walks(t)[k]] is Some
                                &&& analyses.idom[walks(t)[k]]->0 == walks(t)[k + 1]
                                &&& walks(t)[k + 1] != walks(t)[k]
                            }
                    }
                &&& forall|t: int, h: int|
                    0 <= t < analyses.in_group.len() && #[trigger] analyses.in_group[t] == Some(g)
                        && 0 <= h < analyses.out_group.len() && #[trigger] analyses.out_group[h]
                        == Some(g) ==> after.blocks[t].inputs.len()
                        == after.blocks[h].outputs.len()
                &&& forall|h: int|
                    0 <= h < analyses.out_group.len() && #[trigger] analyses.out_group[h] == Some(
                        g,
                    ) ==> 0 <= slot < after.blocks[h].outputs.len()
                        && after.blocks[h].outputs[slot] == local
            })
        }),
{
    let after = settle(program, analyses);
    law_no_redundant_slot_left(program, analyses);
    law_control_flow_stays(program, analyses);
    law_idle_slots(after, analyses);
    let local = after.blocks[d].inputs[i];
    if 0 <= d < after.blocks.len() && 0 <= i < after.blocks[d].inputs.len() {
        assert(sets(after.blocks[d], local));
        lemma_idle_slot(after, analyses, g, slot, local, d, walks);
    }
}

proof fn lemma_idle_slot(
    after: ProgramView,
    analyses: AnalysesView,
    g: InOutGroupId,
    slot: int,
    local: LocalId,
    d: int,
    walks: spec_fn(int) -> Seq<int>,
)
    requires
        0 <= d < after.blocks.len(),
        sets(after.blocks[d], local),
        !has_idle_slot(after, analyses),
    ensures
        !({
            &&& exists|t: int|
                0 <= t < analyses.in_group.len() && #[trigger] analyses.in_group[t] == Some(g)
            &&& exists|h: int|
                0 <= h < analyses.out_group.len() && #[trigger] analyses.out_group[h] == Some(g)
            &&& forall|t: int|
                0 <= t < analyses.in_group.len() && #[trigger] analyses.in_group[t] == Some(g)
                    ==> {
                    &&& forall|f: int|
                        0 <= f < after.functions.len() ==> (#[trigger] after.functions[f]).entry
                            != t
                    &&& walks(t).len() >= 2
                    &&& walks(t)[0] == t
                    &&& walks(t)[walks(t).len() - 1] == d
                    &&& forall|k: int|
                        0 <= k < walks(t).len() - 1 ==> {
                            &&& 0 <= #[trigger] walks(t)[k] < analyses.idom.len()
                            &&& analyses.idom[walks(t)[k]] is Some
                            &&& analyses.idom[walks(t)[k]]->0 == walks(t)[k + 1]
                            &&& walks(t)[k + 1] != walks(t)[k]
                        }
                }
            &&& forall|t: int, h: int|
                0 <= t < analyses.in_group.len() && #[trigger] analyses.in_group[t] == Some(g) && 0
                    <= h < analyses.out_group.len() && #[trigger] analyses.out_group[h] == Some(g)
                    ==> after.blocks[t].inputs.len() == after.blocks[h].outputs.len()
            &&& forall|h: int|
                0 <= h < analyses.out_group.len() && #[trigger] analyses.out_group[h] == Some(g)
                    ==> 0 <= slot < after.blocks[h].outputs.len()
                    && after.blocks[h].outputs[slot] == local
        }),
{
    if {
        &&& exists|t: int|
            0 <= t < analyses.in_group.len() && #[trigger] analyses.in_group[t] == Some(g)
        &&& exists|h: int|
            0 <= h < analyses.out_group.len() && #[trigger] analyses.out_group[h] == Some(g)
        &&& forall|t: int|
            0 <= t < analyses.in_group.len() && #[trigger] analyses.in_group[t] == Some(g) ==> {
                &&& forall|f: int|
                    0 <= f < after.functions.len() ==> (#[trigger] after.functions[f]).entry != t
                &&& walks(t).len() >= 2
                &&& walks(t)[0] == t
                &&& walks(t)[walks(t).len() - 1] == d
                &&& forall|k: int|
                    0 <= k < walks(t).len() - 1 ==> {
                        &&& 0 <= #[trigger] walks(t)[k] < analyses.idom.len()
                        &&& analyses.idom[walks(t)[k]] is Some
                        &&& analyses.idom[walks(t)[k]]->0 == walks(t)[k + 1]
                        &&& walks(t)[k + 1] != walks(t)[k]
                    }
            }
        &&& forall|t: int, h: int|
            0 <= t < analyses.in_group.len() && #[trigger] analyses.in_group[t] == Some(g) && 0 <= h
                < analyses.out_group.len() && #[trigger] analyses.out_group[h] == Some(g)
                ==> after.blocks[t].inputs.len() == after.blocks[h].outputs.len()
        &&& forall|h: int|
            0 <= h < analyses.out_group.len() && #[trigger] analyses.out_group[h] == Some(g) ==> 0
                <= slot < after.blocks[h].outputs.len() && after.blocks[h].outputs[slot] == local
    } {
        let t = choose|t: int|
            0 <= t < analyses.in_group.len() && #[trigger] analyses.in_group[t] == Some(g);
        assert(takes_from(analyses, g, t));
        let h = choose|h: int|
            0 <= h < analyses.out_group.len() && #[trigger] analyses.out_group[h] == Some(g);
        assert(hands_to(analyses, g, h));
        assert forall|t: int| #[trigger] takes_from(analyses, g, t) implies stands_above(
            analyses.idom,
            d,
            t,
        ) by {
            assert(analyses.in_group[t] == Some(g));
            assert(is_walk_up(analyses.idom, walks(t)));
        }
        assert forall|t: int, f: int|
            #![trigger takes_from(analyses, g, t), after.functions[f]]
            takes_from(analyses, g, t) && 0 <= f
                < after.functions.len() implies after.functions[f].entry != t by {
            assert(analyses.in_group[t] == Some(g));
        }
        assert forall|t: int, o: int| #[trigger]
            takes_from(analyses, g, t) && #[trigger] hands_to(
                analyses,
                g,
                o,
            ) implies after.blocks[t].inputs.len() == after.blocks[o].outputs.len() by {
            assert(analyses.in_group[t] == Some(g));
            assert(analyses.out_group[o] == Some(g));
        }
        assert forall|o: int| #[trigger] hands_to(analyses, g, o) implies 0 <= slot
            < after.blocks[o].outputs.len() && after.blocks[o].outputs[slot] == local by {
            assert(analyses.out_group[o] == Some(g));
        }
        assert(says_nothing_new(after, analyses, g, slot, local));
    }
}

proof fn lemma_past_all_copies(program: ProgramView, b: int, local: LocalId, j: int)
    requires
        program.ssa(),
        program.copies_one_local(),
        0 <= b < program.blocks.len(),
        forall|o: int, k: int|
            #![trigger program.blocks[b].ops[o], program.blocks[b].ops[k]]
            0 <= o < program.blocks[b].ops.len() && 0 <= k < program.blocks[b].ops.len()
                && program.blocks[b].ops[o].kind is SetCopy
                && program.blocks[b].ops[k].kind is SetCopy
                && program.blocks[b].ops[o].inputs[0] == program.blocks[b].ops[k].outputs[0] ==> k
                < o,
        copies_into(program.blocks[b].ops, j, local),
    ensures
        forall|k: int| !#[trigger] copies_into(
            program.blocks[b].ops,
            k,
            subst(copies_of(program.blocks[b].ops), local),
        ),
    decreases j,
{
    let ops = program.blocks[b].ops;
    let map = copies_of(ops);
    lemma_read_past_copies(program, b, local);
    let source = ops[j].inputs[0];
    assert(program.blocks[b].ops[j].kind is SetCopy);
    if exists|i: int| i < j && copies_into(ops, i, source) {
        let i = choose|i: int| i < j && copies_into(ops, i, source);
        lemma_past_all_copies(program, b, source, i);
        assert(propagate_copies(program).blocks[b].ops[j].inputs[0] == subst(map, source));
    } else {
        assert forall|k: int| !#[trigger] copies_into(ops, k, source) by {
            if copies_into(ops, k, source) {
                assert(program.blocks[b].ops[k].kind is SetCopy);
            }
        }
    }
}

/// Once reads have gone past copies inside blocks, no operation, nothing handed on and no end of a
/// block reads what an operation of the block copies into, however many copies the block makes and
/// however they build on one another. Only where a copy reads what it or a later copy of the block
/// makes can it be otherwise.
pub proof fn law_no_copied_local_is_read(program: ProgramView, b: int, j: int)
    requires
        program.ssa(),
        program.copies_one_local(),
        0 <= b < program.blocks.len(),
        forall|o: int, k: int|
            #![trigger program.blocks[b].ops[o], program.blocks[b].ops[k]]
            0 <= o < program.blocks[b].ops.len() && 0 <= k < program.blocks[b].ops.len()
                && program.blocks[b].ops[o].kind is SetCopy
                && program.blocks[b].ops[k].kind is SetCopy
                && program.blocks[b].ops[o].inputs[0] == program.blocks[b].ops[k].outputs[0] ==> k
                < o,
        0 <= j < program.blocks[b].ops.len(),
        program.blocks[b].ops[j].kind is SetCopy,
    ensures
        ({
            let after = propagate_copies(program).blocks[b];
            let copied = program.blocks[b].ops[j].outputs[0];
            &&& after.ops[j].outputs[0] == copied
            &&& forall|o: int, i: int|
                0 <= o < after.ops.len() && 0 <= i < after.ops[o].inputs.len()
                    ==> #[trigger] after.ops[o].inputs[i] != copied
            &&& forall|i: int|
                0 <= i < after.outputs.len() ==> #[trigger] after.outputs[i] != copied
            &&& after.control is Branches ==> after.control->Branches_0.condition != copied
            &&& after.control is Switch ==> after.control->Switch_0.condition != copied
        }),
{
    let ops = program.blocks[b].ops;
    let map = copies_of(ops);
    let after = propagate_copies(program).blocks[b];
    let copied = ops[j].outputs[0];
    assert(copies_into(ops, j, copied));
    assert forall|local: LocalId| #[trigger] subst(map, local) != copied by {
        law_copied_locals(ops, local);
        law_copied_locals(ops, copied);
        if map.dom().contains(local) {
            let k = choose|k: int| copies_into(ops, k, local);
            lemma_past_all_copies(program, b, local, k);
            assert(!copies_into(ops, j, subst(map, local)));
        }
    }
    assert forall|o: int, i: int|
        0 <= o < after.ops.len() && 0 <= i
            < after.ops[o].inputs.len() implies #[trigger] after.ops[o].inputs[i] != copied by {
        assert(after.ops[o].inputs[i] == subst(map, ops[o].inputs[i]));
    }
    assert forall|i: int|
        0 <= i < after.outputs.len() implies #[trigger] after.outputs[i] != copied by {
        assert(after.outputs[i] == subst(map, program.blocks[b].outputs[i]));
    }
}

/// In block `b`, in front of operation `o`, the value of `local` has been set: the block takes it in,
/// an earlier operation gives it out, or a block that sets it stands above.
pub open spec fn has_been_set(
    program: ProgramView,
    idom: Seq<Option<BasicBlockId>>,
    b: int,
    o: int,
    local: LocalId,
) -> bool {
    ||| exists|i: int|
        0 <= i < program.blocks[b].inputs.len() && #[trigger] program.blocks[b].inputs[i] == local
    ||| exists|j: int, i: int|
        0 <= j < o && j < program.blocks[b].ops.len() && 0 <= i
            < program.blocks[b].ops[j].outputs.len()
            && #[trigger] program.blocks[b].ops[j].outputs[i] == local
    ||| exists|d: int|
        0 <= d < program.blocks.len() && #[trigger] sets(program.blocks[d], local)
            && stands_above(idom, d, b)
}

/// All that block `b` reads has been set.
pub open spec fn reads_what_is_set(
    program: ProgramView,
    idom: Seq<Option<BasicBlockId>>,
    b: int,
) -> bool {
    let block = program.blocks[b];
    let n = block.ops.len() as int;
    &&& forall|o: int, i: int|
        0 <= o < n && 0 <= i < block.ops[o].inputs.len() ==> has_been_set(
            program,
            idom,
            b,
            o,
            #[trigger] block.ops[o].inputs[i],
        )
    &&& forall|i: int|
        0 <= i < block.outputs.len() ==> has_been_set(
            program,
            idom,
            b,
            n,
            #[trigger] block.outputs[i],
        )
    &&& block.control is Branches ==> has_been_set(
        program,
        idom,
        b,
        n,
        block.control->Branches_0.condition,
    )
    &&& block.control is Switch ==> has_been_set(
        program,
        idom,
        b,
        n,
        block.control->Switch_0.condition,
    )
}

proof fn lemma_has_been_set(
    program: ProgramView,
    idom: Seq<Option<BasicBlockId>>,
    b: int,
    o: int,
    local: LocalId,
)
    ensures
        has_been_set(program, idom, b, o, local) <==> in_scope(program, idom, b, o, local),
{
    if has_been_set(program, idom, b, o, local) && !program.blocks[b].inputs.contains(local) {
        if exists|j: int, i: int|
            0 <= j < o && j < program.blocks[b].ops.len() && 0 <= i
                < program.blocks[b].ops[j].outputs.len()
                && #[trigger] program.blocks[b].ops[j].outputs[i] == local {
            let (j, i) = choose|j: int, i: int|
                0 <= j < o && j < program.blocks[b].ops.len() && 0 <= i
                    < program.blocks[b].ops[j].outputs.len()
                    && #[trigger] program.blocks[b].ops[j].outputs[i] == local;
            assert(program.blocks[b].ops[j].outputs.contains(local));
        } else {
            let d = choose|d: int|
                0 <= d < program.blocks.len() && #[trigger] sets(program.blocks[d], local)
                    && stands_above(idom, d, b);
            lemma_sets(program.blocks[d], local);
            law_above_is_a_walk(idom, d, b);
            assert(program.blocks[d].defines(local));
        }
    }
    if in_scope(program, idom, b, o, local) {
        if program.blocks[b].inputs.contains(local) {
            let inputs = program.blocks[b].inputs;
            let i = choose|i: int| 0 <= i < inputs.len() && inputs[i] == local;
            assert(program.blocks[b].inputs[i] == local);
        } else if exists|j: int|
            0 <= j < o && j < program.blocks[b].ops.len() && (
            #[trigger] program.blocks[b].ops[j]).outputs.contains(local) {
            let j = choose|j: int|
                0 <= j < o && j < program.blocks[b].ops.len() && (
                #[trigger] program.blocks[b].ops[j]).outputs.contains(local);
            let outputs = program.blocks[b].ops[j].outputs;
            let i = choose|i: int| 0 <= i < outputs.len() && outputs[i] == local;
            assert(program.blocks[b].ops[j].outputs[i] == local);
        } else {
            let d = choose|d: int|
                0 <= d < program.blocks.len() && #[trigger] program.blocks[d].defines(local)
                    && dominates_strictly(idom, d, b);
            lemma_sets(program.blocks[d], local);
            law_above_is_a_walk(idom, d, b);
            assert(sets(program.blocks[d], local));
        }
    }
}

/// To read locals only where they are in scope is to read what has been set.
pub proof fn law_in_scope_is_set(program: ProgramView, idom: Seq<Option<BasicBlockId>>, b: int)
    ensures
        reads_in_scope(program, idom, b) <==> reads_what_is_set(program, idom, b),
{
    let block = program.blocks[b];
    let n = block.ops.len() as int;
    assert forall|o: int, local: LocalId| #[trigger]
        has_been_set(program, idom, b, o, local) <==> in_scope(program, idom, b, o, local) by {
        lemma_has_been_set(program, idom, b, o, local);
    }
    let condition = condition_of(block.control);
    if reads_in_scope(program, idom, b) {
        assert forall|o: int, i: int|
            0 <= o < n && 0 <= i < block.ops[o].inputs.len() implies has_been_set(
            program,
            idom,
            b,
            o,
            #[trigger] block.ops[o].inputs[i],
        ) by {
            assert(all_in_scope(program, idom, b, o, block.ops[o].inputs));
        }
        if block.control is Branches || block.control is Switch {
            assert(in_scope(program, idom, b, n, condition[0]));
        }
    }
    if reads_what_is_set(program, idom, b) {
        assert forall|o: int| 0 <= o < n implies all_in_scope(
            program,
            idom,
            b,
            o,
            (#[trigger] block.ops[o]).inputs,
        ) by {
            assert forall|i: int| 0 <= i < block.ops[o].inputs.len() implies in_scope(
                program,
                idom,
                b,
                o,
                #[trigger] block.ops[o].inputs[i],
            ) by {
                assert(has_been_set(program, idom, b, o, block.ops[o].inputs[i]));
            }
        }
        assert forall|i: int| 0 <= i < block.outputs.len() implies in_scope(
            program,
            idom,
            b,
            n,
            #[trigger] block.outputs[i],
        ) by {
            assert(has_been_set(program, idom, b, n, block.outputs[i]));
        }
        assert forall|i: int| 0 <= i < condition.len() implies in_scope(
            program,
            idom,
            b,
            n,
            #[trigger] condition[i],
        ) by {
            assert(has_been_set(program, idom, b, n, condition[i]));
        }
    }
}

/// After the pass a block that reads only what has been set reads, in no operation, in nothing that
/// it hands on and not in its end, what an operation of the block copies into.
pub proof fn law_no_copied_local_is_read_in_the_end(
    program: ProgramView,
    analyses: AnalysesView,
    b: int,
    j: int,
)
    requires
        program.ssa(),
        program.copies_one_local(),
        analyses.wf(program.blocks.len() as int),
        0 <= b < program.blocks.len(),
        reads_what_is_set(program, analyses.idom, b),
        0 <= j < program.blocks[b].ops.len(),
        program.blocks[b].ops[j].kind is SetCopy,
    ensures
        ({
            let after = settle(program, analyses).blocks[b];
            let copied = program.blocks[b].ops[j].outputs[0];
            &&& j < after.ops.len()
            &&& after.ops[j].kind is SetCopy
            &&& after.ops[j].outputs[0] == copied
            &&& forall|o: int, i: int|
                0 <= o < after.ops.len() && 0 <= i < after.ops[o].inputs.len()
                    ==> #[trigger] after.ops[o].inputs[i] != copied
            &&& forall|i: int|
                0 <= i < after.outputs.len() ==> #[trigger] after.outputs[i] != copied
            &&& after.control is Branches ==> after.control->Branches_0.condition != copied
            &&& after.control is Switch ==> after.control->Switch_0.condition != copied
        }),
{
    let settled = settle(program, analyses);
    let after = settled.blocks[b];
    let copied = program.blocks[b].ops[j].outputs[0];
    law_in_scope_is_set(program, analyses.idom, b);
    law_operations_stay(program, analyses);
    law_no_copy_read(program, analyses, b);
    assert(settled.blocks[b].ops.len() == program.blocks[b].ops.len());
    assert(settled.blocks[b].ops[j].kind == program.blocks[b].ops[j].kind);
    assert(copies_into(after.ops, j, copied));
    law_copied_locals(after.ops, copied);
    assert forall|o: int, i: int|
        0 <= o < after.ops.len() && 0 <= i
            < after.ops[o].inputs.len() implies #[trigger] after.ops[o].inputs[i] != copied by {
        assert(none_copied(after.ops, after.ops[o].inputs));
    }
    let condition = condition_of(after.control);
    if condition.len() > 0 {
        assert(condition[0] != copied);
    }
}

/// A local becomes what a map holds under it, or stays where the map holds nothing under it.
pub open spec fn is_image(
    map: Map<LocalId, LocalId>,
    local: LocalId,
    image: LocalId,
) -> bool {
    &&& map.dom().contains(local) ==> image == map[local]
    &&& !map.dom().contains(local) ==> image == local
}

/// All that the blocks of a program read has become what a map holds under it, and nothing else has
/// changed.
pub open spec fn reads_images(
    map: Map<LocalId, LocalId>,
    before: ProgramView,
    after: ProgramView,
) -> bool {
    let becomes = |local: LocalId, image: LocalId| is_image(map, local, image);
    &&& after.functions == before.functions
    &&& after.cases == before.cases
    &&& after.next_free_local_id == before.next_free_local_id
    &&& after.blocks.len() == before.blocks.len()
    &&& forall|b: int|
        0 <= b < before.blocks.len() ==> {
            &&& (#[trigger] after.blocks[b]).inputs == before.blocks[b].inputs
            &&& ops_alike(before.blocks[b].ops, after.blocks[b].ops, becomes)
            &&& after.blocks[b].outputs.len() == before.blocks[b].outputs.len()
            &&& forall|i: int|
                0 <= i < before.blocks[b].outputs.len() ==> becomes(
                    before.blocks[b].outputs[i],
                    #[trigger] after.blocks[b].outputs[i],
                )
            &&& ends_alike(before.blocks[b].control, after.blocks[b].control, becomes)
        }
}

/// What replacing reads under a map makes of a program.
pub proof fn law_reads_become_images(map: Map<LocalId, LocalId>, program: ProgramView)
    ensures
        reads_images(map, program, subst_program(map, program)),
{
}

/// What is kept of a list is what is left of it without the slots that are removed.
pub proof fn law_kept_is_left(list: Seq<LocalId>, removed: spec_fn(int) -> bool)
    ensures
        is_left(
            keep_slots(list, removed),
            list,
            removed,
            |local: LocalId, same: LocalId| local == same,
        ),
{
    lemma_picks(
        list,
        list,
        removed,
        removed,
        |local: LocalId, same: LocalId| local == same,
    );
}

/// Each local of a path is one under which a map holds the next.
pub open spec fn is_path(map: Map<LocalId, LocalId>, path: Seq<LocalId>) -> bool {
    &&& path.len() > 0
    &&& forall|k: int|
        0 <= k < path.len() - 1 ==> map.dom().contains(#[trigger] path[k]) && map[path[k]]
            == path[k + 1]
}

/// A path leads from one local to another, under which the map holds nothing.
pub open spec fn ends_at(map: Map<LocalId, LocalId>, local: LocalId, end: LocalId) -> bool {
    &&& exists|path: Seq<LocalId>| #[trigger]
        is_path(map, path) && path[0] == local && path[path.len() - 1] == end
    &&& !map.dom().contains(end)
}

proof fn lemma_path_to(map: Map<LocalId, LocalId>, local: LocalId, steps: nat) -> (path: Seq<
    LocalId,
>)
    ensures
        is_path(map, path),
        path[0] == local,
        path[path.len() - 1] == follow(map, local, steps),
    decreases steps,
{
    if steps == 0 || !map.dom().contains(local) {
        seq![local]
    } else {
        let rest = lemma_path_to(map, map[local], (steps - 1) as nat);
        let path = seq![local] + rest;
        assert forall|k: int| 0 <= k < path.len() - 1 implies map.dom().contains(
            #[trigger] path[k],
        ) && map[path[k]] == path[k + 1] by {
            if k > 0 {
                assert(path[k] == rest[k - 1]);
                assert(path[k + 1] == rest[k]);
            } else {
                assert(path[1] == rest[0]);
            }
        }
        path
    }
}

proof fn lemma_path_is_followed(map: Map<LocalId, LocalId>, path: Seq<LocalId>)
    requires
        is_path(map, path),
    ensures
        follow(map, path[0], (path.len() - 1) as nat) == path[path.len() - 1],
    decreases path.len(),
{
    if path.len() > 1 {
        let rest = path.skip(1);
        assert forall|k: int| 0 <= k < rest.len() - 1 implies map.dom().contains(
            #[trigger] rest[k],
        ) && map[rest[k]] == rest[k + 1] by {
            assert(rest[k] == path[k + 1]);
        }
        assert(map.dom().contains(path[0]));
        lemma_path_is_followed(map, rest);
    }
}

/// To follow a map to an end is to take a path there.
pub proof fn law_followed_is_a_path(map: Map<LocalId, LocalId>, local: LocalId, end: LocalId)
    ensures
        resolves_to(map, local, end) <==> ends_at(map, local, end),
{
    if resolves_to(map, local, end) {
        let steps = choose|steps: nat| #[trigger] follow(map, local, steps) == end;
        let path = lemma_path_to(map, local, steps);
        assert(is_path(map, path) && path[0] == local);
    }
    if ends_at(map, local, end) {
        let path = choose|path: Seq<LocalId>| #[trigger]
            is_path(map, path) && path[0] == local && path[path.len() - 1] == end;
        lemma_path_is_followed(map, path);
    }
}

/// The ends of paths: an entry for every key from which a path comes to an end, and that end in it.
pub proof fn law_ends_of_paths(map: Map<LocalId, LocalId>)
    ensures
        forall|local: LocalId| #[trigger]
            canonical(map).dom().contains(local) <==> map.dom().contains(local) && exists|
                end: LocalId,
            | ends_at(map, local, end),
        forall|local: LocalId| #[trigger]
            canonical(map).dom().contains(local) ==> ends_at(map, local, canonical(map)[local]),
{
    assert forall|local: LocalId, end: LocalId| #[trigger]
        ends_at(map, local, end) <==> resolves_to(map, local, end) by {
        law_followed_is_a_path(map, local, end);
    }
    assert forall|local: LocalId| #[trigger]
        canonical(map).dom().contains(local) <==> map.dom().contains(local) && exists|end: LocalId|
            ends_at(map, local, end) by {
        if canonical(map).dom().contains(local) {
            let end = choose|end: LocalId| resolves_to(map, local, end);
            assert(ends_at(map, local, end));
        }
        if exists|end: LocalId| ends_at(map, local, end) {
            let end = choose|end: LocalId| ends_at(map, local, end);
            assert(resolves_to(map, local, end));
        }
    }
    assert forall|local: LocalId| #[trigger] canonical(map).dom().contains(local) implies ends_at(
        map,
        local,
        canonical(map)[local],
    ) by {
        let end = choose|end: LocalId| resolves_to(map, local, end);
        assert(ends_at(map, local, end));
    }
}

} // verus!
