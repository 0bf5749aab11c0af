//! Where a local may be read, and that the pass only lets locals be read where they may be.

use crate::analyses::{
    dominates_strictly, is_dominator_tree, lemma_dominance_irreflexive,
    lemma_dominates_strictly_transitive, numbers_dominators_first, AnalysesView,
};
use crate::chains::lemma_canonical_entry;
use crate::flow::dominates;
use crate::ir::{BasicBlockId, Control, LocalId, OpView, ProgramView};
use crate::model::{
    canonical, copies_of, eliminate_redundant_slots, forwarded_inputs, in_member, is_redundant,
    keep_slots, propagate_copies, slot_is_redundant, subst, subst_all, subst_control, with_copy,
};
use crate::redundancy::{lemma_forwarded_entry, lemma_forwarded_resolves, lemma_forwarded_site};
use crate::slots::{lemma_keep_slots_at, lemma_keep_slots_count, lemma_kept_from};
use vstd::prelude::*;

verus! {

/// In block `b`, in front of operation `o`, the value of `local` has been set: it is an input of
/// the block, an earlier operation of the block defines it, or a block above defines it.
pub open spec fn in_scope(
    program: ProgramView,
    idom: Seq<Option<BasicBlockId>>,
    b: int,
    o: int,
    local: LocalId,
) -> bool {
    ||| program.blocks[b].inputs.contains(local)
    ||| exists|j: int|
        0 <= j < o && j < program.blocks[b].ops.len() && (
        #[trigger] program.blocks[b].ops[j]).outputs.contains(local)
    ||| exists|d: int|
        0 <= d < program.blocks.len() && #[trigger] program.blocks[d].defines(local)
            && dominates_strictly(idom, d, b)
}

/// All these locals may be read in block `b` in front of operation `o`.
pub open spec fn all_in_scope(
    program: ProgramView,
    idom: Seq<Option<BasicBlockId>>,
    b: int,
    o: int,
    locals: Seq<LocalId>,
) -> bool {
    forall|i: int| 0 <= i < locals.len() ==> in_scope(program, idom, b, o, #[trigger] locals[i])
}

/// The local that the end of a block reads, if any.
pub open spec fn condition_of(control: Control) -> Seq<LocalId> {
    match control {
        Control::Branches(branch) => seq![branch.condition],
        Control::Switch(switch) => seq![switch.condition],
        _ => Seq::empty(),
    }
}

/// Block `b` reads locals only where they may be read.
pub open spec fn reads_in_scope(
    program: ProgramView,
    idom: Seq<Option<BasicBlockId>>,
    b: int,
) -> bool {
    let block = program.blocks[b];
    &&& forall|o: int|
        0 <= o < block.ops.len() ==> all_in_scope(
            program,
            idom,
            b,
            o,
            (#[trigger] block.ops[o]).inputs,
        )
    &&& all_in_scope(program, idom, b, block.ops.len() as int, block.outputs)
    &&& all_in_scope(program, idom, b, block.ops.len() as int, condition_of(block.control))
}

/// The copies that the operations in front of `o` make.
pub open spec fn copies_before(ops: Seq<OpView>, o: int) -> Map<LocalId, LocalId> {
    copies_of(ops.take(o))
}

/// One more operation adds its copy.
pub proof fn lemma_copies_step(ops: Seq<OpView>, o: int)
    requires
        0 <= o < ops.len(),
    ensures
        copies_before(ops, o + 1) == with_copy(copies_before(ops, o), ops[o]),
{
    assert(ops.take(o + 1).drop_last() =~= ops.take(o));
}

/// An operation of a block that defines a local is the only one, and nothing else defines it.
pub proof fn lemma_op_defines(program: ProgramView, b: int, j: int, local: LocalId)
    requires
        program.ssa(),
        0 <= b < program.blocks.len(),
        0 <= j < program.blocks[b].ops.len(),
        program.blocks[b].ops[j].outputs.contains(local),
    ensures
        program.blocks[b].defines(local),
        !program.blocks[b].inputs.contains(local),
        forall|i: int|
            0 <= i < program.blocks[b].ops.len() && (
            #[trigger] program.blocks[b].ops[i]).outputs.contains(local) ==> i == j,
        forall|d: int|
            0 <= d < program.blocks.len() && #[trigger] program.blocks[d].defines(local) ==> d == b,
{
    assert(program.blocks[b].ssa());
    assert(program.blocks[b].defines(local));
}

/// A local that operation `j` defines is in scope only behind it.
pub proof fn lemma_in_scope_behind(
    program: ProgramView,
    idom: Seq<Option<BasicBlockId>>,
    b: int,
    o: int,
    local: LocalId,
    j: int,
)
    requires
        program.ssa(),
        is_dominator_tree(idom),
        0 <= b < program.blocks.len(),
        0 <= j < program.blocks[b].ops.len(),
        program.blocks[b].ops[j].outputs.contains(local),
        in_scope(program, idom, b, o, local),
    ensures
        j < o,
{
    lemma_op_defines(program, b, j, local);
    lemma_dominance_irreflexive(idom, b);
}

/// A copied local is defined by a copy in front, and the local that its value comes from is in
/// scope there and is not itself copied.
pub proof fn lemma_copy_site(
    program: ProgramView,
    idom: Seq<Option<BasicBlockId>>,
    b: int,
    o: int,
    local: LocalId,
) -> (j: int)
    requires
        program.ssa(),
        program.copies_one_local(),
        is_dominator_tree(idom),
        0 <= b < program.blocks.len(),
        0 <= o <= program.blocks[b].ops.len(),
        reads_in_scope(program, idom, b),
        copies_before(program.blocks[b].ops, o).dom().contains(local),
    ensures
        0 <= j < o,
        program.blocks[b].ops[j].kind is SetCopy,
        program.blocks[b].ops[j].outputs.contains(local),
        copies_before(program.blocks[b].ops, o)[local] == subst(
            copies_before(program.blocks[b].ops, j),
            program.blocks[b].ops[j].inputs[0],
        ),
        in_scope(program, idom, b, j, copies_before(program.blocks[b].ops, o)[local]),
        !copies_before(program.blocks[b].ops, o).dom().contains(
            copies_before(program.blocks[b].ops, o)[local],
        ),
    decreases o,
{
    let ops = program.blocks[b].ops;
    if o == 0 {
        assert(ops.take(0) =~= Seq::empty());
        0
    } else {
        let last = o - 1;
        lemma_copies_step(ops, last);
        let op = ops[last];
        let before = copies_before(ops, last);
        assert(program.blocks[b].ops[last] == op);
        if op.kind is SetCopy {
            assert(op.outputs.contains(op.outputs[0]));
        }
        let at = if op.kind is SetCopy && op.outputs[0] == local {
            let source = op.inputs[0];
            assert(all_in_scope(program, idom, b, last, op.inputs));
            assert(in_scope(program, idom, b, last, source));
            if before.dom().contains(source) {
                let j = lemma_copy_site(program, idom, b, last, source);
                let origin = before[source];
                if program.blocks[b].inputs.contains(origin) {
                } else if exists|i: int|
                    0 <= i < j && i < ops.len() && (
                    #[trigger] program.blocks[b].ops[i]).outputs.contains(origin) {
                    let i = choose|i: int|
                        0 <= i < j && i < ops.len() && (
                        #[trigger] program.blocks[b].ops[i]).outputs.contains(origin);
                    assert(program.blocks[b].ops[i].outputs.contains(origin));
                }
                assert(in_scope(program, idom, b, last, origin));
            }
            last
        } else {
            lemma_copy_site(program, idom, b, last, local)
        };
        let origin = copies_before(ops, o)[local];
        if op.kind is SetCopy && op.outputs[0] == origin {
            lemma_in_scope_behind(program, idom, b, at, origin, last);
        }
        at
    }
}

/// Once a local is copied, later operations leave its entry as it is.
pub proof fn lemma_copies_stay(program: ProgramView, b: int, o: int, later: int, local: LocalId)
    requires
        program.ssa(),
        program.copies_one_local(),
        0 <= b < program.blocks.len(),
        0 <= o <= later <= program.blocks[b].ops.len(),
        exists|j: int|
            0 <= j < o && (#[trigger] program.blocks[b].ops[j]).outputs.contains(local),
    ensures
        copies_before(program.blocks[b].ops, later).dom().contains(local) == copies_before(
            program.blocks[b].ops,
            o,
        ).dom().contains(local),
        copies_before(program.blocks[b].ops, o).dom().contains(local) ==> copies_before(
            program.blocks[b].ops,
            later,
        )[local] == copies_before(program.blocks[b].ops, o)[local],
    decreases later,
{
    if o < later {
        let ops = program.blocks[b].ops;
        let j = choose|j: int|
            0 <= j < o && (#[trigger] program.blocks[b].ops[j]).outputs.contains(local);
        lemma_op_defines(program, b, j, local);
        lemma_copies_stay(program, b, o, later - 1, local);
        lemma_copies_step(ops, later - 1);
        assert(program.blocks[b].ops[later - 1] == ops[later - 1]);
        if ops[later - 1].kind is SetCopy {
            assert(ops[later - 1].outputs.contains(ops[later - 1].outputs[0]));
        }
    }
}

/// What stands for a local that is in scope is in scope, and the copies in front tell as much of
/// it as those of the whole block.
pub proof fn lemma_copies_in_scope(
    program: ProgramView,
    idom: Seq<Option<BasicBlockId>>,
    b: int,
    o: int,
    local: LocalId,
)
    requires
        program.ssa(),
        program.copies_one_local(),
        is_dominator_tree(idom),
        0 <= b < program.blocks.len(),
        0 <= o <= program.blocks[b].ops.len(),
        reads_in_scope(program, idom, b),
        in_scope(program, idom, b, o, local),
    ensures
        subst(copies_of(program.blocks[b].ops), local) == subst(
            copies_before(program.blocks[b].ops, o),
            local,
        ),
        in_scope(program, idom, b, o, subst(copies_of(program.blocks[b].ops), local)),
{
    let ops = program.blocks[b].ops;
    let n = ops.len() as int;
    assert(ops.take(n) =~= ops);
    if copies_before(ops, n).dom().contains(local) {
        let j = lemma_copy_site(program, idom, b, n, local);
        lemma_in_scope_behind(program, idom, b, o, local, j);
        lemma_copies_stay(program, b, o, n, local);
        let origin = copies_before(ops, n)[local];
        if exists|i: int|
            0 <= i < j && i < ops.len() && (#[trigger] program.blocks[b].ops[i]).outputs.contains(
                origin,
            ) {
            let i = choose|i: int|
                0 <= i < j && i < ops.len() && (
                #[trigger] program.blocks[b].ops[i]).outputs.contains(origin);
            assert(program.blocks[b].ops[i].outputs.contains(origin));
        }
    } else if copies_before(ops, o).dom().contains(local) {
        let j = lemma_copy_site(program, idom, b, o, local);
        lemma_copies_stay(program, b, o, n, local);
    }
}

/// Propagating copies inside blocks keeps what a block defines.
pub proof fn lemma_propagated_defines(program: ProgramView, d: int, local: LocalId)
    requires
        0 <= d < program.blocks.len(),
    ensures
        propagate_copies(program).blocks[d].defines(local) == program.blocks[d].defines(local),
{
    let after = propagate_copies(program);
    if program.blocks[d].defines(local) && !program.blocks[d].inputs.contains(local) {
        let o = choose|o: int|
            0 <= o < program.blocks[d].ops.len() && (
            #[trigger] program.blocks[d].ops[o]).outputs.contains(local);
        assert(after.blocks[d].ops[o].outputs.contains(local));
    }
    if after.blocks[d].defines(local) && !after.blocks[d].inputs.contains(local) {
        let o = choose|o: int|
            0 <= o < after.blocks[d].ops.len() && (
            #[trigger] after.blocks[d].ops[o]).outputs.contains(local);
        assert(program.blocks[d].ops[o].outputs.contains(local));
    }
}

proof fn lemma_propagated_in_scope(
    program: ProgramView,
    idom: Seq<Option<BasicBlockId>>,
    b: int,
    o: int,
    local: LocalId,
)
    requires
        0 <= b < program.blocks.len(),
        in_scope(program, idom, b, o, local),
    ensures
        in_scope(propagate_copies(program), idom, b, o, local),
{
    let after = propagate_copies(program);
    if program.blocks[b].inputs.contains(local) {
        assert(after.blocks[b].inputs.contains(local));
    } else if exists|j: int|
        0 <= j < o && j < program.blocks[b].ops.len() && (
        #[trigger] program.blocks[b].ops[j]).outputs.contains(local) {
        let j = choose|j: int|
            0 <= j < o && j < program.blocks[b].ops.len() && (
            #[trigger] program.blocks[b].ops[j]).outputs.contains(local);
        assert(after.blocks[b].ops[j].outputs.contains(local));
    } else {
        let d = choose|d: int|
            0 <= d < program.blocks.len() && #[trigger] program.blocks[d].defines(local)
                && dominates_strictly(idom, d, b);
        lemma_propagated_defines(program, d, local);
        assert(after.blocks[d].defines(local));
    }
}

proof fn lemma_propagated_all_in_scope(
    program: ProgramView,
    idom: Seq<Option<BasicBlockId>>,
    b: int,
    o: int,
    locals: Seq<LocalId>,
)
    requires
        program.ssa(),
        program.copies_one_local(),
        is_dominator_tree(idom),
        0 <= b < program.blocks.len(),
        0 <= o <= program.blocks[b].ops.len(),
        reads_in_scope(program, idom, b),
        all_in_scope(program, idom, b, o, locals),
    ensures
        all_in_scope(
            propagate_copies(program),
            idom,
            b,
            o,
            subst_all(copies_of(program.blocks[b].ops), locals),
        ),
{
    let read = subst_all(copies_of(program.blocks[b].ops), locals);
    assert forall|i: int| 0 <= i < read.len() implies in_scope(
        propagate_copies(program),
        idom,
        b,
        o,
        #[trigger] read[i],
    ) by {
        assert(in_scope(program, idom, b, o, locals[i]));
        lemma_copies_in_scope(program, idom, b, o, locals[i]);
        lemma_propagated_in_scope(program, idom, b, o, read[i]);
    }
}

/// The end of a block reads what stands for the local that it read.
pub proof fn lemma_subst_condition(map: Map<LocalId, LocalId>, control: Control)
    ensures
        condition_of(subst_control(map, control)) == subst_all(map, condition_of(control)),
{
    assert(condition_of(subst_control(map, control)) =~= subst_all(map, condition_of(control)));
}

/// Propagating copies inside blocks keeps reads in scope.
pub proof fn lemma_propagate_reads_in_scope(
    program: ProgramView,
    idom: Seq<Option<BasicBlockId>>,
    b: int,
)
    requires
        program.ssa(),
        program.copies_one_local(),
        is_dominator_tree(idom),
        0 <= b < program.blocks.len(),
        reads_in_scope(program, idom, b),
    ensures
        reads_in_scope(propagate_copies(program), idom, b),
{
    let block = program.blocks[b];
    let after = propagate_copies(program).blocks[b];
    let n = block.ops.len() as int;
    assert forall|o: int| 0 <= o < after.ops.len() implies all_in_scope(
        propagate_copies(program),
        idom,
        b,
        o,
        (#[trigger] after.ops[o]).inputs,
    ) by {
        assert(all_in_scope(program, idom, b, o, block.ops[o].inputs));
        lemma_propagated_all_in_scope(program, idom, b, o, block.ops[o].inputs);
    }
    lemma_propagated_all_in_scope(program, idom, b, n, block.outputs);
    lemma_propagated_all_in_scope(program, idom, b, n, condition_of(block.control));
    lemma_subst_condition(copies_of(block.ops), block.control);
}

/// A block that defines a local which is not forwarded still does without redundant slots.
pub proof fn lemma_eliminated_defines(
    program: ProgramView,
    analyses: AnalysesView,
    d: int,
    local: LocalId,
)
    requires
        program.ssa(),
        analyses.wf(program.blocks.len() as int),
        0 <= d < program.blocks.len(),
        program.blocks[d].defines(local),
        !forwarded_inputs(program, analyses).dom().contains(local),
    ensures
        eliminate_redundant_slots(program, analyses).blocks[d].defines(local),
        program.blocks[d].inputs.contains(local) ==> eliminate_redundant_slots(
            program,
            analyses,
        ).blocks[d].inputs.contains(local),
{
    let after = eliminate_redundant_slots(program, analyses);
    let inputs = program.blocks[d].inputs;
    if inputs.contains(local) {
        let removed = |slot: int|
            slot_is_redundant(program, analyses, analyses.in_group[d], slot);
        let slot = choose|slot: int| 0 <= slot < inputs.len() && inputs[slot] == local;
        if removed(slot) {
            let g = analyses.in_group[d]->0;
            let source = choose|source: LocalId| is_redundant(program, analyses, g, slot, source);
            assert(in_member(analyses, g, d));
            lemma_forwarded_entry(program, analyses, g, slot, source, d);
        }
        lemma_keep_slots_at(inputs, removed, slot);
        assert(after.blocks[d].inputs == keep_slots(inputs, removed));
        assert(after.blocks[d].inputs.contains(local));
    } else {
        let o = choose|o: int|
            0 <= o < program.blocks[d].ops.len() && (
            #[trigger] program.blocks[d].ops[o]).outputs.contains(local);
        assert(after.blocks[d].ops[o].outputs.contains(local));
    }
}

/// Where a forwarded input is in scope, the block that takes it in dominates.
pub proof fn lemma_forwarded_scope(
    program: ProgramView,
    analyses: AnalysesView,
    b: int,
    o: int,
    input: LocalId,
    site: int,
)
    requires
        program.ssa(),
        analyses.wf(program.blocks.len() as int),
        0 <= b < program.blocks.len(),
        0 <= site < program.blocks.len(),
        program.blocks[site].inputs.contains(input),
        in_scope(program, analyses.idom, b, o, input),
    ensures
        dominates(analyses.idom, site, b),
{
    assert(program.blocks[site].defines(input));
    if program.blocks[b].inputs.contains(input) {
        assert(program.blocks[b].defines(input));
    } else if exists|j: int|
        0 <= j < o && j < program.blocks[b].ops.len() && (
        #[trigger] program.blocks[b].ops[j]).outputs.contains(input) {
        let j = choose|j: int|
            0 <= j < o && j < program.blocks[b].ops.len() && (
            #[trigger] program.blocks[b].ops[j]).outputs.contains(input);
        lemma_op_defines(program, b, j, input);
    }
}

/// The origin of a forwarded input is defined above the block that takes the input in, and is not
/// itself forwarded.
pub proof fn lemma_origin_above(
    program: ProgramView,
    analyses: AnalysesView,
    input: LocalId,
    site: int,
) -> (d: int)
    requires
        program.ssa(),
        analyses.wf(program.blocks.len() as int),
        0 <= site < program.blocks.len(),
        program.blocks[site].inputs.contains(input),
        forwarded_inputs(program, analyses).dom().contains(input),
    ensures
        canonical(forwarded_inputs(program, analyses)).dom().contains(input),
        !forwarded_inputs(program, analyses).dom().contains(
            canonical(forwarded_inputs(program, analyses))[input],
        ),
        0 <= d < program.blocks.len(),
        program.blocks[d].defines(canonical(forwarded_inputs(program, analyses))[input]),
        dominates_strictly(analyses.idom, d, site),
{
    let map = forwarded_inputs(program, analyses);
    let number = choose|number: spec_fn(int) -> nat|
        numbers_dominators_first(analyses.idom, number);
    assert(program.blocks[site].defines(input));
    let (end, above) = lemma_forwarded_resolves(program, analyses, number, input);
    lemma_canonical_entry(map, input, end);
    above
}

/// What stands for a local that is in scope is in scope without redundant slots.
pub proof fn lemma_eliminated_in_scope(
    program: ProgramView,
    analyses: AnalysesView,
    b: int,
    o: int,
    local: LocalId,
)
    requires
        program.ssa(),
        analyses.wf(program.blocks.len() as int),
        0 <= b < program.blocks.len(),
        in_scope(program, analyses.idom, b, o, local),
    ensures
        in_scope(
            eliminate_redundant_slots(program, analyses),
            analyses.idom,
            b,
            o,
            subst(canonical(forwarded_inputs(program, analyses)), local),
        ),
{
    let map = forwarded_inputs(program, analyses);
    let after = eliminate_redundant_slots(program, analyses);
    let origin = subst(canonical(map), local);
    if map.dom().contains(local) {
        let (site, slot, g) = lemma_forwarded_site(program, analyses, local);
        assert(program.blocks[site].inputs.contains(local));
        lemma_forwarded_scope(program, analyses, b, o, local, site);
        let d = lemma_origin_above(program, analyses, local, site);
        if site != b {
            lemma_dominates_strictly_transitive(analyses.idom, d, site, b);
        }
        lemma_eliminated_defines(program, analyses, d, origin);
        assert(after.blocks[d].defines(origin));
    } else if program.blocks[b].inputs.contains(local) {
        assert(program.blocks[b].defines(local));
        lemma_eliminated_defines(program, analyses, b, local);
    } else if exists|j: int|
        0 <= j < o && j < program.blocks[b].ops.len() && (
        #[trigger] program.blocks[b].ops[j]).outputs.contains(local) {
        let j = choose|j: int|
            0 <= j < o && j < program.blocks[b].ops.len() && (
            #[trigger] program.blocks[b].ops[j]).outputs.contains(local);
        assert(after.blocks[b].ops[j].outputs.contains(local));
    } else {
        let d = choose|d: int|
            0 <= d < program.blocks.len() && #[trigger] program.blocks[d].defines(local)
                && dominates_strictly(analyses.idom, d, b);
        lemma_eliminated_defines(program, analyses, d, local);
        assert(after.blocks[d].defines(local));
    }
}

proof fn lemma_eliminated_all_in_scope(
    program: ProgramView,
    analyses: AnalysesView,
    b: int,
    o: int,
    locals: Seq<LocalId>,
)
    requires
        program.ssa(),
        analyses.wf(program.blocks.len() as int),
        0 <= b < program.blocks.len(),
        all_in_scope(program, analyses.idom, b, o, locals),
    ensures
        all_in_scope(
            eliminate_redundant_slots(program, analyses),
            analyses.idom,
            b,
            o,
            subst_all(canonical(forwarded_inputs(program, analyses)), locals),
        ),
{
    let read = subst_all(canonical(forwarded_inputs(program, analyses)), locals);
    assert forall|i: int| 0 <= i < read.len() implies in_scope(
        eliminate_redundant_slots(program, analyses),
        analyses.idom,
        b,
        o,
        #[trigger] read[i],
    ) by {
        assert(in_scope(program, analyses.idom, b, o, locals[i]));
        lemma_eliminated_in_scope(program, analyses, b, o, locals[i]);
    }
}

/// Taking out redundant slots keeps reads in scope.
pub proof fn lemma_eliminate_reads_in_scope(program: ProgramView, analyses: AnalysesView, b: int)
    requires
        program.ssa(),
        analyses.wf(program.blocks.len() as int),
        0 <= b < program.blocks.len(),
        reads_in_scope(program, analyses.idom, b),
    ensures
        reads_in_scope(eliminate_redundant_slots(program, analyses), analyses.idom, b),
{
    let origins = canonical(forwarded_inputs(program, analyses));
    let block = program.blocks[b];
    let all = eliminate_redundant_slots(program, analyses);
    let after = all.blocks[b];
    let n = block.ops.len() as int;
    assert forall|o: int| 0 <= o < after.ops.len() implies all_in_scope(
        all,
        analyses.idom,
        b,
        o,
        (#[trigger] after.ops[o]).inputs,
    ) by {
        assert(all_in_scope(program, analyses.idom, b, o, block.ops[o].inputs));
        lemma_eliminated_all_in_scope(program, analyses, b, o, block.ops[o].inputs);
    }
    lemma_eliminated_all_in_scope(program, analyses, b, n, block.outputs);
    let outputs = subst_all(origins, block.outputs);
    let removed = |slot: int| slot_is_redundant(program, analyses, analyses.out_group[b], slot);
    assert(after.outputs == keep_slots(outputs, removed));
    lemma_keep_slots_count(outputs, removed);
    assert forall|i: int| 0 <= i < after.outputs.len() implies in_scope(
        all,
        analyses.idom,
        b,
        n,
        #[trigger] after.outputs[i],
    ) by {
        let slot = lemma_kept_from(removed, outputs.len(), i as nat);
        lemma_keep_slots_at(outputs, removed, slot);
        assert(in_scope(all, analyses.idom, b, n, outputs[slot]));
    }
    lemma_eliminated_all_in_scope(program, analyses, b, n, condition_of(block.control));
    lemma_subst_condition(origins, block.control);
}

} // verus!
