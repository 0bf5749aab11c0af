//! Facts about redundant slots of a program in static single assignment form.

use crate::analyses::{
    dominates_strictly, lemma_dominance_irreflexive, lemma_dominates_strictly_transitive,
    lemma_dominators_have_smaller_numbers, numbers_dominators_first, AnalysesView, InOutGroupId,
};
use crate::chains::lemma_canonical_entry;
use crate::ir::{LocalId, ProgramView};
use crate::model::{
    canonical, follow, forwarded_inputs, in_member, is_available, is_forwarded, is_redundant,
    out_member, resolves_to, subst,
};
use vstd::prelude::*;

verus! {

/// A local is an input of one block at most, and there at one slot.
pub proof fn lemma_input_site_unique(
    program: ProgramView,
    b1: int,
    slot1: int,
    b2: int,
    slot2: int,
)
    requires
        program.ssa(),
        0 <= b1 < program.blocks.len(),
        0 <= b2 < program.blocks.len(),
        0 <= slot1 < program.blocks[b1].inputs.len(),
        0 <= slot2 < program.blocks[b2].inputs.len(),
        program.blocks[b1].inputs[slot1] == program.blocks[b2].inputs[slot2],
    ensures
        b1 == b2,
        slot1 == slot2,
{
    let local = program.blocks[b1].inputs[slot1];
    assert(program.blocks[b1].inputs.contains(local));
    assert(program.blocks[b2].inputs.contains(local));
    assert(program.blocks[b1].defines(local));
    assert(program.blocks[b2].defines(local));
    assert(program.blocks[b1].ssa());
}

/// The block that defines a local is its definer.
pub proof fn lemma_definer(program: ProgramView, b: int, local: LocalId)
    requires
        program.ssa(),
        0 <= b < program.blocks.len(),
        program.blocks[b].defines(local),
    ensures
        program.definer(local) == b,
{
    assert(program.blocks[program.definer(local)].defines(local));
}

/// A redundant slot is one of every block that takes inputs from the group.
pub proof fn lemma_redundant_slot_in_range(
    program: ProgramView,
    analyses: AnalysesView,
    g: InOutGroupId,
    slot: int,
    source: LocalId,
    b: int,
)
    requires
        is_redundant(program, analyses, g, slot, source),
        in_member(analyses, g, b),
    ensures
        0 <= slot < program.blocks[b].inputs.len(),
{
    let o = choose|o: int| out_member(analyses, g, o);
    assert(out_member(analyses, g, o));
}

/// A slot holds one local.
pub proof fn lemma_source_unique(
    program: ProgramView,
    analyses: AnalysesView,
    g: InOutGroupId,
    slot: int,
    source1: LocalId,
    source2: LocalId,
)
    requires
        is_redundant(program, analyses, g, slot, source1),
        is_redundant(program, analyses, g, slot, source2),
    ensures
        source1 == source2,
{
    let o = choose|o: int| out_member(analyses, g, o);
    assert(out_member(analyses, g, o));
}

/// An input comes from one source at most.
pub proof fn lemma_forwarded_unique(
    program: ProgramView,
    analyses: AnalysesView,
    input: LocalId,
    source1: LocalId,
    source2: LocalId,
)
    requires
        program.ssa(),
        is_forwarded(program, analyses, input, source1),
        is_forwarded(program, analyses, input, source2),
    ensures
        source1 == source2,
{
    let (b1, slot1) = choose|b: int, slot: int|
        #![trigger program.blocks[b].inputs[slot]]
        0 <= b < program.blocks.len() && 0 <= slot < program.blocks[b].inputs.len()
            && program.blocks[b].inputs[slot] == input && (analyses.in_group[b] matches Some(g)
            && is_redundant(program, analyses, g, slot, source1));
    let (b2, slot2) = choose|b: int, slot: int|
        #![trigger program.blocks[b].inputs[slot]]
        0 <= b < program.blocks.len() && 0 <= slot < program.blocks[b].inputs.len()
            && program.blocks[b].inputs[slot] == input && (analyses.in_group[b] matches Some(g)
            && is_redundant(program, analyses, g, slot, source2));
    lemma_input_site_unique(program, b1, slot1, b2, slot2);
    lemma_source_unique(
        program,
        analyses,
        analyses.in_group[b1]->0,
        slot1,
        source1,
        source2,
    );
}

/// The map of forwarded inputs sends an input to the local that its slot holds.
pub proof fn lemma_forwarded_entry(
    program: ProgramView,
    analyses: AnalysesView,
    g: InOutGroupId,
    slot: int,
    source: LocalId,
    b: int,
)
    requires
        program.ssa(),
        analyses.wf(program.blocks.len() as int),
        is_redundant(program, analyses, g, slot, source),
        in_member(analyses, g, b),
    ensures
        0 <= slot < program.blocks[b].inputs.len(),
        is_forwarded(program, analyses, program.blocks[b].inputs[slot], source),
        forwarded_inputs(program, analyses).dom().contains(program.blocks[b].inputs[slot]),
        forwarded_inputs(program, analyses)[program.blocks[b].inputs[slot]] == source,
{
    lemma_redundant_slot_in_range(program, analyses, g, slot, source, b);
    let input = program.blocks[b].inputs[slot];
    assert(is_forwarded(program, analyses, input, source));
    let chosen = choose|source: LocalId| is_forwarded(program, analyses, input, source);
    lemma_forwarded_unique(program, analyses, input, source, chosen);
}

/// Where the map of forwarded inputs has an entry there is a redundant slot behind it.
pub proof fn lemma_forwarded_site(
    program: ProgramView,
    analyses: AnalysesView,
    input: LocalId,
) -> (site: (int, int, InOutGroupId))
    requires
        analyses.wf(program.blocks.len() as int),
        forwarded_inputs(program, analyses).dom().contains(input),
    ensures
        0 <= site.0 < program.blocks.len(),
        0 <= site.1 < program.blocks[site.0].inputs.len(),
        program.blocks[site.0].inputs[site.1] == input,
        in_member(analyses, site.2, site.0),
        is_redundant(
            program,
            analyses,
            site.2,
            site.1,
            forwarded_inputs(program, analyses)[input],
        ),
{
    let source = forwarded_inputs(program, analyses)[input];
    assert(is_forwarded(program, analyses, input, source));
    let (b, slot) = choose|b: int, slot: int|
        #![trigger program.blocks[b].inputs[slot]]
        0 <= b < program.blocks.len() && 0 <= slot < program.blocks[b].inputs.len()
            && program.blocks[b].inputs[slot] == input && (analyses.in_group[b] matches Some(g)
            && is_redundant(program, analyses, g, slot, source));
    (b, slot, analyses.in_group[b]->0)
}

/// The block that defines an available local lies above every block that takes inputs from the
/// group.
pub proof fn lemma_available_definer(
    program: ProgramView,
    analyses: AnalysesView,
    g: InOutGroupId,
    local: LocalId,
) -> (d: int)
    requires
        is_available(program, analyses, g, local),
    ensures
        0 <= d < program.blocks.len(),
        program.blocks[d].defines(local),
        forall|i: int| #[trigger]
            in_member(analyses, g, i) ==> dominates_strictly(analyses.idom, d, i),
{
    choose|d: int|
        0 <= d < program.blocks.len() && #[trigger] program.blocks[d].defines(local) && forall|
            i: int,
        | #[trigger]
            in_member(analyses, g, i) ==> dominates_strictly(analyses.idom, d, i)
}

/// No redundant slot holds the very local that it is taken in as.
pub proof fn lemma_forwarded_differs(
    program: ProgramView,
    analyses: AnalysesView,
    g: InOutGroupId,
    slot: int,
    source: LocalId,
    b: int,
)
    requires
        program.ssa(),
        analyses.wf(program.blocks.len() as int),
        is_redundant(program, analyses, g, slot, source),
        in_member(analyses, g, b),
    ensures
        program.blocks[b].inputs[slot] != source,
{
    lemma_redundant_slot_in_range(program, analyses, g, slot, source, b);
    let d = lemma_available_definer(program, analyses, g, source);
    if program.blocks[b].inputs[slot] == source {
        assert(program.blocks[b].inputs.contains(source));
        assert(program.blocks[b].defines(source));
        assert(d == b);
        lemma_dominance_irreflexive(analyses.idom, b);
    }
}

/// Following forwarded inputs from an input of block `b` ends, at a local that is defined above
/// `b`.
pub proof fn lemma_forwarded_resolves(
    program: ProgramView,
    analyses: AnalysesView,
    number: spec_fn(int) -> nat,
    input: LocalId,
) -> (r: (LocalId, int))
    requires
        program.ssa(),
        analyses.wf(program.blocks.len() as int),
        numbers_dominators_first(analyses.idom, number),
        forwarded_inputs(program, analyses).dom().contains(input),
    ensures
        resolves_to(forwarded_inputs(program, analyses), input, r.0),
        0 <= r.1 < program.blocks.len(),
        program.blocks[r.1].defines(r.0),
        forall|b: int|
            0 <= b < program.blocks.len() && #[trigger] program.blocks[b].defines(input)
                ==> dominates_strictly(analyses.idom, r.1, b),
    decreases number(program.definer(input)),
{
    let map = forwarded_inputs(program, analyses);
    let (b, slot, g) = lemma_forwarded_site(program, analyses, input);
    assert(program.blocks[b].inputs.contains(input));
    assert(program.blocks[b].defines(input));
    lemma_definer(program, b, input);
    let source = map[input];
    let d = lemma_available_definer(program, analyses, g, source);
    assert(dominates_strictly(analyses.idom, d, b));
    if map.dom().contains(source) {
        lemma_definer(program, d, source);
        lemma_dominators_have_smaller_numbers(analyses.idom, number, d, b);
        let (end, above) = lemma_forwarded_resolves(program, analyses, number, source);
        let steps = choose|steps: nat| #[trigger] follow(map, source, steps) == end;
        assert(follow(map, input, steps + 1) == end);
        lemma_dominates_strictly_transitive(analyses.idom, above, d, b);
        (end, above)
    } else {
        assert(follow(map, source, 0) == source);
        assert(follow(map, input, 1) == source);
        (source, d)
    }
}

/// All inputs that are taken in through one redundant slot have the same origin, and that origin
/// is available where they are taken in.
pub proof fn lemma_slot_origin(
    program: ProgramView,
    analyses: AnalysesView,
    g: InOutGroupId,
    slot: int,
    source: LocalId,
)
    requires
        program.ssa(),
        analyses.wf(program.blocks.len() as int),
        is_redundant(program, analyses, g, slot, source),
    ensures
        is_available(
            program,
            analyses,
            g,
            subst(canonical(forwarded_inputs(program, analyses)), source),
        ),
        forall|b: int| #[trigger]
            in_member(analyses, g, b) ==> canonical(
                forwarded_inputs(program, analyses),
            ).dom().contains(program.blocks[b].inputs[slot]) && canonical(
                forwarded_inputs(program, analyses),
            )[program.blocks[b].inputs[slot]] == subst(
                canonical(forwarded_inputs(program, analyses)),
                source,
            ),
{
    let map = forwarded_inputs(program, analyses);
    let number = choose|number: spec_fn(int) -> nat|
        numbers_dominators_first(analyses.idom, number);
    let d = lemma_available_definer(program, analyses, g, source);
    let origin = subst(canonical(map), source);
    if map.dom().contains(source) {
        let (end, above) = lemma_forwarded_resolves(program, analyses, number, source);
        lemma_canonical_entry(map, source, end);
        assert forall|i: int| #[trigger] in_member(analyses, g, i) implies dominates_strictly(
            analyses.idom,
            above,
            i,
        ) by {
            assert(dominates_strictly(analyses.idom, above, d));
            lemma_dominates_strictly_transitive(analyses.idom, above, d, i);
        }
        assert(program.blocks[above].defines(origin));
        assert forall|b: int| #[trigger] in_member(analyses, g, b) implies canonical(
            map,
        ).dom().contains(program.blocks[b].inputs[slot]) && canonical(
            map,
        )[program.blocks[b].inputs[slot]] == origin by {
            lemma_forwarded_entry(program, analyses, g, slot, source, b);
            let steps = choose|steps: nat| #[trigger] follow(map, source, steps) == end;
            assert(follow(map, program.blocks[b].inputs[slot], steps + 1) == end);
            lemma_canonical_entry(map, program.blocks[b].inputs[slot], end);
        }
    } else {
        assert forall|b: int| #[trigger] in_member(analyses, g, b) implies canonical(
            map,
        ).dom().contains(program.blocks[b].inputs[slot]) && canonical(
            map,
        )[program.blocks[b].inputs[slot]] == origin by {
            lemma_forwarded_entry(program, analyses, g, slot, source, b);
            assert(follow(map, source, 0) == source);
            assert(follow(map, program.blocks[b].inputs[slot], 1) == source);
            lemma_canonical_entry(map, program.blocks[b].inputs[slot], source);
        }
    }
}

} // verus!
