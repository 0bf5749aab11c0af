//! Groups of block inputs and outputs, and what one slot of a group holds.

use crate::analyses::{
    dominates_strictly, dominator_parent, lemma_dominance_irreflexive,
    lemma_dominates_strictly_step, numbers_dominators_first, Dominators, InOutGroupId,
};
use crate::ir::{BasicBlockId, EthIRProgram, LocalId, OperandList, ProgramView, Span};
use crate::local_map::LocalMap;
use crate::plain::{law_above_is_a_walk, stands_above};
use vstd::prelude::*;

verus! {

/// The blocks whose inputs and the blocks whose outputs belong to one group.
pub struct InOutGroupBlocks {
    pub inputs: Vec<BasicBlockId>,
    pub outputs: Vec<BasicBlockId>,
}

impl InOutGroupBlocks {
    /// A group without blocks.
    pub fn new() -> (group: InOutGroupBlocks)
        ensures
            group.inputs@.len() == 0,
            group.outputs@.len() == 0,
    {
        InOutGroupBlocks { inputs: Vec::new(), outputs: Vec::new() }
    }

    /// Takes all blocks out of the group.
    pub fn clear(&mut self)
        ensures
            final(self).inputs@.len() == 0,
            final(self).outputs@.len() == 0,
    {
        self.inputs.clear();
        self.outputs.clear();
    }

    /// The blocks of the group are blocks of the program.
    pub open spec fn within(self, blocks: int) -> bool {
        &&& forall|k: int| 0 <= k < self.inputs.len() ==> #[trigger] self.inputs[k] < blocks
        &&& forall|k: int| 0 <= k < self.outputs.len() ==> #[trigger] self.outputs[k] < blocks
    }
}

/// A slot of a group that may go, with the local that it holds.
#[derive(Clone, Copy)]
pub struct RemovalCandidate {
    pub group: InOutGroupId,
    pub slot: usize,
    pub replacement: LocalId,
}

/// Whether `dominator` lies above `block` in the dominator tree.
pub fn strictly_dominates(
    dominators: &Dominators,
    dominator: BasicBlockId,
    block: BasicBlockId,
) -> (above: bool)
    requires
        dominators.wf(dominators.idom.len() as int),
        block < dominators.idom.len(),
    ensures
        above == dominates_strictly(dominators.idom@, dominator as int, block as int),
        above == stands_above(dominators.idom@, dominator as int, block as int),
{
    let ghost idom = dominators.idom@;
    let ghost number = choose|number: spec_fn(int) -> nat| numbers_dominators_first(idom, number);
    proof {
        law_above_is_a_walk(idom, dominator as int, block as int);
    }
    if dominator == block {
        proof {
            lemma_dominance_irreflexive(idom, block as int);
        }
        return false;
    }
    let mut current: BasicBlockId = block;
    loop
        invariant
            idom == dominators.idom@,
            dominators.wf(dominators.idom.len() as int),
            numbers_dominators_first(idom, number),
            current < dominators.idom.len(),
            current != dominator,
            dominates_strictly(idom, dominator as int, block as int) <==> stands_above(
                idom,
                dominator as int,
                block as int,
            ),
            dominates_strictly(idom, dominator as int, block as int) <==> dominates_strictly(
                idom,
                dominator as int,
                current as int,
            ),
        decreases number(current as int),
    {
        proof {
            lemma_dominates_strictly_step(idom, dominator as int, current as int);
        }
        match dominators.of(current) {
            Some(parent) => {
                if parent == dominator {
                    return true;
                }
                if parent == current {
                    return false;
                }
                assert(dominator_parent(idom, current as int) == Some(parent as int));
                current = parent;
            },
            None => {
                return false;
            },
        }
    }
}

/// The local at a slot of an operand list.
pub fn local_at_slot(program: &EthIRProgram, span: Span, slot: usize) -> (local: LocalId)
    requires
        span.start <= span.end <= program.locals.len(),
        slot < span.end - span.start,
    ensures
        local == program.span_view(span)[slot as int],
{
    program.locals[(span.start + slot as u32) as usize]
}

/// Whether all blocks of a group have `slots` outputs and inputs in it.
pub fn group_has_matching_arity(
    program: &EthIRProgram,
    group: &InOutGroupBlocks,
    slots: usize,
) -> (matching: bool)
    requires
        program.wf(),
        group.within(program.basic_blocks.len() as int),
    ensures
        matching == ((forall|k: int|
            0 <= k < group.outputs.len() ==> program@.blocks[#[trigger] group.outputs[k] as int].outputs.len()
                == slots) && (forall|k: int|
            0 <= k < group.inputs.len() ==> program@.blocks[#[trigger] group.inputs[k] as int].inputs.len()
                == slots)),
{
    let mut k: usize = 0;
    while k < group.outputs.len()
        invariant
            program.wf(),
            group.within(program.basic_blocks.len() as int),
            k <= group.outputs.len(),
            forall|j: int|
                0 <= j < k ==> program@.blocks[#[trigger] group.outputs[j] as int].outputs.len()
                    == slots,
        decreases group.outputs.len() - k,
    {
        let bb_id: BasicBlockId = group.outputs[k];
        assert(program.has_list(OperandList::BlockOutputs(bb_id as int)));
        if program.basic_blocks[bb_id as usize].outputs.len() as usize != slots {
            assert(program@.blocks[group.outputs[k as int] as int].outputs.len() != slots);
            return false;
        }
        k += 1;
    }
    k = 0;
    while k < group.inputs.len()
        invariant
            program.wf(),
            group.within(program.basic_blocks.len() as int),
            k <= group.inputs.len(),
            forall|j: int|
                0 <= j < k ==> program@.blocks[#[trigger] group.inputs[j] as int].inputs.len()
                    == slots,
        decreases group.inputs.len() - k,
    {
        let bb_id: BasicBlockId = group.inputs[k];
        assert(program.has_list(OperandList::BlockInputs(bb_id as int)));
        if program.basic_blocks[bb_id as usize].inputs.len() as usize != slots {
            assert(program@.blocks[group.inputs[k as int] as int].inputs.len() != slots);
            return false;
        }
        k += 1;
    }
    true
}

/// The local that all blocks with outputs in a group hand on at a slot, if it is the same one and
/// there are such blocks.
pub fn common_output_at_slot(
    program: &EthIRProgram,
    group: &InOutGroupBlocks,
    slot: usize,
) -> (common: Option<LocalId>)
    requires
        program.wf(),
        group.within(program.basic_blocks.len() as int),
        forall|k: int|
            0 <= k < group.outputs.len() ==> slot
                < program@.blocks[#[trigger] group.outputs[k] as int].outputs.len(),
    ensures
        match common {
            Some(local) => group.outputs.len() > 0 && forall|k: int|
                0 <= k < group.outputs.len()
                    ==> program@.blocks[#[trigger] group.outputs[k] as int].outputs[slot as int]
                    == local,
            None => group.outputs.len() == 0 || exists|k: int|
                0 < k < group.outputs.len()
                    && program@.blocks[#[trigger] group.outputs[k] as int].outputs[slot as int]
                    != program@.blocks[group.outputs[0] as int].outputs[slot as int],
        },
{
    if group.outputs.len() == 0 {
        return None;
    }
    let first_id: BasicBlockId = group.outputs[0];
    assert(program.has_list(OperandList::BlockOutputs(first_id as int)));
    assert(slot < program@.blocks[group.outputs[0] as int].outputs.len());
    let first: LocalId = local_at_slot(
        program,
        program.basic_blocks[first_id as usize].outputs,
        slot,
    );
    let mut k: usize = 1;
    while k < group.outputs.len()
        invariant
            program.wf(),
            group.within(program.basic_blocks.len() as int),
            forall|k: int|
                0 <= k < group.outputs.len() ==> slot
                    < program@.blocks[#[trigger] group.outputs[k] as int].outputs.len(),
            1 <= k <= group.outputs.len(),
            first == program@.blocks[group.outputs[0] as int].outputs[slot as int],
            forall|j: int|
                0 <= j < k
                    ==> program@.blocks[#[trigger] group.outputs[j] as int].outputs[slot as int]
                    == first,
        decreases group.outputs.len() - k,
    {
        let bb_id: BasicBlockId = group.outputs[k];
        assert(program.has_list(OperandList::BlockOutputs(bb_id as int)));
        assert(slot < program@.blocks[group.outputs[k as int] as int].outputs.len());
        let local: LocalId = local_at_slot(
            program,
            program.basic_blocks[bb_id as usize].outputs,
            slot,
        );
        if local != first {
            assert(program@.blocks[group.outputs[k as int] as int].outputs[slot as int] != first);
            return None;
        }
        k += 1;
    }
    Some(first)
}

/// What the blocks with inputs in a group take in at a slot.
pub open spec fn slot_inputs(
    program: ProgramView,
    group: InOutGroupBlocks,
    slot: int,
) -> Seq<LocalId> {
    Seq::new(
        group.inputs@.len(),
        |k: int| program.blocks[group.inputs[k] as int].inputs[slot],
    )
}

/// A map with `value` stored under every one of `inputs` but `skip`.
pub open spec fn with_inputs(
    map: Map<LocalId, LocalId>,
    inputs: Seq<LocalId>,
    skip: LocalId,
    value: LocalId,
) -> Map<LocalId, LocalId> {
    map.union_prefer_right(
        Map::new(|local: LocalId| inputs.contains(local) && local != skip, |local: LocalId| value),
    )
}

/// What a group takes in at a slot, apart from `skip`: `local` is so taken in.
pub open spec fn is_taken_in(
    program: ProgramView,
    group: InOutGroupBlocks,
    slot: int,
    skip: LocalId,
    local: LocalId,
) -> bool {
    local != skip && exists|k: int|
        0 <= k < group.inputs@.len()
            && program.blocks[#[trigger] group.inputs@[k] as int].inputs[slot] == local
}

/// A map has got `value` under all that a group takes in at a slot but `skip`; its other entries are
/// what they were.
pub open spec fn notes_inputs(
    before: Map<LocalId, LocalId>,
    after: Map<LocalId, LocalId>,
    program: ProgramView,
    group: InOutGroupBlocks,
    slot: int,
    skip: LocalId,
    value: LocalId,
) -> bool {
    &&& forall|local: LocalId| #[trigger]
        after.dom().contains(local) <==> before.dom().contains(local) || is_taken_in(
            program,
            group,
            slot,
            skip,
            local,
        )
    &&& forall|local: LocalId|
        is_taken_in(program, group, slot, skip, local) ==> #[trigger] after[local] == value
    &&& forall|local: LocalId|
        before.dom().contains(local) && !is_taken_in(program, group, slot, skip, local)
            ==> #[trigger] after[local] == before[local]
}

/// To store a value under inputs is to note it down for them.
pub proof fn law_noted_inputs(
    map: Map<LocalId, LocalId>,
    program: ProgramView,
    group: InOutGroupBlocks,
    slot: int,
    skip: LocalId,
    value: LocalId,
)
    ensures
        notes_inputs(
            map,
            with_inputs(map, slot_inputs(program, group, slot), skip, value),
            program,
            group,
            slot,
            skip,
            value,
        ),
{
    let inputs = slot_inputs(program, group, slot);
    assert forall|local: LocalId| #[trigger]
        inputs.contains(local) && local != skip <==> is_taken_in(
            program,
            group,
            slot,
            skip,
            local,
        ) by {
        if inputs.contains(local) {
            let k = choose|k: int| 0 <= k < inputs.len() && inputs[k] == local;
            assert(program.blocks[group.inputs@[k] as int].inputs[slot] == local);
        }
        if is_taken_in(program, group, slot, skip, local) {
            let k = choose|k: int|
                0 <= k < group.inputs@.len()
                    && program.blocks[#[trigger] group.inputs@[k] as int].inputs[slot] == local;
            assert(inputs[k] == local);
        }
    }
    let after = with_inputs(map, inputs, skip, value);
    assert forall|local: LocalId|
        is_taken_in(program, group, slot, skip, local) implies #[trigger] after[local] == value by {
        assert(inputs.contains(local));
    }
    assert forall|local: LocalId|
        map.dom().contains(local) && !is_taken_in(
            program,
            group,
            slot,
            skip,
            local,
        ) implies #[trigger] after[local] == map[local] by {
        assert(!(inputs.contains(local) && local != skip));
    }
    assert forall|local: LocalId| #[trigger]
        after.dom().contains(local) <==> map.dom().contains(local) || is_taken_in(
            program,
            group,
            slot,
            skip,
            local,
        ) by {
        assert(inputs.contains(local) && local != skip <==> is_taken_in(
            program,
            group,
            slot,
            skip,
            local,
        ));
    }
}

/// One of `inputs`, other than `value` itself, has another value than `value` in a map.
pub open spec fn conflicts(
    map: Map<LocalId, LocalId>,
    inputs: Seq<LocalId>,
    value: LocalId,
) -> bool {
    exists|local: LocalId| #[trigger]
        inputs.contains(local) && local != value && map.dom().contains(local) && map[local] != value
}

/// Those of `inputs` that are neither `skip` nor keys of a map, each once, in the order in which
/// they first come.
pub open spec fn new_inputs(
    map: Map<LocalId, LocalId>,
    inputs: Seq<LocalId>,
    skip: LocalId,
) -> Seq<LocalId>
    decreases inputs.len(),
{
    if inputs.len() == 0 {
        inputs
    } else {
        let earlier = new_inputs(map, inputs.drop_last(), skip);
        if inputs.last() != skip && !map.dom().contains(inputs.last()) && !earlier.contains(
            inputs.last(),
        ) {
            earlier.push(inputs.last())
        } else {
            earlier
        }
    }
}

/// New inputs stand there once each, and are those that they are said to be.
pub proof fn lemma_new_inputs(map: Map<LocalId, LocalId>, inputs: Seq<LocalId>, skip: LocalId)
    ensures
        new_inputs(map, inputs, skip).no_duplicates(),
        forall|local: LocalId| #[trigger]
            new_inputs(map, inputs, skip).contains(local) <==> inputs.contains(local) && local
                != skip && !map.dom().contains(local),
    decreases inputs.len(),
{
    if inputs.len() > 0 {
        let last = inputs.last();
        let earlier = new_inputs(map, inputs.drop_last(), skip);
        let all = new_inputs(map, inputs, skip);
        lemma_new_inputs(map, inputs.drop_last(), skip);
        assert forall|local: LocalId| #[trigger] all.contains(local) <==> inputs.contains(local)
            && local != skip && !map.dom().contains(local) by {
            assert(inputs.contains(local) <==> inputs.drop_last().contains(local) || local == last) by {
                if inputs.contains(local) {
                    let i = choose|i: int| 0 <= i < inputs.len() && inputs[i] == local;
                    if i < inputs.len() - 1 {
                        assert(inputs.drop_last()[i] == local);
                    }
                }
                if inputs.drop_last().contains(local) {
                    let i = choose|i: int|
                        0 <= i < inputs.drop_last().len() && inputs.drop_last()[i] == local;
                    assert(inputs[i] == local);
                }
                assert(inputs[inputs.len() - 1] == last);
            }
            if all.contains(local) {
                let i = choose|i: int| 0 <= i < all.len() && all[i] == local;
                if i < earlier.len() {
                    assert(earlier[i] == local);
                    assert(earlier.contains(local));
                }
            }
            if earlier.contains(local) {
                let i = choose|i: int| 0 <= i < earlier.len() && earlier[i] == local;
                assert(all[i] == local);
            }
            if all.len() > earlier.len() {
                assert(all[earlier.len() as int] == last);
            }
        }
        assert forall|i: int, j: int| 0 <= i < all.len() && 0 <= j < all.len() && i
            != j implies all[i] != all[j] by {
            if i < earlier.len() {
                assert(earlier.contains(all[i]));
            }
            if j < earlier.len() {
                assert(earlier.contains(all[j]));
            }
        }
    }
}

/// The first of `inputs`, other than `value` itself, that has another value than `value` in a map
/// stands at position `k`.
pub open spec fn first_conflict(
    map: Map<LocalId, LocalId>,
    inputs: Seq<LocalId>,
    value: LocalId,
    k: int,
) -> bool {
    &&& 0 <= k < inputs.len()
    &&& inputs[k] != value && map.dom().contains(inputs[k]) && map[inputs[k]] != value
    &&& !conflicts(map, inputs.take(k), value)
}

/// New inputs stand in the order in which they first come: each at an ascending position of the
/// inputs, in front of which it does not come.
pub proof fn law_new_inputs_in_order(
    map: Map<LocalId, LocalId>,
    inputs: Seq<LocalId>,
    skip: LocalId,
) -> (at: Seq<int>)
    ensures
        at.len() == new_inputs(map, inputs, skip).len(),
        forall|i: int|
            0 <= i < at.len() ==> 0 <= #[trigger] at[i] < inputs.len() && inputs[at[i]]
                == new_inputs(map, inputs, skip)[i],
        forall|i: int, k: int|
            0 <= i < at.len() && 0 <= k < at[i] ==> #[trigger] inputs[k] != inputs[#[trigger] at[i]],
        forall|i: int, j: int| 0 <= i < j < at.len() ==> #[trigger] at[i] < #[trigger] at[j],
    decreases inputs.len(),
{
    if inputs.len() == 0 {
        Seq::empty()
    } else {
        let shorter = inputs.drop_last();
        let last = inputs.len() - 1;
        let earlier = new_inputs(map, shorter, skip);
        let at = law_new_inputs_in_order(map, shorter, skip);
        lemma_new_inputs(map, shorter, skip);
        assert forall|i: int| 0 <= i < at.len() implies 0 <= #[trigger] at[i] < last && inputs[at[i]]
            == earlier[i] by {
            assert(shorter[at[i]] == earlier[i]);
        }
        assert forall|i: int, k: int|
            0 <= i < at.len() && 0 <= k < at[i] implies #[trigger] inputs[k]
            != inputs[#[trigger] at[i]] by {
            assert(shorter[k] != shorter[at[i]]);
        }
        if inputs[last] != skip && !map.dom().contains(inputs[last]) && !earlier.contains(
            inputs[last],
        ) {
            let all = at.push(last);
            assert forall|i: int, k: int|
                0 <= i < all.len() && 0 <= k < all[i] implies #[trigger] inputs[k]
                != inputs[#[trigger] all[i]] by {
                if i == at.len() {
                    if inputs[k] == inputs[last] {
                        assert(shorter[k] == inputs[last]);
                        assert(shorter.contains(inputs[last]));
                    }
                } else {
                    assert(all[i] == at[i]);
                }
            }
            all
        } else {
            at
        }
    }
}

/// Inputs conflict just where one of them, at some position, does.
pub proof fn law_conflicts(
    map: Map<LocalId, LocalId>,
    program: ProgramView,
    group: InOutGroupBlocks,
    slot: int,
    value: LocalId,
)
    ensures
        conflicts(map, slot_inputs(program, group, slot), value) <==> exists|k: int|
            0 <= k < group.inputs@.len() && ({
                let input = program.blocks[#[trigger] group.inputs@[k] as int].inputs[slot];
                input != value && map.dom().contains(input) && map[input] != value
            }),
{
    let inputs = slot_inputs(program, group, slot);
    if conflicts(map, inputs, value) {
        let local = choose|local: LocalId| #[trigger]
            inputs.contains(local) && local != value && map.dom().contains(local) && map[local]
                != value;
        let k = choose|k: int| 0 <= k < inputs.len() && inputs[k] == local;
        assert(program.blocks[group.inputs@[k] as int].inputs[slot] == local);
    }
    if exists|k: int|
        0 <= k < group.inputs@.len() && ({
            let input = program.blocks[#[trigger] group.inputs@[k] as int].inputs[slot];
            input != value && map.dom().contains(input) && map[input] != value
        }) {
        let k = choose|k: int|
            0 <= k < group.inputs@.len() && ({
                let input = program.blocks[#[trigger] group.inputs@[k] as int].inputs[slot];
                input != value && map.dom().contains(input) && map[input] != value
            });
        assert(inputs[k] == program.blocks[group.inputs@[k] as int].inputs[slot]);
        assert(inputs.contains(inputs[k]));
    }
}

/// Notes down that the inputs which a group takes in at a slot come from `replacement`. Where a
/// map already has another source for one of them nothing is noted down, and the result is `None`.
/// Else the result says whether there was an input other than `replacement`. The inputs for which
/// an entry was made on the way are left in `inserted`.
pub fn try_add_slot_replacements(
    program: &EthIRProgram,
    group: &InOutGroupBlocks,
    slot: usize,
    replacement: LocalId,
    raw_map: &mut LocalMap,
    inserted: &mut Vec<LocalId>,
) -> (added: Option<bool>)
    requires
        program.wf(),
        group.within(program.basic_blocks.len() as int),
        forall|k: int|
            0 <= k < group.inputs.len() ==> slot
                < program@.blocks[#[trigger] group.inputs[k] as int].inputs.len(),
    ensures
        added is None <==> exists|k: int|
            0 <= k < group.inputs@.len() && ({
                let input =
                    program@.blocks[#[trigger] group.inputs@[k] as int].inputs[slot as int];
                input != replacement && old(raw_map)@.dom().contains(input) && old(
                    raw_map,
                )@[input] != replacement
            }),
        added matches Some(any) ==> any == exists|k: int|
            0 <= k < group.inputs@.len()
                && program@.blocks[#[trigger] group.inputs@[k] as int].inputs[slot as int]
                != replacement,
        match added {
            Some(any) => {
                let inputs = slot_inputs(program@, *group, slot as int);
                &&& !conflicts(old(raw_map)@, inputs, replacement)
                &&& any == exists|k: int| 0 <= k < inputs.len() && #[trigger] inputs[k] != replacement
                &&& final(raw_map)@ == with_inputs(
                    old(raw_map)@,
                    inputs,
                    replacement,
                    replacement,
                )
                &&& notes_inputs(
                    old(raw_map)@,
                    final(raw_map)@,
                    program@,
                    *group,
                    slot as int,
                    replacement,
                    replacement,
                )
                &&& final(inserted)@ == new_inputs(old(raw_map)@, inputs, replacement)
                &&& final(inserted)@.no_duplicates()
                &&& forall|local: LocalId| #[trigger]
                    final(inserted)@.contains(local) <==> inputs.contains(local) && local
                        != replacement && !old(raw_map)@.dom().contains(local)
            },
            None => {
                &&& conflicts(
                    old(raw_map)@,
                    slot_inputs(program@, *group, slot as int),
                    replacement,
                )
                &&& final(raw_map)@ == old(raw_map)@
                &&& exists|k: int| #[trigger]
                    first_conflict(
                        old(raw_map)@,
                        slot_inputs(program@, *group, slot as int),
                        replacement,
                        k,
                    ) && final(inserted)@ == new_inputs(
                        old(raw_map)@,
                        slot_inputs(program@, *group, slot as int).take(k),
                        replacement,
                    )
            },
        },
{
    let ghost before = raw_map@;
    let ghost inputs = slot_inputs(program@, *group, slot as int);
    proof {
        law_conflicts(before, program@, *group, slot as int, replacement);
        assert forall|k: int| 0 <= k < inputs.len() implies #[trigger] inputs[k]
            == program@.blocks[group.inputs@[k] as int].inputs[slot as int] by {}
    }
    inserted.clear();
    let mut has_replacements: bool = false;
    let mut k: usize = 0;
    while k < group.inputs.len()
        invariant
            program.wf(),
            group.within(program.basic_blocks.len() as int),
            forall|k: int|
                0 <= k < group.inputs.len() ==> slot
                    < program@.blocks[#[trigger] group.inputs[k] as int].inputs.len(),
            inputs == slot_inputs(program@, *group, slot as int),
            k <= inputs.len(),
            inputs.len() == group.inputs.len(),
            has_replacements == exists|j: int|
                0 <= j < k && #[trigger] inputs[j] != replacement,
            forall|j: int|
                0 <= j < k && #[trigger] inputs[j] != replacement ==> raw_map@.dom().contains(
                    inputs[j],
                ) && raw_map@[inputs[j]] == replacement,
            before == old(raw_map)@,
            inserted@ == new_inputs(before, inputs.take(k as int), replacement),
            inserted@.no_duplicates(),
            forall|local: LocalId| #[trigger]
                raw_map@.dom().contains(local) <==> before.dom().contains(local)
                    || inserted@.contains(local),
            forall|local: LocalId| #[trigger]
                before.dom().contains(local) ==> raw_map@[local] == before[local]
                    && !inserted@.contains(local),
            forall|local: LocalId| #[trigger]
                inserted@.contains(local) ==> raw_map@[local] == replacement && local
                    != replacement && inputs.contains(local),
        decreases group.inputs.len() - k,
    {
        let bb_id: BasicBlockId = group.inputs[k];
        assert(program.has_list(OperandList::BlockInputs(bb_id as int)));
        assert(slot < program@.blocks[group.inputs[k as int] as int].inputs.len());
        let input: LocalId = local_at_slot(
            program,
            program.basic_blocks[bb_id as usize].inputs,
            slot,
        );
        assert(inputs[k as int] == input);
        assert(inputs.take(k + 1).drop_last() =~= inputs.take(k as int));
        assert(inputs.take(k + 1).last() == input);
        if input != replacement {
            has_replacements = true;
            match raw_map.get(input) {
                None => {
                    let ghost prev = inserted@;
                    let ghost prev_map = raw_map@;
                    assert(!prev_map.dom().contains(input));
                    raw_map.insert(input, replacement);
                    assert(raw_map@ == prev_map.insert(input, replacement));
                    inserted.push(input);
                    assert forall|local: LocalId| #[trigger]
                        inserted@.contains(local) <==> prev.contains(local) || local == input by {
                        if prev.contains(local) {
                            let j = choose|j: int| 0 <= j < prev.len() && prev[j] == local;
                            assert(inserted@[j] == local);
                        }
                        assert(inserted@[prev.len() as int] == input);
                    }
                },
                Some(existing) => {
                    if existing != replacement {
                        assert(raw_map@.dom().contains(input));
                        assert(!inserted@.contains(input));
                        assert(before.dom().contains(input));
                        assert(before[input] != replacement);
                        assert(inputs.contains(input));
                        proof {
                            let earlier = inputs.take(k as int);
                            assert(!conflicts(before, earlier, replacement)) by {
                                assert forall|local: LocalId| #[trigger]
                                    earlier.contains(local) && local != replacement
                                        && before.dom().contains(local) implies before[local]
                                    == replacement by {
                                    let i = choose|i: int|
                                        0 <= i < earlier.len() && earlier[i] == local;
                                    assert(inputs[i] != replacement);
                                }
                            }
                            assert(first_conflict(before, inputs, replacement, k as int));
                            assert(conflicts(before, inputs, replacement));
                            law_conflicts(before, program@, *group, slot as int, replacement);
                        }
                        let mut j: usize = 0;
                        while j < inserted.len()
                            invariant
                                j <= inserted.len(),
                                inserted@ == new_inputs(before, inputs.take(k as int), replacement),
                                inserted@.no_duplicates(),
                                forall|local: LocalId| #[trigger]
                                    raw_map@.dom().contains(local) <==> before.dom().contains(local)
                                        || exists|i: int|
                                        j <= i < inserted.len() && #[trigger] inserted[i] == local,
                                forall|local: LocalId| #[trigger]
                                    before.dom().contains(local) ==> raw_map@[local]
                                        == before[local] && !inserted@.contains(local),
                            decreases inserted.len() - j,
                        {
                            let local: LocalId = inserted[j];
                            let ghost prev = raw_map@;
                            assert(inserted@.contains(local));
                            raw_map.remove(local);
                            assert forall|other: LocalId| #[trigger]
                                raw_map@.dom().contains(other) implies before.dom().contains(other)
                                || exists|i: int|
                                j + 1 <= i < inserted.len() && #[trigger] inserted[i] == other by {
                                assert(prev.dom().contains(other));
                            }
                            assert forall|other: LocalId|
                                before.dom().contains(other) || exists|i: int|
                                    j + 1 <= i < inserted.len() && #[trigger] inserted[i]
                                        == other implies #[trigger] raw_map@.dom().contains(
                                other,
                            ) by {
                                assert(prev.dom().contains(other));
                            }
                            j += 1;
                        }
                        assert(raw_map@ =~= before);
                        return None;
                    }
                },
            }
        }
        k += 1;
    }
    proof {
        assert forall|local: LocalId| #[trigger]
            inputs.contains(local) && local != replacement implies raw_map@.dom().contains(local)
            && raw_map@[local] == replacement by {
            let j = choose|j: int| 0 <= j < inputs.len() && inputs[j] == local;
            assert(inputs[j] != replacement);
        }
        assert(raw_map@ =~= with_inputs(before, inputs, replacement, replacement));
        assert(inputs.take(inputs.len() as int) =~= inputs);
        lemma_new_inputs(before, inputs, replacement);
        law_noted_inputs(before, program@, *group, slot as int, replacement, replacement);
        law_conflicts(before, program@, *group, slot as int, replacement);
        assert(!conflicts(before, inputs, replacement));
        if has_replacements {
            let k = choose|k: int| 0 <= k < inputs.len() && #[trigger] inputs[k] != replacement;
            assert(program@.blocks[group.inputs@[k] as int].inputs[slot as int] != replacement);
        } else {
            assert forall|k: int|
                0 <= k
                    < group.inputs@.len() implies program@.blocks[#[trigger] group.inputs@[k] as int].inputs[slot as int]
                == replacement by {
                assert(inputs[k] == replacement);
            }
        }
    }
    Some(has_replacements)
}

/// Stores `replacement` in a map under every input that a candidate slot takes in.
pub fn insert_candidate_replacements(
    program: &EthIRProgram,
    group: &InOutGroupBlocks,
    candidate: RemovalCandidate,
    replacement: LocalId,
    copy_map: &mut LocalMap,
)
    requires
        program.wf(),
        group.within(program.basic_blocks.len() as int),
        forall|k: int|
            0 <= k < group.inputs.len() ==> candidate.slot
                < program@.blocks[#[trigger] group.inputs[k] as int].inputs.len(),
        forall|local: LocalId| #[trigger]
            slot_inputs(program@, *group, candidate.slot as int).contains(local) && local
                != candidate.replacement && old(copy_map)@.dom().contains(local) ==> old(
                copy_map,
            )@[local] == replacement,
    ensures
        final(copy_map)@ == with_inputs(
            old(copy_map)@,
            slot_inputs(program@, *group, candidate.slot as int),
            candidate.replacement,
            replacement,
        ),
        notes_inputs(
            old(copy_map)@,
            final(copy_map)@,
            program@,
            *group,
            candidate.slot as int,
            candidate.replacement,
            replacement,
        ),
{
    let ghost before = copy_map@;
    let ghost inputs = slot_inputs(program@, *group, candidate.slot as int);
    let mut k: usize = 0;
    while k < group.inputs.len()
        invariant
            program.wf(),
            group.within(program.basic_blocks.len() as int),
            forall|k: int|
                0 <= k < group.inputs.len() ==> candidate.slot
                    < program@.blocks[#[trigger] group.inputs[k] as int].inputs.len(),
            inputs == slot_inputs(program@, *group, candidate.slot as int),
            inputs.len() == group.inputs.len(),
            k <= inputs.len(),
            forall|j: int|
                0 <= j < k && #[trigger] inputs[j] != candidate.replacement
                    ==> copy_map@.dom().contains(inputs[j]) && copy_map@[inputs[j]] == replacement,
            forall|local: LocalId| #[trigger]
                copy_map@.dom().contains(local) ==> before.dom().contains(local) || (
                inputs.contains(local) && local != candidate.replacement),
            forall|local: LocalId| #[trigger]
                before.dom().contains(local) ==> copy_map@.dom().contains(local)
                    && copy_map@[local] == before[local],
            forall|local: LocalId| #[trigger]
                inputs.contains(local) && local != candidate.replacement && before.dom().contains(
                    local,
                ) ==> before[local] == replacement,
        decreases group.inputs.len() - k,
    {
        let bb_id: BasicBlockId = group.inputs[k];
        assert(program.has_list(OperandList::BlockInputs(bb_id as int)));
        assert(candidate.slot < program@.blocks[group.inputs[k as int] as int].inputs.len());
        let input: LocalId = local_at_slot(
            program,
            program.basic_blocks[bb_id as usize].inputs,
            candidate.slot,
        );
        assert(inputs[k as int] == input);
        assert(inputs.contains(input));
        if input != candidate.replacement {
            let ghost prev = copy_map@;
            copy_map.insert(input, replacement);
            assert(copy_map@ == prev.insert(input, replacement));
            assert(inputs.contains(input) && before.dom().contains(input) ==> before[input]
                == replacement);
        }
        k += 1;
    }
    proof {
        assert forall|local: LocalId| #[trigger]
            inputs.contains(local) && local != candidate.replacement implies copy_map@.dom().contains(
            local,
        ) && copy_map@[local] == replacement by {
            let j = choose|j: int| 0 <= j < inputs.len() && inputs[j] == local;
            assert(inputs[j] != candidate.replacement);
        }
        assert(copy_map@ =~= with_inputs(before, inputs, candidate.replacement, replacement));
        law_noted_inputs(
            before,
            program@,
            *group,
            candidate.slot as int,
            candidate.replacement,
            replacement,
        );
    }
}

} // verus!
