//! What a round notes down of the program before it looks for redundant slots.

use crate::analyses::{AnalysesStore, AnalysesView, InOutGroupId};
use crate::groups::InOutGroupBlocks;
use crate::ir::{BasicBlockId, EthIRProgram, LocalId, OperandList, Operation, ProgramView};
use super::CopyPropagation;
use vstd::prelude::*;

verus! {

/// The blocks of a group in ascending order: those that `groups` puts into group `g`.
pub(super) open spec fn lists_members(
    list: Seq<BasicBlockId>,
    groups: Seq<Option<InOutGroupId>>,
    g: int,
) -> bool {
    &&& forall|i: int, j: int| 0 <= i < j < list.len() ==> #[trigger] list[i] < #[trigger] list[j]
    &&& forall|b: BasicBlockId| #[trigger]
        list.contains(b) <==> b < groups.len() && (groups[b as int] matches Some(h) && h == g)
}

/// Every group of a grouping with its blocks.
pub(super) open spec fn groups_built(
    io_groups: Seq<InOutGroupBlocks>,
    analyses: AnalysesView,
) -> bool {
    &&& forall|g: int|
        0 <= g < io_groups.len() ==> lists_members(
            (#[trigger] io_groups[g]).inputs@,
            analyses.in_group,
            g,
        ) && lists_members(io_groups[g].outputs@, analyses.out_group, g)
    &&& forall|b: int|
        0 <= b < analyses.in_group.len() ==> ((#[trigger] analyses.in_group[b]) matches Some(g)
            ==> g < io_groups.len())
    &&& forall|b: int|
        0 <= b < analyses.out_group.len() ==> ((#[trigger] analyses.out_group[b]) matches Some(g)
            ==> g < io_groups.len())
}

/// What is noted down is this block.
pub(super) open spec fn names_block(noted: Option<BasicBlockId>, b: int) -> bool {
    noted is Some && noted->0 == b
}

/// For every local the block below `limit` that defines it.
pub(super) open spec fn definers_below(
    def_blocks: Seq<Option<BasicBlockId>>,
    program: ProgramView,
    limit: int,
) -> bool {
    forall|local: LocalId, b: int|
        #![trigger names_block(def_blocks[local as int], b)]
        #![trigger program.blocks[b].defines(local)]
        local < def_blocks.len() ==> (names_block(def_blocks[local as int], b) <==> (0 <= b < limit
            && program.blocks[b].defines(local)))
}

/// For every local the block that defines it.
pub(super) open spec fn def_blocks_built(
    def_blocks: Seq<Option<BasicBlockId>>,
    program: ProgramView,
) -> bool {
    &&& def_blocks.len() == program.next_free_local_id
    &&& definers_below(def_blocks, program, program.blocks.len() as int)
}

/// For every block whether a function starts in it.
pub(super) open spec fn function_entries_built(
    function_entries: Seq<bool>,
    program: ProgramView,
) -> bool {
    &&& function_entries.len() == program.blocks.len()
    &&& forall|b: int|
        0 <= b < function_entries.len() ==> #[trigger] function_entries[b]
            == program.is_function_entry(b)
}

impl CopyPropagation {
    /// What a round needs to know of the program is noted down.
    pub(super) open spec fn prepared(self, program: ProgramView, analyses: AnalysesView) -> bool {
        &&& program.blocks.len() <= u32::MAX
        &&& analyses.wf(program.blocks.len() as int)
        &&& def_blocks_built(self.def_blocks@, program)
        &&& function_entries_built(self.function_entries@, program)
        &&& groups_built(self.io_groups@, analyses)
    }
}

/// The locals that an operation defines.
fn op_outputs(program: &EthIRProgram, op_idx: u32) -> (outputs: Vec<LocalId>)
    requires
        program.wf(),
        op_idx < program.operations.len(),
    ensures
        outputs@ == program.op_view(op_idx as int).outputs,
{
    assert(program.has_list(OperandList::OpOutputs(op_idx as int)));
    let mut outputs: Vec<LocalId> = Vec::new();
    match &program.operations[op_idx as usize] {
        Operation::SetCopy { dst, .. } => {
            outputs.push(*dst);
        },
        Operation::Inline { outs, .. } => {
            let mut i: usize = 0;
            while i < outs.len()
                invariant
                    i <= outs.len(),
                    outputs@ == outs@.take(i as int),
                decreases outs.len() - i,
            {
                outputs.push(outs[i]);
                i += 1;
            }
        },
        Operation::AllocatedIns { outs, .. } => {
            let mut i: usize = 0;
            while i < outs.len()
                invariant
                    i <= outs.len(),
                    outputs@ == outs@.take(i as int),
                decreases outs.len() - i,
            {
                outputs.push(outs[i]);
                i += 1;
            }
        },
        Operation::InternalCall { function, outs_start, .. } => {
            let count: u32 = program.functions[*function as usize].outputs;
            let mut i: u32 = 0;
            while i < count
                invariant
                    i <= count,
                    outs_start + count <= program.locals.len() <= u32::MAX,
                    outputs@ == program.locals@.subrange(*outs_start as int, outs_start + i),
                decreases count - i,
            {
                outputs.push(program.locals[(*outs_start + i) as usize]);
                i += 1;
            }
        },
    }
    assert(outputs@ =~= program.op_view(op_idx as int).outputs);
    outputs
}

/// Notes down a block as the one that defines the locals from `from` up to `to` of a list. None of
/// them is defined elsewhere.
fn note_definitions(
    def_blocks: &mut Vec<Option<BasicBlockId>>,
    list: &Vec<LocalId>,
    from: usize,
    to: usize,
    bb_id: BasicBlockId,
)
    requires
        from <= to <= list.len(),
        list@.subrange(from as int, to as int).no_duplicates(),
        forall|i: int|
            from <= i < to ==> #[trigger] list[i] < old(def_blocks).len() && old(
                def_blocks,
            )[list[i] as int] is None,
    ensures
        final(def_blocks).len() == old(def_blocks).len(),
        forall|local: LocalId|
            local < old(def_blocks).len() ==> #[trigger] final(def_blocks)[local as int] == if list@.subrange(
                from as int,
                to as int,
            ).contains(local) {
                Some(bb_id)
            } else {
                old(def_blocks)[local as int]
            },
{
    let ghost before = def_blocks@;
    let ghost noted = list@.subrange(from as int, to as int);
    let mut i: usize = from;
    while i < to
        invariant
            from <= i <= to <= list.len(),
            noted == list@.subrange(from as int, to as int),
            noted.no_duplicates(),
            def_blocks.len() == before.len(),
            forall|j: int|
                from <= j < to ==> #[trigger] list[j] < before.len() && before[list[j] as int]
                    is None,
            forall|local: LocalId|
                local < before.len() ==> #[trigger] def_blocks[local as int] == if noted.take(
                    i - from,
                ).contains(local) {
                    Some(bb_id)
                } else {
                    before[local as int]
                },
        decreases to - i,
    {
        let local: LocalId = list[i];
        let ghost done = noted.take(i - from);
        let ghost next = noted.take(i - from + 1);
        assert(noted[i - from] == local);
        assert(!done.contains(local));
        assert(next =~= done.push(local));
        assert(def_blocks[local as int] is None);
        def_blocks[local as usize] = Some(bb_id);
        assert forall|other: LocalId| #[trigger]
            next.contains(other) <==> done.contains(other) || other == local by {
            if done.contains(other) {
                let j = choose|j: int| 0 <= j < done.len() && done[j] == other;
                assert(next[j] == other);
            }
            assert(next[i - from] == local);
        }
        i += 1;
    }
    assert(noted.take(to - from) =~= noted);
}

impl CopyPropagation {
    /// Notes down for every local the block that defines it.
    pub(super) fn build_def_blocks(&mut self, program: &EthIRProgram)
        requires
            program.wf(),
            program@.ssa(),
        ensures
            def_blocks_built(final(self).def_blocks@, program@),
            *final(self) == (CopyPropagation {
                def_blocks: final(self).def_blocks,
                ..*old(self)
            }),
    {
        let ghost view = program@;
        self.def_blocks.clear();
        let mut i: u32 = 0;
        while i < program.next_free_local_id
            invariant
                i <= program.next_free_local_id,
                self.def_blocks.len() == i,
                forall|j: int| 0 <= j < i ==> #[trigger] self.def_blocks[j] is None,
                *self == (CopyPropagation {
                    def_blocks: self.def_blocks,
                    ..*old(self)
                }),
            decreases program.next_free_local_id - i,
        {
            self.def_blocks.push(None);
            i += 1;
        }
        let mut bb_id: u32 = 0;
        while (bb_id as usize) < program.basic_blocks.len()
            invariant
                program.wf(),
                program@.ssa(),
                view == program@,
                bb_id <= view.blocks.len(),
                self.def_blocks.len() == view.next_free_local_id,
                definers_below(self.def_blocks@, view, bb_id as int),
                *self == (CopyPropagation {
                    def_blocks: self.def_blocks,
                    ..*old(self)
                }),
            decreases program.basic_blocks.len() - bb_id,
        {
            let ghost block = view.blocks[bb_id as int];
            let ghost at_block = self.def_blocks@;
            assert(block.ssa());
            assert(program.has_list(OperandList::BlockInputs(bb_id as int)));
            let inputs = program.basic_blocks[bb_id as usize].inputs;
            let ops_span = program.basic_blocks[bb_id as usize].operations;
            assert forall|k: int| inputs.start <= k < inputs.end implies (
            #[trigger] program.locals[k]) < at_block.len() && at_block[program.locals[k] as int]
                is None by {
                let local = program.locals[k];
                assert(block.inputs[k - inputs.start] == local);
                assert(block.inputs.contains(local));
                assert(view.blocks[bb_id as int].defines(local));
                if at_block[local as int] is Some {
                    let c = at_block[local as int]->0;
                    assert(names_block(at_block[local as int], c as int));
                    assert(view.blocks[c as int].defines(local));
                }
            }
            note_definitions(
                &mut self.def_blocks,
                &program.locals,
                inputs.start as usize,
                inputs.end as usize,
                bb_id,
            );
            let mut op_idx: u32 = ops_span.start;
            while op_idx < ops_span.end
                invariant
                    program.wf(),
                    program@.ssa(),
                    view == program@,
                    bb_id < view.blocks.len(),
                    block == view.blocks[bb_id as int],
                    block.ssa(),
                    ops_span == program.basic_blocks[bb_id as int].operations,
                    ops_span.start <= op_idx <= ops_span.end <= program.operations.len(),
                    self.def_blocks.len() == view.next_free_local_id,
                    at_block.len() == view.next_free_local_id,
                    definers_below(at_block, view, bb_id as int),
                    forall|local: LocalId|
                        local < at_block.len() ==> #[trigger] self.def_blocks[local as int] == if (
                        block.inputs.contains(local) || exists|o: int|
                            0 <= o < op_idx - ops_span.start
                                && (#[trigger] block.ops[o]).outputs.contains(local)) {
                            Some(bb_id)
                        } else {
                            at_block[local as int]
                        },
                    *self == (CopyPropagation {
                        def_blocks: self.def_blocks,
                        ..*old(self)
                    }),
                decreases ops_span.end - op_idx,
            {
                let outputs = op_outputs(program, op_idx);
                let ghost at_op = self.def_blocks@;
                let ghost o = op_idx - ops_span.start;
                assert(block.ops[o].outputs == outputs@);
                assert(outputs@.subrange(0, outputs@.len() as int) =~= outputs@);
                assert forall|k: int| 0 <= k < outputs.len() implies (#[trigger] outputs[k])
                    < at_op.len() && at_op[outputs[k] as int] is None by {
                    let local = outputs[k];
                    assert(block.ops[o].outputs.contains(local));
                    assert(view.blocks[bb_id as int].defines(local));
                    if at_block[local as int] is Some {
                        let c = at_block[local as int]->0;
                        assert(names_block(at_block[local as int], c as int));
                        assert(view.blocks[c as int].defines(local));
                    }
                }
                let count: usize = outputs.len();
                note_definitions(&mut self.def_blocks, &outputs, 0, count, bb_id);
                assert forall|local: LocalId| local < at_block.len() implies (
                #[trigger] self.def_blocks[local as int]) == if (block.inputs.contains(local)
                    || exists|q: int|
                    0 <= q < o + 1 && (#[trigger] block.ops[q]).outputs.contains(local)) {
                    Some(bb_id)
                } else {
                    at_block[local as int]
                } by {
                    assert(block.ops[o].outputs.contains(local) ==> self.def_blocks[local as int]
                        == Some(bb_id));
                    if !block.ops[o].outputs.contains(local) {
                        assert(self.def_blocks[local as int] == at_op[local as int]);
                    }
                }
                op_idx += 1;
            }
            assert(block.ops.len() == ops_span.end - ops_span.start);
            assert forall|local: LocalId, b: int|
                #![trigger names_block(self.def_blocks[local as int], b)]
                #![trigger view.blocks[b].defines(local)]
                local < self.def_blocks.len() implies (names_block(
                self.def_blocks[local as int],
                b,
            ) <==> (0 <= b < bb_id + 1 && view.blocks[b].defines(local))) by {
                assert(names_block(at_block[local as int], b) <==> (0 <= b < bb_id
                    && view.blocks[b].defines(local)));
                assert(view.blocks[bb_id as int].defines(local) <==> (block.inputs.contains(local)
                    || exists|q: int|
                    0 <= q < block.ops.len() && (#[trigger] block.ops[q]).outputs.contains(local)));
            }
            bb_id += 1;
        }
    }

    /// Notes down for every block whether a function starts in it.
    pub(super) fn build_function_entries(&mut self, program: &EthIRProgram)
        requires
            program.wf(),
        ensures
            function_entries_built(final(self).function_entries@, program@),
            *final(self) == (CopyPropagation {
                function_entries: final(self).function_entries,
                ..*old(self)
            }),
    {
        self.function_entries.clear();
        let mut i: usize = 0;
        while i < program.basic_blocks.len()
            invariant
                i <= program.basic_blocks.len(),
                self.function_entries.len() == i,
                forall|b: int| 0 <= b < i ==> !#[trigger] self.function_entries[b],
                *self == (CopyPropagation {
                    function_entries: self.function_entries,
                    ..*old(self)
                }),
            decreases program.basic_blocks.len() - i,
        {
            self.function_entries.push(false);
            i += 1;
        }
        let mut f: usize = 0;
        while f < program.functions.len()
            invariant
                program.wf(),
                f <= program.functions.len(),
                self.function_entries.len() == program.basic_blocks.len(),
                forall|b: int|
                    0 <= b < self.function_entries.len() ==> (#[trigger] self.function_entries[b]
                        <==> exists|h: int|
                        0 <= h < f && (#[trigger] program.functions[h]).entry == b),
                *self == (CopyPropagation {
                    function_entries: self.function_entries,
                    ..*old(self)
                }),
            decreases program.functions.len() - f,
        {
            let ghost prev = self.function_entries@;
            let entry: BasicBlockId = program.functions[f].entry();
            self.function_entries[entry as usize] = true;
            assert forall|b: int| 0 <= b < self.function_entries.len() implies (
            #[trigger] self.function_entries[b] <==> exists|h: int|
                0 <= h < f + 1 && (#[trigger] program.functions[h]).entry == b) by {
                assert(program.functions[f as int].entry == entry);
                if b != entry {
                    assert(self.function_entries[b] == prev[b]);
                }
            }
            f += 1;
        }
        assert forall|b: int| 0 <= b < self.function_entries.len() implies (
        #[trigger] self.function_entries[b]) == program@.is_function_entry(b) by {
            if self.function_entries[b] {
                let h = choose|h: int|
                    0 <= h < program.functions.len() && (#[trigger] program.functions[h]).entry
                        == b;
                assert(program@.functions[h].entry == b);
            }
            if program@.is_function_entry(b) {
                let h = choose|h: int|
                    0 <= h < program@.functions.len() && (#[trigger] program@.functions[h]).entry
                        == b;
                assert(program.functions[h].entry == b);
            }
        }
    }

    /// Collects the blocks of every group.
    pub(super) fn build_in_out_groups(&mut self, program: &EthIRProgram, store: &AnalysesStore)
        requires
            program.wf(),
            store.wf(program.basic_blocks.len() as int),
        ensures
            groups_built(final(self).io_groups@, store@),
            final(self).io_groups.len() == if old(self).io_groups.len()
                < store@.total_groups {
                store@.total_groups as int
            } else {
                old(self).io_groups.len() as int
            },
            forall|g: int|
                store@.total_groups <= g < final(self).io_groups.len() ==> (
                #[trigger] final(self).io_groups[g]).inputs@.len() == 0
                    && final(self).io_groups[g].outputs@.len() == 0,
            *final(self) == (CopyPropagation {
                io_groups: final(self).io_groups,
                ..*old(self)
            }),
    {
        let bundling = store.in_out_bundling();
        let total_groups: usize = bundling.total_groups() as usize;
        let ghost groups: int = if self.io_groups.len() < total_groups {
            total_groups as int
        } else {
            self.io_groups.len() as int
        };
        while self.io_groups.len() < total_groups
            invariant
                self.io_groups.len() <= groups,
                total_groups <= groups,
                self.io_groups.len() < groups ==> groups == total_groups,
                *self == (CopyPropagation {
                    io_groups: self.io_groups,
                    ..*old(self)
                }),
            decreases total_groups - self.io_groups.len(),
        {
            self.io_groups.push(InOutGroupBlocks::new());
        }
        let mut g: usize = 0;
        while g < self.io_groups.len()
            invariant
                total_groups <= self.io_groups.len() == groups,
                g <= self.io_groups.len(),
                forall|h: int|
                    0 <= h < g ==> (#[trigger] self.io_groups[h]).inputs@.len() == 0
                        && self.io_groups[h].outputs@.len() == 0,
                *self == (CopyPropagation {
                    io_groups: self.io_groups,
                    ..*old(self)
                }),
            decreases self.io_groups.len() - g,
        {
            self.io_groups[g].clear();
            g += 1;
        }
        let ghost in_group = store@.in_group;
        let ghost out_group = store@.out_group;
        let mut bb_id: u32 = 0;
        while (bb_id as usize) < program.basic_blocks.len()
            invariant
                program.wf(),
                store.wf(program.basic_blocks.len() as int),
                *bundling == store.in_out_bundling,
                total_groups == bundling.total_groups,
                total_groups <= self.io_groups.len() == groups,
                in_group == store@.in_group,
                out_group == store@.out_group,
                bb_id <= program.basic_blocks.len(),
                forall|h: int|
                    0 <= h < self.io_groups.len() ==> lists_members(
                        (#[trigger] self.io_groups[h]).inputs@,
                        in_group.take(bb_id as int),
                        h,
                    ) && lists_members(
                        self.io_groups[h].outputs@,
                        out_group.take(bb_id as int),
                        h,
                    ),
                *self == (CopyPropagation {
                    io_groups: self.io_groups,
                    ..*old(self)
                }),
            decreases program.basic_blocks.len() - bb_id,
        {
            let ghost prev = self.io_groups@;
            assert(in_group[bb_id as int] == bundling.in_group[bb_id as int]);
            assert(out_group[bb_id as int] == bundling.out_group[bb_id as int]);
            if let Some(group) = bundling.get_in_group(bb_id) {
                self.io_groups[group as usize].inputs.push(bb_id);
            }
            let ghost middle = self.io_groups@;
            if let Some(group) = bundling.get_out_group(bb_id) {
                self.io_groups[group as usize].outputs.push(bb_id);
            }
            assert forall|h: int| 0 <= h < self.io_groups.len() implies lists_members(
                (#[trigger] self.io_groups[h]).inputs@,
                in_group.take(bb_id + 1),
                h,
            ) && lists_members(self.io_groups[h].outputs@, out_group.take(bb_id + 1), h) by {
                assert(lists_members(prev[h].inputs@, in_group.take(bb_id as int), h));
                assert(lists_members(prev[h].outputs@, out_group.take(bb_id as int), h));
                lemma_list_next_member(prev[h].inputs@, in_group, h, bb_id);
                lemma_list_next_member(prev[h].outputs@, out_group, h, bb_id);
                assert(self.io_groups[h].inputs@ == middle[h].inputs@);
                assert(prev[h].outputs@ == middle[h].outputs@);
            }
            bb_id += 1;
        }
        assert(in_group.take(in_group.len() as int) =~= in_group);
        assert(out_group.take(out_group.len() as int) =~= out_group);
        assert forall|h: int| total_groups <= h < self.io_groups.len() implies (
        #[trigger] self.io_groups[h]).inputs@.len() == 0 && self.io_groups[h].outputs@.len()
            == 0 by {
            let inputs = self.io_groups[h].inputs@;
            let outputs = self.io_groups[h].outputs@;
            if inputs.len() > 0 {
                assert(inputs.contains(inputs[0]));
                assert(bundling.in_group[inputs[0] as int] is Some);
            }
            if outputs.len() > 0 {
                assert(outputs.contains(outputs[0]));
                assert(bundling.out_group[outputs[0] as int] is Some);
            }
        }
    }
}

/// One block more: it joins the list of its own group and no other.
proof fn lemma_list_next_member(
    list: Seq<BasicBlockId>,
    groups: Seq<Option<InOutGroupId>>,
    g: int,
    bb_id: BasicBlockId,
)
    requires
        bb_id < groups.len(),
        lists_members(list, groups.take(bb_id as int), g),
    ensures
        lists_members(
            if groups[bb_id as int] matches Some(h) && h == g {
                list.push(bb_id)
            } else {
                list
            },
            groups.take(bb_id + 1),
            g,
        ),
{
    let joins = groups[bb_id as int] matches Some(h) && h == g;
    let next = if joins {
        list.push(bb_id)
    } else {
        list
    };
    assert forall|i: int| 0 <= i < list.len() implies (#[trigger] list[i]) < bb_id by {
        assert(list.contains(list[i]));
    }
    assert forall|b: BasicBlockId| #[trigger]
        next.contains(b) <==> b < groups.take(bb_id + 1).len() && (groups.take(
            bb_id + 1,
        )[b as int] matches Some(h) && h == g) by {
        if list.contains(b) {
            let i = choose|i: int| 0 <= i < list.len() && list[i] == b;
            assert(next[i] == b);
        }
        if b == bb_id && joins {
            assert(next[list.len() as int] == b);
        }
        if next.contains(b) {
            let i = choose|i: int| 0 <= i < next.len() && next[i] == b;
            if i < list.len() {
                assert(list[i] == b);
                assert(list.contains(b));
            }
        }
        assert(b < bb_id ==> groups.take(bb_id as int)[b as int] == groups[b as int]);
        assert(b <= bb_id ==> groups.take(bb_id + 1)[b as int] == groups[b as int]);
    }
}

/// A list of members and membership say the same.
pub(super) proof fn lemma_members(
    list: Seq<BasicBlockId>,
    groups: Seq<Option<InOutGroupId>>,
    g: InOutGroupId,
)
    requires
        groups.len() <= u32::MAX,
        lists_members(list, groups, g as int),
    ensures
        forall|k: int|
            0 <= k < list.len() ==> (#[trigger] list[k]) < groups.len() && groups[list[k] as int]
                == Some(g),
        forall|b: int|
            0 <= b < groups.len() && #[trigger] groups[b] == Some(g) ==> list.contains(
                b as BasicBlockId,
            ),
{
    assert forall|k: int| 0 <= k < list.len() implies (#[trigger] list[k]) < groups.len()
        && groups[list[k] as int] == Some(g) by {
        assert(list.contains(list[k]));
    }
    assert forall|b: int| 0 <= b < groups.len() && #[trigger] groups[b] == Some(
        g,
    ) implies list.contains(b as BasicBlockId) by {
        assert((b as BasicBlockId) as int == b);
    }
}

/// A group with a block has the id of a group.
pub(super) proof fn lemma_member_group_id(
    list: Seq<BasicBlockId>,
    groups: Seq<Option<InOutGroupId>>,
    g: int,
)
    requires
        lists_members(list, groups, g),
        list.len() > 0,
    ensures
        0 <= g <= u32::MAX,
{
    assert(list.contains(list[0]));
}

} // verus!
