//! The pass.

mod accept;
mod find;
mod prepare;
mod remove;

use crate::analyses::{AnalysesMask, AnalysesStore, AnalysesView, InOutGroupId};
use crate::groups::{InOutGroupBlocks, RemovalCandidate};
use crate::ir::{BasicBlockId, EthIRProgram, LocalId, Operation, ProgramView};
use crate::laws::law_copies_have_one_local;
use crate::layout::{
    foreign_ops_stay, free_locals_stay, lemma_foreign_ops_stay_transitive,
    lemma_free_locals_stay_transitive, lemma_lists_shrink_transitive, lemma_same_layout_shrinks,
    lists_shrink, same_layout,
};
use crate::local_map::LocalMap;
use crate::model::{
    canonical, copies_of, eliminate_redundant_slots, forwarded_inputs, has_redundant_slot,
    in_member, is_redundant, propagate_block, propagate_copies,
};
use crate::plain::{
    has_idle_slot, is_outcome, law_idle_slots, law_idle_slots_are_lost, law_outcome,
    law_reads_go_past_copies, loses_idle_slots, reads_past_copies,
};
use crate::redundancy::{lemma_forwarded_entry, lemma_forwarded_site, lemma_slot_origin};
use crate::replace::{replace_block_uses, replace_uses};
use crate::settle::{
    lemma_eliminate_ssa, lemma_propagate_copies_ssa, lemma_round_decreases, output_slots, settle,
};
use self::accept::marks_fit;
use self::find::is_candidate;
use self::remove::lemma_eliminated;
use vstd::prelude::*;

verus! {

/// Copy propagation. Reads of a copied local become reads of the local that its value comes from,
/// inside a block and, where all blocks that may come before agree, from one block to the next.
///
/// The fields are working memory. What a run does depends on none of them.
pub struct CopyPropagation {
    copy_map: LocalMap,
    raw_map: LocalMap,
    canonical_map: LocalMap,
    io_groups: Vec<InOutGroupBlocks>,
    def_blocks: Vec<Option<BasicBlockId>>,
    function_entries: Vec<bool>,
    slots_to_remove: Vec<Vec<bool>>,
    candidates: Vec<RemovalCandidate>,
    inserted_inputs: Vec<LocalId>,
    seen_locals: Vec<LocalId>,
}

impl CopyPropagation {
    /// All working memory is empty.
    pub closed spec fn is_fresh(self) -> bool {
        &&& self.copy_map@ == Map::<LocalId, LocalId>::empty()
        &&& self.raw_map@ == Map::<LocalId, LocalId>::empty()
        &&& self.canonical_map@ == Map::<LocalId, LocalId>::empty()
        &&& self.io_groups@.len() == 0
        &&& self.def_blocks@.len() == 0
        &&& self.function_entries@.len() == 0
        &&& self.slots_to_remove@.len() == 0
        &&& self.candidates@.len() == 0
        &&& self.inserted_inputs@.len() == 0
        &&& self.seen_locals@.len() == 0
    }
}

impl Default for CopyPropagation {
    fn default() -> (pass: CopyPropagation)
        ensures
            pass.is_fresh(),
    {
        CopyPropagation {
            copy_map: LocalMap::new(),
            raw_map: LocalMap::new(),
            canonical_map: LocalMap::new(),
            io_groups: Vec::new(),
            def_blocks: Vec::new(),
            function_entries: Vec::new(),
            slots_to_remove: Vec::new(),
            candidates: Vec::new(),
            inserted_inputs: Vec::new(),
            seen_locals: Vec::new(),
        }
    }
}

impl CopyPropagation {
    /// The working memory is that of `other`, apart from the copies noted down.
    pub closed spec fn same_but_copies(self, other: CopyPropagation) -> bool {
        self == (CopyPropagation { copy_map: self.copy_map, ..other })
    }

    /// Reads, in every block, the copies that the block makes at their origin.
    pub fn propagate_operation_copies(&mut self, program: &mut EthIRProgram)
        requires
            old(program).wf(),
        ensures
            final(program).wf(),
            same_layout(*old(program), *final(program)),
            foreign_ops_stay(*old(program), *final(program)),
            free_locals_stay(*old(program), *final(program)),
            final(program)@ == propagate_copies(old(program)@),
            old(program)@.ssa() ==> reads_past_copies(old(program)@, final(program)@),
            final(self).same_but_copies(*old(self)),
    {
        let ghost before = *program;
        let mut bb_id: usize = 0;
        while bb_id < program.basic_blocks.len()
            invariant
                program.wf(),
                same_layout(before, *program),
                foreign_ops_stay(before, *program),
                free_locals_stay(before, *program),
                self.same_but_copies(*old(self)),
                bb_id <= before.basic_blocks.len(),
                forall|b: int|
                    0 <= b < before.basic_blocks.len() ==> #[trigger] program@.blocks[b] == if b
                        < bb_id {
                        propagate_block(before@.blocks[b])
                    } else {
                        before@.blocks[b]
                    },
            decreases before.basic_blocks.len() - bb_id,
        {
            self.copy_map.clear();
            let ghost ops = program@.blocks[bb_id as int].ops;
            let ops_span = program.basic_blocks[bb_id].operations;
            let mut op_idx: u32 = ops_span.start;
            assert(ops.take(0) =~= Seq::empty());
            while op_idx < ops_span.end
                invariant
                    program.wf(),
                    bb_id < program.basic_blocks.len(),
                    ops_span == program.basic_blocks[bb_id as int].operations,
                    ops_span.start <= op_idx <= ops_span.end <= program.operations.len(),
                    ops == program@.blocks[bb_id as int].ops,
                    self.copy_map@ == copies_of(ops.take(op_idx - ops_span.start)),
                    self.same_but_copies(*old(self)),
                decreases ops_span.end - op_idx,
            {
                proof {
                    let done = ops.take(op_idx - ops_span.start);
                    let next = ops.take(op_idx - ops_span.start + 1);
                    assert(next.drop_last() =~= done);
                    assert(next.last() == program.op_view(op_idx as int));
                }
                if let Operation::SetCopy { src, dst } = &program.operations[op_idx as usize] {
                    let resolved_src: LocalId = match self.copy_map.get(*src) {
                        Some(resolved) => resolved,
                        None => *src,
                    };
                    self.copy_map.insert(*dst, resolved_src);
                }
                op_idx += 1;
            }
            assert(ops.take(ops.len() as int) =~= ops);
            let ghost prev = *program;
            replace_block_uses(program, bb_id, &self.copy_map);
            proof {
                lemma_foreign_ops_stay_transitive(before, prev, *program);
                lemma_free_locals_stay_transitive(before, prev, *program);
            }
            bb_id += 1;
        }
        assert(program@ =~= propagate_copies(before@));
        proof {
            if before@.ssa() {
                law_copies_have_one_local(before);
                law_reads_go_past_copies(before@);
            }
        }
    }
}

/// There are forwarded inputs just where there is a redundant slot, and then they have origins.
proof fn lemma_forwarded_nonempty(program: ProgramView, analyses: AnalysesView)
    requires
        program.ssa(),
        analyses.wf(program.blocks.len() as int),
    ensures
        has_redundant_slot(program, analyses) <==> forwarded_inputs(program, analyses) != Map::<
            LocalId,
            LocalId,
        >::empty(),
        has_redundant_slot(program, analyses) <==> canonical(forwarded_inputs(program, analyses))
            != Map::<LocalId, LocalId>::empty(),
{
    let forwarded = forwarded_inputs(program, analyses);
    let none = Map::<LocalId, LocalId>::empty();
    if has_redundant_slot(program, analyses) {
        let (g, slot, source) = choose|g: InOutGroupId, slot: int, source: LocalId|
            is_redundant(program, analyses, g, slot, source);
        let b = choose|b: int| in_member(analyses, g, b);
        assert(in_member(analyses, g, b));
        lemma_forwarded_entry(program, analyses, g, slot, source, b);
        lemma_slot_origin(program, analyses, g, slot, source);
        let input = program.blocks[b].inputs[slot];
        assert(!none.dom().contains(input));
        assert(canonical(forwarded).dom().contains(input));
    } else {
        assert forall|x: LocalId| !#[trigger] forwarded.dom().contains(x) by {
            if forwarded.dom().contains(x) {
                let (b, slot, g) = lemma_forwarded_site(program, analyses, x);
            }
        }
        assert(forwarded =~= none);
        assert(canonical(forwarded) =~= none);
    }
}

impl CopyPropagation {
    /// Takes every redundant slot out of the program, and reads the inputs that it brought in at
    /// their origin. The result says whether there was one.
    pub fn propagate_input_output_copies(
        &mut self,
        program: &mut EthIRProgram,
        store: &AnalysesStore,
    ) -> (changed: bool)
        requires
            old(program).wf(),
            old(program)@.ssa(),
            store.wf(old(program).basic_blocks.len() as int),
        ensures
            final(program).wf(),
            lists_shrink(*old(program), *final(program)),
            !changed ==> *final(program) == *old(program),
            changed == has_redundant_slot(old(program)@, store@),
            changed == has_idle_slot(old(program)@, store@),
            changed ==> loses_idle_slots(old(program)@, store@, final(program)@),
            final(program)@ == if changed {
                eliminate_redundant_slots(old(program)@, store@)
            } else {
                old(program)@
            },
    {
        let ghost view = program@;
        let ghost analyses = store@;
        let ghost forwarded = forwarded_inputs(view, analyses);
        proof {
            law_idle_slots(view, analyses);
            law_idle_slots_are_lost(view, analyses);
        }
        self.build_def_blocks(program);
        self.build_function_entries(program);
        self.build_in_out_groups(program, store);
        let dominators = store.dominators();
        self.find_redundant_slots(program, dominators, Ghost(analyses));
        proof {
            lemma_forwarded_nonempty(view, analyses);
            if forwarded != Map::<LocalId, LocalId>::empty() {
                let (g, slot, source) = choose|g: InOutGroupId, slot: int, source: LocalId|
                    is_redundant(view, analyses, g, slot, source);
                assert(is_candidate(self.candidates@, g, slot));
            }
        }
        if self.raw_map.is_empty() {
            return false;
        }
        self.canonicalize_raw_map();
        if self.canonical_map.is_empty() {
            return false;
        }
        let changed: bool = self.accept_candidates(program, dominators, Ghost(analyses));
        if !changed || self.copy_map.is_empty() {
            return false;
        }
        let ghost before = *program;
        replace_uses(program, &self.copy_map);
        let ghost replaced = *program;
        assert(marks_fit(self.slots_to_remove@, replaced@, analyses));
        self.compact_removed_slots(program, Ghost(analyses));
        proof {
            lemma_same_layout_shrinks(before, replaced);
            lemma_lists_shrink_transitive(before, replaced, *program);
            lemma_eliminated(
                view,
                program@,
                analyses,
                self.slots_to_remove@,
                self.io_groups.len() as int,
            );
        }
        true
    }

    /// Runs the pass. Copies are propagated inside blocks and redundant slots are taken out, in
    /// turn, until there is no redundant slot.
    pub fn run(&mut self, program: &mut EthIRProgram, store: &AnalysesStore)
        requires
            old(program).wf(),
            old(program)@.ssa(),
            store.wf(old(program).basic_blocks.len() as int),
        ensures
            final(program).wf(),
            final(program)@.ssa(),
            lists_shrink(*old(program), *final(program)),
            final(program)@ == settle(old(program)@, store@),
            exists|rounds: Seq<ProgramView>, halves: Seq<ProgramView>| #[trigger]
                is_outcome(old(program)@, store@, rounds, halves, final(program)@),
    {
        let ghost target = settle(program@, store@);
        let ghost start = *program;
        proof {
            law_copies_have_one_local(start);
            let (rounds, halves) = law_outcome(start@, store@);
            assert(is_outcome(start@, store@, rounds, halves, target));
        }
        loop
            invariant_except_break
                settle(program@, store@) == target,
            invariant
                program.wf(),
                program@.ssa(),
                store.wf(program.basic_blocks.len() as int),
                lists_shrink(start, *program),
            ensures
                program@ == target,
            decreases output_slots(program@.blocks),
        {
            let ghost at_round = *program;
            let ghost before = program@;
            proof {
                lemma_propagate_copies_ssa(before);
            }
            self.propagate_operation_copies(program);
            let ghost propagated = program@;
            proof {
                lemma_same_layout_shrinks(at_round, *program);
                lemma_lists_shrink_transitive(start, at_round, *program);
            }
            let ghost middle = *program;
            let changed = self.propagate_input_output_copies(program, store);
            proof {
                lemma_lists_shrink_transitive(start, middle, *program);
                assert(store@.wf(before.blocks.len() as int));
                if changed {
                    lemma_eliminate_ssa(propagated, store@);
                    lemma_round_decreases(before, store@);
                }
            }
            if !changed {
                break;
            }
        }
    }

    /// The analyses that stay valid. All of them follow from the control flow, which stays.
    pub fn preserves(&self) -> (preserved: AnalysesMask)
        ensures
            preserved == (AnalysesMask {
                predecessors: true,
                dominators: true,
                dominance_frontiers: true,
                basic_block_ownership: true,
                reachability: true,
            }),
    {
        AnalysesMask {
            predecessors: true,
            dominators: true,
            dominance_frontiers: true,
            basic_block_ownership: true,
            reachability: true,
        }
    }
}

} // verus!
