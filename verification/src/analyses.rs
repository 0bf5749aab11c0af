//! What the pass is told about the control flow of a program: the dominator tree and the grouping
//! of block inputs and outputs. Both follow from the control flow alone, which the pass leaves as
//! it is, so one store serves all its rounds.

use crate::ir::BasicBlockId;
use vstd::prelude::*;

verus! {

/// A group of block inputs and outputs that must agree, because values flow from the outputs to
/// the inputs.
pub type InOutGroupId = u32;

/// The dominator tree: for every block its immediate dominator. A block without one has `None` or
/// itself.
#[derive(Clone, Debug, PartialEq, Eq)]
pub struct Dominators {
    pub idom: Vec<Option<BasicBlockId>>,
}

/// The parent of a block in the dominator tree.
pub open spec fn dominator_parent(idom: Seq<Option<BasicBlockId>>, block: int) -> Option<int> {
    if 0 <= block < idom.len() {
        match idom[block] {
            Some(parent) => if parent as int == block {
                None
            } else {
                Some(parent as int)
            },
            None => None,
        }
    } else {
        None
    }
}

/// The block that lies `steps` above a block in the dominator tree.
pub open spec fn dominator_above(
    idom: Seq<Option<BasicBlockId>>,
    block: int,
    steps: nat,
) -> Option<int>
    decreases steps,
{
    if steps == 0 {
        Some(block)
    } else {
        match dominator_parent(idom, block) {
            Some(parent) => dominator_above(idom, parent, (steps - 1) as nat),
            None => None,
        }
    }
}

/// `dominator` lies above `block` in the dominator tree.
pub open spec fn dominates_strictly(
    idom: Seq<Option<BasicBlockId>>,
    dominator: int,
    block: int,
) -> bool {
    exists|steps: nat|
        steps > 0 && #[trigger] dominator_above(idom, block, steps) == Some(dominator)
}

/// A numbering of the blocks in which every parent in the dominator tree comes before its
/// children.
pub open spec fn numbers_dominators_first(
    idom: Seq<Option<BasicBlockId>>,
    number: spec_fn(int) -> nat,
) -> bool {
    forall|block: int|
        (#[trigger] dominator_parent(idom, block)) matches Some(parent) ==> number(parent) < number(
            block,
        )
}

/// The dominator tree is one: nobody lies above itself.
pub open spec fn is_dominator_tree(idom: Seq<Option<BasicBlockId>>) -> bool {
    exists|number: spec_fn(int) -> nat| numbers_dominators_first(idom, number)
}

impl Dominators {
    /// The immediate dominator of a block.
    pub fn of(&self, block: BasicBlockId) -> (idom: Option<BasicBlockId>)
        requires
            block < self.idom.len(),
        ensures
            idom == self.idom[block as int],
    {
        self.idom[block as usize]
    }

    /// A tree over blocks `0..blocks`.
    pub open spec fn wf(self, blocks: int) -> bool {
        &&& self.idom.len() == blocks
        &&& forall|b: int|
            0 <= b < blocks ==> ((#[trigger] self.idom[b]) matches Some(d) ==> d < blocks)
        &&& is_dominator_tree(self.idom@)
    }
}

/// For every block the group that its inputs belong to and the group that its outputs belong to,
/// if any. The outputs of a block are in one group with the inputs of each block that it may go
/// on to.
#[derive(Clone, Debug, PartialEq, Eq)]
pub struct ControlFlowGraphInOutBundling {
    pub in_group: Vec<Option<InOutGroupId>>,
    pub out_group: Vec<Option<InOutGroupId>>,
    pub total_groups: u32,
}

impl ControlFlowGraphInOutBundling {
    /// How many groups there are. Their ids are `0..total_groups`.
    pub fn total_groups(&self) -> (total: u32)
        ensures
            total == self.total_groups,
    {
        self.total_groups
    }

    /// The group of the inputs of a block.
    pub fn get_in_group(&self, block: BasicBlockId) -> (group: Option<InOutGroupId>)
        requires
            block < self.in_group.len(),
        ensures
            group == self.in_group[block as int],
    {
        self.in_group[block as usize]
    }

    /// The group of the outputs of a block.
    pub fn get_out_group(&self, block: BasicBlockId) -> (group: Option<InOutGroupId>)
        requires
            block < self.out_group.len(),
        ensures
            group == self.out_group[block as int],
    {
        self.out_group[block as usize]
    }

    /// A grouping of blocks `0..blocks`.
    pub open spec fn wf(self, blocks: int) -> bool {
        &&& self.in_group.len() == blocks
        &&& self.out_group.len() == blocks
        &&& forall|b: int|
            0 <= b < blocks ==> ((#[trigger] self.in_group[b]) matches Some(g) ==> g
                < self.total_groups)
        &&& forall|b: int|
            0 <= b < blocks ==> ((#[trigger] self.out_group[b]) matches Some(g) ==> g
                < self.total_groups)
    }
}

/// The analyses that the pass reads.
#[derive(Clone, Debug, PartialEq, Eq)]
pub struct AnalysesStore {
    pub dominators: Dominators,
    pub in_out_bundling: ControlFlowGraphInOutBundling,
}

/// The analyses of a store, as sequences over the blocks, with the number of groups.
#[verifier::ext_equal]
pub struct AnalysesView {
    pub idom: Seq<Option<BasicBlockId>>,
    pub in_group: Seq<Option<InOutGroupId>>,
    pub out_group: Seq<Option<InOutGroupId>>,
    pub total_groups: u32,
}

impl View for AnalysesStore {
    type V = AnalysesView;

    open spec fn view(&self) -> AnalysesView {
        AnalysesView {
            idom: self.dominators.idom@,
            in_group: self.in_out_bundling.in_group@,
            out_group: self.in_out_bundling.out_group@,
            total_groups: self.in_out_bundling.total_groups,
        }
    }
}

impl AnalysesView {
    /// The sequences cover blocks `0..blocks`, and the dominators form a tree.
    pub open spec fn wf(self, blocks: int) -> bool {
        &&& self.idom.len() == blocks
        &&& self.in_group.len() == blocks
        &&& self.out_group.len() == blocks
        &&& is_dominator_tree(self.idom)
    }
}

impl AnalysesStore {
    /// Analyses of a program with blocks `0..blocks`.
    pub open spec fn wf(self, blocks: int) -> bool {
        &&& self.dominators.wf(blocks)
        &&& self.in_out_bundling.wf(blocks)
    }

    /// The dominator tree.
    pub fn dominators(&self) -> (dominators: &Dominators)
        ensures
            *dominators == self.dominators,
    {
        &self.dominators
    }

    /// The grouping of block inputs and outputs.
    pub fn in_out_bundling(&self) -> (bundling: &ControlFlowGraphInOutBundling)
        ensures
            *bundling == self.in_out_bundling,
    {
        &self.in_out_bundling
    }
}

/// A set of analyses.
#[derive(Clone, Copy, Debug, PartialEq, Eq, Structural)]
pub struct AnalysesMask {
    pub predecessors: bool,
    pub dominators: bool,
    pub dominance_frontiers: bool,
    pub basic_block_ownership: bool,
    pub reachability: bool,
}

/// The parent of a block lies above it, and so does whatever lies above the parent; there is
/// nothing else above it.
pub proof fn lemma_dominates_strictly_step(
    idom: Seq<Option<BasicBlockId>>,
    dominator: int,
    block: int,
)
    ensures
        dominates_strictly(idom, dominator, block) <==> (dominator_parent(idom, block) matches Some(
            parent,
        ) && (parent == dominator || dominates_strictly(idom, dominator, parent))),
{
    if dominates_strictly(idom, dominator, block) {
        let steps = choose|steps: nat|
            steps > 0 && #[trigger] dominator_above(idom, block, steps) == Some(dominator);
        let parent = dominator_parent(idom, block)->0;
        if steps == 1 {
            assert(dominator_above(idom, parent, 0) == Some(dominator));
        } else {
            assert(dominator_above(idom, parent, (steps - 1) as nat) == Some(dominator));
        }
    }
    match dominator_parent(idom, block) {
        Some(parent) => {
            if parent == dominator {
                assert(dominator_above(idom, parent, 0) == Some(dominator));
                assert(dominator_above(idom, block, 1) == Some(dominator));
            } else if dominates_strictly(idom, dominator, parent) {
                let steps = choose|steps: nat|
                    steps > 0 && #[trigger] dominator_above(idom, parent, steps) == Some(dominator);
                assert(dominator_above(idom, block, steps + 1) == Some(dominator));
            }
        },
        None => {},
    }
}

/// Lying above in the dominator tree is transitive.
pub proof fn lemma_dominates_strictly_transitive(
    idom: Seq<Option<BasicBlockId>>,
    a: int,
    b: int,
    c: int,
)
    requires
        dominates_strictly(idom, a, b),
        dominates_strictly(idom, b, c),
    ensures
        dominates_strictly(idom, a, c),
{
    let steps = choose|steps: nat|
        steps > 0 && #[trigger] dominator_above(idom, c, steps) == Some(b);
    lemma_above_transitive(idom, a, b, c, steps);
}

proof fn lemma_above_transitive(
    idom: Seq<Option<BasicBlockId>>,
    a: int,
    b: int,
    c: int,
    steps: nat,
)
    requires
        dominates_strictly(idom, a, b),
        dominator_above(idom, c, steps) == Some(b),
    ensures
        dominates_strictly(idom, a, c),
    decreases steps,
{
    if steps > 0 {
        let parent = dominator_parent(idom, c)->0;
        lemma_above_transitive(idom, a, b, parent, (steps - 1) as nat);
        lemma_dominates_strictly_step(idom, a, c);
    }
}

/// What lies above a block has a smaller number.
pub proof fn lemma_dominators_have_smaller_numbers(
    idom: Seq<Option<BasicBlockId>>,
    number: spec_fn(int) -> nat,
    dominator: int,
    block: int,
)
    requires
        numbers_dominators_first(idom, number),
        dominates_strictly(idom, dominator, block),
    ensures
        number(dominator) < number(block),
    decreases number(block),
{
    lemma_dominates_strictly_step(idom, dominator, block);
    let parent = dominator_parent(idom, block)->0;
    if parent != dominator {
        lemma_dominators_have_smaller_numbers(idom, number, dominator, parent);
    }
}

/// No block lies above itself.
pub proof fn lemma_dominance_irreflexive(idom: Seq<Option<BasicBlockId>>, block: int)
    requires
        is_dominator_tree(idom),
    ensures
        !dominates_strictly(idom, block, block),
{
    let number = choose|number: spec_fn(int) -> nat| numbers_dominators_first(idom, number);
    if dominates_strictly(idom, block, block) {
        lemma_dominators_have_smaller_numbers(idom, number, block, block);
    }
}

/// Going up in two parts is going up at once.
pub proof fn lemma_above_further(
    idom: Seq<Option<BasicBlockId>>,
    block: int,
    steps: nat,
    more: nat,
)
    requires
        steps <= more,
        dominator_above(idom, block, steps) is Some,
    ensures
        dominator_above(idom, block, more) == dominator_above(
            idom,
            dominator_above(idom, block, steps)->0,
            (more - steps) as nat,
        ),
    decreases steps,
{
    if steps > 0 {
        let parent = dominator_parent(idom, block)->0;
        lemma_above_further(idom, parent, (steps - 1) as nat, (more - 1) as nat);
    }
}

} // verus!
