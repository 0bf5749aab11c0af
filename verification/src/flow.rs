//! The control flow of a program, and what it means for the analyses to describe it.

use crate::analyses::{dominates_strictly, dominator_parent, AnalysesView};
use crate::ir::{BasicBlockId, Branch, Control, ProgramView, Switch};
use vstd::prelude::*;

verus! {

/// Block `b` may go on to block `t`.
pub open spec fn goes_on_to(program: ProgramView, b: int, t: int) -> bool {
    &&& 0 <= b < program.blocks.len()
    &&& 0 <= t < program.blocks.len()
    &&& match program.blocks[b].control {
        Control::LastOpTerminates => false,
        Control::InternalReturn => false,
        Control::ContinuesTo(target) => t == target,
        Control::Branches(branch) => t == branch.non_zero_target || t == branch.zero_target,
        Control::Switch(switch) => {
            ||| switch.fallback matches Some(fallback) && t == fallback
            ||| exists|c: int|
                0 <= c < program.cases[switch.cases as int].len() && t == (
                #[trigger] program.cases[switch.cases as int][c]).target
        },
    }
}

/// Block `b` is reached in so many steps from block `start`.
pub open spec fn reached_in(program: ProgramView, start: int, b: int, steps: nat) -> bool
    decreases steps,
{
    if steps == 0 {
        b == start && 0 <= b < program.blocks.len()
    } else {
        exists|a: int|
            reached_in(program, start, a, (steps - 1) as nat) && #[trigger] goes_on_to(
                program,
                a,
                b,
            )
    }
}

/// Block `b` is reached from where function `f` starts.
pub open spec fn is_reached_by(program: ProgramView, f: int, b: int) -> bool {
    0 <= f < program.functions.len() && exists|steps: nat|
        reached_in(program, program.functions[f].entry as int, b, steps)
}

/// Block `b` is reached from where some function starts.
pub open spec fn is_reachable(program: ProgramView, b: int) -> bool {
    exists|f: int| is_reached_by(program, f, b)
}

/// `dominator` lies above `block` in the dominator tree, or is that block.
pub open spec fn dominates(
    idom: Seq<Option<BasicBlockId>>,
    dominator: int,
    block: int,
) -> bool {
    dominator == block || dominates_strictly(idom, dominator, block)
}

impl AnalysesView {
    /// The analyses describe the control flow of a program: nothing dominates the block in which
    /// a function starts; whatever dominates a block that may be gone on to dominates each block
    /// that goes on to it; and the outputs of a block are in one group with the inputs of each
    /// block that it goes on to, while those of a block that returns are in no group with inputs.
    /// Blocks that are never reached do not matter.
    pub open spec fn describes(self, program: ProgramView) -> bool {
        &&& self.wf(program.blocks.len() as int)
        &&& forall|b: int| #[trigger]
            program.is_function_entry(b) ==> dominator_parent(self.idom, b) is None
        &&& forall|b: int, t: int|
            is_reachable(program, b) && #[trigger] goes_on_to(program, b, t) ==> (dominator_parent(
                self.idom,
                t,
            ) matches Some(parent) ==> dominates(self.idom, parent, b))
        &&& forall|b: int, t: int|
            is_reachable(program, b) && #[trigger] goes_on_to(program, b, t) ==> self.out_group[b]
                == self.in_group[t]
        &&& forall|b: int, t: int|
            #![trigger self.out_group[b], self.in_group[t]]
            is_reachable(program, b) && program.blocks[b].control is InternalReturn && 0 <= t
                < program.blocks.len() && self.out_group[b] is Some ==> self.out_group[b]
                != self.in_group[t]
    }
}

impl AnalysesView {
    /// The groups follow from the control flow of a program: the outputs of a block are in one
    /// group with the inputs of each block that it goes on to, and outputs that are in one group
    /// with inputs are those of a block that goes on somewhere.
    pub open spec fn groups_follow(self, program: ProgramView) -> bool {
        &&& forall|b: int, t: int| #[trigger]
            goes_on_to(program, b, t) ==> self.out_group[b] == self.in_group[t]
        &&& forall|b: int, t: int|
            #![trigger self.out_group[b], self.in_group[t]]
            0 <= b < program.blocks.len() && 0 <= t < program.blocks.len()
                && self.out_group[b] is Some && self.out_group[b] == self.in_group[t] ==> exists|
                s: int,
            | goes_on_to(program, b, s)
    }
}

/// How a block ends, apart from the local that it reads there.
pub open spec fn targets_of(control: Control) -> Control {
    match control {
        Control::Branches(branch) => Control::Branches(Branch { condition: 0, ..branch }),
        Control::Switch(switch) => Control::Switch(Switch { condition: 0, ..switch }),
        _ => control,
    }
}

/// Two programs have the same control flow.
pub open spec fn same_flow(before: ProgramView, after: ProgramView) -> bool {
    &&& after.functions == before.functions
    &&& after.cases == before.cases
    &&& after.blocks.len() == before.blocks.len()
    &&& forall|b: int|
        0 <= b < before.blocks.len() ==> targets_of((#[trigger] after.blocks[b]).control)
            == targets_of(before.blocks[b].control)
}

/// Programs with the same control flow go on from block to block alike.
pub proof fn lemma_same_flow_goes_on(before: ProgramView, after: ProgramView, b: int, t: int)
    requires
        same_flow(before, after),
    ensures
        goes_on_to(after, b, t) == goes_on_to(before, b, t),
{
    if 0 <= b < before.blocks.len() {
        assert(targets_of(after.blocks[b].control) == targets_of(before.blocks[b].control));
    }
}

proof fn lemma_same_flow_reached_in(
    before: ProgramView,
    after: ProgramView,
    start: int,
    b: int,
    steps: nat,
)
    requires
        same_flow(before, after),
    ensures
        reached_in(after, start, b, steps) == reached_in(before, start, b, steps),
    decreases steps,
{
    if steps > 0 {
        let less = (steps - 1) as nat;
        if reached_in(after, start, b, steps) {
            let a = choose|a: int|
                reached_in(after, start, a, less) && #[trigger] goes_on_to(after, a, b);
            lemma_same_flow_reached_in(before, after, start, a, less);
            lemma_same_flow_goes_on(before, after, a, b);
            assert(goes_on_to(before, a, b));
        }
        if reached_in(before, start, b, steps) {
            let a = choose|a: int|
                reached_in(before, start, a, less) && #[trigger] goes_on_to(before, a, b);
            lemma_same_flow_reached_in(before, after, start, a, less);
            lemma_same_flow_goes_on(before, after, a, b);
            assert(goes_on_to(after, a, b));
        }
    }
}

/// Functions of programs with the same control flow reach the same blocks.
pub proof fn lemma_same_flow_reached_by(before: ProgramView, after: ProgramView, f: int, b: int)
    requires
        same_flow(before, after),
    ensures
        is_reached_by(after, f, b) == is_reached_by(before, f, b),
{
    let start = before.functions[f].entry as int;
    if is_reached_by(after, f, b) {
        let steps = choose|steps: nat| reached_in(after, start, b, steps);
        lemma_same_flow_reached_in(before, after, start, b, steps);
    }
    if is_reached_by(before, f, b) {
        let steps = choose|steps: nat| reached_in(before, start, b, steps);
        lemma_same_flow_reached_in(before, after, start, b, steps);
    }
}

/// Programs with the same control flow reach the same blocks.
pub proof fn lemma_same_flow_reachable(before: ProgramView, after: ProgramView, b: int)
    requires
        same_flow(before, after),
    ensures
        is_reachable(after, b) == is_reachable(before, b),
{
    if is_reachable(after, b) {
        let f = choose|f: int| is_reached_by(after, f, b);
        lemma_same_flow_reached_by(before, after, f, b);
        assert(is_reached_by(before, f, b));
    }
    if is_reachable(before, b) {
        let f = choose|f: int| is_reached_by(before, f, b);
        lemma_same_flow_reached_by(before, after, f, b);
        assert(is_reached_by(after, f, b));
    }
}

/// The block in which a function starts is reachable.
pub proof fn lemma_entry_reachable(program: ProgramView, f: int)
    requires
        0 <= f < program.functions.len(),
        program.functions[f].entry < program.blocks.len(),
    ensures
        is_reachable(program, program.functions[f].entry as int),
{
    let start = program.functions[f].entry as int;
    assert(reached_in(program, start, start, 0));
    assert(is_reached_by(program, f, start));
}

/// What a reachable block goes on to is reachable.
pub proof fn lemma_reachable_step(program: ProgramView, b: int, t: int)
    requires
        is_reachable(program, b),
        goes_on_to(program, b, t),
    ensures
        is_reachable(program, t),
{
    let f = choose|f: int| is_reached_by(program, f, b);
    let start = program.functions[f].entry as int;
    let steps = choose|steps: nat| reached_in(program, start, b, steps);
    assert(reached_in(program, start, t, steps + 1));
    assert(is_reached_by(program, f, t));
}

/// A reachable block is a block of the program.
pub proof fn lemma_reachable_in_range(program: ProgramView, b: int)
    requires
        is_reachable(program, b),
    ensures
        0 <= b < program.blocks.len(),
{
    let f = choose|f: int| is_reached_by(program, f, b);
    let start = program.functions[f].entry as int;
    let steps = choose|steps: nat| reached_in(program, start, b, steps);
    if steps > 0 {
        let a = choose|a: int|
            reached_in(program, start, a, (steps - 1) as nat) && #[trigger] goes_on_to(
                program,
                a,
                b,
            );
        assert(goes_on_to(program, a, b));
    }
}

/// Having the same control flow is transitive.
pub proof fn lemma_same_flow_transitive(a: ProgramView, b: ProgramView, c: ProgramView)
    requires
        same_flow(a, b),
        same_flow(b, c),
    ensures
        same_flow(a, c),
{
    assert forall|i: int| 0 <= i < a.blocks.len() implies targets_of(
        (#[trigger] c.blocks[i]).control,
    ) == targets_of(a.blocks[i].control) by {
        assert(targets_of(b.blocks[i].control) == targets_of(a.blocks[i].control));
    }
}

/// Analyses that describe a program describe every program with the same control flow.
pub proof fn lemma_same_flow_describes(
    before: ProgramView,
    after: ProgramView,
    analyses: AnalysesView,
)
    requires
        same_flow(before, after),
        analyses.describes(before),
    ensures
        analyses.describes(after),
{
    assert forall|b: int| #[trigger] after.is_function_entry(b) implies dominator_parent(
        analyses.idom,
        b,
    ) is None by {
        assert(before.is_function_entry(b));
    }
    assert forall|b: int, t: int|
        is_reachable(after, b) && #[trigger] goes_on_to(after, b, t) implies goes_on_to(
        before,
        b,
        t,
    ) && is_reachable(before, b) by {
        lemma_same_flow_goes_on(before, after, b, t);
        lemma_same_flow_reachable(before, after, b);
    }
    assert forall|b: int, t: int|
        #![trigger analyses.out_group[b], analyses.in_group[t]]
        is_reachable(after, b) && after.blocks[b].control is InternalReturn && 0 <= t
            < after.blocks.len() && analyses.out_group[b] is Some implies analyses.out_group[b]
        != analyses.in_group[t] by {
        lemma_same_flow_reachable(before, after, b);
        lemma_reachable_in_range(before, b);
        assert(targets_of(after.blocks[b].control) == targets_of(before.blocks[b].control));
    }
}

/// Groups that follow from the control flow of a program follow from that of every program with the
/// same control flow.
pub proof fn lemma_same_flow_groups_follow(
    before: ProgramView,
    after: ProgramView,
    analyses: AnalysesView,
)
    requires
        same_flow(before, after),
        analyses.groups_follow(before),
    ensures
        analyses.groups_follow(after),
{
    assert forall|b: int, t: int| #[trigger]
        goes_on_to(after, b, t) implies analyses.out_group[b] == analyses.in_group[t] by {
        lemma_same_flow_goes_on(before, after, b, t);
    }
    assert forall|b: int, t: int|
        #![trigger analyses.out_group[b], analyses.in_group[t]]
        0 <= b < after.blocks.len() && 0 <= t < after.blocks.len() && analyses.out_group[b] is Some
            && analyses.out_group[b] == analyses.in_group[t] implies exists|s: int|
        goes_on_to(after, b, s) by {
        let s = choose|s: int| goes_on_to(before, b, s);
        lemma_same_flow_goes_on(before, after, b, s);
        assert(goes_on_to(after, b, s));
    }
}

} // verus!
