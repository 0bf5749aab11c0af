//! What a program does when it runs.
//!
//! The meaning of the operations is left open: a [`Machine`] says what each of them makes of the
//! values that it reads and of the world, which stands for everything outside the locals.

use crate::flow::{goes_on_to, same_flow, targets_of};
use crate::ir::{BasicBlockId, BlockView, Control, LocalId, OpKind, OpView, ProgramView, SwitchCase};
use crate::scope::condition_of;
use vstd::prelude::*;

verus! {

/// What operations and conditions mean, over values `V` and a world `W`.
#[verifier::reject_recursive_types(V)]
#[verifier::reject_recursive_types(W)]
pub struct Machine<V, W> {
    /// The value of a local that was not set.
    pub unset: V,
    /// What an operation makes of the values that it reads and of the world.
    pub apply: spec_fn(OpKind, Seq<V>, W) -> (Seq<V>, W),
    /// Whether a branch takes a value as zero.
    pub is_zero: spec_fn(V) -> bool,
    /// Whether a switch takes a value as the word of a case.
    pub is_word: spec_fn(V, [u64; 4]) -> bool,
}

/// A function at work: where it is, and the values of its locals.
#[verifier::reject_recursive_types(V)]
pub struct Frame<V> {
    pub block: int,
    pub at: nat,
    pub env: spec_fn(LocalId) -> V,
}

/// How a run stands.
pub enum Outcome<V> {
    /// It goes on.
    Running,
    /// An operation ended it.
    Stopped,
    /// The function that it started with has returned these values.
    Returned(Seq<V>),
    /// There is nothing to go on with.
    Stuck,
}

/// A run at some moment: the functions at work, the innermost last, and the world.
#[verifier::reject_recursive_types(V)]
pub struct State<V, W> {
    pub frames: Seq<Frame<V>>,
    pub world: W,
    pub outcome: Outcome<V>,
}

/// The values of a list of locals.
pub open spec fn read<V>(env: spec_fn(LocalId) -> V, locals: Seq<LocalId>) -> Seq<V> {
    Seq::new(locals.len(), |i: int| env(locals[i]))
}

/// The values of all locals once those of a list are set.
pub open spec fn bind<V>(
    env: spec_fn(LocalId) -> V,
    locals: Seq<LocalId>,
    values: Seq<V>,
) -> spec_fn(LocalId) -> V {
    |local: LocalId|
        if locals.contains(local) {
            values[locals.index_of(local)]
        } else {
            env(local)
        }
}

/// The target of the first case whose word a value is.
pub open spec fn pick_case<V, W>(
    machine: Machine<V, W>,
    cases: Seq<SwitchCase>,
    value: V,
) -> Option<BasicBlockId>
    decreases cases.len(),
{
    if cases.len() == 0 {
        None
    } else if (machine.is_word)(value, cases[0].value) {
        Some(cases[0].target)
    } else {
        pick_case(machine, cases.drop_first(), value)
    }
}

/// The block in which a run goes on at the end of a block, if any.
pub open spec fn next_block<V, W>(
    machine: Machine<V, W>,
    program: ProgramView,
    control: Control,
    env: spec_fn(LocalId) -> V,
) -> Option<BasicBlockId> {
    match control {
        Control::LastOpTerminates => None,
        Control::InternalReturn => None,
        Control::ContinuesTo(target) => Some(target),
        Control::Branches(branch) => if (machine.is_zero)(env(branch.condition)) {
            Some(branch.zero_target)
        } else {
            Some(branch.non_zero_target)
        },
        Control::Switch(switch) => match pick_case(
            machine,
            program.cases[switch.cases as int],
            env(switch.condition),
        ) {
            Some(target) => Some(target),
            None => switch.fallback,
        },
    }
}

/// A function that starts with these arguments.
pub open spec fn enter_function<V, W>(
    machine: Machine<V, W>,
    program: ProgramView,
    f: int,
    arguments: Seq<V>,
) -> Frame<V> {
    let entry = program.functions[f].entry as int;
    Frame {
        block: entry,
        at: 0,
        env: bind(|local: LocalId| machine.unset, program.blocks[entry].inputs, arguments),
    }
}

/// The frame behind one more operation, with what the operation defines set.
pub open spec fn behind_op<V>(frame: Frame<V>, op: OpView, values: Seq<V>) -> Frame<V> {
    Frame { at: frame.at + 1, env: bind(frame.env, op.outputs, values), ..frame }
}

/// The frame at the start of block `t`, with what it takes in set from what `block` hands on.
pub open spec fn enter_block<V>(
    program: ProgramView,
    frame: Frame<V>,
    block: BlockView,
    t: int,
) -> Frame<V> {
    Frame {
        block: t,
        at: 0,
        env: bind(frame.env, program.blocks[t].inputs, read(frame.env, block.outputs)),
    }
}

impl<V, W> State<V, W> {
    /// The run with another innermost function at work.
    pub open spec fn with_frame(self, frame: Frame<V>) -> State<V, W> {
        State { frames: self.frames.drop_last().push(frame), ..self }
    }

    /// The run, ended.
    pub open spec fn ended(self, outcome: Outcome<V>) -> State<V, W> {
        State { outcome, ..self }
    }
}

/// One operation of a run.
pub open spec fn step_op<V, W>(
    machine: Machine<V, W>,
    program: ProgramView,
    state: State<V, W>,
    op: OpView,
) -> State<V, W> {
    let frame = state.frames.last();
    let values = read(frame.env, op.inputs);
    match op.kind {
        OpKind::SetCopy => state.with_frame(behind_op(frame, op, values)),
        OpKind::InternalCall(f) => if f < program.functions.len() {
            State {
                frames: state.frames.push(enter_function(machine, program, f as int, values)),
                ..state
            }
        } else {
            state.ended(Outcome::Stuck)
        },
        _ => {
            let (results, world) = (machine.apply)(op.kind, values, state.world);
            State { world, ..state.with_frame(behind_op(frame, op, results)) }
        },
    }
}

/// The return of the innermost function.
pub open spec fn step_return<V, W>(
    program: ProgramView,
    state: State<V, W>,
    values: Seq<V>,
) -> State<V, W> {
    let callers = state.frames.drop_last();
    if callers.len() == 0 {
        state.ended(Outcome::Returned(values))
    } else {
        let caller = callers.last();
        let call = program.blocks[caller.block].ops[caller.at as int];
        State { frames: callers, ..state }.with_frame(behind_op(caller, call, values))
    }
}

/// The end of a block of a run.
pub open spec fn step_control<V, W>(
    machine: Machine<V, W>,
    program: ProgramView,
    state: State<V, W>,
    block: BlockView,
) -> State<V, W> {
    let frame = state.frames.last();
    match block.control {
        Control::LastOpTerminates => state.ended(Outcome::Stopped),
        Control::InternalReturn => step_return(program, state, read(frame.env, block.outputs)),
        _ => match next_block(machine, program, block.control, frame.env) {
            Some(t) => if t < program.blocks.len() {
                state.with_frame(enter_block(program, frame, block, t as int))
            } else {
                state.ended(Outcome::Stuck)
            },
            None => state.ended(Outcome::Stuck),
        },
    }
}

/// One step of a run.
pub open spec fn step<V, W>(
    machine: Machine<V, W>,
    program: ProgramView,
    state: State<V, W>,
) -> State<V, W> {
    let frame = state.frames.last();
    let block = program.blocks[frame.block];
    if state.outcome !is Running {
        state
    } else if frame.at < block.ops.len() {
        step_op(machine, program, state, block.ops[frame.at as int])
    } else {
        step_control(machine, program, state, block)
    }
}

/// The run that starts with function `f`, after so many steps.
pub open spec fn run_for<V, W>(
    machine: Machine<V, W>,
    program: ProgramView,
    f: int,
    arguments: Seq<V>,
    world: W,
    steps: nat,
) -> State<V, W>
    decreases steps,
{
    if steps == 0 {
        State {
            frames: seq![enter_function(machine, program, f, arguments)],
            world,
            outcome: Outcome::Running,
        }
    } else {
        step(machine, program, run_for(machine, program, f, arguments, world, (steps - 1) as nat))
    }
}

/// The values that a run is about to read: those of the operation at hand, or at the end of a block
/// those that its function returns or the one that it branches on.
pub open spec fn values_at_hand<V, W>(program: ProgramView, state: State<V, W>) -> Seq<V> {
    let frame = state.frames.last();
    let block = program.blocks[frame.block];
    if frame.at < block.ops.len() {
        read(frame.env, block.ops[frame.at as int].inputs)
    } else if block.control is InternalReturn {
        read(frame.env, block.outputs)
    } else {
        read(frame.env, condition_of(block.control))
    }
}

/// A run of one program and a run of another look alike: they stand at the same places, are about
/// to read the same values there, in the same world, with the same outcome.
pub open spec fn look_alike<V, W>(
    before: ProgramView,
    a: State<V, W>,
    after: ProgramView,
    b: State<V, W>,
) -> bool {
    &&& a.frames.len() == b.frames.len()
    &&& forall|i: int|
        0 <= i < a.frames.len() ==> (#[trigger] a.frames[i]).block == b.frames[i].block
            && a.frames[i].at == b.frames[i].at
    &&& values_at_hand(before, a) == values_at_hand(after, b)
    &&& a.world == b.world
    &&& a.outcome == b.outcome
}

/// Two programs do the same on this machine: from whatever function, arguments and world they
/// start, their runs look alike after any number of steps.
pub open spec fn behave_alike<V, W>(
    machine: Machine<V, W>,
    before: ProgramView,
    after: ProgramView,
) -> bool {
    forall|f: int, arguments: Seq<V>, world: W, steps: nat|
        0 <= f < before.functions.len() && before.functions[f].entry < before.blocks.len()
            ==> look_alike(
            before,
            #[trigger] run_for(machine, before, f, arguments, world, steps),
            after,
            run_for(machine, after, f, arguments, world, steps),
        )
}

proof fn lemma_pick_case<V, W>(machine: Machine<V, W>, cases: Seq<SwitchCase>, value: V) -> (c: int)
    requires
        pick_case(machine, cases, value) is Some,
    ensures
        0 <= c < cases.len(),
        pick_case(machine, cases, value) == Some(cases[c].target),
    decreases cases.len(),
{
    if (machine.is_word)(value, cases[0].value) {
        0
    } else {
        let c = lemma_pick_case(machine, cases.drop_first(), value);
        c + 1
    }
}

/// A run goes on only where the control flow allows it.
pub proof fn lemma_next_block<V, W>(
    machine: Machine<V, W>,
    program: ProgramView,
    b: int,
    env: spec_fn(LocalId) -> V,
    t: int,
)
    requires
        0 <= b < program.blocks.len(),
        0 <= t < program.blocks.len(),
        next_block(machine, program, program.blocks[b].control, env) matches Some(next) && next
            == t,
    ensures
        goes_on_to(program, b, t),
{
    if let Control::Switch(switch) = program.blocks[b].control {
        let cases = program.cases[switch.cases as int];
        if pick_case(machine, cases, env(switch.condition)) is Some {
            let c = lemma_pick_case(machine, cases, env(switch.condition));
            assert(program.cases[switch.cases as int][c].target == t);
        }
    }
}

/// Ends of blocks with the same targets and the same value of the condition lead to the same block.
pub proof fn lemma_same_next<V, W>(
    machine: Machine<V, W>,
    before: ProgramView,
    after: ProgramView,
    b: int,
    env1: spec_fn(LocalId) -> V,
    env2: spec_fn(LocalId) -> V,
)
    requires
        same_flow(before, after),
        0 <= b < before.blocks.len(),
        read(env1, condition_of(before.blocks[b].control)) == read(
            env2,
            condition_of(after.blocks[b].control),
        ),
    ensures
        next_block(machine, before, before.blocks[b].control, env1) == next_block(
            machine,
            after,
            after.blocks[b].control,
            env2,
        ),
{
    assert(targets_of(after.blocks[b].control) == targets_of(before.blocks[b].control));
    let values1 = read(env1, condition_of(before.blocks[b].control));
    let values2 = read(env2, condition_of(after.blocks[b].control));
    match before.blocks[b].control {
        Control::Branches(branch) => {
            assert(values1[0] == env1(branch.condition));
            assert(values2[0] == env2(after.blocks[b].control->Branches_0.condition));
        },
        Control::Switch(switch) => {
            assert(values1[0] == env1(switch.condition));
            assert(values2[0] == env2(after.blocks[b].control->Switch_0.condition));
        },
        _ => {},
    }
}

} // verus!
