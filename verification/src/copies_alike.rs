//! Reading copies at their origin does not change what a program does.

use crate::analyses::AnalysesView;
use crate::flow::{
    is_reachable, lemma_entry_reachable, lemma_reachable_in_range, lemma_reachable_step,
};
use crate::ir::{LocalId, OpKind, OpView, ProgramView};
use crate::legality::is_legal;
use crate::model::{copies_of, propagate_copies, subst_all};
use crate::scope::{
    all_in_scope, condition_of, copies_before, in_scope, lemma_copies_in_scope, lemma_copies_step,
    lemma_copy_site, lemma_in_scope_behind, lemma_op_defines, lemma_subst_condition, reads_in_scope,
};
use crate::semantics::{
    behave_alike, behind_op, bind, enter_block, enter_function, lemma_next_block, lemma_same_next,
    look_alike, next_block, read, run_for, step, values_at_hand, Frame, Machine, State,
};
use vstd::prelude::*;

verus! {

/// Every local that the operations in front of `o` copy has the value of its origin.
pub open spec fn copies_hold<V>(ops: Seq<OpView>, o: int, env: spec_fn(LocalId) -> V) -> bool {
    forall|local: LocalId| #[trigger]
        copies_before(ops, o).dom().contains(local) ==> env(local) == env(
            copies_before(ops, o)[local],
        )
}

/// A frame that a run can have: it is in a block that is reached, and the copies made there hold.
pub open spec fn frame_fits<V>(program: ProgramView, frame: Frame<V>) -> bool {
    &&& is_reachable(program, frame.block)
    &&& frame.at <= program.blocks[frame.block].ops.len()
    &&& copies_hold(program.blocks[frame.block].ops, frame.at as int, frame.env)
}

/// A frame whose next operation is a call.
pub open spec fn waits_at_call<V>(program: ProgramView, frame: Frame<V>) -> bool {
    let ops = program.blocks[frame.block].ops;
    frame.at < ops.len() && ops[frame.at as int].kind is InternalCall
}

/// A state that a run can have: its frames are such, and all but the innermost wait at a call.
pub open spec fn state_fits<V, W>(program: ProgramView, state: State<V, W>) -> bool {
    &&& state.frames.len() > 0
    &&& forall|i: int|
        0 <= i < state.frames.len() ==> frame_fits(program, #[trigger] state.frames[i])
    &&& forall|i: int|
        0 <= i < state.frames.len() - 1 ==> waits_at_call(program, #[trigger] state.frames[i])
}

/// Reading what stands for locals that are in scope gives their values.
proof fn lemma_read_copies<V>(
    program: ProgramView,
    analyses: AnalysesView,
    b: int,
    o: int,
    locals: Seq<LocalId>,
    env: spec_fn(LocalId) -> V,
)
    requires
        program.ssa(),
        program.copies_one_local(),
        analyses.wf(program.blocks.len() as int),
        0 <= b < program.blocks.len(),
        0 <= o <= program.blocks[b].ops.len(),
        reads_in_scope(program, analyses.idom, b),
        all_in_scope(program, analyses.idom, b, o, locals),
        copies_hold(program.blocks[b].ops, o, env),
    ensures
        read(env, subst_all(copies_of(program.blocks[b].ops), locals)) == read(env, locals),
{
    let ops = program.blocks[b].ops;
    let origins = subst_all(copies_of(ops), locals);
    assert forall|i: int| 0 <= i < locals.len() implies env(#[trigger] origins[i]) == env(
        locals[i],
    ) by {
        assert(in_scope(program, analyses.idom, b, o, locals[i]));
        lemma_copies_in_scope(program, analyses.idom, b, o, locals[i]);
        if copies_before(ops, o).dom().contains(locals[i]) {
            assert(env(locals[i]) == env(copies_before(ops, o)[locals[i]]));
        }
    }
    assert(read(env, origins) =~= read(env, locals));
}

/// Behind one more operation the copies hold.
proof fn lemma_copies_hold_behind<V>(
    program: ProgramView,
    analyses: AnalysesView,
    frame: Frame<V>,
    values: Seq<V>,
)
    requires
        program.ssa(),
        program.copies_one_local(),
        analyses.wf(program.blocks.len() as int),
        frame_fits(program, frame),
        0 <= frame.block < program.blocks.len(),
        frame.at < program.blocks[frame.block].ops.len(),
        reads_in_scope(program, analyses.idom, frame.block),
        program.blocks[frame.block].ops[frame.at as int].kind is SetCopy ==> values == read(
            frame.env,
            program.blocks[frame.block].ops[frame.at as int].inputs,
        ),
    ensures
        frame_fits(
            program,
            behind_op(frame, program.blocks[frame.block].ops[frame.at as int], values),
        ),
{
    let b = frame.block;
    let o = frame.at as int;
    let ops = program.blocks[b].ops;
    let op = ops[o];
    let before = copies_before(ops, o);
    let after = copies_before(ops, o + 1);
    let env = bind(frame.env, op.outputs, values);
    lemma_copies_step(ops, o);
    assert(program.blocks[b].ops[o] == op);
    assert forall|local: LocalId| #[trigger] after.dom().contains(local) implies env(local) == env(
        after[local],
    ) by {
        let j = lemma_copy_site(program, analyses.idom, b, o + 1, local);
        let origin = after[local];
        // The origin is in scope in front of the operation, so the operation does not set it.
        if op.outputs.contains(origin) {
            lemma_in_scope_behind(program, analyses.idom, b, j, origin, o);
        }
        lemma_op_defines(program, b, j, local);
        if j == o {
            let source = op.inputs[0];
            assert(op.outputs.contains(op.outputs[0]));
            assert(op.outputs[0] == local);
            assert(op.outputs.index_of(local) == 0);
            assert(env(local) == (frame.env)(source));
            if before.dom().contains(source) {
                assert((frame.env)(source) == (frame.env)(before[source]));
            }
        } else {
            assert(!op.outputs.contains(local));
            if op.kind is SetCopy {
                assert(op.outputs.contains(op.outputs[0]));
            }
            assert(before.dom().contains(local));
            assert((frame.env)(local) == (frame.env)(before[local]));
        }
    }
}

/// At the start of a block no copy has been made.
proof fn lemma_copies_hold_at_start<V>(program: ProgramView, b: int, env: spec_fn(LocalId) -> V)
    requires
        is_reachable(program, b),
    ensures
        frame_fits(program, Frame { block: b, at: 0, env }),
{
    assert(program.blocks[b].ops.take(0) =~= Seq::empty());
}

proof fn lemma_with_frame_fits<V, W>(program: ProgramView, state: State<V, W>, frame: Frame<V>)
    requires
        state_fits(program, state),
        frame_fits(program, frame),
    ensures
        state_fits(program, state.with_frame(frame)),
{
    let next = state.with_frame(frame);
    assert forall|i: int| 0 <= i < next.frames.len() implies frame_fits(
        program,
        #[trigger] next.frames[i],
    ) by {
        if i < state.frames.len() - 1 {
            assert(next.frames[i] == state.frames[i]);
        }
    }
    assert forall|i: int| 0 <= i < next.frames.len() - 1 implies waits_at_call(
        program,
        #[trigger] next.frames[i],
    ) by {
        assert(next.frames[i] == state.frames[i]);
    }
}

/// Both programs are about to read the same values.
proof fn lemma_same_values<V, W>(
    program: ProgramView,
    analyses: AnalysesView,
    state: State<V, W>,
)
    requires
        analyses.describes(program),
        is_legal(program, analyses),
        state_fits(program, state),
    ensures
        values_at_hand(propagate_copies(program), state) == values_at_hand(program, state),
{
    let frame = state.frames.last();
    let b = frame.block;
    assert(frame_fits(program, state.frames[state.frames.len() - 1]));
    lemma_reachable_in_range(program, b);
    assert(reads_in_scope(program, analyses.idom, b));
    let block = program.blocks[b];
    let n = block.ops.len() as int;
    if frame.at < n {
        let op = block.ops[frame.at as int];
        assert(all_in_scope(program, analyses.idom, b, frame.at as int, op.inputs));
        lemma_read_copies(program, analyses, b, frame.at as int, op.inputs, frame.env);
    } else {
        lemma_read_copies(program, analyses, b, n, block.outputs, frame.env);
        lemma_read_copies(program, analyses, b, n, condition_of(block.control), frame.env);
        lemma_subst_condition(copies_of(block.ops), block.control);
    }
}

/// Both programs take the same step.
proof fn lemma_same_step<V, W>(
    machine: Machine<V, W>,
    program: ProgramView,
    analyses: AnalysesView,
    state: State<V, W>,
)
    requires
        analyses.describes(program),
        is_legal(program, analyses),
        state_fits(program, state),
    ensures
        step(machine, propagate_copies(program), state) == step(machine, program, state),
        state_fits(program, step(machine, program, state)),
{
    let after = propagate_copies(program);
    let frame = state.frames.last();
    let b = frame.block;
    assert(frame_fits(program, state.frames[state.frames.len() - 1]));
    lemma_reachable_in_range(program, b);
    assert(reads_in_scope(program, analyses.idom, b));
    let block = program.blocks[b];
    let next = step(machine, program, state);
    if state.outcome is Running {
        if frame.at < block.ops.len() {
            let op = block.ops[frame.at as int];
            let o = frame.at as int;
            assert(all_in_scope(program, analyses.idom, b, o, op.inputs));
            lemma_read_copies(program, analyses, b, o, op.inputs, frame.env);
            let values = read(frame.env, op.inputs);
            if let OpKind::InternalCall(f) = op.kind {
                assert(program.blocks[b].ops[o].kind == OpKind::InternalCall(f));
                lemma_entry_reachable(program, f as int);
                let callee = enter_function(machine, program, f as int, values);
                assert(enter_function(machine, after, f as int, values) == callee);
                lemma_copies_hold_at_start(program, callee.block, callee.env);
                assert(next.frames =~= state.frames.push(callee));
            } else if op.kind is SetCopy {
                lemma_copies_hold_behind(program, analyses, frame, values);
                lemma_with_frame_fits(program, state, behind_op(frame, op, values));
            } else {
                let (results, world) = (machine.apply)(op.kind, values, state.world);
                lemma_copies_hold_behind(program, analyses, frame, results);
                lemma_with_frame_fits(program, state, behind_op(frame, op, results));
            }
        } else {
            let n = block.ops.len() as int;
            lemma_read_copies(program, analyses, b, n, block.outputs, frame.env);
            lemma_read_copies(program, analyses, b, n, condition_of(block.control), frame.env);
            lemma_subst_condition(copies_of(block.ops), block.control);
            lemma_same_next(machine, program, after, b, frame.env, frame.env);
            if block.control is InternalReturn {
                if state.frames.len() > 1 {
                    let callers = state.frames.drop_last();
                    let caller = callers.last();
                    assert(caller == state.frames[state.frames.len() - 2]);
                    assert(frame_fits(program, caller));
                    assert(waits_at_call(program, caller));
                    lemma_reachable_in_range(program, caller.block);
                    assert(reads_in_scope(program, analyses.idom, caller.block));
                    let values = read(frame.env, block.outputs);
                    lemma_copies_hold_behind(program, analyses, caller, values);
                    assert(state_fits(program, State { frames: callers, ..state }));
                    lemma_with_frame_fits(
                        program,
                        State { frames: callers, ..state },
                        behind_op(
                            caller,
                            program.blocks[caller.block].ops[caller.at as int],
                            values,
                        ),
                    );
                }
            } else if let Some(t) = next_block(machine, program, block.control, frame.env) {
                if t < program.blocks.len() {
                    lemma_next_block(machine, program, b, frame.env, t as int);
                    lemma_reachable_step(program, b, t as int);
                    let entered = enter_block(program, frame, block, t as int);
                    lemma_copies_hold_at_start(program, entered.block, entered.env);
                    lemma_with_frame_fits(program, state, entered);
                }
            }
        }
    }
}

/// Both programs run alike.
proof fn lemma_same_run<V, W>(
    machine: Machine<V, W>,
    program: ProgramView,
    analyses: AnalysesView,
    f: int,
    arguments: Seq<V>,
    world: W,
    steps: nat,
)
    requires
        analyses.describes(program),
        is_legal(program, analyses),
        0 <= f < program.functions.len(),
        program.functions[f].entry < program.blocks.len(),
    ensures
        run_for(machine, propagate_copies(program), f, arguments, world, steps) == run_for(
            machine,
            program,
            f,
            arguments,
            world,
            steps,
        ),
        state_fits(program, run_for(machine, program, f, arguments, world, steps)),
    decreases steps,
{
    if steps == 0 {
        let callee = enter_function(machine, program, f, arguments);
        assert(enter_function(machine, propagate_copies(program), f, arguments) == callee);
        lemma_entry_reachable(program, f);
        lemma_copies_hold_at_start(program, callee.block, callee.env);
    } else {
        let less = (steps - 1) as nat;
        lemma_same_run(machine, program, analyses, f, arguments, world, less);
        lemma_same_step(
            machine,
            program,
            analyses,
            run_for(machine, program, f, arguments, world, less),
        );
    }
}

/// Reading copies at their origin does not change what a legal program does.
pub proof fn lemma_propagate_behaves_alike<V, W>(
    machine: Machine<V, W>,
    program: ProgramView,
    analyses: AnalysesView,
)
    requires
        analyses.describes(program),
        is_legal(program, analyses),
    ensures
        behave_alike(machine, program, propagate_copies(program)),
{
    assert forall|f: int, arguments: Seq<V>, world: W, steps: nat|
        0 <= f < program.functions.len() && program.functions[f].entry
            < program.blocks.len() implies look_alike(
        program,
        #[trigger] run_for(machine, program, f, arguments, world, steps),
        propagate_copies(program),
        run_for(machine, propagate_copies(program), f, arguments, world, steps),
    ) by {
        lemma_same_run(machine, program, analyses, f, arguments, world, steps);
        lemma_same_values(
            program,
            analyses,
            run_for(machine, program, f, arguments, world, steps),
        );
    }
}

} // verus!
