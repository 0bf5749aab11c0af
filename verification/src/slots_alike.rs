//! Taking out redundant slots does not change what a program does.

use crate::analyses::{
    dominates_strictly, dominator_parent, lemma_dominance_irreflexive,
    lemma_dominates_strictly_step, lemma_dominates_strictly_transitive,
    lemma_dominators_have_smaller_numbers, numbers_dominators_first, AnalysesView,
};
use crate::copies_alike::waits_at_call;
use crate::flow::{
    dominates, goes_on_to, is_reachable, lemma_entry_reachable, lemma_reachable_in_range,
    lemma_reachable_step,
};
use crate::ir::{LocalId, OpKind, ProgramView};
use crate::legality::{
    is_legal, lemma_eliminate_same_flow, lemma_entry_inputs_stay, lemma_return_outputs_stay,
};
use crate::model::{
    canonical, eliminate_redundant_slots, forwarded_inputs, in_member, is_inner_group, is_redundant,
    keep_slots, out_member, slot_is_redundant, subst_all,
};
use crate::redundancy::{
    lemma_available_definer, lemma_forwarded_entry, lemma_forwarded_site, lemma_slot_origin,
};
use crate::scope::{
    all_in_scope, condition_of, in_scope, lemma_forwarded_scope, lemma_op_defines,
    lemma_origin_above, lemma_subst_condition, reads_in_scope,
};
use crate::semantics::{
    behave_alike, behind_op, bind, enter_block, enter_function, lemma_next_block, lemma_same_next,
    look_alike, next_block, read, run_for, step, step_return, values_at_hand, Frame, Machine, State,
};
use crate::slots::{
    kept_before, lemma_keep_slots_at, lemma_keep_slots_count, lemma_keep_slots_distinct,
};
use vstd::prelude::*;

verus! {

/// In block `b`, every forwarded input that a block above it or itself takes in has the value of
/// the local that it comes from.
pub open spec fn forwarded_hold<V>(
    program: ProgramView,
    analyses: AnalysesView,
    b: int,
    env: spec_fn(LocalId) -> V,
) -> bool {
    forall|input: LocalId, site: int|
        forwarded_inputs(program, analyses).dom().contains(input) && 0 <= site
            < program.blocks.len() && #[trigger] program.blocks[site].inputs.contains(input)
            && dominates(analyses.idom, site, b) ==> env(input) == env(
            forwarded_inputs(program, analyses)[input],
        )
}

/// The values of all locals that are not forwarded are the same.
pub open spec fn agree<V>(
    program: ProgramView,
    analyses: AnalysesView,
    env1: spec_fn(LocalId) -> V,
    env2: spec_fn(LocalId) -> V,
) -> bool {
    forall|local: LocalId|
        !forwarded_inputs(program, analyses).dom().contains(local) ==> #[trigger] env1(local)
            == env2(local)
}

/// A forwarded input has the value of its origin.
proof fn lemma_origin_value<V>(
    program: ProgramView,
    analyses: AnalysesView,
    number: spec_fn(int) -> nat,
    b: int,
    env: spec_fn(LocalId) -> V,
    input: LocalId,
    site: int,
)
    requires
        program.ssa(),
        analyses.wf(program.blocks.len() as int),
        numbers_dominators_first(analyses.idom, number),
        forwarded_hold(program, analyses, b, env),
        forwarded_inputs(program, analyses).dom().contains(input),
        0 <= site < program.blocks.len(),
        program.blocks[site].inputs.contains(input),
        dominates(analyses.idom, site, b),
    ensures
        env(canonical(forwarded_inputs(program, analyses))[input]) == env(input),
    decreases number(site),
{
    let map = forwarded_inputs(program, analyses);
    let source = map[input];
    let (m, slot, g) = lemma_forwarded_site(program, analyses, input);
    assert(program.blocks[m].inputs.contains(input));
    assert(program.blocks[m].defines(input));
    assert(program.blocks[site].defines(input));
    assert(m == site);
    lemma_slot_origin(program, analyses, g, slot, source);
    assert(env(input) == env(source));
    if map.dom().contains(source) {
        let d = lemma_available_definer(program, analyses, g, source);
        assert(dominates_strictly(analyses.idom, d, site));
        let (m2, slot2, g2) = lemma_forwarded_site(program, analyses, source);
        assert(program.blocks[m2].inputs.contains(source));
        assert(program.blocks[m2].defines(source));
        assert(m2 == d);
        lemma_dominators_have_smaller_numbers(analyses.idom, number, d, site);
        if site != b {
            lemma_dominates_strictly_transitive(analyses.idom, d, site, b);
        }
        lemma_origin_value(program, analyses, number, b, env, source, d);
        lemma_origin_above(program, analyses, source, d);
    } else {
        assert(!canonical(map).dom().contains(source));
    }
}

/// Reading what stands for locals that are in scope gives their values.
proof fn lemma_read_origins<V>(
    program: ProgramView,
    analyses: AnalysesView,
    b: int,
    o: int,
    locals: Seq<LocalId>,
    env1: spec_fn(LocalId) -> V,
    env2: spec_fn(LocalId) -> V,
)
    requires
        program.ssa(),
        analyses.wf(program.blocks.len() as int),
        0 <= b < program.blocks.len(),
        all_in_scope(program, analyses.idom, b, o, locals),
        forwarded_hold(program, analyses, b, env1),
        agree(program, analyses, env1, env2),
    ensures
        read(env2, subst_all(canonical(forwarded_inputs(program, analyses)), locals)) == read(
            env1,
            locals,
        ),
{
    let map = forwarded_inputs(program, analyses);
    let origins = subst_all(canonical(map), locals);
    let number = choose|number: spec_fn(int) -> nat|
        numbers_dominators_first(analyses.idom, number);
    assert forall|i: int| 0 <= i < locals.len() implies env2(#[trigger] origins[i]) == env1(
        locals[i],
    ) by {
        let local = locals[i];
        assert(in_scope(program, analyses.idom, b, o, local));
        if map.dom().contains(local) {
            let (site, slot, g) = lemma_forwarded_site(program, analyses, local);
            assert(program.blocks[site].inputs.contains(local));
            lemma_forwarded_scope(program, analyses, b, o, local, site);
            lemma_origin_value(program, analyses, number, b, env1, local, site);
            lemma_origin_above(program, analyses, local, site);
            assert(env1(origins[i]) == env2(origins[i]));
        } else {
            assert(env1(local) == env2(local));
        }
    }
    assert(read(env2, origins) =~= read(env1, locals));
}

/// Behind one more operation forwarded inputs still have the value of what they come from.
proof fn lemma_forwarded_hold_behind<V>(
    program: ProgramView,
    analyses: AnalysesView,
    b: int,
    o: int,
    env: spec_fn(LocalId) -> V,
    values: Seq<V>,
)
    requires
        program.ssa(),
        analyses.wf(program.blocks.len() as int),
        0 <= b < program.blocks.len(),
        0 <= o < program.blocks[b].ops.len(),
        forwarded_hold(program, analyses, b, env),
    ensures
        forwarded_hold(
            program,
            analyses,
            b,
            bind(env, program.blocks[b].ops[o].outputs, values),
        ),
{
    let map = forwarded_inputs(program, analyses);
    let outputs = program.blocks[b].ops[o].outputs;
    let after = bind(env, outputs, values);
    assert forall|input: LocalId, site: int|
        map.dom().contains(input) && 0 <= site < program.blocks.len()
            && #[trigger] program.blocks[site].inputs.contains(input) && dominates(
            analyses.idom,
            site,
            b,
        ) implies after(input) == after(map[input]) by {
        assert(env(input) == env(map[input]));
        assert(program.blocks[site].defines(input));
        if outputs.contains(input) {
            lemma_op_defines(program, b, o, input);
        }
        if outputs.contains(map[input]) {
            lemma_op_defines(program, b, o, map[input]);
            let (m, slot, g) = lemma_forwarded_site(program, analyses, input);
            assert(program.blocks[m].inputs.contains(input));
            assert(program.blocks[m].defines(input));
            let d = lemma_available_definer(program, analyses, g, map[input]);
            assert(dominates_strictly(analyses.idom, d, m));
            if site != b {
                lemma_dominates_strictly_transitive(analyses.idom, d, site, b);
            }
            lemma_dominance_irreflexive(analyses.idom, b);
        }
    }
}

/// Where control goes on to block `t`, forwarded inputs have the value of what they come from.
proof fn lemma_forwarded_hold_entered<V>(
    program: ProgramView,
    analyses: AnalysesView,
    b: int,
    t: int,
    env: spec_fn(LocalId) -> V,
)
    requires
        program.ssa(),
        analyses.describes(program),
        is_reachable(program, b),
        goes_on_to(program, b, t),
        program.blocks[b].outputs.len() == program.blocks[t].inputs.len(),
        forwarded_hold(program, analyses, b, env),
    ensures
        forwarded_hold(
            program,
            analyses,
            t,
            bind(env, program.blocks[t].inputs, read(env, program.blocks[b].outputs)),
        ),
{
    let map = forwarded_inputs(program, analyses);
    let inputs = program.blocks[t].inputs;
    let outputs = program.blocks[b].outputs;
    let after = bind(env, inputs, read(env, outputs));
    assert forall|input: LocalId, site: int|
        map.dom().contains(input) && 0 <= site < program.blocks.len()
            && #[trigger] program.blocks[site].inputs.contains(input) && dominates(
            analyses.idom,
            site,
            t,
        ) implies after(input) == after(map[input]) by {
        let source = map[input];
        let (m, slot, g) = lemma_forwarded_site(program, analyses, input);
        assert(program.blocks[m].inputs.contains(input));
        assert(program.blocks[m].defines(input));
        assert(program.blocks[site].defines(input));
        assert(m == site);
        let d = lemma_available_definer(program, analyses, g, source);
        assert(dominates_strictly(analyses.idom, d, site));
        if site != t {
            lemma_dominates_strictly_transitive(analyses.idom, d, site, t);
        }
        // The source is set above, so taking in the inputs does not change it.
        if inputs.contains(source) {
            assert(program.blocks[t].defines(source));
            lemma_dominance_irreflexive(analyses.idom, t);
        }
        if site == t {
            assert(out_member(analyses, g, b));
            assert(outputs[slot] == source);
            assert(program.blocks[t].ssa());
            assert(inputs.index_of(input) == slot);
        } else {
            if inputs.contains(input) {
                assert(program.blocks[t].defines(input));
            }
            lemma_dominates_strictly_step(analyses.idom, site, t);
            let parent = dominator_parent(analyses.idom, t)->0;
            if parent != site && parent != b {
                lemma_dominates_strictly_transitive(analyses.idom, site, parent, b);
            }
            assert(dominates(analyses.idom, site, b));
            assert(env(input) == env(source));
        }
    }
}

/// Where control goes on to block `t`, both programs agree.
proof fn lemma_agree_entered<V>(
    program: ProgramView,
    analyses: AnalysesView,
    b: int,
    t: int,
    env1: spec_fn(LocalId) -> V,
    env2: spec_fn(LocalId) -> V,
)
    requires
        program.ssa(),
        analyses.describes(program),
        is_reachable(program, b),
        goes_on_to(program, b, t),
        reads_in_scope(program, analyses.idom, b),
        program.blocks[b].outputs.len() == program.blocks[t].inputs.len(),
        forwarded_hold(program, analyses, b, env1),
        agree(program, analyses, env1, env2),
    ensures
        agree(
            program,
            analyses,
            bind(env1, program.blocks[t].inputs, read(env1, program.blocks[b].outputs)),
            bind(
                env2,
                eliminate_redundant_slots(program, analyses).blocks[t].inputs,
                read(env2, eliminate_redundant_slots(program, analyses).blocks[b].outputs),
            ),
        ),
{
    let map = forwarded_inputs(program, analyses);
    let after = eliminate_redundant_slots(program, analyses);
    let removed = |slot: int| slot_is_redundant(program, analyses, analyses.in_group[t], slot);
    let inputs1 = program.blocks[t].inputs;
    let outputs1 = program.blocks[b].outputs;
    let origins = subst_all(canonical(map), outputs1);
    let inputs2 = after.blocks[t].inputs;
    let outputs2 = after.blocks[b].outputs;
    assert(analyses.out_group[b] == analyses.in_group[t]);
    assert(inputs2 == keep_slots(inputs1, removed));
    assert(outputs2 == keep_slots(origins, removed));
    lemma_read_origins(
        program,
        analyses,
        b,
        program.blocks[b].ops.len() as int,
        outputs1,
        env1,
        env2,
    );
    assert(program.blocks[t].ssa());
    lemma_keep_slots_distinct(inputs1, removed);
    lemma_keep_slots_count(inputs1, removed);
    lemma_keep_slots_count(origins, removed);
    let new1 = bind(env1, inputs1, read(env1, outputs1));
    let new2 = bind(env2, inputs2, read(env2, outputs2));
    assert forall|local: LocalId| !map.dom().contains(local) implies #[trigger] new1(local) == new2(
        local,
    ) by {
        assert(env1(local) == env2(local));
        if inputs1.contains(local) {
            let slot = inputs1.index_of(local);
            if removed(slot) {
                let g = analyses.in_group[t]->0;
                let source = choose|source: LocalId|
                    is_redundant(program, analyses, g, slot, source);
                assert(in_member(analyses, g, t));
                lemma_forwarded_entry(program, analyses, g, slot, source, t);
            }
            let position = kept_before(removed, slot as nat) as int;
            lemma_keep_slots_at(inputs1, removed, slot);
            lemma_keep_slots_at(origins, removed, slot);
            assert(inputs2[position] == local);
            assert(inputs2.contains(local));
            assert(inputs2.index_of(local) == position);
            assert(read(env2, outputs2)[position] == env2(origins[slot]));
            assert(read(env2, origins)[slot] == env2(origins[slot]));
            assert(read(env1, outputs1)[slot] == env1(outputs1[slot]));
        } else {
            assert(!inputs2.contains(local));
        }
    }
}

/// Frames that runs of the two programs can have at the same time.
pub open spec fn frames_fit<V>(
    program: ProgramView,
    analyses: AnalysesView,
    frame1: Frame<V>,
    frame2: Frame<V>,
) -> bool {
    &&& frame1.block == frame2.block
    &&& frame1.at == frame2.at
    &&& is_reachable(program, frame1.block)
    &&& frame1.at <= program.blocks[frame1.block].ops.len()
    &&& forwarded_hold(program, analyses, frame1.block, frame1.env)
    &&& agree(program, analyses, frame1.env, frame2.env)
}

/// States that runs of the two programs can have at the same time.
pub open spec fn states_fit<V, W>(
    program: ProgramView,
    analyses: AnalysesView,
    state1: State<V, W>,
    state2: State<V, W>,
) -> bool {
    &&& state1.frames.len() > 0
    &&& state1.frames.len() == state2.frames.len()
    &&& state1.world == state2.world
    &&& state1.outcome == state2.outcome
    &&& forall|i: int|
        0 <= i < state1.frames.len() ==> frames_fit(
            program,
            analyses,
            #[trigger] state1.frames[i],
            state2.frames[i],
        )
    &&& forall|i: int|
        0 <= i < state1.frames.len() - 1 ==> waits_at_call(program, #[trigger] state1.frames[i])
}

proof fn lemma_with_frames_fit<V, W>(
    program: ProgramView,
    analyses: AnalysesView,
    state1: State<V, W>,
    state2: State<V, W>,
    frame1: Frame<V>,
    frame2: Frame<V>,
)
    requires
        states_fit(program, analyses, state1, state2),
        frames_fit(program, analyses, frame1, frame2),
    ensures
        states_fit(program, analyses, state1.with_frame(frame1), state2.with_frame(frame2)),
{
    let next1 = state1.with_frame(frame1);
    let next2 = state2.with_frame(frame2);
    assert forall|i: int| 0 <= i < next1.frames.len() implies frames_fit(
        program,
        analyses,
        #[trigger] next1.frames[i],
        next2.frames[i],
    ) by {
        if i < state1.frames.len() - 1 {
            assert(next1.frames[i] == state1.frames[i]);
        }
    }
    assert forall|i: int| 0 <= i < next1.frames.len() - 1 implies waits_at_call(
        program,
        #[trigger] next1.frames[i],
    ) by {
        assert(next1.frames[i] == state1.frames[i]);
    }
}

/// Frames behind an operation that gave the same values fit.
proof fn lemma_frames_fit_behind<V>(
    program: ProgramView,
    analyses: AnalysesView,
    frame1: Frame<V>,
    frame2: Frame<V>,
    values: Seq<V>,
)
    requires
        program.ssa(),
        analyses.describes(program),
        frames_fit(program, analyses, frame1, frame2),
        frame1.at < program.blocks[frame1.block].ops.len(),
    ensures
        frames_fit(
            program,
            analyses,
            behind_op(frame1, program.blocks[frame1.block].ops[frame1.at as int], values),
            behind_op(
                frame2,
                eliminate_redundant_slots(
                    program,
                    analyses,
                ).blocks[frame2.block].ops[frame2.at as int],
                values,
            ),
        ),
{
    let b = frame1.block;
    let o = frame1.at as int;
    lemma_reachable_in_range(program, b);
        lemma_forwarded_hold_behind(program, analyses, b, o, frame1.env, values);
    let outputs = program.blocks[b].ops[o].outputs;
    assert(eliminate_redundant_slots(program, analyses).blocks[b].ops[o].outputs == outputs);
    let env1 = bind(frame1.env, outputs, values);
    let env2 = bind(frame2.env, outputs, values);
    assert forall|local: LocalId|
        !forwarded_inputs(program, analyses).dom().contains(local) implies #[trigger] env1(local)
        == env2(local) by {
        assert((frame1.env)(local) == (frame2.env)(local));
    }
}

/// Frames of a function that starts with the same values fit.
proof fn lemma_frames_fit_at_start<V, W>(
    machine: Machine<V, W>,
    program: ProgramView,
    analyses: AnalysesView,
    f: int,
    arguments: Seq<V>,
)
    requires
        program.ssa(),
        analyses.describes(program),
        0 <= f < program.functions.len(),
        program.functions[f].entry < program.blocks.len(),
    ensures
        frames_fit(
            program,
            analyses,
            enter_function(machine, program, f, arguments),
            enter_function(machine, eliminate_redundant_slots(program, analyses), f, arguments),
        ),
{
    let map = forwarded_inputs(program, analyses);
    let entry = program.functions[f].entry as int;
    let frame = enter_function(machine, program, f, arguments);
    assert(program.is_function_entry(entry));
    lemma_entry_reachable(program, f);
    lemma_entry_inputs_stay(program, analyses, entry);
    assert forall|input: LocalId, site: int|
        map.dom().contains(input) && 0 <= site < program.blocks.len()
            && #[trigger] program.blocks[site].inputs.contains(input) && dominates(
            analyses.idom,
            site,
            entry,
        ) implies false by {
        lemma_dominates_strictly_step(analyses.idom, site, entry);
        let (m, slot, g) = lemma_forwarded_site(program, analyses, input);
        assert(program.blocks[m].inputs.contains(input));
        assert(program.blocks[m].defines(input));
        assert(program.blocks[site].defines(input));
        assert(is_inner_group(program, analyses, g));
        assert(in_member(analyses, g, entry));
    }
}

/// Both programs are about to read the same values.
proof fn lemma_fitting_values<V, W>(
    program: ProgramView,
    analyses: AnalysesView,
    state1: State<V, W>,
    state2: State<V, W>,
)
    requires
        analyses.describes(program),
        is_legal(program, analyses),
        states_fit(program, analyses, state1, state2),
    ensures
        values_at_hand(program, state1) == values_at_hand(
            eliminate_redundant_slots(program, analyses),
            state2,
        ),
{
    let origins = canonical(forwarded_inputs(program, analyses));
    let frame1 = state1.frames.last();
    let frame2 = state2.frames.last();
    let b = frame1.block;
    assert(frames_fit(program, analyses, state1.frames[state1.frames.len() - 1], frame2));
    lemma_reachable_in_range(program, b);
    assert(reads_in_scope(program, analyses.idom, b));
    let block = program.blocks[b];
    let n = block.ops.len() as int;
    if frame1.at < n {
        let o = frame1.at as int;
        let op = block.ops[o];
        assert(all_in_scope(program, analyses.idom, b, o, op.inputs));
        lemma_read_origins(program, analyses, b, o, op.inputs, frame1.env, frame2.env);
    } else if block.control is InternalReturn {
        lemma_return_outputs_stay(program, analyses, b);
        lemma_read_origins(program, analyses, b, n, block.outputs, frame1.env, frame2.env);
    } else {
        let condition = condition_of(block.control);
        lemma_read_origins(program, analyses, b, n, condition, frame1.env, frame2.env);
        lemma_subst_condition(origins, block.control);
    }
}

/// Both programs take steps that fit.
proof fn lemma_fitting_step<V, W>(
    machine: Machine<V, W>,
    program: ProgramView,
    analyses: AnalysesView,
    state1: State<V, W>,
    state2: State<V, W>,
)
    requires
        analyses.describes(program),
        is_legal(program, analyses),
        states_fit(program, analyses, state1, state2),
    ensures
        states_fit(
            program,
            analyses,
            step(machine, program, state1),
            step(machine, eliminate_redundant_slots(program, analyses), state2),
        ),
{
    let after = eliminate_redundant_slots(program, analyses);
    let origins = canonical(forwarded_inputs(program, analyses));
    let frame1 = state1.frames.last();
    let frame2 = state2.frames.last();
    let b = frame1.block;
    assert(frames_fit(program, analyses, state1.frames[state1.frames.len() - 1], frame2));
    lemma_reachable_in_range(program, b);
    assert(reads_in_scope(program, analyses.idom, b));
    lemma_eliminate_same_flow(program, analyses);
    let block = program.blocks[b];
    let next1 = step(machine, program, state1);
    let next2 = step(machine, after, state2);
    if state1.outcome is Running {
        if frame1.at < block.ops.len() {
            let o = frame1.at as int;
            let op = block.ops[o];
            assert(all_in_scope(program, analyses.idom, b, o, op.inputs));
            lemma_read_origins(program, analyses, b, o, op.inputs, frame1.env, frame2.env);
            let values = read(frame1.env, op.inputs);
            assert(after.blocks[b].ops[o].inputs == subst_all(origins, op.inputs));
            if let OpKind::InternalCall(f) = op.kind {
                assert(program.blocks[b].ops[o].kind == OpKind::InternalCall(f));
                lemma_frames_fit_at_start(machine, program, analyses, f as int, values);
                assert forall|i: int| 0 <= i < next1.frames.len() implies frames_fit(
                    program,
                    analyses,
                    #[trigger] next1.frames[i],
                    next2.frames[i],
                ) by {
                    if i < state1.frames.len() {
                        assert(next1.frames[i] == state1.frames[i]);
                    }
                }
                assert forall|i: int| 0 <= i < next1.frames.len() - 1 implies waits_at_call(
                    program,
                    #[trigger] next1.frames[i],
                ) by {
                    assert(next1.frames[i] == state1.frames[i]);
                }
            } else {
                let results = if op.kind is SetCopy {
                    values
                } else {
                    (machine.apply)(op.kind, values, state1.world).0
                };
                lemma_frames_fit_behind(program, analyses, frame1, frame2, results);
                lemma_with_frames_fit(
                    program,
                    analyses,
                    state1,
                    state2,
                    behind_op(frame1, op, results),
                    behind_op(frame2, after.blocks[b].ops[o], results),
                );
            }
        } else {
            let n = block.ops.len() as int;
            let condition = condition_of(block.control);
            lemma_read_origins(program, analyses, b, n, condition, frame1.env, frame2.env);
            lemma_subst_condition(origins, block.control);
            lemma_same_next(machine, program, after, b, frame1.env, frame2.env);
            if block.control is InternalReturn {
                lemma_return_outputs_stay(program, analyses, b);
                lemma_read_origins(program, analyses, b, n, block.outputs, frame1.env, frame2.env);
                if state1.frames.len() > 1 {
                    lemma_fitting_return(
                        program,
                        analyses,
                        state1,
                        state2,
                        read(frame1.env, block.outputs),
                    );
                }
            } else if let Some(t) = next_block(machine, program, block.control, frame1.env) {
                if t < program.blocks.len() {
                    lemma_next_block(machine, program, b, frame1.env, t as int);
                    lemma_reachable_step(program, b, t as int);
                    lemma_forwarded_hold_entered(program, analyses, b, t as int, frame1.env);
                    lemma_agree_entered(
                        program,
                        analyses,
                        b,
                        t as int,
                        frame1.env,
                        frame2.env,
                    );
                    lemma_with_frames_fit(
                        program,
                        analyses,
                        state1,
                        state2,
                        enter_block(program, frame1, block, t as int),
                        enter_block(after, frame2, after.blocks[b], t as int),
                    );
                }
            }
        }
    }
}

/// Both programs return to frames that fit.
proof fn lemma_fitting_return<V, W>(
    program: ProgramView,
    analyses: AnalysesView,
    state1: State<V, W>,
    state2: State<V, W>,
    values: Seq<V>,
)
    requires
        program.ssa(),
        analyses.describes(program),
        states_fit(program, analyses, state1, state2),
        state1.frames.len() > 1,
    ensures
        states_fit(
            program,
            analyses,
            step_return(program, state1, values),
            step_return(eliminate_redundant_slots(program, analyses), state2, values),
        ),
{
    let after = eliminate_redundant_slots(program, analyses);
    let below1 = State { frames: state1.frames.drop_last(), ..state1 };
    let below2 = State { frames: state2.frames.drop_last(), ..state2 };
    assert forall|i: int| 0 <= i < below1.frames.len() implies frames_fit(
        program,
        analyses,
        #[trigger] below1.frames[i],
        below2.frames[i],
    ) && waits_at_call(program, below1.frames[i]) by {
        assert(below1.frames[i] == state1.frames[i]);
    }
    let caller1 = below1.frames.last();
    let caller2 = below2.frames.last();
    assert(frames_fit(program, analyses, below1.frames[below1.frames.len() - 1], caller2));
    lemma_frames_fit_behind(program, analyses, caller1, caller2, values);
    lemma_with_frames_fit(
        program,
        analyses,
        below1,
        below2,
        behind_op(caller1, program.blocks[caller1.block].ops[caller1.at as int], values),
        behind_op(caller2, after.blocks[caller2.block].ops[caller2.at as int], values),
    );
}

/// Runs of both programs fit.
proof fn lemma_fitting_runs<V, W>(
    machine: Machine<V, W>,
    program: ProgramView,
    analyses: AnalysesView,
    f: int,
    arguments: Seq<V>,
    world: W,
    steps: nat,
)
    requires
        analyses.describes(program),
        is_legal(program, analyses),
        0 <= f < program.functions.len(),
        program.functions[f].entry < program.blocks.len(),
    ensures
        states_fit(
            program,
            analyses,
            run_for(machine, program, f, arguments, world, steps),
            run_for(
                machine,
                eliminate_redundant_slots(program, analyses),
                f,
                arguments,
                world,
                steps,
            ),
        ),
    decreases steps,
{
    let after = eliminate_redundant_slots(program, analyses);
    if steps == 0 {
        lemma_frames_fit_at_start(machine, program, analyses, f, arguments);
    } else {
        let less = (steps - 1) as nat;
        lemma_fitting_runs(machine, program, analyses, f, arguments, world, less);
        lemma_fitting_step(
            machine,
            program,
            analyses,
            run_for(machine, program, f, arguments, world, less),
            run_for(machine, after, f, arguments, world, less),
        );
    }
}

/// Taking out redundant slots does not change what a legal program does.
pub proof fn lemma_eliminate_behaves_alike<V, W>(
    machine: Machine<V, W>,
    program: ProgramView,
    analyses: AnalysesView,
)
    requires
        analyses.describes(program),
        is_legal(program, analyses),
    ensures
        behave_alike(machine, program, eliminate_redundant_slots(program, analyses)),
{
    let after = eliminate_redundant_slots(program, analyses);
    assert forall|f: int, arguments: Seq<V>, world: W, steps: nat|
        0 <= f < program.functions.len() && program.functions[f].entry
            < program.blocks.len() implies look_alike(
        program,
        #[trigger] run_for(machine, program, f, arguments, world, steps),
        after,
        run_for(machine, after, f, arguments, world, steps),
    ) by {
        lemma_fitting_runs(machine, program, analyses, f, arguments, world, steps);
        lemma_fitting_values(
            program,
            analyses,
            run_for(machine, program, f, arguments, world, steps),
            run_for(machine, after, f, arguments, world, steps),
        );
    }
}

} // verus!
