use copy_propagation::analyses::{AnalysesStore, ControlFlowGraphInOutBundling, Dominators};
use copy_propagation::chains::{canonicalize, resolve_copy_target_from_snapshot};
use copy_propagation::compact::{compact_inputs, compact_outputs, compact_span};
use copy_propagation::groups::{
    common_output_at_slot, group_has_matching_arity, insert_candidate_replacements, local_at_slot,
    strictly_dominates, try_add_slot_replacements, InOutGroupBlocks, RemovalCandidate,
};
use copy_propagation::ir::{
    BasicBlock, Branch, Control, EthIRProgram, Function, Operation, Span, Switch,
};
use copy_propagation::local_map::LocalMap;
use copy_propagation::replace::{replace_control_uses, replace_if_copied, replace_uses};

/// A program whose blocks take in and hand on these locals and do nothing else.
fn blocks(lists: &[(&[u32], &[u32])]) -> EthIRProgram {
    let mut program = EthIRProgram {
        functions: Vec::new(),
        basic_blocks: Vec::new(),
        operations: Vec::new(),
        locals: Vec::new(),
        cases: Vec::new(),
        next_free_local_id: 100,
    };
    for (inputs, outputs) in lists.iter() {
        let start = program.locals.len() as u32;
        program.locals.extend_from_slice(inputs);
        let middle = program.locals.len() as u32;
        program.locals.extend_from_slice(outputs);
        let end = program.locals.len() as u32;
        program.basic_blocks.push(BasicBlock {
            inputs: Span::new(start, middle),
            outputs: Span::new(middle, end),
            operations: Span::new(0, 0),
            control: Control::LastOpTerminates,
        });
    }
    program
}

fn group(inputs: &[u32], outputs: &[u32]) -> InOutGroupBlocks {
    InOutGroupBlocks { inputs: inputs.to_vec(), outputs: outputs.to_vec() }
}

/// A map with these entries.
fn map_of(entries: &[(u32, u32)]) -> LocalMap {
    let mut map = LocalMap::default();
    for (from, to) in entries.iter() {
        let program = blocks(&[(&[*from], &[])]);
        let candidate = RemovalCandidate { group: 0, slot: 0, replacement: *to };
        insert_candidate_replacements(&program, &group(&[0], &[]), candidate, *to, &mut map);
    }
    map
}

fn image(map: &LocalMap, local: u32) -> u32 {
    let mut read = local;
    replace_if_copied(&mut read, map);
    read
}

fn listed(program: &EthIRProgram, span: Span) -> Vec<u32> {
    program.locals[span.start as usize..span.end as usize].to_vec()
}

#[test]
fn span_bounds_and_length() {
    let span = Span::new(3, 8);
    assert_eq!((span.start, span.end), (3, 8));
    assert_eq!(span.len(), 5);
    assert_eq!(Span::new(4, 4).len(), 0);
}

#[test]
fn function_entry() {
    assert_eq!(Function { entry: 7, outputs: 2 }.entry(), 7);
}

#[test]
fn store_hands_out_its_analyses() {
    let store = AnalysesStore {
        dominators: Dominators { idom: vec![Some(0), Some(0), None] },
        in_out_bundling: ControlFlowGraphInOutBundling {
            in_group: vec![None, Some(1), None],
            out_group: vec![Some(1), None, Some(0)],
            total_groups: 2,
        },
    };
    assert_eq!(store.dominators().of(1), Some(0));
    assert_eq!(store.dominators().of(2), None);
    assert_eq!(store.in_out_bundling().total_groups(), 2);
    assert_eq!(store.in_out_bundling().get_in_group(1), Some(1));
    assert_eq!(store.in_out_bundling().get_in_group(2), None);
    assert_eq!(store.in_out_bundling().get_out_group(2), Some(0));
    assert_eq!(store.in_out_bundling().get_out_group(1), None);
}

#[test]
fn strict_dominance_walks_up_the_tree() {
    // 0 above 1 and 2, 1 above 3; 4 is in no tree with them, 5 has no entry.
    let idom = vec![Some(0), Some(0), Some(0), Some(1), Some(4), None];
    let dominators = Dominators { idom };
    assert!(strictly_dominates(&dominators, 0, 3));
    assert!(strictly_dominates(&dominators, 1, 3));
    assert!(strictly_dominates(&dominators, 0, 1));
    assert!(!strictly_dominates(&dominators, 2, 3));
    assert!(!strictly_dominates(&dominators, 3, 1));
    assert!(!strictly_dominates(&dominators, 3, 3));
    assert!(!strictly_dominates(&dominators, 0, 0));
    assert!(!strictly_dominates(&dominators, 0, 4));
    assert!(!strictly_dominates(&dominators, 0, 5));
}

#[test]
fn chains_are_followed_to_their_end() {
    let map = map_of(&[(1, 2), (2, 3), (5, 3)]);
    let mut seen: Vec<u32> = vec![9, 9, 9];
    assert_eq!(resolve_copy_target_from_snapshot(1, &map, &mut seen), Some(3));
    assert_eq!(seen, vec![1, 2]);
    assert_eq!(resolve_copy_target_from_snapshot(5, &map, &mut seen), Some(3));
    assert_eq!(resolve_copy_target_from_snapshot(3, &map, &mut seen), Some(3));
    assert_eq!(seen, Vec::<u32>::new());
}

#[test]
fn chains_that_go_round_have_no_end() {
    let map = map_of(&[(1, 2), (2, 3), (3, 2)]);
    let mut seen: Vec<u32> = Vec::new();
    assert_eq!(resolve_copy_target_from_snapshot(1, &map, &mut seen), None);
    assert_eq!(seen, vec![1, 2, 3]);
    assert_eq!(resolve_copy_target_from_snapshot(2, &map, &mut seen), None);
}

#[test]
fn canonical_map_holds_the_ends() {
    let raw = map_of(&[(1, 2), (2, 3), (4, 5), (5, 4), (6, 4)]);
    let mut ends = map_of(&[(8, 9), (1, 7)]);
    let mut seen: Vec<u32> = Vec::new();
    canonicalize(&raw, &mut ends, &mut seen);
    assert_eq!(image(&ends, 1), 3);
    assert_eq!(image(&ends, 2), 3);
    assert_eq!(image(&ends, 4), 4);
    assert_eq!(image(&ends, 5), 5);
    assert_eq!(image(&ends, 6), 6);
    // What was in the map before is gone.
    assert_eq!(image(&ends, 8), 8);
}

#[test]
fn replacing_one_local() {
    let map = map_of(&[(1, 2), (2, 3)]);
    assert_eq!(image(&map, 1), 2);
    assert_eq!(image(&map, 2), 3);
    assert_eq!(image(&map, 3), 3);
}

#[test]
fn entries_are_added_to_those_there() {
    let mut map = map_of(&[(1, 2)]);
    assert_eq!(image(&map, 1), 2);
    let program = blocks(&[(&[4], &[])]);
    let candidate = RemovalCandidate { group: 0, slot: 0, replacement: 1 };
    insert_candidate_replacements(&program, &group(&[0], &[]), candidate, 6, &mut map);
    assert_eq!(image(&map, 4), 6);
    assert_eq!(image(&map, 1), 2);
}

#[test]
fn replacing_what_the_end_of_a_block_reads() {
    let map = map_of(&[(1, 2)]);
    let branch = |condition: u32| {
        Control::Branches(Branch { condition, non_zero_target: 1, zero_target: 2 })
    };
    let switch =
        |condition: u32| Control::Switch(Switch { condition, fallback: Some(3), cases: 1 });
    for (before, after) in [
        (branch(1), branch(2)),
        (branch(5), branch(5)),
        (switch(1), switch(2)),
        (Control::ContinuesTo(1), Control::ContinuesTo(1)),
        (Control::InternalReturn, Control::InternalReturn),
        (Control::LastOpTerminates, Control::LastOpTerminates),
    ] {
        let mut control = before;
        replace_control_uses(&mut control, &map);
        assert_eq!(control, after);
    }
}

#[test]
fn replacing_reads_leaves_definitions() {
    let mut program = blocks(&[(&[1], &[1, 4])]);
    program.functions.push(Function { entry: 0, outputs: 1 });
    let start = program.locals.len() as u32;
    program.locals.extend_from_slice(&[1, 5, 6, 1, 1, 7]);
    program.operations = vec![
        Operation::SetCopy { src: 1, dst: 4 },
        Operation::Inline { opcode: 0, ins: vec![1, 4], outs: vec![5] },
        Operation::AllocatedIns {
            opcode: 1,
            ins_span: Span::new(start, start + 3),
            outs: vec![6],
        },
        Operation::InternalCall { function: 0, ins_start: start + 3, outs_start: start + 5 },
    ];
    program.basic_blocks[0].operations = Span::new(0, 4);
    replace_uses(&mut program, &map_of(&[(1, 2), (4, 2), (7, 2), (6, 3)]));
    assert_eq!(listed(&program, program.basic_blocks[0].inputs), vec![1]);
    assert_eq!(listed(&program, program.basic_blocks[0].outputs), vec![2, 2]);
    assert_eq!(program.operations[0], Operation::SetCopy { src: 2, dst: 4 });
    assert_eq!(
        program.operations[1],
        Operation::Inline { opcode: 0, ins: vec![2, 2], outs: vec![5] }
    );
    assert_eq!(listed(&program, Span::new(start, start + 6)), vec![2, 5, 3, 2, 2, 7]);
}

#[test]
fn replacing_twice_is_replacing_once() {
    let mut program = blocks(&[(&[1], &[1, 4]), (&[6], &[7, 1])]);
    let map = map_of(&[(1, 2), (4, 2), (7, 3)]);
    replace_uses(&mut program, &map);
    let once = program.clone();
    replace_uses(&mut program, &map);
    assert_eq!(program, once);
    assert_eq!(listed(&program, program.basic_blocks[1].outputs), vec![3, 2]);
}

#[test]
fn dominators_of_a_block_are_comparable() {
    let idom = vec![Some(0), Some(0), Some(1), Some(2), Some(1)];
    let dominators = Dominators { idom };
    for c in 0..5u32 {
        for a in (0..5u32).filter(|a| strictly_dominates(&dominators, *a, c)) {
            for b in (0..5u32).filter(|b| strictly_dominates(&dominators, *b, c)) {
                assert!(
                    a == b
                        || strictly_dominates(&dominators, a, b)
                        || strictly_dominates(&dominators, b, a)
                );
            }
        }
    }
}

#[test]
fn compacting_a_span() {
    let mut locals: Vec<u32> = vec![10, 11, 12, 13, 14, 15];
    let kept = compact_span(&mut locals, Span::new(1, 5), &vec![true, false, true, false]);
    assert_eq!(kept, Span::new(1, 3));
    assert_eq!(locals, vec![10, 12, 14, 13, 14, 15]);
    let kept = compact_span(&mut locals, Span::new(1, 3), &vec![false, false]);
    assert_eq!(kept, Span::new(1, 3));
    let kept = compact_span(&mut locals, Span::new(1, 3), &vec![true, true]);
    assert_eq!(kept, Span::new(1, 1));
    let kept = compact_span(&mut locals, Span::new(6, 6), &Vec::new());
    assert_eq!(kept, Span::new(6, 6));
    assert_eq!(locals, vec![10, 12, 14, 13, 14, 15]);
}

#[test]
fn compacting_the_lists_of_a_block() {
    let mut program = blocks(&[(&[1, 2, 3], &[4, 5]), (&[6], &[7])]);
    compact_inputs(&mut program, 0, &vec![false, true, false]);
    compact_outputs(&mut program, 0, &vec![true, false]);
    assert_eq!(listed(&program, program.basic_blocks[0].inputs), vec![1, 3]);
    assert_eq!(listed(&program, program.basic_blocks[0].outputs), vec![5]);
    assert_eq!(listed(&program, program.basic_blocks[1].inputs), vec![6]);
    assert_eq!(listed(&program, program.basic_blocks[1].outputs), vec![7]);
    assert_eq!(program.basic_blocks[0].inputs, Span::new(0, 2));
    assert_eq!(program.basic_blocks[0].outputs, Span::new(3, 4));
    assert_eq!(program.locals.len(), 7);
}

#[test]
fn groups_start_and_end_empty() {
    let mut members = InOutGroupBlocks::new();
    assert!(members.inputs.is_empty() && members.outputs.is_empty());
    members.inputs.push(1);
    members.outputs.push(2);
    members.clear();
    assert!(members.inputs.is_empty() && members.outputs.is_empty());
}

#[test]
fn local_at_a_slot() {
    let program = blocks(&[(&[1, 2], &[3, 4])]);
    assert_eq!(local_at_slot(&program, program.basic_blocks[0].inputs, 1), 2);
    assert_eq!(local_at_slot(&program, program.basic_blocks[0].outputs, 0), 3);
}

#[test]
fn arity_of_a_group() {
    let program = blocks(&[(&[], &[1, 2]), (&[3, 4], &[]), (&[5], &[6])]);
    assert!(group_has_matching_arity(&program, &group(&[1], &[0]), 2));
    assert!(!group_has_matching_arity(&program, &group(&[1], &[0]), 1));
    assert!(!group_has_matching_arity(&program, &group(&[1, 2], &[0]), 2));
    assert!(!group_has_matching_arity(&program, &group(&[1], &[0, 2]), 2));
    assert!(group_has_matching_arity(&program, &group(&[], &[]), 5));
}

#[test]
fn common_output_of_a_group() {
    let program = blocks(&[(&[], &[1, 2]), (&[], &[1, 3])]);
    assert_eq!(common_output_at_slot(&program, &group(&[], &[0, 1]), 0), Some(1));
    assert_eq!(common_output_at_slot(&program, &group(&[], &[0, 1]), 1), None);
    assert_eq!(common_output_at_slot(&program, &group(&[], &[1]), 1), Some(3));
    assert_eq!(common_output_at_slot(&program, &group(&[], &[]), 0), None);
}

#[test]
fn slot_replacements_are_noted_down() {
    let program = blocks(&[(&[1], &[]), (&[2], &[]), (&[9], &[])]);
    let mut map = LocalMap::default();
    let mut inserted: Vec<u32> = vec![7];
    let added =
        try_add_slot_replacements(&program, &group(&[0, 1, 2], &[]), 0, 9, &mut map, &mut inserted);
    assert_eq!(added, Some(true));
    assert_eq!(inserted, vec![1, 2]);
    assert_eq!((image(&map, 1), image(&map, 2), image(&map, 9)), (9, 9, 9));
    // Once more: the entries are there already.
    let added =
        try_add_slot_replacements(&program, &group(&[0, 1], &[]), 0, 9, &mut map, &mut inserted);
    assert_eq!(added, Some(true));
    assert_eq!(inserted, Vec::<u32>::new());
    // The only input is the replacement itself.
    let added =
        try_add_slot_replacements(&program, &group(&[2], &[]), 0, 9, &mut map, &mut inserted);
    assert_eq!(added, Some(false));
}

#[test]
fn conflicting_slot_replacements_are_taken_back() {
    let program = blocks(&[(&[1], &[]), (&[2], &[]), (&[3], &[])]);
    let mut map = map_of(&[(3, 8)]);
    let mut inserted: Vec<u32> = Vec::new();
    let added =
        try_add_slot_replacements(&program, &group(&[0, 1, 2], &[]), 0, 9, &mut map, &mut inserted);
    assert_eq!(added, None);
    assert_eq!((image(&map, 1), image(&map, 2), image(&map, 3)), (1, 2, 8));
    assert_eq!(inserted, vec![1, 2]);
}

#[test]
fn inserted_inputs_stand_once_in_the_order_of_the_blocks() {
    let program = blocks(&[(&[5], &[]), (&[2], &[]), (&[9], &[]), (&[7], &[])]);
    let mut map = map_of(&[(2, 9)]);
    let mut inserted: Vec<u32> = vec![1];
    let members = group(&[3, 0, 1, 2, 3], &[]);
    let added = try_add_slot_replacements(&program, &members, 0, 9, &mut map, &mut inserted);
    assert_eq!(added, Some(true));
    assert_eq!(inserted, vec![7, 5]);
}

#[test]
fn candidate_replacements_leave_out_the_source() {
    let program = blocks(&[(&[1], &[]), (&[2], &[]), (&[9], &[])]);
    let mut map = LocalMap::default();
    let candidate = RemovalCandidate { group: 0, slot: 0, replacement: 9 };
    insert_candidate_replacements(&program, &group(&[0, 1, 2], &[]), candidate, 4, &mut map);
    assert_eq!((image(&map, 1), image(&map, 2), image(&map, 9)), (4, 4, 9));
}
