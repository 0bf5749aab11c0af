use copy_propagation::analyses::{AnalysesStore, ControlFlowGraphInOutBundling, Dominators};
use copy_propagation::ir::{
    BasicBlock, Branch, Control, EthIRProgram, Function, Operation, Span, Switch, SwitchCase,
};
use copy_propagation::CopyPropagation;
use std::collections::HashMap;

/// A program with the names of its opcodes.
#[derive(Clone, Debug, PartialEq)]
struct Listing {
    program: EthIRProgram,
    opcodes: Vec<String>,
}

fn words(line: &str) -> Vec<String> {
    line.split_whitespace().map(|word| word.to_string()).collect()
}

fn number(text: &str) -> u64 {
    match text.parse::<u64>() {
        Ok(value) => value,
        Err(_) => panic!("not a number: {}", text),
    }
}

/// One block of the text: its function, its name, what it takes in and hands on, and its lines.
struct TextBlock {
    function: usize,
    name: String,
    inputs: Vec<String>,
    outputs: Vec<String>,
    lines: Vec<String>,
}

fn split_text(text: &str) -> (Vec<String>, Vec<TextBlock>) {
    let mut functions: Vec<String> = Vec::new();
    let mut blocks: Vec<TextBlock> = Vec::new();
    let mut open: bool = false;
    let mut nested: bool = false;
    for line in text.lines().map(|line| line.trim()).filter(|line| !line.is_empty()) {
        if let Some(name) = line.strip_prefix("fn ") {
            functions.push(name.trim_end_matches(':').to_string());
        } else if !open {
            let header = words(line.trim_end_matches('{'));
            let arrow = header.iter().position(|word| word == "->");
            let end = arrow.unwrap_or(header.len());
            blocks.push(TextBlock {
                function: functions.len() - 1,
                name: header[0].clone(),
                inputs: header[1..end].to_vec(),
                outputs: match arrow {
                    Some(at) => header[at + 1..].to_vec(),
                    None => Vec::new(),
                },
                lines: Vec::new(),
            });
            open = true;
        } else if line == "}" && !nested {
            open = false;
        } else {
            nested = (nested || line.starts_with("switch ")) && line != "}";
            if line != "}" {
                blocks.last_mut().unwrap().lines.push(line.to_string());
            }
        }
    }
    (functions, blocks)
}

fn store_list(program: &mut EthIRProgram, list: &[u32]) -> Span {
    let start = program.locals.len() as u32;
    program.locals.extend_from_slice(list);
    Span::new(start, program.locals.len() as u32)
}

fn opcode_id(opcodes: &mut Vec<String>, name: String) -> u32 {
    match opcodes.iter().position(|opcode| *opcode == name) {
        Some(at) => at as u32,
        None => {
            opcodes.push(name);
            opcodes.len() as u32 - 1
        }
    }
}

/// Reads a program from text. Locals are numbered in the order in which they are defined.
fn parse(text: &str) -> Listing {
    let (functions, blocks) = split_text(text);
    let mut opcodes: Vec<String> = Vec::new();
    let mut program = EthIRProgram {
        functions: Vec::new(),
        basic_blocks: Vec::new(),
        operations: Vec::new(),
        locals: Vec::new(),
        cases: Vec::new(),
        next_free_local_id: 0,
    };
    let block_id = |function: usize, name: &str| -> u32 {
        match blocks.iter().position(|block| block.function == function && block.name == name) {
            Some(at) => at as u32,
            None => panic!("no block {}", name),
        }
    };
    let mut locals: HashMap<(usize, String), u32> = HashMap::new();
    for block in blocks.iter() {
        let mut defined: Vec<String> = block.inputs.clone();
        for line in block.lines.iter() {
            if let Some((left, _)) = line.split_once(" = ") {
                defined.extend(words(left));
            }
        }
        for name in defined {
            locals.insert((block.function, name), program.next_free_local_id);
            program.next_free_local_id += 1;
        }
    }
    let local = |function: usize, name: &String| -> u32 {
        match locals.get(&(function, name.clone())) {
            Some(local) => *local,
            None => panic!("no local {}", name),
        }
    };
    let list = |function: usize, names: &[String]| -> Vec<u32> {
        names.iter().map(|name| local(function, name)).collect()
    };
    for (f, _) in functions.iter().enumerate() {
        let entry = blocks.iter().position(|block| block.function == f).unwrap();
        let returning = blocks
            .iter()
            .find(|block| block.function == f && block.lines.iter().any(|line| line == "iret"));
        program.functions.push(Function {
            entry: entry as u32,
            outputs: match returning {
                Some(block) => block.outputs.len() as u32,
                None => 0,
            },
        });
    }
    for block in blocks.iter() {
        let f = block.function;
        let inputs = store_list(&mut program, &list(f, &block.inputs));
        let outputs = store_list(&mut program, &list(f, &block.outputs));
        let first_op = program.operations.len() as u32;
        let mut control = Control::LastOpTerminates;
        for line in block.lines.iter() {
            let tokens = words(line);
            if line == "iret" {
                control = Control::InternalReturn;
            } else if tokens[0] == "=>" && tokens.len() == 2 {
                control = Control::ContinuesTo(block_id(f, tokens[1].trim_start_matches('@')));
            } else if tokens[0] == "=>" {
                control = Control::Branches(Branch {
                    condition: local(f, &tokens[1]),
                    non_zero_target: block_id(f, tokens[3].trim_start_matches('@')),
                    zero_target: block_id(f, tokens[5].trim_start_matches('@')),
                });
            } else if tokens[0] == "switch" {
                program.cases.push(Vec::new());
                control = Control::Switch(Switch {
                    condition: local(f, &tokens[1]),
                    fallback: None,
                    cases: program.cases.len() as u32 - 1,
                });
            } else if tokens.len() == 3 && tokens[1] == "=>" {
                let target = block_id(f, tokens[2].trim_start_matches('@'));
                if let Control::Switch(switch) = &mut control {
                    if tokens[0] == "default" {
                        switch.fallback = Some(target);
                    } else {
                        let value = [number(&tokens[0]), 0, 0, 0];
                        program.cases[switch.cases as usize].push(SwitchCase { value, target });
                    }
                }
            } else {
                let (left, right) = match line.split_once(" = ") {
                    Some((left, right)) => (words(left), words(right)),
                    None => (Vec::new(), tokens.clone()),
                };
                let outs = list(f, &left);
                let operation = if right[0] == "copy" {
                    Operation::SetCopy { src: local(f, &right[1]), dst: outs[0] }
                } else if right[0] == "const" {
                    let name = format!("const {:#x}", number(&right[1]));
                    Operation::Inline {
                        opcode: opcode_id(&mut opcodes, name),
                        ins: Vec::new(),
                        outs,
                    }
                } else if right[0] == "icall" {
                    let callee = right[1].trim_start_matches('@');
                    let function = functions.iter().position(|name| name == callee).unwrap();
                    let ins = store_list(&mut program, &list(f, &right[2..]));
                    let behind = store_list(&mut program, &outs);
                    assert_eq!(ins.end, behind.start);
                    Operation::InternalCall {
                        function: function as u32,
                        ins_start: ins.start,
                        outs_start: behind.start,
                    }
                } else if right.len() > 3 {
                    let ins = list(f, &right[1..]);
                    Operation::AllocatedIns {
                        opcode: opcode_id(&mut opcodes, right[0].clone()),
                        ins_span: store_list(&mut program, &ins),
                        outs,
                    }
                } else {
                    Operation::Inline {
                        opcode: opcode_id(&mut opcodes, right[0].clone()),
                        ins: list(f, &right[1..]),
                        outs,
                    }
                };
                program.operations.push(operation);
            }
        }
        let operations = Span::new(first_op, program.operations.len() as u32);
        program.basic_blocks.push(BasicBlock { inputs, outputs, operations, control });
    }
    Listing { program, opcodes }
}

fn span_locals(program: &EthIRProgram, span: Span) -> Vec<u32> {
    program.locals[span.start as usize..span.end as usize].to_vec()
}

fn op_inputs(program: &EthIRProgram, operation: &Operation) -> Vec<u32> {
    match operation {
        Operation::SetCopy { src, .. } => vec![*src],
        Operation::Inline { ins, .. } => ins.clone(),
        Operation::AllocatedIns { ins_span, .. } => span_locals(program, *ins_span),
        Operation::InternalCall { ins_start, outs_start, .. } => {
            span_locals(program, Span::new(*ins_start, *outs_start))
        }
    }
}

fn op_outputs(program: &EthIRProgram, operation: &Operation) -> Vec<u32> {
    match operation {
        Operation::SetCopy { dst, .. } => vec![*dst],
        Operation::Inline { outs, .. } => outs.clone(),
        Operation::AllocatedIns { outs, .. } => outs.clone(),
        Operation::InternalCall { function, outs_start, .. } => {
            let count = program.functions[*function as usize].outputs;
            span_locals(program, Span::new(*outs_start, *outs_start + count))
        }
    }
}

fn block_ops(program: &EthIRProgram, b: usize) -> &[Operation] {
    let span = program.basic_blocks[b].operations;
    &program.operations[span.start as usize..span.end as usize]
}

fn display_locals(locals: &[u32]) -> String {
    locals.iter().map(|local| format!(" ${}", local)).collect()
}

/// Writes a program as text.
fn display(listing: &Listing) -> String {
    let program = &listing.program;
    let mut text = String::from("Init: @0\nFunctions:\n");
    for (f, function) in program.functions.iter().enumerate() {
        text.push_str(&format!(
            "    fn @{} -> entry @{}  (outputs: {})\n",
            f, function.entry, function.outputs
        ));
    }
    text.push_str("\nBasic Blocks:\n");
    for (b, block) in program.basic_blocks.iter().enumerate() {
        let inputs = span_locals(program, block.inputs);
        let outputs = span_locals(program, block.outputs);
        text.push_str(&format!("    @{}{}", b, display_locals(&inputs)));
        if !outputs.is_empty() {
            text.push_str(&format!(" ->{}", display_locals(&outputs)));
        }
        text.push_str(" {\n");
        for operation in block_ops(program, b) {
            let outs = op_outputs(program, operation);
            let name = match operation {
                Operation::SetCopy { .. } => String::from("copy"),
                Operation::Inline { opcode, .. } => listing.opcodes[*opcode as usize].clone(),
                Operation::AllocatedIns { opcode, .. } => listing.opcodes[*opcode as usize].clone(),
                Operation::InternalCall { function, .. } => format!("icall @{}", function),
            };
            let left = if outs.is_empty() {
                String::new()
            } else {
                format!("{} = ", display_locals(&outs).trim_start())
            };
            let ins = display_locals(&op_inputs(program, operation));
            text.push_str(&format!("        {}{}{}\n", left, name, ins));
        }
        match &block.control {
            Control::LastOpTerminates => {}
            Control::InternalReturn => text.push_str("        iret\n"),
            Control::ContinuesTo(target) => text.push_str(&format!("        => @{}\n", target)),
            Control::Branches(branch) => text.push_str(&format!(
                "        => ${} ? @{} : @{}\n",
                branch.condition, branch.non_zero_target, branch.zero_target
            )),
            Control::Switch(switch) => {
                text.push_str(&format!("        switch ${} {{\n", switch.condition));
                for case in program.cases[switch.cases as usize].iter() {
                    text.push_str(&format!(
                        "            {:#x} => @{},\n",
                        case.value[0], case.target
                    ));
                }
                if let Some(fallback) = switch.fallback {
                    text.push_str(&format!("            else => @{}\n", fallback));
                }
                text.push_str("        }\n\n");
            }
        }
        text.push_str("    }\n\n");
    }
    text
}

/// Text without the indentation that all its lines share, and without blank lines around it.
fn dedent(text: &str) -> String {
    let lines: Vec<&str> = text.lines().map(|line| line.trim_end()).collect();
    let shared = lines
        .iter()
        .filter(|line| !line.is_empty())
        .map(|line| line.len() - line.trim_start().len())
        .min()
        .unwrap_or(0);
    let cut: Vec<&str> =
        lines.iter().map(|line| if line.is_empty() { "" } else { &line[shared..] }).collect();
    cut.join("\n").trim().to_string()
}

fn assert_ir_display(actual: &str, expected: &str) {
    assert_eq!(dedent(actual), dedent(expected));
}

fn successors(program: &EthIRProgram, b: usize) -> Vec<usize> {
    match &program.basic_blocks[b].control {
        Control::LastOpTerminates | Control::InternalReturn => Vec::new(),
        Control::ContinuesTo(target) => vec![*target as usize],
        Control::Branches(branch) => {
            vec![branch.non_zero_target as usize, branch.zero_target as usize]
        }
        Control::Switch(switch) => {
            let cases = &program.cases[switch.cases as usize];
            let targets = cases.iter().map(|case| case.target as usize);
            targets.chain(switch.fallback.map(|target| target as usize)).collect()
        }
    }
}

/// The blocks reached from a block without going through `avoided`.
fn reached(program: &EthIRProgram, start: usize, avoided: Option<usize>) -> Vec<bool> {
    let mut seen: Vec<bool> = vec![false; program.basic_blocks.len()];
    let mut open: Vec<usize> = if avoided == Some(start) { Vec::new() } else { vec![start] };
    while let Some(b) = open.pop() {
        if !seen[b] && avoided != Some(b) {
            seen[b] = true;
            open.extend(successors(program, b));
        }
    }
    seen
}

/// For every block the blocks that lie on each way to it from the entry of its function.
fn dominator_sets(program: &EthIRProgram) -> Vec<Option<Vec<usize>>> {
    let blocks = program.basic_blocks.len();
    let mut sets: Vec<Option<Vec<usize>>> = vec![None; blocks];
    for function in program.functions.iter() {
        let entry = function.entry as usize;
        let all = reached(program, entry, None);
        for b in (0..blocks).filter(|b| all[*b]) {
            let set: Vec<usize> =
                (0..blocks).filter(|d| all[*d] && !reached(program, entry, Some(*d))[b]).collect();
            sets[b] = Some(set);
        }
    }
    sets
}

/// The analyses of a program.
fn analyze(program: &EthIRProgram) -> AnalysesStore {
    let blocks = program.basic_blocks.len();
    let sets = dominator_sets(program);
    let mut idom: Vec<Option<u32>> = vec![None; blocks];
    for b in 0..blocks {
        if let Some(set) = &sets[b] {
            let strict: Vec<usize> = set.iter().copied().filter(|d| *d != b).collect();
            let nearest = strict
                .iter()
                .copied()
                .max_by_key(|d| sets[*d].as_ref().map(|above| above.len()).unwrap_or(0));
            idom[b] = Some(nearest.unwrap_or(b) as u32);
        }
    }
    // Outputs of block `b` are node `b`, its inputs are node `blocks + b`.
    let mut leader: Vec<usize> = (0..2 * blocks).collect();
    let mut linked: Vec<bool> = vec![false; 2 * blocks];
    for b in 0..blocks {
        for t in successors(program, b) {
            let (from, to) = (leader[b], leader[blocks + t]);
            for node in leader.iter_mut() {
                if *node == from {
                    *node = to;
                }
            }
            linked[b] = true;
            linked[blocks + t] = true;
        }
    }
    let mut ids: HashMap<usize, u32> = HashMap::new();
    let mut groups: Vec<Option<u32>> = Vec::new();
    for node in 0..2 * blocks {
        let next = ids.len() as u32;
        groups.push(if linked[node] {
            Some(*ids.entry(leader[node]).or_insert(next))
        } else {
            None
        });
    }
    AnalysesStore {
        dominators: Dominators { idom },
        in_out_bundling: ControlFlowGraphInOutBundling {
            out_group: groups[..blocks].to_vec(),
            in_group: groups[blocks..].to_vec(),
            total_groups: ids.len() as u32,
        },
    }
}

fn run_pass(pass: &mut CopyPropagation, program: &mut EthIRProgram) {
    let store = analyze(program);
    pass.run(program, &store);
}

fn run_pass_and_display(text: &str) -> String {
    let mut listing = parse(text);
    run_pass(&mut CopyPropagation::default(), &mut listing.program);
    display(&listing)
}

/// Checks that every local is defined once, that locals are read only where they have been set,
/// and that the numbers of locals handed over agree.
fn check_legal(program: &EthIRProgram) -> Result<(), String> {
    let mut definer: HashMap<u32, usize> = HashMap::new();
    for (b, block) in program.basic_blocks.iter().enumerate() {
        let mut defined = span_locals(program, block.inputs);
        for operation in block_ops(program, b) {
            defined.extend(op_outputs(program, operation));
        }
        for local in defined {
            if definer.insert(local, b).is_some() {
                return Err(format!("${} is defined twice", local));
            }
        }
    }
    let sets = dominator_sets(program);
    for (b, block) in program.basic_blocks.iter().enumerate() {
        let mut here = span_locals(program, block.inputs);
        let above = match &sets[b] {
            Some(set) => set.clone(),
            None => continue,
        };
        let set_above = |local: &u32| match definer.get(local) {
            Some(d) => *d != b && above.contains(d),
            None => false,
        };
        for operation in block_ops(program, b) {
            for local in op_inputs(program, operation) {
                if !here.contains(&local) && !set_above(&local) {
                    return Err(format!("${} is read in @{} before it is set", local, b));
                }
            }
            here.extend(op_outputs(program, operation));
            if let Operation::InternalCall { function, .. } = operation {
                let entry = program.functions[*function as usize].entry as usize;
                let taken = program.basic_blocks[entry].inputs.len() as usize;
                if op_inputs(program, operation).len() != taken {
                    return Err(format!("a call in @{} does not fit function @{}", b, function));
                }
            }
        }
        let mut read = span_locals(program, block.outputs);
        match &block.control {
            Control::Branches(branch) => read.push(branch.condition),
            Control::Switch(switch) => read.push(switch.condition),
            _ => {}
        }
        for local in read {
            if !here.contains(&local) && !set_above(&local) {
                return Err(format!("${} is read in @{} before it is set", local, b));
            }
        }
        for t in successors(program, b) {
            if block.outputs.len() != program.basic_blocks[t].inputs.len() {
                return Err(format!("@{} does not hand on what @{} takes in", b, t));
            }
        }
    }
    for function in program.functions.iter() {
        let all = reached(program, function.entry as usize, None);
        for (b, block) in program.basic_blocks.iter().enumerate() {
            let returns = matches!(block.control, Control::InternalReturn);
            if all[b] && returns && block.outputs.len() != function.outputs {
                return Err(format!("@{} does not return what its function says", b));
            }
        }
    }
    Ok(())
}

#[test]
fn test_copy_chains_and_inline_operands() {
    let input = r#"
        fn init:
            entry {
                stop
            }
        fn test:
            entry b {
                a1 = copy b
                a2 = copy b
                c1 = copy a1
                c2 = copy a2
                d = add c1 c2
                stop
            }
    "#;

    let actual = run_pass_and_display(input);
    assert_ir_display(
        &actual,
        r#"
        Init: @0
        Functions:
            fn @0 -> entry @0  (outputs: 0)
            fn @1 -> entry @1  (outputs: 0)

        Basic Blocks:
            @0 {
                stop
            }

            @1 $0 {
                $1 = copy $0
                $2 = copy $0
                $3 = copy $0
                $4 = copy $0
                $5 = add $0 $0
                stop
            }
        "#,
    );
}

#[test]
fn test_input_output_copy_eliminates_block_argument() {
    let input = r#"
        fn init:
            entry {
                stop
            }
        fn test:
            entry b -> a_out {
                a = copy b
                a_out = copy a
                => @next
            }
            next a_in {
                c = add a_in a_in
                stop
            }
    "#;

    let actual = run_pass_and_display(input);
    assert_ir_display(
        &actual,
        r#"
        Init: @0
        Functions:
            fn @0 -> entry @0  (outputs: 0)
            fn @1 -> entry @1  (outputs: 0)

        Basic Blocks:
            @0 {
                stop
            }

            @1 $0 {
                $1 = copy $0
                $2 = copy $0
                => @2
            }

            @2 {
                $4 = add $0 $0
                stop
            }
        "#,
    );
}

#[test]
fn test_branch_condition_propagation() {
    let input = r#"
        fn init:
            entry {
                stop
            }
        fn test:
            entry x {
                cond = copy x
                => cond ? @nonzero : @zero
            }
            nonzero {
                stop
            }
            zero {
                stop
            }
    "#;

    let actual = run_pass_and_display(input);
    assert_ir_display(
        &actual,
        r#"
        Init: @0
        Functions:
            fn @0 -> entry @0  (outputs: 0)
            fn @1 -> entry @1  (outputs: 0)

        Basic Blocks:
            @0 {
                stop
            }

            @1 $0 {
                $1 = copy $0
                => $0 ? @2 : @3
            }

            @2 {
                stop
            }

            @3 {
                stop
            }
        "#,
    );
}

#[test]
fn test_switch_condition_propagation() {
    let input = r#"
        fn init:
            entry {
                stop
            }
        fn test:
            entry x {
                cond = copy x
                switch cond {
                    0 => @case_zero
                    default => @case_default
                }
            }
            case_zero {
                stop
            }
            case_default {
                stop
            }
    "#;

    let actual = run_pass_and_display(input);
    assert_ir_display(
        &actual,
        r#"
        Init: @0
        Functions:
            fn @0 -> entry @0  (outputs: 0)
            fn @1 -> entry @1  (outputs: 0)

        Basic Blocks:
            @0 {
                stop
            }

            @1 $0 {
                $1 = copy $0
                switch $0 {
                    0x0 => @2,
                    else => @3
                }

            }

            @2 {
                stop
            }

            @3 {
                stop
            }
        "#,
    );
}

#[test]
fn test_icall_argument_propagation() {
    let input = r#"
        fn init:
            entry {
                stop
            }
        fn callee:
            entry x -> result {
                result = add x x
                iret
            }
        fn caller:
            entry b {
                a = copy b
                sum = icall @callee a
                stop
            }
    "#;

    let actual = run_pass_and_display(input);
    assert_ir_display(
        &actual,
        r#"
        Init: @0
        Functions:
            fn @0 -> entry @0  (outputs: 0)
            fn @1 -> entry @1  (outputs: 1)
            fn @2 -> entry @2  (outputs: 0)

        Basic Blocks:
            @0 {
                stop
            }

            @1 $0 -> $1 {
                $1 = add $0 $0
                iret
            }

            @2 $2 {
                $3 = copy $2
                $4 = icall @1 $2
                stop
            }
        "#,
    );
}

#[test]
fn test_input_output_copy_chain_across_blocks() {
    let input = r#"
        fn init:
            entry {
                stop
            }
        fn test:
            entry b -> a b {
                a = copy b
                => @next
            }
            next c d {
                e = add c d
                stop
            }
    "#;

    let actual = run_pass_and_display(input);
    assert_ir_display(
        &actual,
        r#"
        Init: @0
        Functions:
            fn @0 -> entry @0  (outputs: 0)
            fn @1 -> entry @1  (outputs: 0)

        Basic Blocks:
            @0 {
                stop
            }

            @1 $0 {
                $1 = copy $0
                => @2
            }

            @2 {
                $4 = add $0 $0
                stop
            }
        "#,
    );
}

#[test]
fn test_input_output_copy_chain_across_three_blocks() {
    let input = r#"
        fn init:
            entry {
                stop
            }
        fn test:
            entry x -> x {
                => @middle
            }
            middle y -> y {
                => @next
            }
            next z {
                w = add z z
                stop
            }
    "#;

    let actual = run_pass_and_display(input);
    assert_ir_display(
        &actual,
        r#"
        Init: @0
        Functions:
            fn @0 -> entry @0  (outputs: 0)
            fn @1 -> entry @1  (outputs: 0)

        Basic Blocks:
            @0 {
                stop
            }

            @1 $0 {
                => @2
            }

            @2 {
                => @3
            }

            @3 {
                $3 = add $0 $0
                stop
            }
        "#,
    );
}

#[test]
fn test_function_entry_input_is_preserved() {
    let input = r#"
        fn init:
            entry {
                stop
            }
        fn callee:
            entry x -> x {
                => @return
            }
            return y -> y {
                iret
            }
        fn caller:
            entry a {
                out = icall @callee a
                stop
            }
    "#;

    let actual = run_pass_and_display(input);
    assert_ir_display(
        &actual,
        r#"
        Init: @0
        Functions:
            fn @0 -> entry @0  (outputs: 0)
            fn @1 -> entry @1  (outputs: 1)
            fn @2 -> entry @3  (outputs: 0)

        Basic Blocks:
            @0 {
                stop
            }

            @1 $0 {
                => @2
            }

            @2 -> $0 {
                iret
            }

            @3 $2 {
                $3 = icall @1 $2
                stop
            }
        "#,
    );
}

#[test]
fn test_branch_inputs_outputs_same_local_eliminated() {
    let input = r#"
        fn init:
            entry {
                stop
            }
        fn test:
            entry x {
                => x ? @left : @right
            }
            left -> x {
                => @merge
            }
            right -> x {
                => @merge
            }
            merge y {
                z = add y y
                stop
            }
    "#;

    let actual = run_pass_and_display(input);
    assert_ir_display(
        &actual,
        r#"
        Init: @0
        Functions:
            fn @0 -> entry @0  (outputs: 0)
            fn @1 -> entry @1  (outputs: 0)

        Basic Blocks:
            @0 {
                stop
            }

            @1 $0 {
                => $0 ? @2 : @3
            }

            @2 {
                => @4
            }

            @3 {
                => @4
            }

            @4 {
                $2 = add $0 $0
                stop
            }
        "#,
    );
}

#[test]
fn test_branch_inputs_outputs_different_locals_preserved() {
    let input = r#"
        fn init:
            entry {
                stop
            }
        fn test:
            entry cond {
                => cond ? @left : @right
            }
            left -> a {
                a = const 1
                => @merge
            }
            right -> b {
                b = const 2
                => @merge
            }
            merge y {
                z = add y y
                stop
            }
    "#;

    let actual = run_pass_and_display(input);
    assert_ir_display(
        &actual,
        r#"
        Init: @0
        Functions:
            fn @0 -> entry @0  (outputs: 0)
            fn @1 -> entry @1  (outputs: 0)

        Basic Blocks:
            @0 {
                stop
            }

            @1 $0 {
                => $0 ? @2 : @3
            }

            @2 -> $1 {
                $1 = const 0x1
                => @4
            }

            @3 -> $2 {
                $2 = const 0x2
                => @4
            }

            @4 $3 {
                $4 = add $3 $3
                stop
            }
        "#,
    );
}

#[test]
fn test_switch_inputs_outputs_same_local_eliminated() {
    let input = r#"
        fn init:
            entry {
                stop
            }
        fn test:
            entry selector x {
                switch selector {
                    0 => @left
                    1 => @right
                    default => @fallback
                }
            }
            left -> x {
                => @merge
            }
            right -> x {
                => @merge
            }
            fallback -> x {
                => @merge
            }
            merge y {
                z = add y y
                stop
            }
    "#;

    let actual = run_pass_and_display(input);
    assert_ir_display(
        &actual,
        r#"
        Init: @0
        Functions:
            fn @0 -> entry @0  (outputs: 0)
            fn @1 -> entry @1  (outputs: 0)

        Basic Blocks:
            @0 {
                stop
            }

            @1 $0 $1 {
                switch $0 {
                    0x0 => @2,
                    0x1 => @3,
                    else => @4
                }

            }

            @2 {
                => @5
            }

            @3 {
                => @5
            }

            @4 {
                => @5
            }

            @5 {
                $3 = add $1 $1
                stop
            }
        "#,
    );
}

#[test]
fn test_self_loop_input_output_is_preserved() {
    let input = r#"
        fn init:
            entry {
                stop
            }
        fn test:
            loop i -> next {
                one = const 1
                next = add i one
                => @loop
            }
    "#;

    let actual = run_pass_and_display(input);
    assert_ir_display(
        &actual,
        r#"
        Init: @0
        Functions:
            fn @0 -> entry @0  (outputs: 0)
            fn @1 -> entry @1  (outputs: 0)

        Basic Blocks:
            @0 {
                stop
            }

            @1 $0 -> $2 {
                $1 = const 0x1
                $2 = add $0 $1
                => @1
            }
        "#,
    );
}

#[test]
fn test_self_loop_same_input_output_is_preserved() {
    let input = r#"
        fn init:
            entry {
                stop
            }
        fn test:
            loop i -> i {
                => @loop
            }
    "#;

    let actual = run_pass_and_display(input);
    assert_ir_display(
        &actual,
        r#"
        Init: @0
        Functions:
            fn @0 -> entry @0  (outputs: 0)
            fn @1 -> entry @1  (outputs: 0)

        Basic Blocks:
            @0 {
                stop
            }

            @1 $0 -> $0 {
                => @1
            }
        "#,
    );
}

#[test]
fn test_two_block_loop_does_not_replace_header_input_with_backedge_input() {
    let input = r#"
        fn init:
            entry {
                stop
            }
        fn test:
            entry i -> i {
                => @tail
            }
            tail j -> j {
                => @entry
            }
    "#;

    let actual = run_pass_and_display(input);
    assert_ir_display(
        &actual,
        r#"
        Init: @0
        Functions:
            fn @0 -> entry @0  (outputs: 0)
            fn @1 -> entry @1  (outputs: 0)

        Basic Blocks:
            @0 {
                stop
            }

            @1 $0 {
                => @2
            }

            @2 -> $0 {
                => @1
            }
        "#,
    );
}

#[test]
fn test_copy_propagation_result_is_legal() {
    let input = r#"
        fn init:
            entry {
                stop
            }
        fn test:
            entry x {
                => x ? @left : @right
            }
            left -> x {
                => @middle
            }
            right -> x {
                => @middle
            }
            middle y -> y {
                => @next
            }
            next z {
                w = add z z
                stop
            }
    "#;

    let mut program = parse(input).program;
    run_pass(&mut CopyPropagation::default(), &mut program);

    assert_eq!(check_legal(&program), Ok(()));
}

/// Programs with calls, branches, switches, loops and copies in them.
fn samples() -> Vec<&'static str> {
    vec![
        r#"
            fn main:
                entry n {
                    start = const 0
                    limit = copy n
                    => @pre
                }
                pre -> start limit {
                    => @head
                }
                head i bound {
                    left = sub bound i
                    => left ? @body : @done
                }
                body -> next bound {
                    one = const 1
                    next = add i one
                    emit next
                    => @head
                }
                done -> i limit {
                    => @last
                }
                last result extra {
                    emit result
                    emit extra
                    stop
                }
        "#,
        r#"
            fn main:
                entry a b {
                    c = copy a
                    d = icall @twice c
                    e = copy d
                    emit e
                    switch b {
                        0 => @zero
                        1 => @one
                        default => @many
                    }
                }
                zero -> c {
                    => @merge
                }
                one -> c {
                    => @merge
                }
                many -> c {
                    f = copy c
                    emit f
                    => @merge
                }
                merge g -> g e {
                    => @after
                }
                after h k {
                    s = sum h k a b
                    emit s
                    stop
                }
            fn twice:
                entry x -> x {
                    => @double
                }
                double y -> z {
                    z = add y y
                    iret
                }
        "#,
        r#"
            fn main:
                entry x y -> x y {
                    => @swap
                }
                swap a b {
                    => a ? @again : @out
                }
                again -> b a {
                    emit a
                    => @swap
                }
                out {
                    c = copy b
                    d = copy c
                    emit d
                    stop
                }
        "#,
        r#"
            fn main:
                entry x -> x x {
                    => @first
                }
                first p q -> p q {
                    => @second
                }
                second r s {
                    t = sub r s
                    emit t
                    => t ? @second_path : @end
                }
                second_path {
                    => @end
                }
                end {
                    u = copy r
                    emit u
                    stop
                }
        "#,
    ]
}

fn optimized(text: &str) -> (Listing, Listing) {
    let before = parse(text);
    let mut after = before.clone();
    run_pass(&mut CopyPropagation::default(), &mut after.program);
    (before, after)
}

/// What a run emits, with the block in which it does, and the values that each operation,
/// condition and return of it reads, with its place.
#[derive(Debug, PartialEq)]
struct Trace {
    emitted: Vec<(usize, u64)>,
    read: Vec<(usize, usize, Vec<u64>)>,
}

/// Runs a function of a program for so many steps, or until `stop`, or until the outermost function
/// returns.
fn interpret(listing: &Listing, arguments: &[u64], steps: usize) -> Trace {
    let mut seen: Vec<(usize, usize, Vec<u64>)> = Vec::new();
    let emitted = interpret_into(listing, arguments, steps, &mut seen);
    Trace { emitted, read: seen }
}

fn interpret_into(
    listing: &Listing,
    arguments: &[u64],
    steps: usize,
    seen: &mut Vec<(usize, usize, Vec<u64>)>,
) -> Vec<(usize, u64)> {
    let program = &listing.program;
    let mut record: Vec<(usize, u64)> = Vec::new();
    let mut frames: Vec<(usize, usize, HashMap<u32, u64>)> = Vec::new();
    let enter = |function: usize, arguments: &[u64]| {
        let entry = program.functions[function].entry as usize;
        let inputs = span_locals(program, program.basic_blocks[entry].inputs);
        assert_eq!(inputs.len(), arguments.len());
        let env: HashMap<u32, u64> =
            inputs.iter().copied().zip(arguments.iter().copied()).collect();
        (entry, 0usize, env)
    };
    frames.push(enter(0, arguments));
    for _ in 0..steps {
        let (b, at, env) = frames.pop().unwrap();
        let mut env = env;
        let block = program.basic_blocks[b];
        let ops = block_ops(program, b);
        let read = |env: &HashMap<u32, u64>, locals: &[u32]| -> Vec<u64> {
            locals.iter().map(|local| *env.get(local).expect("read before set")).collect()
        };
        if at < ops.len() {
            let values = read(&env, &op_inputs(program, &ops[at]));
            seen.push((b, at, values.clone()));
            let outs = op_outputs(program, &ops[at]);
            let results: Vec<u64> = match &ops[at] {
                Operation::SetCopy { .. } => values,
                Operation::InternalCall { function, .. } => {
                    frames.push((b, at, env));
                    frames.push(enter(*function as usize, &values));
                    continue;
                }
                Operation::Inline { opcode, .. } | Operation::AllocatedIns { opcode, .. } => {
                    let name = listing.opcodes[*opcode as usize].as_str();
                    match name {
                        "add" => vec![values[0].wrapping_add(values[1])],
                        "sub" => vec![values[0].wrapping_sub(values[1])],
                        "sum" => vec![values.iter().fold(0, |a: u64, v| a.wrapping_add(*v))],
                        "emit" => {
                            record.push((b, values[0]));
                            Vec::new()
                        }
                        "stop" => return record,
                        _ => vec![u64::from_str_radix(&name[8..], 16).unwrap()],
                    }
                }
            };
            assert_eq!(outs.len(), results.len());
            env.extend(outs.iter().copied().zip(results));
            frames.push((b, at + 1, env));
        } else {
            let handed_on = read(&env, &span_locals(program, block.outputs));
            seen.push((
                b,
                at,
                match &block.control {
                    Control::InternalReturn => handed_on.clone(),
                    Control::Branches(branch) => read(&env, &[branch.condition]),
                    Control::Switch(switch) => read(&env, &[switch.condition]),
                    _ => Vec::new(),
                },
            ));
            let target = match &block.control {
                Control::LastOpTerminates => return record,
                Control::InternalReturn => {
                    if frames.is_empty() {
                        return record;
                    }
                    let (caller, call, caller_env) = frames.pop().unwrap();
                    let mut caller_env = caller_env;
                    let outs = op_outputs(program, &block_ops(program, caller)[call]);
                    assert_eq!(outs.len(), handed_on.len());
                    caller_env.extend(outs.iter().copied().zip(handed_on));
                    frames.push((caller, call + 1, caller_env));
                    continue;
                }
                Control::ContinuesTo(target) => *target,
                Control::Branches(branch) => {
                    if read(&env, &[branch.condition])[0] == 0 {
                        branch.zero_target
                    } else {
                        branch.non_zero_target
                    }
                }
                Control::Switch(switch) => {
                    let value = read(&env, &[switch.condition])[0];
                    let cases = &program.cases[switch.cases as usize];
                    match cases.iter().find(|case| case.value == [value, 0, 0, 0]) {
                        Some(case) => case.target,
                        None => switch.fallback.unwrap(),
                    }
                }
            };
            let inputs = span_locals(program, program.basic_blocks[target as usize].inputs);
            assert_eq!(inputs.len(), handed_on.len());
            env.extend(inputs.iter().copied().zip(handed_on));
            frames.push((target as usize, 0, env));
        }
    }
    record
}

#[test]
fn behaviour_stays() {
    for text in samples() {
        let (before, after) = optimized(text);
        let entry = before.program.functions[0].entry as usize;
        let takes = before.program.basic_blocks[entry].inputs.len() as usize;
        for first in 0..5u64 {
            for second in 0..3u64 {
                let arguments = [first, second];
                for steps in [1usize, 7, 20, 200] {
                    assert_eq!(
                        interpret(&before, &arguments[..takes], steps),
                        interpret(&after, &arguments[..takes], steps)
                    );
                }
            }
        }
    }
}

#[test]
fn behaviour_of_a_counting_loop() {
    let (before, after) = optimized(samples()[0]);
    let expected: Vec<(usize, u64)> = vec![(3, 1), (3, 2), (3, 3), (5, 3), (5, 3)];
    assert_eq!(interpret(&before, &[3], 200).emitted, expected);
    assert_eq!(interpret(&after, &[3], 200).emitted, expected);
}

#[test]
fn results_are_legal() {
    for text in samples() {
        let (before, after) = optimized(text);
        assert_eq!(check_legal(&before.program), Ok(()));
        assert_eq!(check_legal(&after.program), Ok(()));
    }
}

#[test]
fn running_again_changes_nothing() {
    for text in samples() {
        let (before, after) = optimized(text);
        let mut again = after.clone();
        run_pass(&mut CopyPropagation::default(), &mut again.program);
        assert_eq!(again, after);
        assert_ne!(after, before);
    }
}

#[test]
fn control_flow_and_operations_stay() {
    for text in samples() {
        let (before, after) = optimized(text);
        let (old, new) = (&before.program, &after.program);
        assert_eq!(new.functions, old.functions);
        assert_eq!(new.cases, old.cases);
        assert_eq!(new.next_free_local_id, old.next_free_local_id);
        assert_eq!(new.basic_blocks.len(), old.basic_blocks.len());
        for b in 0..old.basic_blocks.len() {
            assert_eq!(successors(new, b), successors(old, b));
            assert_eq!(block_ops(new, b).len(), block_ops(old, b).len());
            for (new_op, old_op) in block_ops(new, b).iter().zip(block_ops(old, b)) {
                assert_eq!(op_outputs(new, new_op), op_outputs(old, old_op));
                assert_eq!(op_inputs(new, new_op).len(), op_inputs(old, old_op).len());
            }
        }
    }
}

#[test]
fn analyses_stay_valid() {
    for text in samples() {
        let (before, after) = optimized(text);
        assert_eq!(analyze(&after.program), analyze(&before.program));
    }
}

#[test]
fn preserves_what_follows_from_the_control_flow() {
    let preserved = CopyPropagation::default().preserves();
    assert!(preserved.predecessors);
    assert!(preserved.dominators);
    assert!(preserved.dominance_frontiers);
    assert!(preserved.basic_block_ownership);
    assert!(preserved.reachability);
}

#[test]
fn function_inputs_stay() {
    for text in samples() {
        let (before, after) = optimized(text);
        for function in before.program.functions.iter() {
            let entry = function.entry as usize;
            assert_eq!(
                span_locals(&after.program, after.program.basic_blocks[entry].inputs),
                span_locals(&before.program, before.program.basic_blocks[entry].inputs)
            );
        }
    }
}

#[test]
fn blocks_read_no_local_that_they_copy() {
    for text in samples() {
        let (_, after) = optimized(text);
        let program = &after.program;
        for (b, block) in program.basic_blocks.iter().enumerate() {
            let mut read = span_locals(program, block.outputs);
            let mut copied: Vec<u32> = Vec::new();
            for operation in block_ops(program, b) {
                read.extend(op_inputs(program, operation));
                if let Operation::SetCopy { dst, .. } = operation {
                    copied.push(*dst);
                }
            }
            assert!(read.iter().all(|local| !copied.contains(local)));
        }
    }
}

#[test]
fn every_local_is_defined_as_before_or_was_a_redundant_input() {
    let (before, after) = optimized(samples()[1]);
    let all_inputs = |program: &EthIRProgram| -> Vec<u32> {
        program.basic_blocks.iter().flat_map(|block| span_locals(program, block.inputs)).collect()
    };
    let kept = all_inputs(&after.program);
    assert_eq!(all_inputs(&before.program), vec![0, 1, 6, 7, 8, 10, 11]);
    assert_eq!(kept, vec![0, 1, 10]);
}

#[test]
fn one_pass_value_serves_many_programs() {
    let mut shared = CopyPropagation::default();
    for _ in 0..2 {
        for text in samples() {
            let (before, after) = optimized(text);
            let mut program = before.program.clone();
            run_pass(&mut shared, &mut program);
            assert_eq!(program, after.program);
        }
    }
}

#[test]
fn operands_in_the_arena_are_replaced() {
    let actual = run_pass_and_display(
        r#"
            fn test:
                entry a b {
                    c = copy a
                    d = copy b
                    e = sum c d c b
                    stop
                }
        "#,
    );
    assert_ir_display(
        &actual,
        r#"
            Init: @0
            Functions:
                fn @0 -> entry @0  (outputs: 0)

            Basic Blocks:
                @0 $0 $1 {
                    $2 = copy $0
                    $3 = copy $1
                    $4 = sum $0 $1 $0 $1
                    stop
                }
        "#,
    );
}

#[test]
fn loop_invariant_is_eliminated_where_the_loop_hands_on_the_outer_local() {
    let actual = run_pass_and_display(
        r#"
            fn test:
                entry x -> x {
                    => @head
                }
                head y {
                    => y ? @body : @exit
                }
                body -> x {
                    => @head
                }
                exit {
                    stop
                }
        "#,
    );
    assert_ir_display(
        &actual,
        r#"
            Init: @0
            Functions:
                fn @0 -> entry @0  (outputs: 0)

            Basic Blocks:
                @0 $0 {
                    => @1
                }

                @1 {
                    => $0 ? @2 : @3
                }

                @2 {
                    => @1
                }

                @3 {
                    stop
                }
        "#,
    );
}

#[test]
fn loop_invariant_is_kept_where_the_loop_hands_on_the_header_input() {
    let text = r#"
            fn test:
                entry x -> x {
                    => @head
                }
                head y {
                    => y ? @body : @exit
                }
                body -> y {
                    => @head
                }
                exit {
                    stop
                }
        "#;
    let (before, after) = optimized(text);
    assert_eq!(after, before);
}

#[test]
fn second_round_follows_what_the_first_uncovers() {
    // Only once `y` is read as `x` do both branches hand on the same local.
    let actual = run_pass_and_display(
        r#"
            fn test:
                entry x -> x {
                    => @middle
                }
                middle y {
                    => y ? @left : @right
                }
                left -> x {
                    => @merge
                }
                right -> z {
                    z = copy y
                    => @merge
                }
                merge w {
                    v = add w w
                    stop
                }
        "#,
    );
    assert_ir_display(
        &actual,
        r#"
            Init: @0
            Functions:
                fn @0 -> entry @0  (outputs: 0)

            Basic Blocks:
                @0 $0 {
                    => @1
                }

                @1 {
                    => $0 ? @2 : @3
                }

                @2 {
                    => @4
                }

                @3 {
                    $2 = copy $0
                    => @4
                }

                @4 {
                    $4 = add $0 $0
                    stop
                }
        "#,
    );
}

#[test]
fn slots_stay_where_the_arity_differs() {
    let text = r#"
            fn test:
                entry x {
                    => x ? @left : @right
                }
                left -> x {
                    => @merge
                }
                right -> x x {
                    => @merge
                }
                merge y {
                    z = add y y
                    stop
                }
        "#;
    let (before, after) = optimized(text);
    assert_eq!(after, before);
}

#[test]
fn local_of_a_sibling_branch_is_not_forwarded() {
    // The block that defines `a` does not lie above the merge.
    let text = r#"
            fn test:
                entry x {
                    => x ? @left : @right
                }
                left -> a {
                    a = const 1
                    => @merge
                }
                right -> a {
                    => @merge
                }
                merge y {
                    z = add y y
                    stop
                }
        "#;
    let (before, after) = optimized(text);
    assert_eq!(after, before);
}

#[test]
fn some_slots_of_a_group_go_and_others_stay_in_order() {
    let actual = run_pass_and_display(
        r#"
            fn test:
                entry x p {
                    => x ? @left : @right
                }
                left -> a x b p {
                    a = const 1
                    b = const 2
                    => @merge
                }
                right -> c x d p {
                    c = const 3
                    d = const 4
                    => @merge
                }
                merge s t u v {
                    w = sum s t u v
                    stop
                }
        "#,
    );
    assert_ir_display(
        &actual,
        r#"
            Init: @0
            Functions:
                fn @0 -> entry @0  (outputs: 0)

            Basic Blocks:
                @0 $0 $1 {
                    => $0 ? @1 : @2
                }

                @1 -> $2 $3 {
                    $2 = const 0x1
                    $3 = const 0x2
                    => @3
                }

                @2 -> $4 $5 {
                    $4 = const 0x3
                    $5 = const 0x4
                    => @3
                }

                @3 $6 $8 {
                    $10 = sum $6 $0 $8 $1
                    stop
                }
        "#,
    );
}

#[test]
fn program_without_blocks() {
    let mut program = EthIRProgram {
        functions: Vec::new(),
        basic_blocks: Vec::new(),
        operations: Vec::new(),
        locals: Vec::new(),
        cases: Vec::new(),
        next_free_local_id: 0,
    };
    let before = program.clone();
    run_pass(&mut CopyPropagation::default(), &mut program);
    assert_eq!(program, before);
}

#[test]
fn layout_stays_but_for_shorter_lists() {
    for text in samples() {
        let (before, after) = optimized(text);
        let (old, new) = (&before.program, &after.program);
        assert_eq!(new.locals.len(), old.locals.len());
        assert_eq!(new.operations.len(), old.operations.len());
        for (new_block, old_block) in new.basic_blocks.iter().zip(old.basic_blocks.iter()) {
            assert_eq!(new_block.operations, old_block.operations);
            assert_eq!(new_block.inputs.start, old_block.inputs.start);
            assert_eq!(new_block.outputs.start, old_block.outputs.start);
            assert!(new_block.inputs.end <= old_block.inputs.end);
            assert!(new_block.outputs.end <= old_block.outputs.end);
        }
    }
}

#[test]
fn what_belongs_to_no_block_or_list_stays() {
    let mut listing = parse(samples()[1]);
    let first_free = listing.program.locals.len();
    listing.program.locals.extend_from_slice(&[6, 7, 8]);
    let foreign = Operation::Inline { opcode: 0, ins: vec![6, 7], outs: Vec::new() };
    listing.program.operations.push(foreign.clone());
    run_pass(&mut CopyPropagation::default(), &mut listing.program);
    assert_eq!(listing.program.locals[first_free..].to_vec(), vec![6, 7, 8]);
    assert_eq!(listing.program.operations.last(), Some(&foreign));
}

#[test]
fn inputs_that_stay_keep_their_order() {
    let (before, after) = optimized(
        r#"
            fn test:
                entry x {
                    => x ? @left : @right
                }
                left -> a x b {
                    a = const 1
                    b = const 2
                    => @merge
                }
                right -> c x d {
                    c = const 3
                    d = const 4
                    => @merge
                }
                merge s t u {
                    stop
                }
        "#,
    );
    let merged = |listing: &Listing| span_locals(&listing.program, listing.program.basic_blocks[3].inputs);
    assert_eq!(merged(&before), vec![5, 6, 7]);
    assert_eq!(merged(&after), vec![5, 7]);
}

#[test]
fn outputs_out_of_the_flow_stay() {
    // A block that stops, one that returns, and one that goes on to where a function starts.
    let (before, after) = optimized(
        r#"
            fn test:
                entry x y {
                    c = copy y
                    => x ? @again : @over
                }
                again -> x c {
                    => @entry
                }
                over -> x c {
                    stop
                }
            fn other:
                entry p -> q q {
                    q = copy p
                    iret
                }
        "#,
    );
    for b in 0..4 {
        assert_eq!(
            after.program.basic_blocks[b].outputs.len(),
            before.program.basic_blocks[b].outputs.len()
        );
    }
    let returned = after.program.basic_blocks[3].outputs;
    assert_eq!(span_locals(&after.program, returned), vec![3, 3]);
}

#[test]
fn propagating_inside_blocks_twice_is_propagating_once() {
    for text in samples() {
        let mut program = parse(text).program;
        let mut pass = CopyPropagation::default();
        pass.propagate_operation_copies(&mut program);
        let once = program.clone();
        pass.propagate_operation_copies(&mut program);
        assert_eq!(program, once);
    }
}

#[test]
fn one_round_says_whether_a_slot_went() {
    let mut listing = parse(
        r#"
            fn test:
                entry x -> x {
                    => @next
                }
                next y {
                    z = add y y
                    stop
                }
        "#,
    );
    let store = analyze(&listing.program);
    let mut pass = CopyPropagation::default();
    assert!(pass.propagate_input_output_copies(&mut listing.program, &store));
    assert_ir_display(
        &display(&listing),
        r#"
            Init: @0
            Functions:
                fn @0 -> entry @0  (outputs: 0)

            Basic Blocks:
                @0 $0 {
                    => @1
                }

                @1 {
                    $2 = add $0 $0
                    stop
                }
        "#,
    );
    let once = listing.program.clone();
    assert!(!pass.propagate_input_output_copies(&mut listing.program, &store));
    assert_eq!(listing.program, once);
}

#[test]
fn edges_of_blocks_that_are_never_reached_stay_matched() {
    let (before, after) = optimized(
        r#"
            fn test:
                entry x {
                    => @merge_from
                }
                merge_from -> x {
                    => @merge
                }
                lost -> x {
                    => @merge
                }
                merge y {
                    z = add y y
                    stop
                }
        "#,
    );
    for listing in [&before, &after] {
        let program = &listing.program;
        for b in 0..program.basic_blocks.len() {
            for t in successors(program, b) {
                assert_eq!(
                    program.basic_blocks[b].outputs.len(),
                    program.basic_blocks[t].inputs.len()
                );
            }
        }
    }
    assert_eq!(before.program.basic_blocks[2].outputs.len(), 1);
    assert_eq!(after.program.basic_blocks[2].outputs.len(), 0);
}
