//! The intermediate representation that the pass works on.
//!
//! A program keeps its basic blocks and operations in flat tables. Operand lists (what a block
//! takes in and hands on, what a larger operation reads) lie in one arena of locals and are named
//! by a [`Span`] of it. [`EthIRProgram::wf`] is the invariant of that layout; what a program means
//! is its view, a [`ProgramView`], in which every block simply holds its lists. What a function does
//! to the tables and the arena themselves is stated beside it, with the predicates of
//! [`crate::layout`].

use vstd::prelude::*;

verus! {

/// A value of the program. Every local is defined at most once.
pub type LocalId = u32;

/// A position in the arena of locals.
pub type LocalIdx = u32;

/// A position in the table of basic blocks.
pub type BasicBlockId = u32;

/// A position in the table of operations.
pub type OperationIdx = u32;

/// A position in the table of functions.
pub type FunctionId = u32;

/// A position in the table of switch cases.
pub type CasesId = u32;

/// The part `start..end` of a table.
#[derive(Clone, Copy, Debug, PartialEq, Eq, Structural)]
pub struct Span {
    pub start: u32,
    pub end: u32,
}

impl Span {
    /// The span from `start` up to `end`.
    pub fn new(start: u32, end: u32) -> (span: Span)
        ensures
            span == (Span { start, end }),
    {
        Span { start, end }
    }

    /// How many positions the span has.
    pub fn len(&self) -> (len: u32)
        requires
            self.start <= self.end,
        ensures
            len == self.end - self.start,
    {
        self.end - self.start
    }

    /// The span as a pair of bounds.
    pub open spec fn range(self) -> (int, int) {
        (self.start as int, self.end as int)
    }
}

/// An operation of a basic block, by where its operands are kept. An `opcode` stands for all that
/// an operation is besides its operands.
#[derive(Clone, Debug, PartialEq, Eq)]
pub enum Operation {
    /// `dst = copy src`.
    SetCopy { src: LocalId, dst: LocalId },
    /// An operation that holds its operands itself.
    Inline { opcode: u32, ins: Vec<LocalId>, outs: Vec<LocalId> },
    /// An operation whose inputs lie in the arena.
    AllocatedIns { opcode: u32, ins_span: Span, outs: Vec<LocalId> },
    /// A call of a function of the program. The arguments lie in the arena from `ins_start` up to
    /// `outs_start`, and behind them the locals that take the function's outputs.
    InternalCall { function: FunctionId, ins_start: LocalIdx, outs_start: LocalIdx },
}

/// A two-way branch on whether `condition` is zero.
#[derive(Clone, Copy, Debug, PartialEq, Eq, Structural)]
pub struct Branch {
    pub condition: LocalId,
    pub non_zero_target: BasicBlockId,
    pub zero_target: BasicBlockId,
}

/// A branch on the value of `condition`: to the target of the case with that value, or to
/// `fallback` where there is none.
#[derive(Clone, Copy, Debug, PartialEq, Eq, Structural)]
pub struct Switch {
    pub condition: LocalId,
    pub fallback: Option<BasicBlockId>,
    pub cases: CasesId,
}

/// How a basic block ends.
#[derive(Clone, Copy, Debug, PartialEq, Eq, Structural)]
pub enum Control {
    /// The last operation of the block ends the execution.
    LastOpTerminates,
    /// The function returns the outputs of the block.
    InternalReturn,
    /// Execution goes on in another block.
    ContinuesTo(BasicBlockId),
    /// Execution goes on in one of two blocks.
    Branches(Branch),
    /// Execution goes on in one of several blocks.
    Switch(Switch),
}

/// One case of a switch. The value is a 256-bit word, lowest limb first.
#[derive(Clone, Copy, Debug, PartialEq, Eq)]
pub struct SwitchCase {
    pub value: [u64; 4],
    pub target: BasicBlockId,
}

/// A basic block: the locals that it takes in, its operations, the locals that it hands on, and
/// how it ends.
#[derive(Clone, Copy, Debug, PartialEq, Eq, Structural)]
pub struct BasicBlock {
    pub inputs: Span,
    pub outputs: Span,
    pub operations: Span,
    pub control: Control,
}

/// A function: the block in which it starts and how many values it returns.
#[derive(Clone, Copy, Debug, PartialEq, Eq, Structural)]
pub struct Function {
    pub entry: BasicBlockId,
    pub outputs: u32,
}

impl Function {
    /// The block in which the function starts.
    pub fn entry(&self) -> (entry: BasicBlockId)
        ensures
            entry == self.entry,
    {
        self.entry
    }
}

/// A program.
#[derive(Clone, Debug, PartialEq, Eq)]
pub struct EthIRProgram {
    pub functions: Vec<Function>,
    pub basic_blocks: Vec<BasicBlock>,
    pub operations: Vec<Operation>,
    pub locals: Vec<LocalId>,
    pub cases: Vec<Vec<SwitchCase>>,
    pub next_free_local_id: LocalId,
}

/// What an operation does, without its operands.
pub enum OpKind {
    SetCopy,
    Inline(u32),
    AllocatedIns(u32),
    InternalCall(FunctionId),
}

/// An operation with its operand lists.
#[verifier::ext_equal]
pub struct OpView {
    pub kind: OpKind,
    pub inputs: Seq<LocalId>,
    pub outputs: Seq<LocalId>,
}

/// A basic block with its operand lists and operations.
#[verifier::ext_equal]
pub struct BlockView {
    pub inputs: Seq<LocalId>,
    pub ops: Seq<OpView>,
    pub outputs: Seq<LocalId>,
    pub control: Control,
}

/// A program without its layout: the functions, the blocks, the cases of the switches, and the
/// bound below which all its locals lie.
#[verifier::ext_equal]
pub struct ProgramView {
    pub functions: Seq<Function>,
    pub blocks: Seq<BlockView>,
    pub cases: Seq<Seq<SwitchCase>>,
    pub next_free_local_id: LocalId,
}

/// An operand list of a program, by the block or operation that it belongs to.
pub enum OperandList {
    BlockInputs(int),
    BlockOutputs(int),
    OpInputs(int),
    OpOutputs(int),
}

/// Two ranges of a table have no position in common.
pub open spec fn apart(a: (int, int), b: (int, int)) -> bool {
    a.0 >= a.1 || b.0 >= b.1 || a.1 <= b.0 || b.1 <= a.0
}

impl Operation {
    /// What the operation does, without its operands.
    pub open spec fn kind(self) -> OpKind {
        match self {
            Operation::SetCopy { src, dst } => OpKind::SetCopy,
            Operation::Inline { opcode, ins, outs } => OpKind::Inline(opcode),
            Operation::AllocatedIns { opcode, ins_span, outs } => OpKind::AllocatedIns(opcode),
            Operation::InternalCall { function, ins_start, outs_start } => OpKind::InternalCall(
                function,
            ),
        }
    }

    /// The part of the arena that holds the inputs, empty where the operation holds them itself.
    pub open spec fn inputs_range(self) -> (int, int) {
        match self {
            Operation::SetCopy { src, dst } => (0, 0),
            Operation::Inline { opcode, ins, outs } => (0, 0),
            Operation::AllocatedIns { opcode, ins_span, outs } => ins_span.range(),
            Operation::InternalCall { function, ins_start, outs_start } => (
                ins_start as int,
                outs_start as int,
            ),
        }
    }

    /// The part of the arena that holds the outputs, empty where the operation holds them itself.
    pub open spec fn outputs_range(self, functions: Seq<Function>) -> (int, int) {
        match self {
            Operation::InternalCall { function, ins_start, outs_start } => (
                outs_start as int,
                outs_start + functions[function as int].outputs,
            ),
            _ => (0, 0),
        }
    }

    /// The locals that the operation reads.
    pub open spec fn inputs(self, locals: Seq<LocalId>) -> Seq<LocalId> {
        match self {
            Operation::SetCopy { src, dst } => seq![src],
            Operation::Inline { opcode, ins, outs } => ins@,
            _ => locals.subrange(self.inputs_range().0, self.inputs_range().1),
        }
    }

    /// The locals that the operation defines.
    pub open spec fn outputs(self, locals: Seq<LocalId>, functions: Seq<Function>) -> Seq<LocalId> {
        match self {
            Operation::SetCopy { src, dst } => seq![dst],
            Operation::Inline { opcode, ins, outs } => outs@,
            Operation::AllocatedIns { opcode, ins_span, outs } => outs@,
            _ => locals.subrange(self.outputs_range(functions).0, self.outputs_range(functions).1),
        }
    }
}

impl EthIRProgram {
    /// The program has this operand list.
    pub open spec fn has_list(self, list: OperandList) -> bool {
        match list {
            OperandList::BlockInputs(b) => 0 <= b < self.basic_blocks.len(),
            OperandList::BlockOutputs(b) => 0 <= b < self.basic_blocks.len(),
            OperandList::OpInputs(o) => 0 <= o < self.operations.len(),
            OperandList::OpOutputs(o) => 0 <= o < self.operations.len(),
        }
    }

    /// The part of the arena that an operand list takes up.
    pub open spec fn list_range(self, list: OperandList) -> (int, int) {
        match list {
            OperandList::BlockInputs(b) => self.basic_blocks[b].inputs.range(),
            OperandList::BlockOutputs(b) => self.basic_blocks[b].outputs.range(),
            OperandList::OpInputs(o) => self.operations[o].inputs_range(),
            OperandList::OpOutputs(o) => self.operations[o].outputs_range(self.functions@),
        }
    }

    /// The layout invariant: every span lies inside its table, every operand list has a part of
    /// the arena to itself, every operation belongs to one block at most, and functions that are
    /// called or start in a block exist.
    pub open spec fn wf(self) -> bool {
        &&& self.basic_blocks.len() <= u32::MAX
        &&& self.operations.len() <= u32::MAX
        &&& self.locals.len() <= u32::MAX
        &&& forall|list: OperandList| #[trigger]
            self.has_list(list) ==> 0 <= self.list_range(list).0 <= self.list_range(list).1
                <= self.locals.len()
        &&& forall|a: OperandList, b: OperandList|
            #![trigger self.has_list(a), self.has_list(b)]
            self.has_list(a) && self.has_list(b) && a != b ==> apart(
                self.list_range(a),
                self.list_range(b),
            )
        &&& forall|b: int|
            0 <= b < self.basic_blocks.len() ==> (#[trigger] self.basic_blocks[b]).operations.start
                <= self.basic_blocks[b].operations.end <= self.operations.len()
        &&& forall|a: int, b: int|
            #![trigger self.basic_blocks[a], self.basic_blocks[b]]
            0 <= a < self.basic_blocks.len() && 0 <= b < self.basic_blocks.len() && a != b ==> apart(
                self.basic_blocks[a].operations.range(),
                self.basic_blocks[b].operations.range(),
            )
        &&& forall|o: int|
            0 <= o < self.operations.len() ==> ((#[trigger] self.operations[o]) matches
                Operation::InternalCall { function, .. } ==> function < self.functions.len())
        &&& forall|f: int|
            0 <= f < self.functions.len() ==> (#[trigger] self.functions[f]).entry
                < self.basic_blocks.len()
    }

    /// The operation at a position of the table, with its operand lists.
    pub open spec fn op_view(self, o: int) -> OpView {
        OpView {
            kind: self.operations[o].kind(),
            inputs: self.operations[o].inputs(self.locals@),
            outputs: self.operations[o].outputs(self.locals@, self.functions@),
        }
    }

    /// What a span of the arena holds.
    pub open spec fn span_view(self, span: Span) -> Seq<LocalId> {
        self.locals@.subrange(span.start as int, span.end as int)
    }

    /// The basic block at a position of the table, with its operand lists and operations.
    pub open spec fn block_view(self, b: int) -> BlockView {
        let block = self.basic_blocks[b];
        BlockView {
            inputs: self.span_view(block.inputs),
            ops: Seq::new(
                (block.operations.end - block.operations.start) as nat,
                |i: int| self.op_view(block.operations.start + i),
            ),
            outputs: self.span_view(block.outputs),
            control: block.control,
        }
    }
}

impl View for EthIRProgram {
    type V = ProgramView;

    open spec fn view(&self) -> ProgramView {
        ProgramView {
            functions: self.functions@,
            blocks: Seq::new(self.basic_blocks@.len(), |b: int| self.block_view(b)),
            cases: self.cases@.map_values(|cases: Vec<SwitchCase>| cases@),
            next_free_local_id: self.next_free_local_id,
        }
    }
}

} // verus!
