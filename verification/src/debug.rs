//! Listings of compiled code: what a disassembler shows of each instruction.
//!
//! The functions here decode; turning a listing into text is left to the
//! caller, because the text of a number constant is the host's to produce.
use crate::chunk::{Chunk, OpCode, OPCODES};
use crate::layout::{instruction_len, jump_target};
use crate::value::{Datum, Value};
use vstd::prelude::*;

verus! {

/// What an instruction carries behind its opcode.
#[derive(Debug)]
pub enum Operand {
    /// The instruction has no operand.
    Nothing,
    /// The index of a constant, and the constant.
    Constant { index: u8, value: Value },
    /// The slot of a local.
    Slot(u8),
    /// The offset that the jump lands on.
    Target(usize),
}

/// One line of a listing.
#[derive(Debug)]
pub struct Listing {
    /// Where the instruction starts.
    pub offset: usize,
    /// The source line of the instruction, unless it is the line of the byte
    /// before it.
    pub line: Option<i32>,
    pub op: OpCode,
    pub operand: Operand,
    /// Where the next instruction starts.
    pub next: usize,
}

/// The content of an [`Operand`].
pub enum OperandView {
    Nothing,
    Constant { index: u8, value: Datum },
    Slot(u8),
    Target(int),
}

impl View for Operand {
    type V = OperandView;

    open spec fn view(&self) -> OperandView {
        match self {
            Operand::Nothing => OperandView::Nothing,
            Operand::Constant { index, value } => OperandView::Constant {
                index: *index,
                value: value@,
            },
            Operand::Slot(slot) => OperandView::Slot(*slot),
            Operand::Target(target) => OperandView::Target(*target as int),
        }
    }
}

/// Whether the instruction at `offset` can be listed: it is a whole
/// instruction with a valid opcode, the constant it names exists, and the
/// jump it makes does not go back beyond the start of the code.
pub open spec fn listable(chunk: &Chunk, offset: int) -> bool {
    let code = chunk.code@;
    &&& 0 <= offset < code.len()
    &&& chunk.aligned()
    &&& code[offset] < OPCODES
    &&& offset + instruction_len(code[offset]) <= code.len()
    &&& names_constant(OpCode::of_byte(code[offset])) ==> code[offset + 1] < chunk.constants@.len()
    &&& OpCode::of_byte(code[offset]) == OpCode::Loop ==> jump_target(code, offset) >= 0
    &&& OpCode::of_byte(code[offset]) == OpCode::Jump || OpCode::of_byte(code[offset])
        == OpCode::JumpIfFalse ==> jump_target(code, offset) <= usize::MAX
}

/// The line lists the instruction at its offset.
pub open spec fn faithful(chunk: &Chunk, l: &Listing) -> bool {
    &&& listable(chunk, l.offset as int)
    &&& l.op == OpCode::of_byte(chunk.code@[l.offset as int])
    &&& l.next == l.offset + instruction_len(chunk.code@[l.offset as int])
    &&& l.line == if l.offset > 0 && chunk.lines@[l.offset as int] == chunk.lines@[l.offset - 1] {
        None
    } else {
        Some(chunk.lines@[l.offset as int])
    }
    &&& l.operand@ == operand_at(chunk, l.offset as int)
}

/// The lines follow each other from the start of the code without a gap.
pub open spec fn consecutive(listing: Seq<Listing>) -> bool {
    &&& listing.len() > 0 ==> listing[0].offset == 0
    &&& forall|i: int| 0 < i < listing.len() ==> (#[trigger] listing[i]).offset == listing[i - 1].next
}

/// The instructions whose operand is the index of a constant.
pub open spec fn names_constant(op: OpCode) -> bool {
    op == OpCode::Constant || op == OpCode::GetGlobal || op == OpCode::DefineGlobal || op
        == OpCode::SetGlobal
}

/// What the listing of the instruction at `offset` shows of its operand.
pub open spec fn operand_at(chunk: &Chunk, offset: int) -> OperandView {
    let code = chunk.code@;
    let op = OpCode::of_byte(code[offset]);
    if names_constant(op) {
        OperandView::Constant { index: code[offset + 1], value: chunk.pool()[code[offset + 1] as int] }
    } else if op == OpCode::GetLocal || op == OpCode::SetLocal {
        OperandView::Slot(code[offset + 1])
    } else if op == OpCode::Jump || op == OpCode::JumpIfFalse || op == OpCode::Loop {
        OperandView::Target(jump_target(code, offset))
    } else {
        OperandView::Nothing
    }
}

/// Lists the instruction at `offset`, or nothing if it cannot be listed.
pub fn disassemble_instruction(chunk: &Chunk, offset: usize) -> (listing: Option<Listing>)
    ensures
        listing is Some <==> listable(chunk, offset as int),
        listing is Some ==> listing->0.offset == offset && faithful(chunk, &listing->0),
{
    let code = &chunk.code;
    let len = code.len();
    if offset >= len || chunk.lines.len() != len {
        return None;
    }
    let op = match OpCode::decode(code[offset]) {
        Some(op) => op,
        None => {
            return None;
        },
    };
    let operands = op.operand_count();
    if operands > len - offset - 1 {
        return None;
    }
    let next = offset + 1 + operands;
    let line = if offset > 0 && chunk.lines[offset] == chunk.lines[offset - 1] {
        None
    } else {
        Some(chunk.lines[offset])
    };
    let operand = match op {
        OpCode::Constant | OpCode::GetGlobal | OpCode::DefineGlobal | OpCode::SetGlobal => {
            let index = code[offset + 1];
            if index as usize >= chunk.constants.len() {
                return None;
            }
            Operand::Constant { index, value: chunk.constants[index as usize].clone() }
        },
        OpCode::GetLocal | OpCode::SetLocal => Operand::Slot(code[offset + 1]),
        OpCode::Jump | OpCode::JumpIfFalse => {
            let jump = code[offset + 1] as usize * 256 + code[offset + 2] as usize;
            if jump > usize::MAX - offset - 3 {
                return None;
            }
            Operand::Target(offset + 3 + jump)
        },
        OpCode::Loop => {
            let jump = code[offset + 1] as usize * 256 + code[offset + 2] as usize;
            if jump > offset + 3 {
                return None;
            }
            Operand::Target(offset + 3 - jump)
        },
        _ => Operand::Nothing,
    };
    Some(Listing { offset, line, op, operand, next })
}

/// Lists the instructions of a chunk from its start, as far as they can be
/// listed. Each line begins where the one before it ends; the listing is
/// complete if the last line ends where the code ends.
pub fn disassemble_chuck(chunk: &Chunk) -> (listing: Vec<Listing>)
    ensures
        forall|i: int| 0 <= i < listing@.len() ==> faithful(chunk, #[trigger] &listing@[i]),
        consecutive(listing@),
        listing@.len() == 0 ==> !listable(chunk, 0),
        listing@.len() > 0 ==> listing@.last().next == chunk.code@.len() || !listable(
            chunk,
            listing@.last().next as int,
        ),
{
    let mut listing: Vec<Listing> = Vec::new();
    let mut offset: usize = 0;
    while offset < chunk.code.len()
        invariant
            forall|i: int| 0 <= i < listing@.len() ==> faithful(chunk, #[trigger] &listing@[i]),
            consecutive(listing@),
            offset == if listing@.len() == 0 {
                0
            } else {
                listing@.last().next as int
            },
            offset <= chunk.code@.len(),
        decreases chunk.code@.len() - offset,
    {
        match disassemble_instruction(chunk, offset) {
            Some(line) => {
                offset = line.next;
                listing.push(line);
            },
            None => {
                return listing;
            },
        }
    }
    listing
}

} // verus!
