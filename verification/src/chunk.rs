//! Compiled code: the instruction set and the chunk that holds a program.
use crate::value::{Datum, Value};
use vstd::prelude::*;
use vstd::string::*;

verus! {

/// One-byte operation codes. An instruction is an opcode followed by its
/// inline operands: one byte for a constant or slot index, two bytes
/// (big-endian) for a jump distance.
#[derive(Debug, PartialEq, Eq, Structural, Clone, Copy)]
pub enum OpCode {
    Constant,
    Nil,
    True,
    False,
    Pop,
    GetLocal,
    SetLocal,
    GetGlobal,
    DefineGlobal,
    SetGlobal,
    Equal,
    Greater,
    Less,
    Add,
    Subtract,
    Multiple,
    Divide,
    Not,
    Negate,
    Print,
    Jump,
    JumpIfFalse,
    Loop,
    Return,
}

/// Number of distinct opcodes; the bytes `0..OPCODES` are the valid ones.
pub const OPCODES: u8 = 24u8;

impl OpCode {
    /// The byte that encodes this opcode.
    pub open spec fn to_byte(self) -> u8 {
        match self {
            OpCode::Constant => 0u8,
            OpCode::Nil => 1u8,
            OpCode::True => 2u8,
            OpCode::False => 3u8,
            OpCode::Pop => 4u8,
            OpCode::GetLocal => 5u8,
            OpCode::SetLocal => 6u8,
            OpCode::GetGlobal => 7u8,
            OpCode::DefineGlobal => 8u8,
            OpCode::SetGlobal => 9u8,
            OpCode::Equal => 10u8,
            OpCode::Greater => 11u8,
            OpCode::Less => 12u8,
            OpCode::Add => 13u8,
            OpCode::Subtract => 14u8,
            OpCode::Multiple => 15u8,
            OpCode::Divide => 16u8,
            OpCode::Not => 17u8,
            OpCode::Negate => 18u8,
            OpCode::Print => 19u8,
            OpCode::Jump => 20u8,
            OpCode::JumpIfFalse => 21u8,
            OpCode::Loop => 22u8,
            OpCode::Return => 23u8,
        }
    }

    /// The opcode that a valid byte encodes.
    pub open spec fn of_byte(byte: u8) -> OpCode {
        if byte == 0 {
            OpCode::Constant
        } else if byte == 1 {
            OpCode::Nil
        } else if byte == 2 {
            OpCode::True
        } else if byte == 3 {
            OpCode::False
        } else if byte == 4 {
            OpCode::Pop
        } else if byte == 5 {
            OpCode::GetLocal
        } else if byte == 6 {
            OpCode::SetLocal
        } else if byte == 7 {
            OpCode::GetGlobal
        } else if byte == 8 {
            OpCode::DefineGlobal
        } else if byte == 9 {
            OpCode::SetGlobal
        } else if byte == 10 {
            OpCode::Equal
        } else if byte == 11 {
            OpCode::Greater
        } else if byte == 12 {
            OpCode::Less
        } else if byte == 13 {
            OpCode::Add
        } else if byte == 14 {
            OpCode::Subtract
        } else if byte == 15 {
            OpCode::Multiple
        } else if byte == 16 {
            OpCode::Divide
        } else if byte == 17 {
            OpCode::Not
        } else if byte == 18 {
            OpCode::Negate
        } else if byte == 19 {
            OpCode::Print
        } else if byte == 20 {
            OpCode::Jump
        } else if byte == 21 {
            OpCode::JumpIfFalse
        } else if byte == 22 {
            OpCode::Loop
        } else {
            OpCode::Return
        }
    }

    /// How many operand bytes follow the opcode.
    pub open spec fn operands(self) -> int {
        match self {
            OpCode::Constant
            | OpCode::GetLocal
            | OpCode::SetLocal
            | OpCode::GetGlobal
            | OpCode::DefineGlobal
            | OpCode::SetGlobal => 1,
            OpCode::Jump | OpCode::JumpIfFalse | OpCode::Loop => 2,
            _ => 0,
        }
    }

    /// Encodes the opcode as its byte.
    pub fn byte(self) -> (b: u8)
        ensures
            b == self.to_byte(),
            b < OPCODES,
            OpCode::of_byte(b) == self,
    {
        match self {
            OpCode::Constant => 0,
            OpCode::Nil => 1,
            OpCode::True => 2,
            OpCode::False => 3,
            OpCode::Pop => 4,
            OpCode::GetLocal => 5,
            OpCode::SetLocal => 6,
            OpCode::GetGlobal => 7,
            OpCode::DefineGlobal => 8,
            OpCode::SetGlobal => 9,
            OpCode::Equal => 10,
            OpCode::Greater => 11,
            OpCode::Less => 12,
            OpCode::Add => 13,
            OpCode::Subtract => 14,
            OpCode::Multiple => 15,
            OpCode::Divide => 16,
            OpCode::Not => 17,
            OpCode::Negate => 18,
            OpCode::Print => 19,
            OpCode::Jump => 20,
            OpCode::JumpIfFalse => 21,
            OpCode::Loop => 22,
            OpCode::Return => 23,
        }
    }

    /// Decodes a byte that is known to be an opcode.
    pub fn from(byte: u8) -> (op: OpCode)
        requires
            byte < OPCODES,
        ensures
            op == OpCode::of_byte(byte),
            op.to_byte() == byte,
    {
        match byte {
            0 => OpCode::Constant,
            1 => OpCode::Nil,
            2 => OpCode::True,
            3 => OpCode::False,
            4 => OpCode::Pop,
            5 => OpCode::GetLocal,
            6 => OpCode::SetLocal,
            7 => OpCode::GetGlobal,
            8 => OpCode::DefineGlobal,
            9 => OpCode::SetGlobal,
            10 => OpCode::Equal,
            11 => OpCode::Greater,
            12 => OpCode::Less,
            13 => OpCode::Add,
            14 => OpCode::Subtract,
            15 => OpCode::Multiple,
            16 => OpCode::Divide,
            17 => OpCode::Not,
            18 => OpCode::Negate,
            19 => OpCode::Print,
            20 => OpCode::Jump,
            21 => OpCode::JumpIfFalse,
            22 => OpCode::Loop,
            _ => OpCode::Return,
        }
    }

    /// Decodes any byte: `None` exactly for the bytes that encode no opcode.
    pub fn decode(byte: u8) -> (op: Option<OpCode>)
        ensures
            op is Some <==> byte < OPCODES,
            op is Some ==> op->0 == OpCode::of_byte(byte) && op->0.to_byte() == byte,
    {
        if byte < OPCODES {
            Some(OpCode::from(byte))
        } else {
            None
        }
    }

    /// Number of operand bytes that follow the opcode in the code stream.
    pub fn operand_count(self) -> (n: usize)
        ensures
            n == self.operands(),
    {
        match self {
            OpCode::Constant
            | OpCode::GetLocal
            | OpCode::SetLocal
            | OpCode::GetGlobal
            | OpCode::DefineGlobal
            | OpCode::SetGlobal => 1,
            OpCode::Jump | OpCode::JumpIfFalse | OpCode::Loop => 2,
            _ => 0,
        }
    }

    /// The mnemonic shown in listings.
    pub open spec fn mnemonic(self) -> Seq<char> {
        match self {
            OpCode::Constant => "CONSTANT"@,
            OpCode::Nil => "NIL"@,
            OpCode::True => "TRUE"@,
            OpCode::False => "FALSE"@,
            OpCode::Pop => "POP"@,
            OpCode::GetLocal => "GET LOCAL"@,
            OpCode::SetLocal => "SET LOCAL"@,
            OpCode::GetGlobal => "GET GLOBAL"@,
            OpCode::DefineGlobal => "DEFINE GLOBAL"@,
            OpCode::SetGlobal => "SET GLOBAL"@,
            OpCode::Equal => "EQUAL"@,
            OpCode::Greater => "GREATER"@,
            OpCode::Less => "LESS"@,
            OpCode::Add => "ADD"@,
            OpCode::Subtract => "SUBTRACT"@,
            OpCode::Multiple => "MULTIPLE"@,
            OpCode::Divide => "DIVIDE"@,
            OpCode::Not => "NOT"@,
            OpCode::Negate => "NEGATE"@,
            OpCode::Print => "PRINT"@,
            OpCode::Jump => "JUMP"@,
            OpCode::JumpIfFalse => "JUMP IF FALSE"@,
            OpCode::Loop => "LOOP"@,
            OpCode::Return => "RETURN"@,
        }
    }

    /// The mnemonic as an owned string.
    pub fn name(&self) -> (s: String)
        ensures
            s@ == self.mnemonic(),
    {
        let text = match self {
            OpCode::Constant => "CONSTANT",
            OpCode::Nil => "NIL",
            OpCode::True => "TRUE",
            OpCode::False => "FALSE",
            OpCode::Pop => "POP",
            OpCode::GetLocal => "GET LOCAL",
            OpCode::SetLocal => "SET LOCAL",
            OpCode::GetGlobal => "GET GLOBAL",
            OpCode::DefineGlobal => "DEFINE GLOBAL",
            OpCode::SetGlobal => "SET GLOBAL",
            OpCode::Equal => "EQUAL",
            OpCode::Greater => "GREATER",
            OpCode::Less => "LESS",
            OpCode::Add => "ADD",
            OpCode::Subtract => "SUBTRACT",
            OpCode::Multiple => "MULTIPLE",
            OpCode::Divide => "DIVIDE",
            OpCode::Not => "NOT",
            OpCode::Negate => "NEGATE",
            OpCode::Print => "PRINT",
            OpCode::Jump => "JUMP",
            OpCode::JumpIfFalse => "JUMP IF FALSE",
            OpCode::Loop => "LOOP",
            OpCode::Return => "RETURN",
        };
        String::from_str(text)
    }
}

/// Every opcode survives a round trip through its byte.
pub proof fn lemma_opcode_round_trip(op: OpCode)
    ensures
        op.to_byte() < OPCODES,
        OpCode::of_byte(op.to_byte()) == op,
{
}

/// Every valid byte survives a round trip through its opcode.
pub proof fn lemma_byte_round_trip(byte: u8)
    requires
        byte < OPCODES,
    ensures
        OpCode::of_byte(byte).to_byte() == byte,
{
}

/// The contents of the constants of a pool, in order.
pub open spec fn data(values: Seq<Value>) -> Seq<Datum> {
    Seq::new(values.len(), |i: int| values[i]@)
}

/// A compiled unit: code bytes, the constants they refer to, and for every
/// code byte the source line that produced it.
pub struct Chunk {
    pub code: Vec<u8>,
    pub constants: Vec<Value>,
    pub lines: Vec<i32>,
}

impl Chunk {
    /// Every code byte has its source line.
    pub open spec fn aligned(&self) -> bool {
        self.lines@.len() == self.code@.len()
    }

    /// The same code, lines and constants as `other`.
    pub open spec fn same(&self, other: &Chunk) -> bool {
        &&& self.code@ == other.code@
        &&& self.lines@ == other.lines@
        &&& self.constants@ == other.constants@
    }

    /// The contents of the constant pool.
    pub open spec fn pool(&self) -> Seq<Datum> {
        data(self.constants@)
    }

    /// An empty chunk.
    pub fn new() -> (chunk: Chunk)
        ensures
            chunk.code@ == Seq::<u8>::empty(),
            chunk.constants@ == Seq::<Value>::empty(),
            chunk.lines@ == Seq::<i32>::empty(),
            chunk.aligned(),
    {
        Chunk { code: Vec::new(), constants: Vec::new(), lines: Vec::new() }
    }

    /// Appends one code byte together with the line it came from.
    pub fn write(&mut self, byte: u8, line: i32)
        ensures
            final(self).code@ == old(self).code@.push(byte),
            final(self).lines@ == old(self).lines@.push(line),
            final(self).constants@ == old(self).constants@,
            old(self).aligned() ==> final(self).aligned(),
    {
        self.code.push(byte);
        self.lines.push(line);
    }

    /// Appends a constant to the pool and returns its index.
    pub fn add_constant(&mut self, value: Value) -> (index: usize)
        ensures
            index == old(self).constants@.len(),
            final(self).constants@ == old(self).constants@.push(value),
            final(self).pool() == old(self).pool().push(value@),
            final(self).code@ == old(self).code@,
            final(self).lines@ == old(self).lines@,
    {
        self.constants.push(value);
        assert(self.pool() =~= old(self).pool().push(value@));
        self.constants.len() - 1
    }
}

} // verus!
