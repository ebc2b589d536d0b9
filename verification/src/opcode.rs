use vstd::prelude::*;

verus! {

/// The instructions of the bytecode. Each is encoded as one byte; see `to_byte`.
#[derive(Debug, Clone, Copy, PartialEq, Eq, Structural)]
pub enum OpCode {
    Pass,
    Constant,
    ConstLong,
    Return,
    Negate,
    Add,
    Subtract,
    Multiply,
    Divide,
    Not,
    True,
    False,
    Nil,
    Equal,
    Greater,
    Less,
    Print,
    Pop,
    DefineGlobal,
    GetGlobal,
    SetGlobal,
    GetLocal,
    SetLocal,
    JumpIfFalse,
    Jump,
    Loop,
    Call,
    GetUpvalue,
    SetUpvalue,
    Closure,
    CloseUpvalue,
}

/// The number of opcodes; the bytes `0..OPCODE_COUNT` encode them.
pub const OPCODE_COUNT: u8 = 31;

/// The byte that encodes an opcode: its position in the declaration.
pub open spec fn opcode_byte(op: OpCode) -> u8 {
    match op {
        OpCode::Pass => 0,
        OpCode::Constant => 1,
        OpCode::ConstLong => 2,
        OpCode::Return => 3,
        OpCode::Negate => 4,
        OpCode::Add => 5,
        OpCode::Subtract => 6,
        OpCode::Multiply => 7,
        OpCode::Divide => 8,
        OpCode::Not => 9,
        OpCode::True => 10,
        OpCode::False => 11,
        OpCode::Nil => 12,
        OpCode::Equal => 13,
        OpCode::Greater => 14,
        OpCode::Less => 15,
        OpCode::Print => 16,
        OpCode::Pop => 17,
        OpCode::DefineGlobal => 18,
        OpCode::GetGlobal => 19,
        OpCode::SetGlobal => 20,
        OpCode::GetLocal => 21,
        OpCode::SetLocal => 22,
        OpCode::JumpIfFalse => 23,
        OpCode::Jump => 24,
        OpCode::Loop => 25,
        OpCode::Call => 26,
        OpCode::GetUpvalue => 27,
        OpCode::SetUpvalue => 28,
        OpCode::Closure => 29,
        OpCode::CloseUpvalue => 30,
    }
}

/// The opcode that a byte decodes to; a byte that encodes no opcode decodes to `Pass`.
pub open spec fn byte_opcode(b: u8) -> OpCode {
    if b == 1 {
        OpCode::Constant
    } else if b == 2 {
        OpCode::ConstLong
    } else if b == 3 {
        OpCode::Return
    } else if b == 4 {
        OpCode::Negate
    } else if b == 5 {
        OpCode::Add
    } else if b == 6 {
        OpCode::Subtract
    } else if b == 7 {
        OpCode::Multiply
    } else if b == 8 {
        OpCode::Divide
    } else if b == 9 {
        OpCode::Not
    } else if b == 10 {
        OpCode::True
    } else if b == 11 {
        OpCode::False
    } else if b == 12 {
        OpCode::Nil
    } else if b == 13 {
        OpCode::Equal
    } else if b == 14 {
        OpCode::Greater
    } else if b == 15 {
        OpCode::Less
    } else if b == 16 {
        OpCode::Print
    } else if b == 17 {
        OpCode::Pop
    } else if b == 18 {
        OpCode::DefineGlobal
    } else if b == 19 {
        OpCode::GetGlobal
    } else if b == 20 {
        OpCode::SetGlobal
    } else if b == 21 {
        OpCode::GetLocal
    } else if b == 22 {
        OpCode::SetLocal
    } else if b == 23 {
        OpCode::JumpIfFalse
    } else if b == 24 {
        OpCode::Jump
    } else if b == 25 {
        OpCode::Loop
    } else if b == 26 {
        OpCode::Call
    } else if b == 27 {
        OpCode::GetUpvalue
    } else if b == 28 {
        OpCode::SetUpvalue
    } else if b == 29 {
        OpCode::Closure
    } else if b == 30 {
        OpCode::CloseUpvalue
    } else {
        OpCode::Pass
    }
}

impl OpCode {
    /// The byte that encodes this opcode.
    pub fn to_byte(self) -> (r: u8)
        ensures
            r == opcode_byte(self),
    {
        match self {
            OpCode::Pass => 0,
            OpCode::Constant => 1,
            OpCode::ConstLong => 2,
            OpCode::Return => 3,
            OpCode::Negate => 4,
            OpCode::Add => 5,
            OpCode::Subtract => 6,
            OpCode::Multiply => 7,
            OpCode::Divide => 8,
            OpCode::Not => 9,
            OpCode::True => 10,
            OpCode::False => 11,
            OpCode::Nil => 12,
            OpCode::Equal => 13,
            OpCode::Greater => 14,
            OpCode::Less => 15,
            OpCode::Print => 16,
            OpCode::Pop => 17,
            OpCode::DefineGlobal => 18,
            OpCode::GetGlobal => 19,
            OpCode::SetGlobal => 20,
            OpCode::GetLocal => 21,
            OpCode::SetLocal => 22,
            OpCode::JumpIfFalse => 23,
            OpCode::Jump => 24,
            OpCode::Loop => 25,
            OpCode::Call => 26,
            OpCode::GetUpvalue => 27,
            OpCode::SetUpvalue => 28,
            OpCode::Closure => 29,
            OpCode::CloseUpvalue => 30,
        }
    }

    /// The opcode that `value` encodes; `Pass` for a byte that encodes none.
    pub fn from_byte(value: u8) -> (r: OpCode)
        ensures
            r == byte_opcode(value),
    {
        match value {
            1 => OpCode::Constant,
            2 => OpCode::ConstLong,
            3 => OpCode::Return,
            4 => OpCode::Negate,
            5 => OpCode::Add,
            6 => OpCode::Subtract,
            7 => OpCode::Multiply,
            8 => OpCode::Divide,
            9 => OpCode::Not,
            10 => OpCode::True,
            11 => OpCode::False,
            12 => OpCode::Nil,
            13 => OpCode::Equal,
            14 => OpCode::Greater,
            15 => OpCode::Less,
            16 => OpCode::Print,
            17 => OpCode::Pop,
            18 => OpCode::DefineGlobal,
            19 => OpCode::GetGlobal,
            20 => OpCode::SetGlobal,
            21 => OpCode::GetLocal,
            22 => OpCode::SetLocal,
            23 => OpCode::JumpIfFalse,
            24 => OpCode::Jump,
            25 => OpCode::Loop,
            26 => OpCode::Call,
            27 => OpCode::GetUpvalue,
            28 => OpCode::SetUpvalue,
            29 => OpCode::Closure,
            30 => OpCode::CloseUpvalue,
            _ => OpCode::Pass,
        }
    }
}

/// Decoding the byte of an opcode gives the opcode back.
pub proof fn law_opcode_roundtrip(op: OpCode)
    ensures
        byte_opcode(opcode_byte(op)) == op,
        opcode_byte(op) < OPCODE_COUNT,
{
}

/// Every byte below `OPCODE_COUNT` is the encoding of the opcode it decodes to; every
/// other byte decodes to `Pass`.
pub proof fn law_byte_roundtrip(b: u8)
    ensures
        b < OPCODE_COUNT ==> opcode_byte(byte_opcode(b)) == b,
        b >= OPCODE_COUNT ==> byte_opcode(b) == OpCode::Pass,
{
}

/// Distinct opcodes have distinct encodings.
pub proof fn law_opcode_byte_injective(a: OpCode, b: OpCode)
    ensures
        opcode_byte(a) == opcode_byte(b) ==> a == b,
{
    law_opcode_roundtrip(a);
    law_opcode_roundtrip(b);
}

} // verus!
