use super::{
    instruction_len, is_layout, lemma_instruction_end_bound, operand_len, operands_valid,
    takes_constant, word_at, Chunk, Constant,
};
use crate::opcode::{byte_opcode, OpCode};
use vstd::prelude::*;

verus! {

/// How a closure captures one upvalue: a local of the enclosing function, or one of
/// its upvalues, by index.
pub struct Capture {
    pub is_local: bool,
    pub index: u16,
}

/// One instruction as the code holds it: the opcode, its word operand if it takes one,
/// the captures that follow a `Closure`, and the offset of the next instruction.
pub struct DecodedInstruction {
    pub opcode: OpCode,
    pub operand: Option<u16>,
    pub captures: Vec<Capture>,
    pub next: usize,
}

/// The function a `Closure` instruction at `offset` builds, when its operand names
/// a function constant.
pub open spec fn closure_function(chunk: Chunk, offset: int) -> Option<super::FunctionObject> {
    let w = word_at(chunk.code@, offset + 1);
    if 0 <= w < chunk.constants@.len() {
        match chunk.constants@[w] {
            Constant::Function(f) => Some(*f),
            _ => None,
        }
    } else {
        None
    }
}

/// The number of captures that follow the instruction at `offset`.
pub open spec fn capture_count(chunk: Chunk, offset: int) -> int {
    if byte_opcode(chunk.code@[offset]) == OpCode::Closure {
        match closure_function(chunk, offset) {
            Some(f) => f.upvalue_count as int,
            None => 0,
        }
    } else {
        0
    }
}

/// The length in bytes of the instruction at `offset`, captures included.
pub open spec fn decoded_len(chunk: Chunk, offset: int) -> int {
    1 + operand_len(byte_opcode(chunk.code@[offset])) + 3 * capture_count(chunk, offset)
}

/// The instruction at `offset` can be read whole: it lies in the code, a constant
/// operand names an existing constant, a `Closure` names a function constant, and each
/// of its captures is marked local (1) or not (0).
pub open spec fn decodable(chunk: Chunk, offset: int) -> bool {
    let op = byte_opcode(chunk.code@[offset]);
    &&& 0 <= offset < chunk.code@.len()
    &&& offset + 1 + operand_len(op) <= chunk.code@.len()
    &&& takes_constant(op) ==> word_at(chunk.code@, offset + 1) < chunk.constants@.len()
    &&& op == OpCode::Closure ==> closure_function(chunk, offset) is Some
    &&& offset + decoded_len(chunk, offset) <= chunk.code@.len()
    &&& forall|k: int|
        0 <= k < capture_count(chunk, offset) ==> #[trigger] chunk.code@[offset + 3 + 3 * k] == 0
            || chunk.code@[offset + 3 + 3 * k] == 1
}

/// Reads the instruction at `offset`.
pub fn decode_instruction(chunk: &Chunk, offset: usize) -> (r: DecodedInstruction)
    requires
        decodable(*chunk, offset as int),
    ensures
        r.opcode == byte_opcode(chunk.code@[offset as int]),
        r.operand == if operand_len(r.opcode) == 2 {
            Some(word_at(chunk.code@, offset + 1) as u16)
        } else {
            None::<u16>
        },
        r.captures@.len() == capture_count(*chunk, offset as int),
        forall|k: int|
            0 <= k < r.captures@.len() ==> (#[trigger] r.captures@[k]).is_local == (chunk.code@[offset
                + 3 + 3 * k] == 1) && r.captures@[k].index == word_at(chunk.code@, offset + 4 + 3 * k),
        r.next == offset + decoded_len(*chunk, offset as int),
{
    let code_len = chunk.code.len();
    let opcode = OpCode::from_byte(chunk.code[offset]);
    let mut captures: Vec<Capture> = Vec::new();
    if !opcode.has_operand() {
        return DecodedInstruction { opcode, operand: None, captures, next: offset + 1 };
    }
    let operand = chunk.read_word(offset + 1);
    let mut next = offset + 3;
    if opcode == OpCode::Closure {
        let count = match &chunk.constants[operand as usize] {
            Constant::Function(f) => f.upvalue_count,
            _ => 0,
        };
        let mut k: usize = 0;
        while k < count
            invariant
                decodable(*chunk, offset as int),
                code_len == chunk.code@.len(),
                opcode == OpCode::Closure,
                count == capture_count(*chunk, offset as int),
                operand == word_at(chunk.code@, offset + 1),
                0 <= k <= count,
                next == offset + 3 + 3 * k,
                captures@.len() == k,
                forall|j: int|
                    0 <= j < k ==> (#[trigger] captures@[j]).is_local == (chunk.code@[offset + 3 + 3
                        * j] == 1) && captures@[j].index == word_at(chunk.code@, offset + 4 + 3 * j),
            decreases count - k,
        {
            let is_local = chunk.code[next] == 1;
            let index = chunk.read_word(next + 1);
            captures.push(Capture { is_local, index });
            next = next + 3;
            k = k + 1;
        }
    }
    DecodedInstruction { opcode, operand: Some(operand), captures, next }
}

/// The offset at which a listing of the code goes on after `instruction`: the next
/// instruction, except after a `Closure`, where the listing skips three bytes more.
/// Those three bytes belong to the instruction after the closure, which the listing
/// therefore does not show; `instruction.next` is where that instruction begins.
pub fn listing_next(instruction: &DecodedInstruction) -> (r: usize)
    requires
        instruction.next + 3 <= usize::MAX,
    ensures
        r == if instruction.opcode == OpCode::Closure {
            instruction.next + 3
        } else {
            instruction.next as int
        },
{
    if instruction.opcode == OpCode::Closure {
        instruction.next + 3
    } else {
        instruction.next
    }
}

/// Whether the instruction at `offset` can be read whole (see `decodable`).
pub fn is_decodable(chunk: &Chunk, offset: usize) -> (r: bool)
    ensures
        r == decodable(*chunk, offset as int),
{
    let code_len = chunk.code.len();
    if offset >= code_len {
        return false;
    }
    let opcode = OpCode::from_byte(chunk.code[offset]);
    if !opcode.has_operand() {
        return true;
    }
    if code_len - offset < 3 {
        return false;
    }
    let operand = chunk.read_word(offset + 1);
    if opcode == OpCode::Constant || opcode == OpCode::DefineGlobal || opcode == OpCode::GetGlobal
        || opcode == OpCode::SetGlobal {
        return (operand as usize) < chunk.constants.len();
    }
    if opcode != OpCode::Closure {
        return true;
    }
    if operand as usize >= chunk.constants.len() {
        return false;
    }
    let count = match &chunk.constants[operand as usize] {
        Constant::Function(f) => f.upvalue_count,
        _ => {
            return false;
        },
    };
    let room = code_len - offset - 3;
    if count > room / 3 {
        proof {
            assert(3 * count > room) by (nonlinear_arith)
                requires
                    count > room / 3,
            ;
        }
        return false;
    }
    proof {
        assert(3 * count <= room) by (nonlinear_arith)
            requires
                count <= room / 3,
        ;
    }
    let mut k: usize = 0;
    while k < count
        invariant
            0 <= k <= count,
            3 * count <= room,
            room == code_len - offset - 3,
            code_len == chunk.code@.len(),
            count == capture_count(*chunk, offset as int),
            byte_opcode(chunk.code@[offset as int]) == OpCode::Closure,
            offset < code_len,
            forall|j: int|
                0 <= j < k ==> #[trigger] chunk.code@[offset + 3 + 3 * j] == 0 || chunk.code@[offset
                    + 3 + 3 * j] == 1,
        decreases count - k,
    {
        let b = chunk.code[offset + 3 + 3 * k];
        if b != 0 && b != 1 {
            proof {
                let kk = k as int;
                assert(!(chunk.code@[offset + 3 + 3 * kk] == 0 || chunk.code@[offset + 3 + 3 * kk] == 1));
            }
            return false;
        }
        k = k + 1;
    }
    true
}

/// Code laid out in whole instructions, none of them a `Closure`, with valid constant
/// operands (as a compiled script is) reads instruction by instruction: each one can
/// be decoded and ends where the next begins.
pub proof fn law_laid_out_code_decodes(chunk: Chunk, starts: Seq<int>, k: int)
    requires
        is_layout(chunk.code@, starts),
        operands_valid(chunk.code@, starts, chunk.constants@.len() as int),
        0 <= k < starts.len(),
    ensures
        decodable(chunk, starts[k]),
        starts[k] + decoded_len(chunk, starts[k]) == if k + 1 < starts.len() {
            starts[k + 1]
        } else {
            chunk.code@.len() as int
        },
{
    lemma_instruction_end_bound(chunk.code@, starts, k);
    assert(capture_count(chunk, starts[k]) == 0);
    assert(decoded_len(chunk, starts[k]) == instruction_len(chunk.code@[starts[k]]));
}

} // verus!
