use crate::opcode::{byte_opcode, opcode_byte, OpCode, OPCODE_COUNT};
use std::ops::Range;
use std::rc::Rc;
use vstd::prelude::*;

pub mod debug;

verus! {

/// The largest number of constants a chunk can hold: their indices are 16-bit words.
pub const MAX_CONSTANTS: usize = 65536;

/// A constant of a chunk. A number constant holds the text of its literal (decimal
/// digits with an optional fraction); the value it denotes is the nearest `f64`.
#[derive(Debug)]
pub enum Constant {
    Number(String),
    Str(Rc<String>),
    Function(Box<FunctionObject>),
}

/// A compiled function: its code, the number of its parameters and its name.
#[derive(Debug)]
pub struct FunctionObject {
    pub chunk: Chunk,
    pub arity: u8,
    pub name: Rc<String>,
    pub upvalue_count: usize,
}

impl FunctionObject {
    /// An empty function with the given name and no parameters.
    pub fn new(name: &Rc<String>) -> (r: FunctionObject)
        ensures
            r.name == *name,
            r.arity == 0,
            r.upvalue_count == 0,
            r.chunk.code@.len() == 0,
            r.chunk.spans@.len() == 0,
            r.chunk.constants@.len() == 0,
    {
        FunctionObject {
            chunk: Chunk::new(),
            arity: 0,
            name: crate::interner::rc_clone(name),
            upvalue_count: 0,
        }
    }
}

/// Bytecode: one span of source per byte of code, and a table of constants.
#[derive(Debug)]
pub struct Chunk {
    pub code: Vec<u8>,
    pub spans: Vec<Range<usize>>,
    pub constants: Vec<Constant>,
}

/// The 16-bit little-endian word at `offset` of `code`.
pub open spec fn word_at(code: Seq<u8>, offset: int) -> int {
    code[offset] + 256 * code[offset + 1]
}

/// The low byte of a word.
pub open spec fn low_byte(word: u16) -> u8 {
    (word % 256) as u8
}

/// The high byte of a word.
pub open spec fn high_byte(word: u16) -> u8 {
    (word / 256) as u8
}

impl Chunk {
    pub fn new() -> (r: Chunk)
        ensures
            r.code@.len() == 0,
            r.spans@.len() == 0,
            r.constants@.len() == 0,
    {
        Chunk { code: Vec::new(), spans: Vec::new(), constants: Vec::new() }
    }

    /// Appends one byte of code and the span of source it came from.
    pub fn add_byte(&mut self, byte: u8, span: Range<usize>)
        ensures
            final(self).code@ == old(self).code@.push(byte),
            final(self).spans@ == old(self).spans@.push(span),
            final(self).constants@ == old(self).constants@,
    {
        self.code.push(byte);
        self.spans.push(span);
    }

    /// Appends a 16-bit word in little-endian order; both bytes get the span.
    pub fn add_word(&mut self, word: u16, span: Range<usize>)
        ensures
            final(self).code@ == old(self).code@.push(low_byte(word)).push(high_byte(word)),
            final(self).spans@ == old(self).spans@.push(span).push(span),
            final(self).constants@ == old(self).constants@,
    {
        let second = Range { start: span.start, end: span.end };
        self.add_byte((word % 256) as u8, span);
        self.add_byte((word / 256) as u8, second);
    }

    /// Overwrites the word at `offset` of the code.
    pub fn patch_word(&mut self, offset: usize, word: u16)
        requires
            offset + 1 < old(self).code@.len(),
        ensures
            final(self).code@ == old(self).code@.update(offset as int, low_byte(word)).update(
                offset + 1,
                high_byte(word),
            ),
            final(self).spans@ == old(self).spans@,
            final(self).constants@ == old(self).constants@,
    {
        let _n = self.code.len();
        self.code.set(offset, (word % 256) as u8);
        self.code.set(offset + 1, (word / 256) as u8);
    }

    /// Appends a constant and returns its index.
    pub fn push_constant(&mut self, value: Constant) -> (r: u16)
        requires
            old(self).constants@.len() < MAX_CONSTANTS,
        ensures
            final(self).constants@ == old(self).constants@.push(value),
            r == old(self).constants@.len(),
            final(self).code@ == old(self).code@,
            final(self).spans@ == old(self).spans@,
    {
        self.constants.push(value);
        (self.constants.len() - 1) as u16
    }

    /// The 16-bit little-endian word at `offset` of the code.
    pub fn read_word(&self, offset: usize) -> (r: u16)
        requires
            offset + 1 < self.code@.len(),
        ensures
            r == word_at(self.code@, offset as int),
    {
        let _n = self.code.len();
        self.code[offset] as u16 + 256 * (self.code[offset + 1] as u16)
    }
}

/// A word written with `add_word` reads back as the same word.
pub proof fn law_word_roundtrip(code: Seq<u8>, word: u16)
    ensures
        word_at(code.push(low_byte(word)).push(high_byte(word)), code.len() as int) == word,
{
    let c = code.push(low_byte(word)).push(high_byte(word));
    assert(c[code.len() as int] == low_byte(word));
    assert(c[code.len() as int + 1] == high_byte(word));
}

/// A word written with `patch_word` reads back as the same word.
pub proof fn law_patch_roundtrip(code: Seq<u8>, offset: int, word: u16)
    requires
        0 <= offset,
        offset + 1 < code.len(),
    ensures
        word_at(code.update(offset, low_byte(word)).update(offset + 1, high_byte(word)), offset)
            == word,
{
}

// ---------------------------------------------------------------------------
// Instruction layout
// ---------------------------------------------------------------------------

/// The number of operand bytes that follow an opcode in the code: a 16-bit word for
/// instructions that take a constant index, a stack slot, an upvalue index, a jump
/// distance or an argument count; none for the others.
pub open spec fn operand_len(op: OpCode) -> int {
    match op {
        OpCode::Constant | OpCode::DefineGlobal | OpCode::GetGlobal | OpCode::SetGlobal
        | OpCode::GetLocal | OpCode::SetLocal | OpCode::JumpIfFalse | OpCode::Jump | OpCode::Loop
        | OpCode::Call | OpCode::GetUpvalue | OpCode::SetUpvalue | OpCode::Closure => 2,
        _ => 0,
    }
}

/// Whether an opcode's operand is an index into the constants.
pub open spec fn takes_constant(op: OpCode) -> bool {
    match op {
        OpCode::Constant | OpCode::DefineGlobal | OpCode::GetGlobal | OpCode::SetGlobal => true,
        _ => false,
    }
}

/// The length in bytes of the instruction whose opcode byte is `b`.
pub open spec fn instruction_len(b: u8) -> int {
    1 + operand_len(byte_opcode(b))
}

/// `starts` are the offsets where the instructions of `code` begin: in increasing
/// order, each instruction ends where the next begins, and the last ends where the
/// code ends.
pub open spec fn is_layout(code: Seq<u8>, starts: Seq<int>) -> bool {
    &&& starts.len() == 0 ==> code.len() == 0
    &&& starts.len() > 0 ==> starts[0] == 0
    &&& forall|k: int| 0 <= k < starts.len() ==> 0 <= #[trigger] starts[k] < code.len()
    &&& forall|k: int|
        0 <= k < starts.len() ==> #[trigger] instruction_end(code, starts, k) == if k + 1
            < starts.len() {
            starts[k + 1]
        } else {
            code.len() as int
        }
    &&& forall|i: int, j: int| 0 <= i < j < starts.len() ==> #[trigger] starts[i] < #[trigger] starts[j]
}

/// The offset where the `k`-th instruction of a layout ends.
pub open spec fn instruction_end(code: Seq<u8>, starts: Seq<int>, k: int) -> int {
    starts[k] + instruction_len(code[starts[k]])
}

/// Every instruction of the layout is a real opcode other than `Closure` (whose
/// captures follow it in the code), and every constant operand is an index into the
/// `n_constants` constants.
pub open spec fn operands_valid(code: Seq<u8>, starts: Seq<int>, n_constants: int) -> bool {
    forall|k: int|
        0 <= k < starts.len() ==> {
            &&& code[#[trigger] starts[k]] < OPCODE_COUNT
            &&& byte_opcode(code[starts[k]]) != OpCode::Closure
            &&& takes_constant(byte_opcode(code[starts[k]])) ==> word_at(code, starts[k] + 1)
                < n_constants
        }
}

/// Well-formed code: it decodes into real instructions whose constant operands index
/// existing constants.
pub open spec fn code_wf(code: Seq<u8>, n_constants: int) -> bool {
    exists|starts: Seq<int>| is_layout(code, starts) && operands_valid(code, starts, n_constants)
}

/// The bytes of one instruction: an opcode without operand, or an opcode followed by
/// a little-endian word.
pub open spec fn instruction_bytes(op: OpCode, word: u16) -> Seq<u8> {
    if operand_len(op) == 0 {
        seq![opcode_byte(op)]
    } else {
        seq![opcode_byte(op), low_byte(word), high_byte(word)]
    }
}

/// Appending a whole instruction extends the layout by its offset.
pub proof fn lemma_layout_append(
    code: Seq<u8>,
    starts: Seq<int>,
    n_constants: int,
    op: OpCode,
    word: u16,
    n_constants2: int,
)
    requires
        is_layout(code, starts),
        operands_valid(code, starts, n_constants),
        n_constants <= n_constants2,
        takes_constant(op) ==> word < n_constants2,
        op != OpCode::Closure,
    ensures
        is_layout(code + instruction_bytes(op, word), starts.push(code.len() as int)),
        operands_valid(
            code + instruction_bytes(op, word),
            starts.push(code.len() as int),
            n_constants2,
        ),
{
    let c2 = code + instruction_bytes(op, word);
    let s2 = starts.push(code.len() as int);
    crate::opcode::law_opcode_roundtrip(op);
    assert(c2[code.len() as int] == opcode_byte(op));
    assert forall|k: int| 0 <= k < starts.len() implies c2[starts[k]] == code[starts[k]] by {}
    assert forall|k: int| 0 <= k < s2.len() implies 0 <= #[trigger] s2[k] < c2.len() by {
        if k < starts.len() {
            assert(s2[k] == starts[k]);
        }
    }
    assert forall|k: int|
        0 <= k < s2.len() implies #[trigger] instruction_end(c2, s2, k) == if k + 1 < s2.len() {
        s2[k + 1]
    } else {
        c2.len() as int
    } by {
        if k < starts.len() {
            assert(s2[k] == starts[k]);
            assert(instruction_end(code, starts, k) == instruction_end(c2, s2, k));
            if k + 1 < starts.len() {
                assert(s2[k + 1] == starts[k + 1]);
            }
        }
    }
    assert forall|i: int, j: int| 0 <= i < j < s2.len() implies #[trigger] s2[i] < #[trigger] s2[j] by {
        if j == starts.len() {
            assert(s2[i] == starts[i]);
            assert(starts[i] < code.len());
        } else {
            assert(s2[i] == starts[i]);
            assert(s2[j] == starts[j]);
        }
    }
    assert forall|k: int| 0 <= k < s2.len() implies {
        &&& c2[#[trigger] s2[k]] < OPCODE_COUNT
        &&& byte_opcode(c2[s2[k]]) != OpCode::Closure
        &&& takes_constant(byte_opcode(c2[s2[k]])) ==> word_at(c2, s2[k] + 1) < n_constants2
    } by {
        if k < starts.len() {
            assert(s2[k] == starts[k]);
            if takes_constant(byte_opcode(c2[s2[k]])) {
                lemma_instruction_end_bound(code, starts, k);
                assert(c2[starts[k] + 1] == code[starts[k] + 1]);
                assert(c2[starts[k] + 2] == code[starts[k] + 2]);
            }
        } else {
            if takes_constant(op) {
                assert(c2[code.len() as int + 1] == low_byte(word));
                assert(c2[code.len() as int + 2] == high_byte(word));
                law_word_roundtrip(code + seq![opcode_byte(op)], word);
                assert(code + seq![opcode_byte(op)] + seq![low_byte(word), high_byte(word)] == c2);
            }
        }
    }
}

/// In a layout, every instruction ends within the code.
pub proof fn lemma_instruction_end_bound(code: Seq<u8>, starts: Seq<int>, k: int)
    requires
        is_layout(code, starts),
        0 <= k < starts.len(),
    ensures
        starts[k] < instruction_end(code, starts, k) <= code.len(),
{
    if k + 1 < starts.len() {
        assert(starts[k + 1] < code.len());
    }
    assert(instruction_end(code, starts, k) == if k + 1 < starts.len() {
        starts[k + 1]
    } else {
        code.len() as int
    });
}

/// In a layout, an instruction ends at or before the start of any later one.
pub proof fn lemma_layout_order(code: Seq<u8>, starts: Seq<int>, i: int, j: int)
    requires
        is_layout(code, starts),
        0 <= i < j < starts.len(),
    ensures
        instruction_end(code, starts, i) <= starts[j],
{
    assert(instruction_end(code, starts, i) == starts[i + 1]);
    if i + 1 < j {
        assert(starts[i + 1] < starts[j]);
    }
}

/// Overwriting the operand of a jump keeps the layout and the operands valid.
#[verifier::spinoff_prover]
pub proof fn lemma_layout_patch(code: Seq<u8>, starts: Seq<int>, n_constants: int, k: int, word: u16)
    requires
        is_layout(code, starts),
        operands_valid(code, starts, n_constants),
        0 <= k < starts.len(),
        !takes_constant(byte_opcode(code[starts[k]])),
        operand_len(byte_opcode(code[starts[k]])) == 2,
    ensures
        is_layout(
            code.update(starts[k] + 1, low_byte(word)).update(starts[k] + 2, high_byte(word)),
            starts,
        ),
        operands_valid(
            code.update(starts[k] + 1, low_byte(word)).update(starts[k] + 2, high_byte(word)),
            starts,
            n_constants,
        ),
{
    let o = starts[k];
    lemma_instruction_end_bound(code, starts, k);
    let c2 = code.update(o + 1, low_byte(word)).update(o + 2, high_byte(word));
    assert(c2.len() == code.len());
    assert forall|j: int| 0 <= j < starts.len() implies {
        &&& c2[#[trigger] starts[j]] == code[starts[j]]
        &&& (j != k && operand_len(byte_opcode(code[starts[j]])) == 2) ==> (c2[starts[j] + 1]
            == code[starts[j] + 1] && c2[starts[j] + 2] == code[starts[j] + 2])
    } by {
        lemma_instruction_end_bound(code, starts, j);
        if j < k {
            lemma_layout_order(code, starts, j, k);
        } else if j > k {
            lemma_layout_order(code, starts, k, j);
        }
    }
    assert forall|j: int|
        0 <= j < starts.len() implies #[trigger] instruction_end(c2, starts, j) == if j + 1
        < starts.len() {
        starts[j + 1]
    } else {
        c2.len() as int
    } by {
        assert(c2[starts[j]] == code[starts[j]]);
        assert(instruction_end(code, starts, j) == instruction_end(c2, starts, j));
    }
    assert forall|j: int| 0 <= j < starts.len() implies {
        &&& c2[#[trigger] starts[j]] < OPCODE_COUNT
        &&& byte_opcode(c2[starts[j]]) != OpCode::Closure
        &&& takes_constant(byte_opcode(c2[starts[j]])) ==> word_at(c2, starts[j] + 1) < n_constants
    } by {
        assert(c2[starts[j]] == code[starts[j]]);
        if takes_constant(byte_opcode(c2[starts[j]])) {
            assert(j != k);
        }
    }
}


impl OpCode {
    /// Whether a 16-bit operand follows this opcode in the code.
    pub fn has_operand(self) -> (r: bool)
        ensures
            r == (operand_len(self) == 2),
    {
        match self {
            OpCode::Constant | OpCode::DefineGlobal | OpCode::GetGlobal | OpCode::SetGlobal
            | OpCode::GetLocal | OpCode::SetLocal | OpCode::JumpIfFalse | OpCode::Jump
            | OpCode::Loop | OpCode::Call | OpCode::GetUpvalue | OpCode::SetUpvalue
            | OpCode::Closure => true,
            _ => false,
        }
    }
}

/// A copy of a span.
pub fn copy_span(s: &Range<usize>) -> (r: Range<usize>)
    ensures
        r == *s,
{
    Range { start: s.start, end: s.end }
}

} // verus!
