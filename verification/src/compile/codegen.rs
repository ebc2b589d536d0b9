use super::compiler::{
    extends_code, is_jump_operand, lemma_append_extends, lemma_loop_wf_extends, Compiler,
};
use super::{points_into, Identifier, SyntaxError};
use crate::chunk::{
    copy_span, high_byte, instruction_bytes, lemma_instruction_end_bound, lemma_layout_append,
    lemma_layout_patch, low_byte, operand_len, takes_constant, word_at, Constant, MAX_CONSTANTS,
};
use crate::opcode::{byte_opcode, opcode_byte, OpCode};
use std::ops::Range;
use std::rc::Rc;
use vstd::prelude::*;

verus! {

/// The largest distance a jump can span: jump distances are 16-bit words.
pub const MAX_JUMP: usize = 65535;

/// `a` and `b` differ at most in their code and spans (and the layout of the code).
pub open spec fn same_but_code(a: Compiler, b: Compiler) -> bool {
    &&& a.enclosing == b.enclosing
    &&& a.upvalues == b.upvalues
    &&& a.locals == b.locals
    &&& a.function_kind == b.function_kind
    &&& a.scope_depth == b.scope_depth
    &&& a.loop_context == b.loop_context
    &&& a.function_object.arity == b.function_object.arity
    &&& a.function_object.name == b.function_object.name
    &&& a.function_object.upvalue_count == b.function_object.upvalue_count
    &&& a.function_object.chunk.constants@ == b.function_object.chunk.constants@
}

/// `span` repeated `k` times.
pub open spec fn repeat_span(span: Range<usize>, k: int) -> Seq<Range<usize>> {
    Seq::new(k as nat, |i: int| span)
}

/// A syntax error with the given message.
pub fn syntax_error(message: &str, span: Range<usize>) -> (r: SyntaxError)
    ensures
        r.message@ == message@,
        r.span == span,
{
    broadcast use vstd::string::group_string_axioms;

    SyntaxError { message: message.to_string(), span }
}

impl Compiler {
    /// Appends one whole instruction: an opcode and, if it takes one, its word operand.
    fn push_instruction(&mut self, op: OpCode, word: u16, span: Range<usize>, Ghost(n): Ghost<int>)
        requires
            old(self).wf(n),
            span.start <= span.end <= n,
            takes_constant(op) ==> word < old(self).n_constants(),
            op != OpCode::Closure,
        ensures
            final(self).wf(n),
            same_but_code(*old(self), *final(self)),
            final(self).code() == old(self).code() + instruction_bytes(op, word),
            final(self).spans() == old(self).spans() + repeat_span(span, 1 + operand_len(op)),
            final(self).starts@ == old(self).starts@.push(old(self).code().len() as int),
            extends_code(old(self).code(), old(self).starts@, final(self).code(), final(self).starts@),
    {
        let ghost c0 = self.code();
        let ghost s0 = self.starts@;
        let ghost sp0 = self.spans();
        proof {
            super::compiler::lemma_wf_unfold(*self, n);
        }
        let b = op.to_byte();
        if op.has_operand() {
            let second = copy_span(&span);
            self.function_object.chunk.add_byte(b, span);
            self.function_object.chunk.add_word(word, second);
            assert(self.code() =~= c0 + instruction_bytes(op, word));
            assert(self.spans() =~= sp0 + repeat_span(span, 1 + operand_len(op)));
        } else {
            self.function_object.chunk.add_byte(b, span);
            assert(self.code() =~= c0 + instruction_bytes(op, word));
            assert(self.spans() =~= sp0 + repeat_span(span, 1 + operand_len(op)));
        }
        proof {
            lemma_layout_append(c0, s0, self.n_constants(), op, word, self.n_constants());
            lemma_append_extends(c0, s0, instruction_bytes(op, word));
            self.starts = Ghost(s0.push(c0.len() as int));
            if self.loop_context is Some {
                lemma_loop_wf_extends(self.loop_context->0, c0, s0, self.code(), self.starts@);
            }
            assert forall|i: int| 0 <= i < self.spans().len() implies #[trigger] self.spans()[i].start
                <= self.spans()[i].end <= n by {
                if i < sp0.len() {
                    assert(self.spans()[i] == sp0[i]);
                }
            }
            super::compiler::lemma_wf_fold(*self, n);
        }
    }

    /// Appends an instruction without operand.
    pub fn emit_byte(&mut self, op: OpCode, span: Range<usize>, Ghost(n): Ghost<int>)
        requires
            old(self).wf(n),
            span.start <= span.end <= n,
            operand_len(op) == 0,
        ensures
            final(self).wf(n),
            same_but_code(*old(self), *final(self)),
            final(self).code() == old(self).code().push(opcode_byte(op)),
            final(self).spans() == old(self).spans().push(span),
            final(self).starts@ == old(self).starts@.push(old(self).code().len() as int),
            extends_code(old(self).code(), old(self).starts@, final(self).code(), final(self).starts@),
    {
        let ghost sp = span;
        self.push_instruction(op, 0, span, Ghost(n));
        assert(instruction_bytes(op, 0) == seq![opcode_byte(op)]);
        assert(repeat_span(sp, 1) =~= seq![sp]);
    }

    /// Appends a jump with a placeholder distance and returns the offset of its
    /// operand, to be patched later.
    pub fn emit_jump(&mut self, op: OpCode, span: Range<usize>, Ghost(n): Ghost<int>) -> (r: usize)
        requires
            old(self).wf(n),
            span.start <= span.end <= n,
            op == OpCode::Jump || op == OpCode::JumpIfFalse,
        ensures
            final(self).wf(n),
            same_but_code(*old(self), *final(self)),
            final(self).code() == old(self).code() + instruction_bytes(op, 0xffff),
            r == old(self).code().len() + 1,
            final(self).starts@ == old(self).starts@.push(old(self).code().len() as int),
            is_jump_operand(final(self).code(), final(self).starts@, r as int),
            extends_code(old(self).code(), old(self).starts@, final(self).code(), final(self).starts@),
    {
        self.push_instruction(op, 0xffff, span, Ghost(n));
        let r = self.function_object.chunk.code.len() - 2;
        proof {
            let s = self.starts@;
            assert(s[s.len() - 1] == r - 1);
            assert(self.code()[r - 1] == opcode_byte(op));
            crate::opcode::law_opcode_roundtrip(op);
        }
        r
    }

    /// Appends a `Loop` instruction that jumps back to `loop_start`.
    pub fn emit_loop(&mut self, loop_start: usize, span: Range<usize>, Ghost(n): Ghost<int>) -> (r:
        Result<(), SyntaxError>)
        requires
            old(self).wf(n),
            span.start <= span.end <= n,
            loop_start <= old(self).code().len(),
        ensures
            r matches Err(e) ==> points_into(e, n),
            final(self).wf(n),
            same_but_code(*old(self), *final(self)),
            extends_code(old(self).code(), old(self).starts@, final(self).code(), final(self).starts@),
            old(self).code().len() + 3 - loop_start <= MAX_JUMP ==> r is Ok && final(self).code()
                == old(self).code() + instruction_bytes(
                OpCode::Loop,
                (old(self).code().len() + 3 - loop_start) as u16,
            ),
            old(self).code().len() + 3 - loop_start > MAX_JUMP ==> r is Err && *final(self)
                == *old(self),
            r matches Err(e) ==> e.message@ == "Too much code to jump over."@,
    {
        let len = self.function_object.chunk.code.len();
        if len - loop_start >= MAX_JUMP - 2 {
            proof {
                lemma_extends_refl_here(self.code(), self.starts@);
            }
            return Err(syntax_error("Too much code to jump over.", span));
        }
        let jump = (len - loop_start + 3) as u16;
        self.push_instruction(OpCode::Loop, jump, span, Ghost(n));
        Ok(())
    }

    /// Points the jump whose operand is at `offset` to the end of the code.
    pub fn patch_jump(&mut self, offset: usize, Ghost(n): Ghost<int>) -> (r: Result<(), SyntaxError>)
        requires
            old(self).wf(n),
            is_jump_operand(old(self).code(), old(self).starts@, offset as int),
        ensures
            r matches Err(e) ==> points_into(e, n),
            final(self).wf(n),
            same_but_code(*old(self), *final(self)),
            final(self).starts@ == old(self).starts@,
            extends_code(old(self).code(), old(self).starts@, final(self).code(), final(self).starts@),
            offset + 1 < old(self).code().len(),
            r matches Err(e) ==> e.message@ == "Too much code to jump over."@,
            old(self).code().len() - offset - 2 <= MAX_JUMP ==> r is Ok && final(self).code()
                == old(self).code().update(
                offset as int,
                low_byte((old(self).code().len() - offset - 2) as u16),
            ).update(offset + 1, high_byte((old(self).code().len() - offset - 2) as u16)),
            old(self).code().len() - offset - 2 > MAX_JUMP ==> r is Err && *final(self)
                == *old(self),
    {
        let ghost c0 = self.code();
        let ghost s0 = self.starts@;
        proof {
            super::compiler::lemma_wf_unfold(*self, n);
            let k = choose|k: int| 0 <= k < s0.len() && s0[k] == offset - 1;
            lemma_instruction_end_bound(c0, s0, k);
            lemma_extends_refl_here(c0, s0);
        }
        let len = self.function_object.chunk.code.len();
        let jump = len - offset - 2;
        if jump > MAX_JUMP {
            let span = copy_span(&self.function_object.chunk.spans[offset]);
            return Err(syntax_error("Too much code to jump over.", span));
        }
        self.function_object.chunk.patch_word(offset, jump as u16);
        proof {
            let k = choose|k: int| 0 <= k < s0.len() && s0[k] == offset - 1;
            lemma_layout_patch(c0, s0, self.n_constants(), k, jump as u16);
            if self.loop_context is Some {
                lemma_loop_wf_extends(self.loop_context->0, c0, s0, self.code(), s0);
            }
            assert forall|j: int| 0 <= j < s0.len() implies self.code()[#[trigger] s0[j]] == c0[s0[j]] by {
                if j < k {
                    crate::chunk::lemma_layout_order(c0, s0, j, k);
                } else if j > k {
                    crate::chunk::lemma_layout_order(c0, s0, k, j);
                }
            }
            assert(s0.subrange(0, s0.len() as int) =~= s0);
            super::compiler::lemma_wf_fold(*self, n);
        }
        Ok(())
    }

    /// Appends `Nil` and `Return`: the implicit return of a function.
    pub fn emit_return(&mut self, span: Range<usize>, Ghost(n): Ghost<int>)
        requires
            old(self).wf(n),
            span.start <= span.end <= n,
        ensures
            final(self).wf(n),
            same_but_code(*old(self), *final(self)),
            final(self).code() == old(self).code().push(opcode_byte(OpCode::Nil)).push(
                opcode_byte(OpCode::Return),
            ),
            extends_code(old(self).code(), old(self).starts@, final(self).code(), final(self).starts@),
    {
        let ghost c0 = self.code();
        let ghost s0 = self.starts@;
        let second = copy_span(&span);
        self.emit_byte(OpCode::Nil, span, Ghost(n));
        let ghost c1 = self.code();
        let ghost s1 = self.starts@;
        self.emit_byte(OpCode::Return, second, Ghost(n));
        proof {
            super::compiler::lemma_extends_trans(c0, s0, c1, s1, self.code(), self.starts@);
        }
    }

    /// Appends an instruction whose operand is a new constant; fails when the constants
    /// are full.
    fn emit_with_constant(&mut self, op: OpCode, value: Constant, span: Range<usize>, Ghost(n): Ghost<int>) -> (r:
        Result<(), SyntaxError>)
        requires
            old(self).wf(n),
            span.start <= span.end <= n,
            takes_constant(op),
        ensures
            r matches Err(e) ==> points_into(e, n),
            final(self).wf(n),
            extends_code(old(self).code(), old(self).starts@, final(self).code(), final(self).starts@),
            old(self).n_constants() < MAX_CONSTANTS ==> {
                &&& r is Ok
                &&& final(self).function_object.chunk.constants@ == old(
                    self,
                ).function_object.chunk.constants@.push(value)
                &&& final(self).code() == old(self).code() + instruction_bytes(
                    op,
                    old(self).n_constants() as u16,
                )
                &&& final(self).starts@ == old(self).starts@.push(old(self).code().len() as int)
            },
            old(self).n_constants() >= MAX_CONSTANTS ==> r is Err && *final(self) == *old(self),
            r matches Err(e) ==> e.message@ == "Can't store more constants"@,
            final(self).enclosing == old(self).enclosing,
            final(self).upvalues == old(self).upvalues,
            final(self).locals == old(self).locals,
            final(self).function_kind == old(self).function_kind,
            final(self).scope_depth == old(self).scope_depth,
            final(self).loop_context == old(self).loop_context,
            final(self).function_object.arity == old(self).function_object.arity,
            final(self).function_object.name == old(self).function_object.name,
            final(self).function_object.upvalue_count == old(self).function_object.upvalue_count,
    {
        proof {
            super::compiler::lemma_wf_unfold(*self, n);
        }
        if self.function_object.chunk.constants.len() >= MAX_CONSTANTS {
            proof {
                lemma_extends_refl_here(self.code(), self.starts@);
            }
            return Err(syntax_error("Can't store more constants", span));
        }
        let ghost c0 = self.code();
        let ghost s0 = self.starts@;
        proof {
            super::compiler::lemma_wf_unfold(*self, n);
        }
        let index = self.function_object.chunk.push_constant(value);
        proof {
            super::compiler::lemma_wf_fold(*self, n);
            assert(operands_valid_grows(c0, s0, self.n_constants() - 1, self.n_constants()));
        }
        self.push_instruction(op, index, span, Ghost(n));
        Ok(())
    }

    /// Defines the global variable `name` with the value on top of the stack.
    pub fn emit_define_global(&mut self, name: &Rc<String>, span: Range<usize>, Ghost(n): Ghost<int>) -> (r:
        Result<(), SyntaxError>)
        requires
            old(self).wf(n),
            span.start <= span.end <= n,
        ensures
            r matches Err(e) ==> points_into(e, n),
            final(self).wf(n),
            extends_code(old(self).code(), old(self).starts@, final(self).code(), final(self).starts@),
            r matches Err(e) ==> e.message@ == "Can't store more constants"@,
            old(self).n_constants() < MAX_CONSTANTS <==> r is Ok,
            r is Ok ==> final(self).code() == old(self).code() + instruction_bytes(
                OpCode::DefineGlobal,
                old(self).n_constants() as u16,
            ),
            r is Ok ==> final(self).function_object.chunk.constants@ == old(
                self,
            ).function_object.chunk.constants@.push(Constant::Str(*name)),
            r is Ok ==> final(self).starts@ == old(self).starts@.push(old(self).code().len() as int),
            same_except_chunk(*old(self), *final(self)),
            r is Err ==> *final(self) == *old(self),
    {
        self.emit_with_constant(OpCode::DefineGlobal, Constant::Str(crate::interner::rc_clone(name)), span, Ghost(n))
    }

    /// Reads the global variable named by `identifier`.
    pub fn emit_get_global(&mut self, identifier: Identifier, Ghost(n): Ghost<int>) -> (r: Result<(), SyntaxError>)
        requires
            old(self).wf(n),
            identifier.span.start <= identifier.span.end <= n,
        ensures
            r matches Err(e) ==> points_into(e, n),
            final(self).wf(n),
            extends_code(old(self).code(), old(self).starts@, final(self).code(), final(self).starts@),
            old(self).n_constants() < MAX_CONSTANTS <==> r is Ok,
            r is Ok ==> final(self).code() == old(self).code() + instruction_bytes(
                OpCode::GetGlobal,
                old(self).n_constants() as u16,
            ),
            r matches Err(e) ==> e.message@ == "Can't store more constants"@,
            r is Ok ==> final(self).starts@ == old(self).starts@.push(old(self).code().len() as int),
            r is Ok ==> final(self).function_object.chunk.constants@ == old(
                self,
            ).function_object.chunk.constants@.push(Constant::Str(identifier.name)),
            same_except_chunk(*old(self), *final(self)),
            r is Err ==> *final(self) == *old(self),
    {
        self.emit_with_constant(OpCode::GetGlobal, Constant::Str(identifier.name), identifier.span, Ghost(n))
    }

    /// Assigns the value on top of the stack to the global variable named by `identifier`.
    pub fn emit_set_global(&mut self, identifier: Identifier, Ghost(n): Ghost<int>) -> (r: Result<(), SyntaxError>)
        requires
            old(self).wf(n),
            identifier.span.start <= identifier.span.end <= n,
        ensures
            r matches Err(e) ==> points_into(e, n),
            final(self).wf(n),
            extends_code(old(self).code(), old(self).starts@, final(self).code(), final(self).starts@),
            old(self).n_constants() < MAX_CONSTANTS <==> r is Ok,
            r is Ok ==> final(self).code() == old(self).code() + instruction_bytes(
                OpCode::SetGlobal,
                old(self).n_constants() as u16,
            ),
            r matches Err(e) ==> e.message@ == "Can't store more constants"@,
            r is Ok ==> final(self).starts@ == old(self).starts@.push(old(self).code().len() as int),
            r is Ok ==> final(self).function_object.chunk.constants@ == old(
                self,
            ).function_object.chunk.constants@.push(Constant::Str(identifier.name)),
            same_except_chunk(*old(self), *final(self)),
            r is Err ==> *final(self) == *old(self),
    {
        self.emit_with_constant(OpCode::SetGlobal, Constant::Str(identifier.name), identifier.span, Ghost(n))
    }

    /// Pushes a constant.
    pub fn emit_constant(&mut self, value: Constant, span: Range<usize>, Ghost(n): Ghost<int>) -> (r: Result<(), SyntaxError>)
        requires
            old(self).wf(n),
            span.start <= span.end <= n,
        ensures
            r matches Err(e) ==> points_into(e, n),
            final(self).wf(n),
            extends_code(old(self).code(), old(self).starts@, final(self).code(), final(self).starts@),
            old(self).n_constants() < MAX_CONSTANTS <==> r is Ok,
            r is Ok ==> final(self).code() == old(self).code() + instruction_bytes(
                OpCode::Constant,
                old(self).n_constants() as u16,
            ),
            r matches Err(e) ==> e.message@ == "Can't store more constants"@,
            r is Ok ==> final(self).starts@ == old(self).starts@.push(old(self).code().len() as int),
            r is Ok ==> final(self).function_object.chunk.constants@ == old(
                self,
            ).function_object.chunk.constants@.push(value),
            same_except_chunk(*old(self), *final(self)),
            r is Err ==> *final(self) == *old(self),
    {
        self.emit_with_constant(OpCode::Constant, value, span, Ghost(n))
    }

    /// Appends an instruction with a word operand that is not a constant index.
    pub fn emit_with_word(&mut self, op: OpCode, word: u16, span: Range<usize>, Ghost(n): Ghost<int>)
        requires
            old(self).wf(n),
            span.start <= span.end <= n,
            operand_len(op) == 2,
            !takes_constant(op),
            op != OpCode::Closure,
        ensures
            final(self).wf(n),
            same_but_code(*old(self), *final(self)),
            final(self).code() == old(self).code() + instruction_bytes(op, word),
            final(self).starts@ == old(self).starts@.push(old(self).code().len() as int),
            extends_code(old(self).code(), old(self).starts@, final(self).code(), final(self).starts@),
    {
        self.push_instruction(op, word, span, Ghost(n));
    }

    /// The offset the next instruction will have.
    pub fn next_ip(&self) -> (r: usize)
        ensures
            r == self.code().len(),
    {
        self.function_object.chunk.code.len()
    }
}

/// `a` and `b` differ at most in their chunk (and the layout of its code).
pub open spec fn same_except_chunk(a: Compiler, b: Compiler) -> bool {
    &&& a.enclosing == b.enclosing
    &&& a.upvalues == b.upvalues
    &&& a.locals == b.locals
    &&& a.function_kind == b.function_kind
    &&& a.scope_depth == b.scope_depth
    &&& a.loop_context == b.loop_context
    &&& a.function_object.arity == b.function_object.arity
    &&& a.function_object.name == b.function_object.name
    &&& a.function_object.upvalue_count == b.function_object.upvalue_count
}

/// More constants keep constant operands valid.
pub open spec fn operands_valid_grows(code: Seq<u8>, starts: Seq<int>, n1: int, n2: int) -> bool {
    n1 <= n2 && crate::chunk::operands_valid(code, starts, n1) ==> crate::chunk::operands_valid(
        code,
        starts,
        n2,
    )
}

proof fn lemma_extends_refl_here(code: Seq<u8>, starts: Seq<int>)
    ensures
        extends_code(code, starts, code, starts),
{
    super::compiler::lemma_extends_refl(code, starts);
}

} // verus!
