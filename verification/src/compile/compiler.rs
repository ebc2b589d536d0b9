#![verifier::loop_isolation(false)]

use super::codegen::{same_but_code, syntax_error, MAX_JUMP};
use super::{points_into, Identifier, FunctionKind, SyntaxError};
use crate::chunk::{
    copy_span, high_byte, instruction_bytes, low_byte, word_at,
    is_layout, operand_len, operands_valid, takes_constant, FunctionObject, MAX_CONSTANTS,
};
use crate::opcode::{byte_opcode, opcode_byte, OpCode};
use std::ops::Range;
use vstd::prelude::*;

verus! {

/// The largest number of local variables a function can have: their slots are 16-bit
/// words.
pub const MAX_LOCALS: usize = 65536;

/// Where a name refers to.
pub enum ResolvedVariable {
    Local(u16),
    Upvalue(u16),
    Global,
}

/// A local variable: its name, the depth of the scope that declares it, and whether its
/// initializer has been compiled.
pub struct Local {
    pub identifier: Identifier,
    pub depth: usize,
    pub initialized: bool,
}

/// A variable of an enclosing function that a function captures: a slot of the
/// directly enclosing function (`is_local`) or one of its upvalues.
#[derive(PartialEq, Eq, Clone, Copy, Structural)]
pub struct Upvalue {
    pub index: u16,
    pub is_local: bool,
}

/// The innermost loop being compiled: the number of locals when it started, the jumps
/// of its `break` statements that wait to be patched to its end, where `continue`
/// jumps, and the loop around it.
pub struct LoopContext {
    pub stack_depth_at_start: usize,
    pub break_patches: Vec<usize>,
    pub loop_start: usize,
    pub enclosing: Option<Box<LoopContext>>,
}

/// The state of compiling one function. `starts` records where its instructions begin.
pub struct Compiler {
    pub enclosing: Option<Box<Compiler>>,
    pub function_object: FunctionObject,
    pub upvalues: Vec<Upvalue>,
    pub locals: Vec<Local>,
    pub function_kind: FunctionKind,
    pub scope_depth: usize,
    pub loop_context: Option<LoopContext>,
    pub starts: Ghost<Seq<int>>,
}

// ---------------------------------------------------------------------------
// Specifications
// ---------------------------------------------------------------------------

/// The operand of a jump instruction (`Jump`, `JumpIfFalse`, `Loop`, ...) begins at `p`.
pub open spec fn is_jump_operand(code: Seq<u8>, starts: Seq<int>, p: int) -> bool {
    &&& starts.contains(p - 1)
    &&& operand_len(byte_opcode(code[p - 1])) == 2
    &&& !takes_constant(byte_opcode(code[p - 1]))
}

/// `code2` extends `code1`: it is no shorter, its layout begins with the layout of
/// `code1`, and the opcodes at those offsets are unchanged.
pub open spec fn extends_code(code1: Seq<u8>, starts1: Seq<int>, code2: Seq<u8>, starts2: Seq<int>) -> bool {
    &&& code1.len() <= code2.len()
    &&& starts1.len() <= starts2.len()
    &&& starts2.subrange(0, starts1.len() as int) == starts1
    &&& forall|k: int| 0 <= k < starts1.len() ==> code2[#[trigger] starts1[k]] == code1[starts1[k]]
}

/// A loop context (and those around it) fits the code: its start lies in the code and
/// its pending `break` jumps are jump operands.
pub open spec fn loop_wf(ctx: LoopContext, code: Seq<u8>, starts: Seq<int>) -> bool
    decreases ctx,
{
    &&& ctx.loop_start <= code.len()
    &&& forall|i: int|
        0 <= i < ctx.break_patches@.len() ==> is_jump_operand(
            code,
            starts,
            #[trigger] ctx.break_patches@[i] as int,
        )
    &&& match ctx.enclosing {
        Some(e) => loop_wf(*e, code, starts),
        None => true,
    }
}

/// The number of loop contexts in a chain.
pub open spec fn loop_depth(ctx: Option<LoopContext>) -> nat
    decreases ctx,
{
    match ctx {
        Some(c) => 1 + match c.enclosing {
            Some(e) => loop_depth(Some(*e)),
            None => 0nat,
        },
        None => 0,
    }
}

/// Whether `locals[i]` is the last local named `name`.
pub open spec fn is_last_local_named(locals: Seq<Local>, name: Seq<char>, i: int) -> bool {
    &&& 0 <= i < locals.len()
    &&& locals[i].identifier.name@ == name
    &&& forall|j: int| i < j < locals.len() ==> #[trigger] locals[j].identifier.name@ != name
}

/// A name has at most one last local named by it, and has one when some local is: so a
/// read of a variable and an assignment to it, which both go to the last local of that
/// name, use the same slot.
pub proof fn law_last_local_named_is_unique(locals: Seq<Local>, name: Seq<char>, i: int, j: int)
    ensures
        is_last_local_named(locals, name, i) && is_last_local_named(locals, name, j) ==> i == j,
        has_local_named(locals, name) ==> exists|k: int| #[trigger] is_last_local_named(locals, name, k),
{
    if has_local_named(locals, name) {
        let k = choose|k: int| 0 <= k < locals.len() && #[trigger] locals[k].identifier.name@ == name;
        lemma_last_named_from(locals, name, k);
    }
}

proof fn lemma_last_named_from(locals: Seq<Local>, name: Seq<char>, k: int)
    requires
        0 <= k < locals.len(),
        locals[k].identifier.name@ == name,
    ensures
        exists|m: int| #[trigger] is_last_local_named(locals, name, m),
    decreases locals.len() - k,
{
    if forall|j: int| k < j < locals.len() ==> #[trigger] locals[j].identifier.name@ != name {
        assert(is_last_local_named(locals, name, k));
    } else {
        let j = choose|j: int| k < j < locals.len() && #[trigger] locals[j].identifier.name@ == name;
        lemma_last_named_from(locals, name, j);
    }
}

/// Whether some local is named `name`.
pub open spec fn has_local_named(locals: Seq<Local>, name: Seq<char>) -> bool {
    exists|i: int| 0 <= i < locals.len() && #[trigger] locals[i].identifier.name@ == name
}

/// Whether a local named `name` is declared in the innermost scope (of depth `depth`):
/// some local with that name has only locals of that depth or deeper after it.
pub open spec fn declared_in_scope(locals: Seq<Local>, depth: usize, name: Seq<char>) -> bool {
    exists|i: int|
        0 <= i < locals.len() && #[trigger] locals[i].identifier.name@ == name && forall|j: int|
            i <= j < locals.len() ==> #[trigger] locals[j].depth >= depth
}

/// Whether a name resolves to a variable of some enclosing function: a local of one of
/// them.
pub open spec fn resolves_in_enclosing(c: Compiler, name: Seq<char>) -> bool
    decreases c,
{
    match c.enclosing {
        Some(e) => has_local_named(e.locals@, name) || resolves_in_enclosing(*e, name),
        None => false,
    }
}

/// The number of compilers in the chain of enclosing functions.
pub open spec fn chain_len(c: Compiler) -> nat
    decreases c,
{
    match c.enclosing {
        Some(e) => 1 + chain_len(*e),
        None => 0,
    }
}

/// `a` and `b` are the same but for the upvalues they capture.
pub open spec fn frozen_frame(a: Compiler, b: Compiler) -> bool {
    &&& a.function_object.chunk.code@ == b.function_object.chunk.code@
    &&& a.function_object.chunk.spans@ == b.function_object.chunk.spans@
    &&& a.function_object.chunk.constants@ == b.function_object.chunk.constants@
    &&& a.function_object.arity == b.function_object.arity
    &&& a.function_object.name == b.function_object.name
    &&& a.starts == b.starts
    &&& a.locals == b.locals
    &&& a.scope_depth == b.scope_depth
    &&& a.loop_context == b.loop_context
    &&& a.function_kind == b.function_kind
}

/// The functions that enclose `a` and `b` are the same but for the upvalues they
/// capture.
pub open spec fn chain_frozen(a: Compiler, b: Compiler) -> bool
    decreases a,
{
    match a.enclosing {
        Some(x) => match b.enclosing {
            Some(y) => frozen_frame(*x, *y) && chain_frozen(*x, *y),
            None => false,
        },
        None => b.enclosing is None,
    }
}

/// `n` copies of the opcode `Pop`.
pub open spec fn pops(n: int) -> Seq<u8> {
    Seq::new(n as nat, |i: int| opcode_byte(OpCode::Pop))
}

/// The number of locals a jump out of (or back into) the loop `ctx` pops when the
/// function has `n_locals` locals: those declared inside the loop.
pub open spec fn loop_locals(n_locals: int, ctx: LoopContext) -> int {
    if n_locals >= ctx.stack_depth_at_start {
        n_locals - ctx.stack_depth_at_start
    } else {
        0
    }
}

/// The code of `continue` in the loop `ctx`, appended to code of length `len` with
/// `n_locals` locals: a `Pop` for each local declared inside the loop, then a `Loop`
/// back to the loop's start.
pub open spec fn continue_code(len: int, n_locals: int, ctx: LoopContext) -> Seq<u8> {
    pops(loop_locals(n_locals, ctx)) + instruction_bytes(
        OpCode::Loop,
        (len + loop_locals(n_locals, ctx) + 3 - ctx.loop_start) as u16,
    )
}

/// `continue` leaves the stack as it was when the loop began and goes back to where the
/// loop starts: its code pops exactly the locals declared since then, one `Pop` each,
/// and ends with a `Loop` whose distance, counted from its end, leads to the loop's
/// start.
pub proof fn law_continue_pops_then_loops(len: int, n_locals: int, ctx: LoopContext)
    requires
        0 <= ctx.stack_depth_at_start <= n_locals,
        0 <= ctx.loop_start <= len,
        len + n_locals - ctx.stack_depth_at_start + 3 - ctx.loop_start <= u16::MAX,
    ensures
        continue_code(len, n_locals, ctx).len() == n_locals - ctx.stack_depth_at_start + 3,
        forall|i: int|
            0 <= i < n_locals - ctx.stack_depth_at_start ==> #[trigger] continue_code(len, n_locals, ctx)[i]
                == opcode_byte(OpCode::Pop),
        continue_code(len, n_locals, ctx)[n_locals - ctx.stack_depth_at_start] == opcode_byte(OpCode::Loop),
        ({
            let code = continue_code(len, n_locals, ctx);
            let end = len + code.len();
            end - word_at(code, n_locals - ctx.stack_depth_at_start + 1) == ctx.loop_start
        }),
{
    let d = n_locals - ctx.stack_depth_at_start;
    let w = (len + d + 3 - ctx.loop_start) as u16;
    let code = continue_code(len, n_locals, ctx);
    assert(code[d] == opcode_byte(OpCode::Loop));
    assert(code[d + 1] == low_byte(w));
    assert(code[d + 2] == high_byte(w));
    assert((w % 256) as u8 + 256 * ((w / 256) as u8) == w) by (nonlinear_arith);
}

impl Compiler {
    pub open spec fn code(self) -> Seq<u8> {
        self.function_object.chunk.code@
    }

    pub open spec fn spans(self) -> Seq<Range<usize>> {
        self.function_object.chunk.spans@
    }

    pub open spec fn n_constants(self) -> int {
        self.function_object.chunk.constants@.len() as int
    }

    /// The compiler of this function is consistent with a source of `n` characters: one
    /// span per byte, each within the source; the code decodes along `starts` into real
    /// instructions with valid constant operands; the limits on constants and locals
    /// hold; the upvalue count matches; and the loop contexts fit the code.
    pub open spec fn frame_wf(self, n: int) -> bool {
        &&& self.code().len() == self.spans().len()
        &&& forall|i: int|
            0 <= i < self.spans().len() ==> #[trigger] self.spans()[i].start <= self.spans()[i].end
                <= n
        &&& is_layout(self.code(), self.starts@)
        &&& operands_valid(self.code(), self.starts@, self.n_constants())
        &&& self.n_constants() <= MAX_CONSTANTS
        &&& self.locals@.len() <= MAX_LOCALS
        &&& self.upvalues@.len() == self.function_object.upvalue_count
        &&& match self.loop_context {
            Some(ctx) => loop_wf(ctx, self.code(), self.starts@),
            None => true,
        }
    }

    /// This compiler and every enclosing one are consistent.
    pub open spec fn wf(self, n: int) -> bool
        decreases self,
    {
        &&& self.frame_wf(n)
        &&& match self.enclosing {
            Some(e) => e.wf(n),
            None => true,
        }
    }

    /// `new` continues `old`: its code extends the old code, scopes and loops were only
    /// entered (never left more than entered), the chain of enclosing functions, the
    /// kind and the name of the function are the same, and the arity of a script stays.
    pub open spec fn continues(old: Compiler, new: Compiler) -> bool {
        &&& extends_code(old.code(), old.starts@, new.code(), new.starts@)
        &&& old.scope_depth <= new.scope_depth
        &&& loop_depth(old.loop_context) <= loop_depth(new.loop_context)
        &&& chain_frozen(old, new)
        &&& old.function_kind == new.function_kind
        &&& old.n_constants() <= new.n_constants()
        &&& old.function_object.name == new.function_object.name
        &&& (old.function_kind == FunctionKind::Script ==> old.function_object.arity
            == new.function_object.arity)
    }
}

// ---------------------------------------------------------------------------
// Lemmas
// ---------------------------------------------------------------------------

pub proof fn lemma_wf_unfold(c: Compiler, n: int)
    requires
        c.wf(n),
    ensures
        c.frame_wf(n),
        c.enclosing matches Some(e) ==> e.wf(n),
{
}

pub proof fn lemma_wf_fold(c: Compiler, n: int)
    requires
        c.frame_wf(n),
        c.enclosing matches Some(e) ==> e.wf(n),
    ensures
        c.wf(n),
{
}

pub proof fn lemma_chain_frozen_same(a: Compiler, b: Compiler)
    requires
        a.enclosing == b.enclosing,
    ensures
        chain_frozen(a, b),
    decreases a,
{
    match a.enclosing {
        Some(x) => {
            lemma_chain_frozen_same(*x, *x);
        },
        None => {},
    }
}

pub proof fn lemma_chain_frozen_trans(a: Compiler, b: Compiler, c: Compiler)
    requires
        chain_frozen(a, b),
        chain_frozen(b, c),
    ensures
        chain_frozen(a, c),
    decreases a,
{
    match a.enclosing {
        Some(x) => {
            let y = *b.enclosing->0;
            let z = *c.enclosing->0;
            lemma_chain_frozen_trans(*x, y, z);
        },
        None => {},
    }
}

pub proof fn lemma_extends_refl(code: Seq<u8>, starts: Seq<int>)
    ensures
        extends_code(code, starts, code, starts),
{
    assert(starts.subrange(0, starts.len() as int) =~= starts);
}

pub proof fn lemma_extends_trans(
    c1: Seq<u8>,
    s1: Seq<int>,
    c2: Seq<u8>,
    s2: Seq<int>,
    c3: Seq<u8>,
    s3: Seq<int>,
)
    requires
        extends_code(c1, s1, c2, s2),
        extends_code(c2, s2, c3, s3),
    ensures
        extends_code(c1, s1, c3, s3),
{
    assert forall|k: int| 0 <= k < s1.len() implies c3[#[trigger] s1[k]] == c1[s1[k]] by {
        assert(s2.subrange(0, s1.len() as int)[k] == s1[k]);
        assert(s2[k] == s1[k]);
    }
    assert(s3.subrange(0, s1.len() as int) =~= s1) by {
        assert forall|k: int| 0 <= k < s1.len() implies s3.subrange(0, s1.len() as int)[k] == s1[k] by {
            assert(s3.subrange(0, s2.len() as int)[k] == s2[k]);
            assert(s2.subrange(0, s1.len() as int)[k] == s1[k]);
        }
    }
}

pub proof fn lemma_jump_operand_extends(c1: Seq<u8>, s1: Seq<int>, c2: Seq<u8>, s2: Seq<int>, p: int)
    requires
        is_jump_operand(c1, s1, p),
        extends_code(c1, s1, c2, s2),
    ensures
        is_jump_operand(c2, s2, p),
{
    let k = choose|k: int| 0 <= k < s1.len() && s1[k] == p - 1;
    assert(s2.subrange(0, s1.len() as int)[k] == s1[k]);
    assert(s2[k] == p - 1);
    assert(c2[s1[k]] == c1[s1[k]]);
}

pub proof fn lemma_loop_wf_extends(ctx: LoopContext, c1: Seq<u8>, s1: Seq<int>, c2: Seq<u8>, s2: Seq<int>)
    requires
        loop_wf(ctx, c1, s1),
        extends_code(c1, s1, c2, s2),
    ensures
        loop_wf(ctx, c2, s2),
    decreases ctx,
{
    assert forall|i: int| 0 <= i < ctx.break_patches@.len() implies is_jump_operand(
        c2,
        s2,
        #[trigger] ctx.break_patches@[i] as int,
    ) by {
        lemma_jump_operand_extends(c1, s1, c2, s2, ctx.break_patches@[i] as int);
    }
    match ctx.enclosing {
        Some(e) => lemma_loop_wf_extends(*e, c1, s1, c2, s2),
        None => {},
    }
}

/// Appending an instruction extends the code.
pub proof fn lemma_append_extends(code: Seq<u8>, starts: Seq<int>, bytes: Seq<u8>)
    requires
        forall|k: int| 0 <= k < starts.len() ==> 0 <= #[trigger] starts[k] < code.len(),
    ensures
        extends_code(code, starts, code + bytes, starts.push(code.len() as int)),
{
    assert(starts.push(code.len() as int).subrange(0, starts.len() as int) =~= starts);
}


// ---------------------------------------------------------------------------
// The compiler of one function
// ---------------------------------------------------------------------------

impl Compiler {
    pub fn new(function_object: FunctionObject, function_kind: FunctionKind) -> (r: Compiler)
        requires
            function_object.chunk.code@.len() == 0,
            function_object.chunk.spans@.len() == 0,
            function_object.chunk.constants@.len() == 0,
            function_object.upvalue_count == 0,
        ensures
            r.function_object == function_object,
            r.function_kind == function_kind,
            r.enclosing is None,
            r.upvalues@.len() == 0,
            r.locals@.len() == 0,
            r.scope_depth == 0,
            r.loop_context is None,
            r.starts@ == Seq::<int>::empty(),
            forall|n: int| #[trigger] r.wf(n),
    {
        let r = Compiler {
            enclosing: None,
            function_object,
            function_kind,
            scope_depth: 0,
            loop_context: None,
            locals: Vec::new(),
            upvalues: Vec::new(),
            starts: Ghost(Seq::empty()),
        };
        assert forall|n: int| #[trigger] r.wf(n) by {
            assert(r.frame_wf(n));
        }
        r
    }

    pub fn is_top_level_code(&self) -> (r: bool)
        ensures
            r == (self.function_kind == FunctionKind::Script),
    {
        match self.function_kind {
            FunctionKind::Script => true,
            FunctionKind::Function => false,
        }
    }

    pub fn is_global_scope(&self) -> (r: bool)
        ensures
            r == (self.scope_depth == 0),
    {
        self.scope_depth == 0
    }

    pub fn stack_depth(&self) -> (r: usize)
        ensures
            r == self.locals@.len(),
    {
        self.locals.len()
    }

    /// Where `identifier` refers to: the last local of that name (an error if its
    /// initializer is still being compiled), else a variable of an enclosing function
    /// (captured as an upvalue), else a global.
    pub fn resolve_variable(&mut self, identifier: &Identifier, Ghost(n): Ghost<int>) -> (r: Result<
        ResolvedVariable,
        SyntaxError,
    >)
        requires
            old(self).wf(n),
            identifier.span.start <= identifier.span.end <= n,
        ensures
            r matches Err(e) ==> points_into(e, n),
            final(self).wf(n),
            Compiler::continues(*old(self), *final(self)),
            final(self).code() == old(self).code(),
            final(self).starts == old(self).starts,
            final(self).function_object.chunk.constants@ == old(self).function_object.chunk.constants@,
            final(self).locals == old(self).locals,
            r matches Err(e) ==> e.message@ == "Can't read local variable in its own initializer."@,
            r matches Err(e) ==> e.span == identifier.span,
            r is Err ==> exists|i: int|
                is_last_local_named(old(self).locals@, identifier.name@, i) && !old(
                    self,
                ).locals@[i].initialized,
            final(self).scope_depth == old(self).scope_depth,
            final(self).loop_context == old(self).loop_context,
            forall|i: int|
                is_last_local_named(old(self).locals@, identifier.name@, i) ==> if old(
                    self,
                ).locals@[i].initialized {
                    r == Ok::<ResolvedVariable, SyntaxError>(ResolvedVariable::Local(i as u16))
                } else {
                    r is Err
                },
            !has_local_named(old(self).locals@, identifier.name@) ==> {
                &&& r is Ok
                &&& (r->Ok_0 is Upvalue <==> resolves_in_enclosing(*old(self), identifier.name@))
                &&& (r->Ok_0 is Global <==> !resolves_in_enclosing(*old(self), identifier.name@))
            },
    {
        let mut i = self.locals.len();
        while i > 0
            invariant
                0 <= i <= self.locals@.len(),
                self.locals@.len() <= MAX_LOCALS,
                forall|j: int| i <= j < self.locals@.len() ==> #[trigger] self.locals@[j].identifier.name@
                    != identifier.name@,
            decreases i,
        {
            i = i - 1;
            let local = &self.locals[i];
            if *local.identifier.name == *identifier.name {
                proof {
                    lemma_extends_refl(self.code(), self.starts@);
                    lemma_chain_frozen_same(*self, *self);
                    assert(is_last_local_named(self.locals@, identifier.name@, i as int));
                    assert forall|k: int| is_last_local_named(self.locals@, identifier.name@, k) implies k == i by {
                        if k < i {
                            assert(self.locals@[i as int].identifier.name@ == identifier.name@);
                        }
                    }
                }
                if !local.initialized {
                    return Err(
                        syntax_error(
                            "Can't read local variable in its own initializer.",
                            copy_span(&identifier.span),
                        ),
                    );
                } else {
                    return Ok(ResolvedVariable::Local(i as u16));
                }
            }
        }
        proof {
            assert(!has_local_named(self.locals@, identifier.name@));
        }
        match self.resolve_upvalue(identifier, Ghost(n)) {
            Some(index) => Ok(ResolvedVariable::Upvalue(index)),
            None => Ok(ResolvedVariable::Global),
        }
    }

    /// Captures a variable of an enclosing function: a local of the directly enclosing
    /// function (the first of that name), or else, recursively, a variable that the
    /// enclosing function captures. Returns the index of the upvalue.
    fn resolve_upvalue(&mut self, identifier: &Identifier, Ghost(n): Ghost<int>) -> (r: Option<u16>)
        requires
            old(self).wf(n),
        ensures
            final(self).wf(n),
            Compiler::continues(*old(self), *final(self)),
            final(self).code() == old(self).code(),
            final(self).locals == old(self).locals,
            final(self).scope_depth == old(self).scope_depth,
            final(self).loop_context == old(self).loop_context,
            final(self).function_kind == old(self).function_kind,
            final(self).function_object.chunk.spans@ == old(self).function_object.chunk.spans@,
            final(self).function_object.chunk.constants@ == old(self).function_object.chunk.constants@,
            final(self).starts == old(self).starts,
            final(self).function_object.arity == old(self).function_object.arity,
            final(self).function_object.name == old(self).function_object.name,
            chain_frozen(*old(self), *final(self)),
            r is Some <==> resolves_in_enclosing(*old(self), identifier.name@),
            r matches Some(u) ==> is_upvalue_slot(final(self).upvalues@, u),
        decreases chain_len(*old(self)),
    {
        if self.enclosing.is_none() {
            proof {
                lemma_extends_refl(self.code(), self.starts@);
            }
            return None;
        }
        proof {
            lemma_chain_frozen_same(*self, *self);
        }
        let boxed = self.enclosing.take().unwrap();
        let mut enclosing: Compiler = *boxed;
        let ghost e0 = enclosing;
        proof {
            lemma_wf_unfold(*old(self), n);
            lemma_wf_unfold(enclosing, n);
        }
        let ghost s1 = *self;
        let mut i: usize = 0;
        while i < enclosing.locals.len()
            invariant
                0 <= i <= enclosing.locals@.len(),
                enclosing == e0,
                *self == s1,
                enclosing.locals@.len() <= MAX_LOCALS,
                forall|j: int| 0 <= j < i ==> #[trigger] enclosing.locals@[j].identifier.name@
                    != identifier.name@,
            decreases enclosing.locals@.len() - i,
        {
            if *enclosing.locals[i].identifier.name == *identifier.name {
                assert(e0.locals@[i as int].identifier.name@ == identifier.name@);
                assert(has_local_named(e0.locals@, identifier.name@));
                self.enclosing = Some(Box::new(enclosing));
                proof {
                    lemma_wf_fold(*self, n);
                }
                let index = self.add_upvalue(Upvalue { index: i as u16, is_local: true }, Ghost(n));
                proof {
                    lemma_extends_refl(self.code(), self.starts@);
                    lemma_chain_frozen_same(*old(self), *self);
                }
                return Some(index);
            }
            i = i + 1;
        }
        proof {
            assert(!has_local_named(e0.locals@, identifier.name@));
        }
        assert(self.frame_wf(n));
        let res = enclosing.resolve_upvalue(identifier, Ghost(n));
        let ghost e1 = enclosing;
        self.enclosing = Some(Box::new(enclosing));
        proof {
            assert(chain_len(*self) == 1 + chain_len(e1));
            assert(chain_len(*old(self)) == 1 + chain_len(e0));
            lemma_wf_fold(*self, n);
            lemma_extends_refl(self.code(), self.starts@);
            assert(frozen_frame(e0, e1));
            assert(chain_frozen(*old(self), *self));
        }
        match res {
            Some(u) => {
                let ghost before = *self;
                let index = self.add_upvalue(Upvalue { index: u, is_local: false }, Ghost(n));
                assert(chain_len(*self) == 1 + chain_len(e1));
                proof {
                    lemma_chain_frozen_same(before, *self);
                    lemma_chain_frozen_trans(*old(self), before, *self);
                }
                Some(index)
            },
            None => None,
        }
    }

    /// The index of `new_upvalue` among the upvalues, adding it if it is not there.
    fn add_upvalue(&mut self, new_upvalue: Upvalue, Ghost(n): Ghost<int>) -> (r: u16)
        requires
            old(self).wf(n),
        ensures
            final(self).wf(n),
            final(self).enclosing == old(self).enclosing,
            final(self).code() == old(self).code(),
            final(self).locals == old(self).locals,
            final(self).scope_depth == old(self).scope_depth,
            final(self).loop_context == old(self).loop_context,
            final(self).function_kind == old(self).function_kind,
            final(self).function_object.chunk.spans@ == old(self).function_object.chunk.spans@,
            final(self).function_object.chunk.constants@ == old(self).function_object.chunk.constants@,
            final(self).starts == old(self).starts,
            final(self).function_object.arity == old(self).function_object.arity,
            final(self).function_object.name == old(self).function_object.name,
            old(self).upvalues@.contains(new_upvalue) ==> final(self).upvalues@ == old(self).upvalues@,
            !old(self).upvalues@.contains(new_upvalue) ==> final(self).upvalues@ == old(
                self,
            ).upvalues@.push(new_upvalue),
            exists|k: int|
                0 <= k < final(self).upvalues@.len() && #[trigger] final(self).upvalues@[k] == new_upvalue && r
                    == slot_word(k),
    {
        let mut i: usize = 0;
        while i < self.upvalues.len()
            invariant
                0 <= i <= self.upvalues@.len(),
                forall|j: int| 0 <= j < i ==> self.upvalues@[j] != new_upvalue,
            decreases self.upvalues@.len() - i,
        {
            if self.upvalues[i] == new_upvalue {
                assert(self.upvalues@[i as int] == new_upvalue);
                assert(slot_word(i as int) == i as u16);
                return i as u16;
            }
            i = i + 1;
        }
        self.upvalues.push(new_upvalue);
        self.function_object.upvalue_count = self.upvalues.len();
        proof {
            lemma_wf_unfold(*old(self), n);
            lemma_wf_fold(*self, n);
            let k = self.upvalues@.len() - 1;
            assert(self.upvalues@[k] == new_upvalue);
            assert(slot_word(k) == (self.upvalues.len() - 1) as u16);
        }
        (self.upvalues.len() - 1) as u16
    }

    /// Declares a local variable in the innermost scope and returns its slot; an error if
    /// the scope already declares that name, or if the function has no slot left.
    pub fn add_local(&mut self, identifier: &Identifier, Ghost(n): Ghost<int>) -> (r: Result<usize, SyntaxError>)
        requires
            old(self).wf(n),
            identifier.span.start <= identifier.span.end <= n,
        ensures
            r matches Err(e) ==> points_into(e, n),
            final(self).wf(n),
            same_but_locals(*old(self), *final(self)),
            declared_in_scope(old(self).locals@, old(self).scope_depth, identifier.name@) ==> r is Err
                && final(self).locals == old(self).locals,
            declared_in_scope(old(self).locals@, old(self).scope_depth, identifier.name@) ==> (r matches Err(
                e,
            ) && e.message@ == "Already a variable with this name in this scope."@ && e.span
                == identifier.span),
            !declared_in_scope(old(self).locals@, old(self).scope_depth, identifier.name@)
                && old(self).locals@.len() >= MAX_LOCALS ==> (r matches Err(e) && e.message@
                == "Too many local variables in function."@ && e.span == identifier.span),
            !declared_in_scope(old(self).locals@, old(self).scope_depth, identifier.name@)
                && old(self).locals@.len() >= MAX_LOCALS ==> r is Err && final(self).locals == old(
                self,
            ).locals,
            !declared_in_scope(old(self).locals@, old(self).scope_depth, identifier.name@)
                && old(self).locals@.len() < MAX_LOCALS ==> r == Ok::<usize, SyntaxError>(
                old(self).locals@.len() as usize,
            ) && final(self).locals@ == old(self).locals@.push(
                Local { identifier: *identifier, depth: old(self).scope_depth, initialized: false },
            ),
    {
        let mut i = self.locals.len();
        while i > 0
            invariant
                0 <= i <= self.locals@.len(),
                forall|j: int| #![trigger self.locals@[j]]
                    i <= j < self.locals@.len() ==> self.locals@[j].depth >= self.scope_depth
                        && self.locals@[j].identifier.name@ != identifier.name@,
            decreases i,
        {
            let local = &self.locals[i - 1];
            if local.depth < self.scope_depth {
                proof {
                    assert forall|k: int| 0 <= k < self.locals@.len() && #[trigger] self.locals@[k].identifier.name@ == identifier.name@
                        implies !(forall|j: int| k <= j < self.locals@.len() ==> #[trigger] self.locals@[j].depth >= self.scope_depth) by {
                        if k >= i {
                            assert(self.locals@[k].identifier.name@ != identifier.name@);
                        } else {
                            assert(!(self.locals@[i - 1].depth >= self.scope_depth));
                        }
                    }
                }
                break;
            }
            if *local.identifier.name == *identifier.name {
                proof {
                    assert(self.locals@[i - 1].identifier.name@ == identifier.name@);
                }
                return Err(
                    syntax_error(
                        "Already a variable with this name in this scope.",
                        copy_span(&identifier.span),
                    ),
                );
            }
            i = i - 1;
        }
        assert(!declared_in_scope(self.locals@, self.scope_depth, identifier.name@)) by {
            if i == 0 {
                assert forall|k: int| 0 <= k < self.locals@.len() implies #[trigger] self.locals@[k].identifier.name@
                    != identifier.name@ by {
                    assert(self.locals@[k].identifier.name@ != identifier.name@);
                }
            }
        }
        if self.locals.len() < MAX_LOCALS {
            let local = Local { identifier: identifier.duplicate(), depth: self.scope_depth, initialized: false };
            self.locals.push(local);
            proof {
                lemma_wf_unfold(*old(self), n);
                lemma_wf_fold(*self, n);
            }
            Ok(self.locals.len() - 1)
        } else {
            Err(syntax_error("Too many local variables in function.", copy_span(&identifier.span)))
        }
    }

    /// Marks the local in slot `local_index` as initialized.
    pub fn initialize_local(&mut self, local_index: usize, Ghost(n): Ghost<int>)
        requires
            old(self).wf(n),
            local_index < old(self).locals@.len(),
        ensures
            final(self).wf(n),
            same_but_locals(*old(self), *final(self)),
            final(self).locals@ == old(self).locals@.update(
                local_index as int,
                Local {
                    identifier: old(self).locals@[local_index as int].identifier,
                    depth: old(self).locals@[local_index as int].depth,
                    initialized: true,
                },
            ),
    {
        let local = &self.locals[local_index];
        let updated = Local { identifier: local.identifier.duplicate(), depth: local.depth, initialized: true };
        self.locals.set(local_index, updated);
        proof {
            lemma_wf_unfold(*old(self), n);
            lemma_wf_fold(*self, n);
        }
    }

    /// Declares the slot of the called function itself: a local with the empty name.
    pub fn reserve_first_stack_slot(&mut self, Ghost(n): Ghost<int>)
        requires
            old(self).wf(n),
            0 <= n,
            old(self).locals@.len() == 0,
        ensures
            final(self).wf(n),
            same_but_locals(*old(self), *final(self)),
            final(self).locals@.len() == 1,
            final(self).locals@[0].identifier.name@ == Seq::<char>::empty(),
            final(self).locals@[0].depth == old(self).scope_depth,
            !final(self).locals@[0].initialized,
    {
        let empty = Identifier::empty();
        match self.add_local(&empty, Ghost(n)) {
            Ok(_) => {},
            Err(_) => {},
        }
    }

    pub fn begin_scope(&mut self)
        requires
            old(self).scope_depth < usize::MAX,
        ensures
            final(self).scope_depth == old(self).scope_depth + 1,
            final(self).enclosing == old(self).enclosing,
            final(self).function_object == old(self).function_object,
            final(self).upvalues == old(self).upvalues,
            final(self).locals == old(self).locals,
            final(self).function_kind == old(self).function_kind,
            final(self).loop_context == old(self).loop_context,
            final(self).starts == old(self).starts,
    {
        self.scope_depth = self.scope_depth + 1;
    }

    /// Leaves the innermost scope: its locals are removed and popped off the stack.
    pub fn end_scope(&mut self, span: &Range<usize>, Ghost(n): Ghost<int>)
        requires
            old(self).wf(n),
            old(self).scope_depth >= 1,
            span.start <= span.end <= n,
        ensures
            final(self).wf(n),
            final(self).scope_depth == old(self).scope_depth - 1,
            final(self).locals@.len() <= old(self).locals@.len(),
            final(self).locals@ == old(self).locals@.take(final(self).locals@.len() as int),
            forall|j: int|
                final(self).locals@.len() <= j < old(self).locals@.len() ==> #[trigger] old(
                    self,
                ).locals@[j].depth == old(self).scope_depth,
            final(self).locals@.len() > 0 ==> old(self).locals@[final(self).locals@.len() - 1].depth
                != old(self).scope_depth,
            final(self).code() == old(self).code() + pops(
                old(self).locals@.len() - final(self).locals@.len(),
            ),
            extends_code(old(self).code(), old(self).starts@, final(self).code(), final(self).starts@),
            final(self).enclosing == old(self).enclosing,
            final(self).upvalues == old(self).upvalues,
            final(self).function_kind == old(self).function_kind,
            final(self).loop_context == old(self).loop_context,
            final(self).function_object.chunk.constants@ == old(self).function_object.chunk.constants@,
            final(self).function_object.arity == old(self).function_object.arity,
            final(self).function_object.name == old(self).function_object.name,
    {
        let ghost c0 = self.code();
        let ghost s0 = self.starts@;
        proof {
            lemma_extends_refl(c0, s0);
            assert(c0 + pops(0) =~= c0);
            assert(self.locals@ == self.locals@.take(self.locals@.len() as int));
        }
        while self.locals.len() > 0 && self.locals[self.locals.len() - 1].depth == self.scope_depth
            invariant
                self.wf(n),
                self.scope_depth == old(self).scope_depth,
                span.start <= span.end <= n,
                self.locals@ == old(self).locals@.take(self.locals@.len() as int),
                self.locals@.len() <= old(self).locals@.len(),
                forall|j: int|
                    self.locals@.len() <= j < old(self).locals@.len() ==> #[trigger] old(
                        self,
                    ).locals@[j].depth == old(self).scope_depth,
                self.code() == c0 + pops(old(self).locals@.len() - self.locals@.len()),
                extends_code(c0, s0, self.code(), self.starts@),
                self.enclosing == old(self).enclosing,
                self.upvalues == old(self).upvalues,
                self.function_kind == old(self).function_kind,
                self.loop_context == old(self).loop_context,
                self.function_object.chunk.constants@ == old(self).function_object.chunk.constants@,
                self.function_object.arity == old(self).function_object.arity,
                self.function_object.name == old(self).function_object.name,
            decreases self.locals@.len(),
        {
            let ghost c1 = self.code();
            let ghost s1 = self.starts@;
            let ghost k = old(self).locals@.len() - self.locals@.len();
            proof {
                lemma_wf_unfold(*self, n);
            }
            self.locals.pop();
            proof {
                assert(self.locals@ =~= old(self).locals@.take(self.locals@.len() as int));
                lemma_wf_fold(*self, n);
            }
            self.emit_byte(OpCode::Pop, copy_span(span), Ghost(n));
            proof {
                lemma_extends_trans(c0, s0, c1, s1, self.code(), self.starts@);
                assert(c0 + pops(k) + seq![opcode_byte(OpCode::Pop)] =~= c0 + pops(k + 1));
            }
        }
        proof {
            let m = self.locals@.len();
            if m > 0 {
                assert(self.locals@[m - 1] == old(self).locals@[m - 1]);
            }
            lemma_wf_unfold(*self, n);
        }
        let ghost before = *self;
        self.scope_depth = self.scope_depth - 1;
        proof {
            assert(self.frame_wf(n) == before.frame_wf(n));
            lemma_wf_fold(*self, n);
        }
    }

    pub fn is_inside_loop(&self) -> (r: bool)
        ensures
            r == (self.loop_context is Some),
    {
        self.loop_context.is_some()
    }

    /// Starts compiling a loop whose `continue` jumps to `loop_start`.
    pub fn enter_loop_context(&mut self, loop_start: usize, Ghost(n): Ghost<int>)
        requires
            old(self).wf(n),
            loop_start <= old(self).code().len(),
        ensures
            final(self).wf(n),
            same_but_loops(*old(self), *final(self)),
            final(self).loop_context matches Some(ctx) && {
                &&& ctx.stack_depth_at_start == old(self).locals@.len()
                &&& ctx.break_patches@ == Seq::<usize>::empty()
                &&& ctx.loop_start == loop_start
                &&& ctx.enclosing == match old(self).loop_context {
                    Some(c) => Some(Box::new(c)),
                    None => None::<Box<LoopContext>>,
                }
            },
            loop_depth(final(self).loop_context) == loop_depth(old(self).loop_context) + 1,
    {
        let enclosing = match self.loop_context.take() {
            Some(c) => Some(Box::new(c)),
            None => None,
        };
        let new_context = LoopContext {
            stack_depth_at_start: self.locals.len(),
            break_patches: Vec::new(),
            loop_start,
            enclosing,
        };
        self.loop_context = Some(new_context);
    }

    /// Ends the innermost loop: its `break` jumps are patched to the end of the code,
    /// and the loop around it becomes the innermost one.
    #[verifier::spinoff_prover]
    #[verifier::rlimit(40)]
    pub fn exit_loop_context(&mut self, Ghost(n): Ghost<int>) -> (r: Result<(), SyntaxError>)
        requires
            old(self).wf(n),
            old(self).loop_context is Some,
        ensures
            r matches Err(e) ==> points_into(e, n),
            final(self).wf(n),
            same_but_loops_and_code(*old(self), *final(self)),
            extends_code(old(self).code(), old(self).starts@, final(self).code(), final(self).starts@),
            final(self).code().len() == old(self).code().len(),
            final(self).loop_context == match old(self).loop_context->0.enclosing {
                Some(b) => Some(*b),
                None => None::<LoopContext>,
            },
            loop_depth(final(self).loop_context) + 1 == loop_depth(old(self).loop_context),
            r matches Err(e) ==> e.message@ == "Too much code to jump over."@,
            r is Err ==> final(self).code().len() > MAX_JUMP,
            r is Ok ==> forall|i: int|
                0 <= i < old(self).loop_context->0.break_patches@.len() ==> word_at(
                    final(self).code(),
                    #[trigger] old(self).loop_context->0.break_patches@[i] as int,
                ) == final(self).code().len() - old(self).loop_context->0.break_patches@[i] - 2,
            r is Ok ==> forall|b: int|
                0 <= b < final(self).code().len() && !patched_at(old(self).loop_context->0.break_patches@, b)
                    ==> #[trigger] final(self).code()[b] == old(self).code()[b],
    {
        let ctx = self.loop_context.take().unwrap();
        let ghost c0 = self.code();
        let ghost s0 = self.starts@;
        proof {
            lemma_extends_refl(c0, s0);
        }
        self.loop_context = match ctx.enclosing {
            Some(b) => Some(*b),
            None => None,
        };
        let mut i: usize = 0;
        while i < ctx.break_patches.len()
            invariant
                self.wf(n),
                loop_wf(ctx, c0, s0),
                extends_code(c0, s0, self.code(), self.starts@),
                self.code().len() == c0.len(),
                self.starts@ == s0,
                same_but_loops_and_code(*old(self), *self),
                self.loop_context == match old(self).loop_context->0.enclosing {
                    Some(b) => Some(*b),
                    None => None::<LoopContext>,
                },
                ctx == old(self).loop_context->0,
                0 <= i <= ctx.break_patches@.len(),
                forall|j: int|
                    0 <= j < i ==> word_at(self.code(), #[trigger] ctx.break_patches@[j] as int)
                        == self.code().len() - ctx.break_patches@[j] - 2,
                forall|b: int|
                    0 <= b < c0.len() && !patched_at(ctx.break_patches@.take(i as int), b) ==> #[trigger] self.code()[b]
                        == c0[b],
            decreases ctx.break_patches@.len() - i,
        {
            let offset = ctx.break_patches[i];
            let ghost c1 = self.code();
            proof {
                lemma_jump_operand_extends(c0, s0, c1, s0, offset as int);
            }
            match self.patch_jump(offset, Ghost(n)) {
                Ok(()) => {},
                Err(e) => {
                    return Err(e);
                },
            }
            proof {
                assert forall|b: int|
                    0 <= b < c0.len() && !patched_at(ctx.break_patches@.take(i + 1), b) implies #[trigger] self.code()[b]
                        == c0[b] by {
                    assert(ctx.break_patches@.take(i + 1)[i as int] == offset);
                    if patched_at(ctx.break_patches@.take(i as int), b) {
                        let j = choose|j: int| 0 <= j < ctx.break_patches@.take(i as int).len() && (b
                            == #[trigger] ctx.break_patches@.take(i as int)[j] || b == ctx.break_patches@.take(i as int)[j] + 1);
                        assert(ctx.break_patches@.take(i + 1)[j] == ctx.break_patches@.take(i as int)[j]);
                    }
                }
                lemma_extends_trans(c0, s0, c1, s0, self.code(), s0);
                assert forall|j: int| 0 <= j < i + 1 implies word_at(
                    self.code(),
                    #[trigger] ctx.break_patches@[j] as int,
                ) == self.code().len() - ctx.break_patches@[j] - 2 by {
                    if j < i {
                        let p = ctx.break_patches@[j] as int;
                        lemma_jump_operand_extends(c0, s0, c1, s0, p);
                        lemma_operands_disjoint(c1, s0, p, offset as int);
                    }
                }
            }
            i = i + 1;
        }
        assert(ctx.break_patches@.take(i as int) =~= ctx.break_patches@);
        Ok(())
    }

    /// Compiles `break`: pops the locals of the loop body and jumps to the loop's end
    /// (the jump is patched when the loop ends).
    pub fn compile_break(&mut self, span: Range<usize>, Ghost(n): Ghost<int>)
        requires
            old(self).wf(n),
            old(self).loop_context is Some,
            span.start <= span.end <= n,
        ensures
            final(self).wf(n),
            same_but_loops_and_code(*old(self), *final(self)),
            extends_code(old(self).code(), old(self).starts@, final(self).code(), final(self).starts@),
            ({
                let ctx = old(self).loop_context->0;
                let delta = if old(self).locals@.len() >= ctx.stack_depth_at_start {
                    old(self).locals@.len() - ctx.stack_depth_at_start
                } else {
                    0
                };
                &&& final(self).code() == old(self).code() + pops(delta) + instruction_bytes(
                    OpCode::Jump,
                    0xffff,
                )
                &&& final(self).loop_context matches Some(c) && c.stack_depth_at_start
                    == ctx.stack_depth_at_start && c.loop_start == ctx.loop_start && c.enclosing
                    == ctx.enclosing && c.break_patches@ == ctx.break_patches@.push(
                    (old(self).code().len() + delta + 1) as usize,
                )
            }),
            loop_depth(final(self).loop_context) == loop_depth(old(self).loop_context),
    {
        let ghost c0 = self.code();
        let ghost s0 = self.starts@;
        let mut ctx = self.loop_context.take().unwrap();
        let ghost ctx0 = ctx;
        let depth = self.stack_depth();
        let delta_depth = if depth >= ctx.stack_depth_at_start {
            depth - ctx.stack_depth_at_start
        } else {
            0
        };
        let mut k: usize = 0;
        proof {
            lemma_extends_refl(c0, s0);
            assert(c0 + pops(0) =~= c0);
        }
        while k < delta_depth
            invariant
                self.wf(n),
                self.loop_context is None,
                same_but_loops_and_code(*old(self), *self),
                span.start <= span.end <= n,
                0 <= k <= delta_depth,
                self.code() == c0 + pops(k as int),
                extends_code(c0, s0, self.code(), self.starts@),
            decreases delta_depth - k,
        {
            let ghost c1 = self.code();
            let ghost s1 = self.starts@;
            self.emit_byte(OpCode::Pop, copy_span(&span), Ghost(n));
            proof {
                lemma_extends_trans(c0, s0, c1, s1, self.code(), self.starts@);
                assert(c0 + pops(k as int) + seq![opcode_byte(OpCode::Pop)] =~= c0 + pops(k + 1));
            }
            k = k + 1;
        }
        let ghost c1 = self.code();
        let ghost s1 = self.starts@;
        let jump = self.emit_jump(OpCode::Jump, span, Ghost(n));
        proof {
            lemma_extends_trans(c0, s0, c1, s1, self.code(), self.starts@);
            lemma_loop_wf_extends(ctx0, c0, s0, self.code(), self.starts@);
        }
        ctx.break_patches.push(jump);
        proof {
            assert forall|i: int| 0 <= i < ctx.break_patches@.len() implies is_jump_operand(
                self.code(),
                self.starts@,
                #[trigger] ctx.break_patches@[i] as int,
            ) by {
                if i < ctx0.break_patches@.len() {
                    assert(ctx.break_patches@[i] == ctx0.break_patches@[i]);
                }
            }
        }
        self.loop_context = Some(ctx);
    }

    /// Compiles `continue`: pops the locals of the loop body and jumps back to the
    /// loop's start.
    pub fn compile_continue(&mut self, span: Range<usize>, Ghost(n): Ghost<int>) -> (r: Result<(), SyntaxError>)
        requires
            old(self).wf(n),
            old(self).loop_context is Some,
            span.start <= span.end <= n,
        ensures
            r matches Err(e) ==> points_into(e, n),
            final(self).wf(n),
            same_but_loops_and_code(*old(self), *final(self)),
            extends_code(old(self).code(), old(self).starts@, final(self).code(), final(self).starts@),
            final(self).loop_context == old(self).loop_context,
            r matches Err(e) ==> e.message@ == "Too much code to jump over."@,
            final(self).code().len() <= old(self).code().len() + old(self).locals@.len() + 3,
            r is Err ==> final(self).code().len() + 3 > MAX_JUMP,
            r is Ok ==> final(self).code() == old(self).code() + continue_code(
                old(self).code().len() as int,
                old(self).locals@.len() as int,
                old(self).loop_context->0,
            ),
    {
        let ghost c0 = self.code();
        let ghost s0 = self.starts@;
        let ctx = self.loop_context.take().unwrap();
        let ghost ctx0 = ctx;
        let depth = self.stack_depth();
        let delta_depth = if depth >= ctx.stack_depth_at_start {
            depth - ctx.stack_depth_at_start
        } else {
            0
        };
        let mut k: usize = 0;
        proof {
            lemma_extends_refl(c0, s0);
            assert(c0 + pops(0) =~= c0);
        }
        while k < delta_depth
            invariant
                self.wf(n),
                self.loop_context is None,
                same_but_loops_and_code(*old(self), *self),
                span.start <= span.end <= n,
                0 <= k <= delta_depth,
                extends_code(c0, s0, self.code(), self.starts@),
                self.code().len() == c0.len() + k,
                self.code() == c0 + pops(k as int),
                delta_depth <= self.locals@.len(),
            decreases delta_depth - k,
        {
            let ghost c1 = self.code();
            let ghost s1 = self.starts@;
            self.emit_byte(OpCode::Pop, copy_span(&span), Ghost(n));
            proof {
                lemma_extends_trans(c0, s0, c1, s1, self.code(), self.starts@);
                assert(c0 + pops(k as int) + seq![opcode_byte(OpCode::Pop)] =~= c0 + pops(k + 1));
            }
            k = k + 1;
        }
        let ghost c1 = self.code();
        let ghost s1 = self.starts@;
        let result = self.emit_loop(ctx.loop_start, span, Ghost(n));
        proof {
            lemma_extends_trans(c0, s0, c1, s1, self.code(), self.starts@);
            lemma_loop_wf_extends(ctx0, c0, s0, self.code(), self.starts@);
        }
        self.loop_context = Some(ctx);
        result
    }

    /// Moves the start of the innermost loop: `continue` jumps there from now on.
    pub fn rebase_loop_start(&mut self, new_loop_start: usize, Ghost(n): Ghost<int>)
        requires
            old(self).wf(n),
            old(self).loop_context is Some,
            new_loop_start <= old(self).code().len(),
        ensures
            final(self).wf(n),
            same_but_loops(*old(self), *final(self)),
            final(self).loop_context matches Some(c) && c.loop_start == new_loop_start
                && c.stack_depth_at_start == old(self).loop_context->0.stack_depth_at_start
                && c.break_patches@ == old(self).loop_context->0.break_patches@ && c.enclosing
                == old(self).loop_context->0.enclosing,
            loop_depth(final(self).loop_context) == loop_depth(old(self).loop_context),
    {
        let mut ctx = self.loop_context.take().unwrap();
        ctx.loop_start = new_loop_start;
        self.loop_context = Some(ctx);
    }
}

/// The index of an upvalue as a 16-bit word.
pub open spec fn slot_word(k: int) -> u16 {
    k as u16
}

/// `u` is the word of the index of one of the `upvalues`.
pub open spec fn is_upvalue_slot(upvalues: Seq<Upvalue>, u: u16) -> bool {
    exists|k: int| 0 <= k < upvalues.len() && #[trigger] slot_word(k) == u
}

/// `a` and `b` differ at most in their locals.
pub open spec fn same_but_locals(a: Compiler, b: Compiler) -> bool {
    &&& a.enclosing == b.enclosing
    &&& a.function_object == b.function_object
    &&& a.upvalues == b.upvalues
    &&& a.function_kind == b.function_kind
    &&& a.scope_depth == b.scope_depth
    &&& a.loop_context == b.loop_context
    &&& a.starts == b.starts
}

/// `a` and `b` differ at most in their loop contexts.
pub open spec fn same_but_loops(a: Compiler, b: Compiler) -> bool {
    &&& a.enclosing == b.enclosing
    &&& a.function_object == b.function_object
    &&& a.upvalues == b.upvalues
    &&& a.locals == b.locals
    &&& a.function_kind == b.function_kind
    &&& a.scope_depth == b.scope_depth
    &&& a.starts == b.starts
}

/// `a` and `b` differ at most in their loop contexts and their code and spans.
pub open spec fn same_but_loops_and_code(a: Compiler, b: Compiler) -> bool {
    &&& a.enclosing == b.enclosing
    &&& a.upvalues == b.upvalues
    &&& a.locals == b.locals
    &&& a.function_kind == b.function_kind
    &&& a.scope_depth == b.scope_depth
    &&& a.function_object.arity == b.function_object.arity
    &&& a.function_object.name == b.function_object.name
    &&& a.function_object.upvalue_count == b.function_object.upvalue_count
    &&& a.function_object.chunk.constants@ == b.function_object.chunk.constants@
}

/// A jump operand lies, with its second byte, inside the code.
pub proof fn lemma_jump_operand_inside(code: Seq<u8>, starts: Seq<int>, p: int)
    requires
        is_layout(code, starts),
        is_jump_operand(code, starts, p),
    ensures
        p + 1 < code.len(),
{
    let k = choose|k: int| 0 <= k < starts.len() && starts[k] == p - 1;
    assert(crate::chunk::instruction_end(code, starts, k) <= code.len());
}

/// Whether byte `b` is one of the two bytes of one of the jump operands `patches`.
pub open spec fn patched_at(patches: Seq<usize>, b: int) -> bool {
    exists|j: int| 0 <= j < patches.len() && (b == #[trigger] patches[j] || b == patches[j] + 1)
}

/// Operands of two different jumps do not overlap.
pub proof fn lemma_operands_disjoint(code: Seq<u8>, starts: Seq<int>, p: int, q: int)
    requires
        is_layout(code, starts),
        is_jump_operand(code, starts, p),
        is_jump_operand(code, starts, q),
    ensures
        p == q || (p + 1 < q || q + 1 < p),
{
    let kp = choose|k: int| 0 <= k < starts.len() && starts[k] == p - 1;
    let kq = choose|k: int| 0 <= k < starts.len() && starts[k] == q - 1;
    if kp < kq {
        crate::chunk::lemma_layout_order(code, starts, kp, kq);
    } else if kq < kp {
        crate::chunk::lemma_layout_order(code, starts, kq, kp);
    }
}

} // verus!
