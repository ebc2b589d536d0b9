use crate::chunk::{code_wf, copy_span, is_layout, operands_valid, FunctionObject, MAX_CONSTANTS};
use crate::interner::{rc_clone, Interner};
use crate::lexer::{collect_tokens, law_tokenize_shape, source_chars, token_kinds, tokenize};
use crate::opcode::{opcode_byte, OpCode};
use crate::token::{Token, TokenType};
use codegen::syntax_error;

use statement::{is_context_error, program_at};
use compiler::{Compiler, chain_frozen, lemma_chain_frozen_same, lemma_chain_frozen_trans, lemma_extends_refl, lemma_extends_trans, lemma_wf_unfold};
use std::ops::Range;
use std::rc::Rc;
use vstd::prelude::*;

mod codegen;
mod compiler;
mod expression;
mod statement;

pub use compiler::ResolvedVariable;

verus! {

/// An error in the source, with the span of source it concerns.
#[derive(Debug)]
pub struct SyntaxError {
    pub message: String,
    pub span: Range<usize>,
}

/// The span of an error lies within a source of `n` characters.
pub open spec fn points_into(e: SyntaxError, n: int) -> bool {
    e.span.start <= e.span.end <= n
}

/// A name in the source: the interned name and where it stands.
pub struct Identifier {
    pub name: Rc<String>,
    pub span: Range<usize>,
}

impl Identifier {
    /// The empty name at position zero: the name of the slot a function's call frame
    /// reserves for the function itself.
    pub fn empty() -> (r: Identifier)
        ensures
            r.name@ == Seq::<char>::empty(),
            r.span.start == 0,
            r.span.end == 0,
    {
        Identifier { name: Rc::new(String::new()), span: Range { start: 0, end: 0 } }
    }

    /// Another identifier with the same name and span.
    pub fn duplicate(&self) -> (r: Identifier)
        ensures
            r.name == self.name,
            r.span == self.span,
    {
        Identifier { name: rc_clone(&self.name), span: Range { start: self.span.start, end: self.span.end } }
    }
}

/// Whether a function is the top-level script or a declared function.
#[derive(PartialEq, Eq, Clone, Copy, Structural)]
pub enum FunctionKind {
    Function,
    Script,
}


/// The text of the source that token `i` spans.
pub open spec fn text_of(tokens: Seq<Token>, source: Seq<char>, i: int) -> Seq<char> {
    source.subrange(tokens[i].span.start as int, tokens[i].span.end as int)
}

/// `e` points at an identifier token whose name an earlier identifier token has: the
/// only place a name can be declared twice, or read in its own initializer.
pub open spec fn names_a_repeated_name(e: SyntaxError, tokens: Seq<Token>, source: Seq<char>) -> bool {
    exists|i: int, j: int|
        0 <= i < j < tokens.len() && #[trigger] tokens[j].span == e.span && tokens[i].token_type
            == TokenType::Identifier && tokens[j].token_type == TokenType::Identifier && #[trigger] text_of(
            tokens,
            source,
            i,
        ) == text_of(tokens, source, j)
}

/// Whether the compiler takes `source`: it holds no `class`, which the parser cannot
/// get past.
pub open spec fn compilable(source: Seq<char>) -> bool {
    forall|i: int|
        0 <= i < tokenize(source).len() ==> #[trigger] tokenize(source)[i].token_type
            != TokenType::Class
}

/// `f` is the compiled top-level code of a source of `n` characters, named `name`: no
/// parameters, code that decodes into real instructions whose constant operands index
/// existing constants, one span of source per byte, and an implicit `return nil` at
/// the end.
pub open spec fn is_compiled_script(f: FunctionObject, name: Seq<char>, n: int) -> bool {
    let code = f.chunk.code@;
    &&& f.name@ == name
    &&& f.arity == 0
    &&& code_wf(code, f.chunk.constants@.len() as int)
    &&& f.chunk.constants@.len() <= MAX_CONSTANTS
    &&& f.chunk.spans@.len() == code.len()
    &&& forall|i: int|
        0 <= i < f.chunk.spans@.len() ==> #[trigger] f.chunk.spans@[i].start
            <= f.chunk.spans@[i].end <= n
    &&& code.len() >= 2
    &&& code[code.len() - 2] == opcode_byte(OpCode::Nil)
    &&& code[code.len() - 1] == opcode_byte(OpCode::Return)
}

/// Whether no token of `source` reports a lexical error (an unterminated string or an
/// unknown character).
pub open spec fn free_of_lexical_errors(source: Seq<char>) -> bool {
    forall|i: int|
        0 <= i < tokenize(source).len() ==> !is_lexical_error(#[trigger] tokenize(source)[i].token_type)
}

/// Whether the tokens of `source` form a program of the grammar: declarations up to
/// the end of the source.
pub open spec fn is_program(source: Seq<char>) -> bool {
    program_at(token_kinds(tokenize(source)), 0)
}

/// Compiles the source of a script named `name` into a function, interning its names
/// in `interner`; or hands back every syntax error found, each at a span of the
/// source. A source with a lexical error never compiles; a source compiles only if
/// its tokens form a program of the grammar (which places `break`, `continue` and
/// `return` and limits parameters); and a program of the grammar compiles unless the
/// first error met is a context error: a name declared twice in a scope or read in
/// its own initializer, where an earlier identifier has that name; too many
/// constants or local variables, in a source with more tokens than that allows; or
/// a jump too long, in a source of more than 200 tokens.
pub fn compile(name: &str, source: &str, interner: &mut Interner) -> (r: Result<
    FunctionObject,
    Vec<SyntaxError>,
>)
    requires
        old(interner).wf(),
        compilable(source@),
    ensures
        final(interner).wf(),
        final(interner).pool().contains(name@),
        forall|x: Seq<char>| #[trigger]
            old(interner).pool().contains(x) ==> final(interner).pool().contains(x),
        match r {
            Ok(f) => is_compiled_script(f, name@, source@.len() as int),
            Err(errors) => errors@.len() > 0 && forall|i: int|
                0 <= i < errors@.len() ==> points_into(#[trigger] errors@[i], source@.len() as int),
        },
        r is Ok ==> free_of_lexical_errors(source@),
        r is Ok ==> is_program(source@),
        is_program(source@) ==> match r {
            Ok(_) => true,
            Err(errors) => is_context_error(errors@[0], tokenize(source@), source@),
        },
{
    let chars = source_chars(source);
    let n_chars = chars.len();
    let tokens = collect_tokens(source);
    proof {
        assert(n_chars == chars@.len());
        law_tokenize_shape(chars@);
        crate::lexer::law_identifier_tokens_nonempty(chars@);
    }
    let mut pool = Interner::new();
    std::mem::swap(&mut pool, interner);
    let function_name = pool.intern(name);
    let function_object = FunctionObject::new(&function_name);
    let parser = Parser {
        source: chars,
        tokens,
        pos: 0,
        interner: pool,
        errors: Vec::new(),
        compiler: Compiler::new(function_object, FunctionKind::Script),
    };
    assert(parser.compiler.wf(parser.n()));
    let ghost p0 = parser;
    assert(p0.interner.pool().contains(name@));
    let (result, pool) = parser.compile();
    proof {
        assert(pool.pool().contains(name@));
        if result is Ok {
            reveal(no_lexical_error_in);
            assert(p0.tokens@ == tokenize(source@));
        }
    }
    *interner = pool;
    result
}

/// `String::push`: appends a character.
#[verifier::external_body]
fn push_char(s: &mut String, c: char)
    ensures
        final(s)@ == old(s)@.push(c),
{
    s.push(c)
}

/// The parser: it reads the tokens of the source and drives the compiler of the
/// function being compiled; syntax errors are collected as it goes.
pub(crate) struct Parser {
    pub(crate) source: Vec<char>,
    pub(crate) tokens: Vec<Token>,
    pub(crate) pos: usize,
    pub(crate) interner: Interner,
    pub(crate) errors: Vec<SyntaxError>,
    pub(crate) compiler: Compiler,
}

/// Whether parsing stops skipping tokens at this kind of token after an error: the
/// kinds that begin a declaration or statement, and the end of the source.
pub open spec fn is_sync_point(t: TokenType) -> bool {
    t == TokenType::Eof || t == TokenType::Class || t == TokenType::Var || t == TokenType::Fun
        || t == TokenType::Print || t == TokenType::Return || t == TokenType::For || t
        == TokenType::While || t == TokenType::If
}

/// Whether `next` hands out this kind of token as an error.
pub open spec fn is_error_token(t: TokenType) -> bool {
    t == TokenType::UnterminatedString || t == TokenType::Unknown || t == TokenType::Eof
}

/// Whether a token reports a lexical error: an unterminated string or an unknown
/// character.
pub open spec fn is_lexical_error(t: TokenType) -> bool {
    t == TokenType::UnterminatedString || t == TokenType::Unknown
}

/// No token from position `from` up to `to` reports a lexical error.
#[verifier::opaque]
pub open spec fn no_lexical_error_in(tokens: Seq<Token>, from: int, to: int) -> bool {
    forall|i: int| from <= i < to ==> !is_lexical_error(#[trigger] tokens[i].token_type)
}

/// From `old` to `new` the parser passed no lexical error, or recorded an error.
pub(crate) open spec fn parsed_clean(old: Parser, new: Parser) -> bool {
    ||| no_lexical_error_in(old.tokens@, old.pos as int, new.pos as int)
    ||| old.errors@.len() < new.errors@.len()
}

/// Every local variable of the function being compiled that has a name is named by
/// an identifier token the parser has read.
pub(crate) open spec fn locals_named(p: Parser) -> bool {
    forall|k: int|
        0 <= k < p.compiler.locals@.len() && #[trigger] p.compiler.locals@[k].identifier.name@.len() > 0
            ==> exists|i: int|
            0 <= i < p.pos && p.tokens@[i].token_type == TokenType::Identifier && #[trigger] text_of(
                p.tokens@,
                p.source@,
                i,
            ) == p.compiler.locals@[k].identifier.name@
}

/// The function being compiled has no more constants than tokens read, no more local
/// variables than one more than that (its first slot takes no token), and, in a
/// source of at most 200 tokens, at most 300 bytes of code per token read.
pub(crate) open spec fn counts_ok(p: Parser) -> bool {
    &&& p.compiler.n_constants() <= p.pos
    &&& p.compiler.locals@.len() <= p.pos + 1
    &&& p.tokens@.len() <= 200 ==> p.compiler.code().len() <= 300 * p.pos
}

/// From `old` to `new` the function being compiled gained at most one constant and
/// one local variable per token read, and (in a source of at most 200 tokens) at
/// most 300 bytes of code per token read.
pub(crate) open spec fn counts_grow(old: Parser, new: Parser) -> bool {
    &&& new.compiler.n_constants() - old.compiler.n_constants() <= new.pos - old.pos
    &&& new.compiler.locals@.len() - old.compiler.locals@.len() <= new.pos - old.pos
    &&& old.tokens@.len() <= 200 && counts_ok(old) ==> new.compiler.code().len() - old.compiler.code().len()
        <= 300 * (new.pos - old.pos)
}

/// `counts_grow`, with `slack` bytes of code allowed beyond 300 per token read.
pub(crate) open spec fn counts_grow_by(old: Parser, new: Parser, slack: int) -> bool {
    &&& new.compiler.n_constants() - old.compiler.n_constants() <= new.pos - old.pos
    &&& new.compiler.locals@.len() - old.compiler.locals@.len() <= new.pos - old.pos
    &&& old.tokens@.len() <= 200 && counts_ok(old) ==> new.compiler.code().len() - old.compiler.code().len()
        <= 300 * (new.pos - old.pos) + slack
}

/// `counts_ok`, with room left for `room` more bytes of code (in a source of at most
/// 200 tokens).
pub(crate) open spec fn counts_ok_with_room(p: Parser, room: int) -> bool {
    &&& counts_ok(p)
    &&& p.tokens@.len() <= 200 ==> p.compiler.code().len() + room <= 300 * p.pos
}

/// In a source of at most 200 tokens, code that grew from within the counts by at most
/// 300 bytes per token read (and a few more) leaves room for a jump of three bytes.
pub(crate) proof fn lemma_code_below_jump_limit(p: Parser, q: Parser, slack: int)
    requires
        counts_ok(p),
        p.tokens@.len() <= 200,
        q.pos <= p.tokens@.len(),
        p.pos <= q.pos,
        0 <= slack <= 1000,
        q.compiler.code().len() - p.compiler.code().len() <= 300 * (q.pos - p.pos) + slack,
    ensures
        q.compiler.code().len() + 3 <= codegen::MAX_JUMP,
{
}

/// The locals stay named by tokens read when the parser reads on and its locals keep
/// their names but for some dropped at the end.
pub(crate) proof fn lemma_locals_named_keep(p: Parser, q: Parser)
    requires
        locals_named(p),
        q.tokens@ == p.tokens@,
        q.source@ == p.source@,
        p.pos <= q.pos,
        q.compiler.locals@.len() <= p.compiler.locals@.len(),
        forall|k: int|
            0 <= k < q.compiler.locals@.len() ==> #[trigger] q.compiler.locals@[k].identifier.name
                == p.compiler.locals@[k].identifier.name,
    ensures
        locals_named(q),
{
    assert forall|k: int|
        0 <= k < q.compiler.locals@.len() && #[trigger] q.compiler.locals@[k].identifier.name@.len() > 0
            implies exists|i: int|
            0 <= i < q.pos && q.tokens@[i].token_type == TokenType::Identifier && #[trigger] text_of(
                q.tokens@,
                q.source@,
                i,
            ) == q.compiler.locals@[k].identifier.name@ by {
        assert(p.compiler.locals@[k].identifier.name@.len() > 0);
    }
}

/// A local named by token `j`, already read, keeps the locals named by tokens read.
pub(crate) proof fn lemma_locals_named_push(p: Parser, q: Parser, j: int)
    requires
        locals_named(p),
        q.tokens@ == p.tokens@,
        q.source@ == p.source@,
        p.pos <= q.pos,
        0 <= j < q.pos,
        j < q.tokens@.len(),
        q.tokens@[j].token_type == TokenType::Identifier,
        q.compiler.locals@.len() == p.compiler.locals@.len() + 1,
        forall|k: int|
            0 <= k < p.compiler.locals@.len() ==> #[trigger] q.compiler.locals@[k].identifier.name
                == p.compiler.locals@[k].identifier.name,
        q.compiler.locals@.last().identifier.name@ == text_of(q.tokens@, q.source@, j),
    ensures
        locals_named(q),
{
    assert forall|k: int|
        0 <= k < q.compiler.locals@.len() && #[trigger] q.compiler.locals@[k].identifier.name@.len() > 0
            implies exists|i: int|
            0 <= i < q.pos && q.tokens@[i].token_type == TokenType::Identifier && #[trigger] text_of(
                q.tokens@,
                q.source@,
                i,
            ) == q.compiler.locals@[k].identifier.name@ by {
        if k < p.compiler.locals@.len() {
            assert(p.compiler.locals@[k].identifier.name@.len() > 0);
        } else {
            assert(text_of(q.tokens@, q.source@, j) == q.compiler.locals@[k].identifier.name@);
        }
    }
}

/// A parser whose compiler alone changed, and stays consistent, stays consistent.
pub(crate) proof fn lemma_wf_compiler_step(p: Parser, q: Parser)
    requires
        p.wf(),
        q.source == p.source,
        q.tokens == p.tokens,
        q.pos == p.pos,
        q.errors == p.errors,
        q.interner == p.interner,
        q.compiler.wf(q.n()),
        q.compiler.scope_depth <= q.pos,
    ensures
        q.wf(),
{
}

/// Passing no lexical error is transitive.
pub broadcast proof fn lemma_no_lexical_error_trans(tokens: Seq<Token>, a: int, b: int, c: int)
    requires
        a <= b <= c,
        #[trigger] no_lexical_error_in(tokens, a, b),
        #[trigger] no_lexical_error_in(tokens, b, c),
    ensures
        no_lexical_error_in(tokens, a, c),
{
    reveal(no_lexical_error_in);
}

/// No token lies between a position and itself.
pub proof fn lemma_no_lexical_error_empty(tokens: Seq<Token>, a: int)
    ensures
        no_lexical_error_in(tokens, a, a),
{
    reveal(no_lexical_error_in);
}

/// Advancing is transitive.
pub(crate) broadcast proof fn lemma_advances_trans(a: Parser, b: Parser, c: Parser)
    requires
        #[trigger] Parser::advances(a, b),
        #[trigger] Parser::advances(b, c),
    ensures
        Parser::advances(a, c),
{
    lemma_extends_trans(
        a.compiler.code(),
        a.compiler.starts@,
        b.compiler.code(),
        b.compiler.starts@,
        c.compiler.code(),
        c.compiler.starts@,
    );
    lemma_chain_frozen_trans(a.compiler, b.compiler, c.compiler);
}

/// A parser advances to itself.
pub(crate) proof fn lemma_advances_refl(a: Parser)
    ensures
        Parser::advances(a, a),
{
    lemma_extends_refl(a.compiler.code(), a.compiler.starts@);
    lemma_chain_frozen_same(a.compiler, a.compiler);
}

/// A step of the compiler that keeps the enclosing functions and the name, only extends
/// the code, and enters (but never leaves) scopes and loops, continues the compiler
/// (the arity may change only in a declared function).
pub proof fn lemma_compiler_step(c0: Compiler, c1: Compiler)
    requires
        compiler::extends_code(c0.code(), c0.starts@, c1.code(), c1.starts@),
        c0.scope_depth <= c1.scope_depth,
        compiler::loop_depth(c0.loop_context) <= compiler::loop_depth(c1.loop_context),
        c0.enclosing == c1.enclosing,
        c0.function_kind == c1.function_kind,
        c0.n_constants() <= c1.n_constants(),
        c0.function_object.name == c1.function_object.name,
        c0.function_object.arity == c1.function_object.arity || c0.function_kind
            == FunctionKind::Function,
    ensures
        Compiler::continues(c0, c1),
{
    lemma_chain_frozen_same(c0, c1);
}

/// A loop context chain is nonempty exactly when its depth is positive.
pub proof fn lemma_loop_depth(ctx: Option<compiler::LoopContext>)
    ensures
        compiler::loop_depth(ctx) >= 1 <==> ctx is Some,
{
}

impl Parser {
    pub(crate) open spec fn n(self) -> int {
        self.source@.len() as int
    }

    pub(crate) open spec fn peek_type(self) -> TokenType {
        self.tokens@[self.pos as int].token_type
    }

    /// The parser is consistent: the tokens end with their only `Eof` and hold no
    /// `class` (which the language does not support), every span lies in the source,
    /// the position is a token, the interner and compilers are consistent, and scopes
    /// are no deeper than the tokens read so far.
    pub(crate) open spec fn wf(self) -> bool {
        &&& self.tokens@.len() >= 1
        &&& self.pos < self.tokens@.len()
        &&& self.tokens@.last().token_type == TokenType::Eof
        &&& forall|i: int|
            0 <= i < self.tokens@.len() - 1 ==> #[trigger] self.tokens@[i].token_type
                != TokenType::Eof
        &&& forall|i: int|
            0 <= i < self.tokens@.len() ==> #[trigger] self.tokens@[i].token_type
                != TokenType::Class
        &&& forall|i: int|
            0 <= i < self.tokens@.len() && #[trigger] self.tokens@[i].token_type == TokenType::Identifier
                ==> self.tokens@[i].span.start < self.tokens@[i].span.end
        &&& forall|i: int|
            0 <= i < self.tokens@.len() ==> #[trigger] self.tokens@[i].span.start
                <= self.tokens@[i].span.end <= self.source@.len()
        &&& self.interner.wf()
        &&& self.compiler.wf(self.n())
        &&& self.compiler.scope_depth <= self.pos
        &&& forall|i: int| 0 <= i < self.errors@.len() ==> points_into(#[trigger] self.errors@[i], self.n())
    }

    /// `new` continues `old`: same source and tokens, the position only moves on, the
    /// compiler continues, errors are only added, and interned names stay interned.
    pub(crate) open spec fn advances(old: Parser, new: Parser) -> bool {
        &&& new.source@ == old.source@
        &&& new.tokens@ == old.tokens@
        &&& old.pos <= new.pos
        &&& Compiler::continues(old.compiler, new.compiler)
        &&& old.errors@.len() <= new.errors@.len()
        &&& forall|i: int| 0 <= i < old.errors@.len() ==> #[trigger] new.errors@[i] == old.errors@[i]
        &&& forall|x: Seq<char>| #[trigger]
            old.interner.pool().contains(x) ==> new.interner.pool().contains(x)
    }

    /// Every token's span lies in the source.
    pub(crate) proof fn lemma_token_span(self, i: int)
        requires
            self.wf(),
            0 <= i < self.tokens@.len(),
        ensures
            self.tokens@[i].span.start <= self.tokens@[i].span.end <= self.n(),
    {
    }

    /// The current token.
    fn peek(&self) -> (r: &Token)
        requires
            self.wf(),
        ensures
            *r == self.tokens@[self.pos as int],
    {
        &self.tokens[self.pos]
    }

    /// The kind of the current token.
    fn peek_kind(&self) -> (r: TokenType)
        requires
            self.wf(),
        ensures
            r == self.peek_type(),
    {
        self.tokens[self.pos].token_type
    }

    /// A copy of the span of the current token.
    fn peek_span(&self) -> (r: Range<usize>)
        requires
            self.wf(),
        ensures
            r == self.tokens@[self.pos as int].span,
            r.start <= r.end <= self.n(),
    {
        proof {
            self.lemma_token_span(self.pos as int);
        }
        copy_span(&self.tokens[self.pos].span)
    }

    /// Takes the current token (but never moves past `Eof`); an unterminated string, an
    /// unknown character and the end of the source are errors.
    fn next(&mut self) -> (r: Result<Token, SyntaxError>)
        requires
            old(self).wf(),
        ensures
            r matches Err(e) ==> points_into(e, old(self).n()),
            final(self).wf(),
            Parser::advances(*old(self), *final(self)),
            final(self).compiler == old(self).compiler,
            final(self).errors == old(self).errors,
            old(self).peek_type() != TokenType::Eof ==> final(self).pos == old(self).pos + 1,
            old(self).peek_type() == TokenType::Eof ==> final(self).pos == old(self).pos,
            r is Ok <==> !is_error_token(old(self).peek_type()),
            r matches Ok(t) ==> t == old(self).tokens@[old(self).pos as int],
            r matches Err(e) ==> e.span == old(self).tokens@[old(self).pos as int].span,
            r matches Err(e) ==> e.message@ == match old(self).peek_type() {
                TokenType::UnterminatedString => "Unterminated string"@,
                TokenType::Unknown => "Unknown token"@,
                _ => "Unexpected EOF"@,
            },
            r is Ok ==> parsed_clean(*old(self), *final(self)),
    {
        let t = &self.tokens[self.pos];
        let tok = Token { token_type: t.token_type, span: copy_span(&t.span) };
        let _len = self.tokens.len();
        if tok.token_type != TokenType::Eof {
            assert(self.pos as int != self.tokens@.len() - 1);
            self.pos = self.pos + 1;
        }
        proof {
            lemma_extends_refl(self.compiler.code(), self.compiler.starts@);
            lemma_chain_frozen_same(self.compiler, self.compiler);
        }
        proof {
            reveal(no_lexical_error_in);
        }
        match tok.token_type {
            TokenType::UnterminatedString => Err(syntax_error("Unterminated string", tok.span)),
            TokenType::Unknown => Err(syntax_error("Unknown token", tok.span)),
            TokenType::Eof => Err(syntax_error("Unexpected EOF", tok.span)),
            _ => Ok(tok),
        }
    }

    /// Takes the current token if it has the expected kind; otherwise an error with
    /// `message` at the current token, which stays.
    fn expect_token(&mut self, expected_token_type: TokenType, message: &str) -> (r: Result<Token, SyntaxError>)
        requires
            old(self).wf(),
        ensures
            r matches Err(e) ==> points_into(e, old(self).n()),
            final(self).wf(),
            Parser::advances(*old(self), *final(self)),
            final(self).compiler == old(self).compiler,
            final(self).errors == old(self).errors,
            (old(self).peek_type() == expected_token_type && expected_token_type != TokenType::Eof)
                ==> final(self).pos == old(self).pos + 1,
            !(old(self).peek_type() == expected_token_type && expected_token_type != TokenType::Eof)
                ==> final(self).pos == old(self).pos,
            r is Ok <==> old(self).peek_type() == expected_token_type && !is_error_token(
                expected_token_type,
            ),
            r matches Ok(t) ==> t == old(self).tokens@[old(self).pos as int],
            r matches Err(e) ==> e.span == old(self).tokens@[old(self).pos as int].span,
            r is Ok ==> parsed_clean(*old(self), *final(self)),
    {
        if expected_token_type == self.peek_kind() {
            self.next()
        } else {
            proof {
                lemma_extends_refl(self.compiler.code(), self.compiler.starts@);
                lemma_chain_frozen_same(self.compiler, self.compiler);
            }
            Err(syntax_error(message, self.peek_span()))
        }
    }

    /// After an error: skips tokens up to and including a `;`, or up to the start of
    /// a declaration or statement, or the end of the source.
    fn synchronize(&mut self)
        requires
            old(self).wf(),
        ensures
            final(self).wf(),
            Parser::advances(*old(self), *final(self)),
            final(self).compiler == old(self).compiler,
            final(self).errors == old(self).errors,
            !is_sync_point(old(self).peek_type()) ==> final(self).pos > old(self).pos,
    {
        proof {
            lemma_extends_refl(self.compiler.code(), self.compiler.starts@);
            lemma_chain_frozen_same(self.compiler, self.compiler);
        }
        loop
            invariant
                self.wf(),
                Parser::advances(*old(self), *self),
                self.compiler == old(self).compiler,
                self.errors == old(self).errors,
                !is_sync_point(old(self).peek_type()) && self.pos == old(self).pos ==> !is_sync_point(
                    self.peek_type(),
                ),
            ensures
                !is_sync_point(old(self).peek_type()) ==> self.pos > old(self).pos,
            decreases self.tokens@.len() - self.pos,
        {
            let kind = self.peek_kind();
            if kind == TokenType::Semicolon {
                let _ = self.next();
                break;
            } else if kind == TokenType::Eof || kind == TokenType::Class || kind == TokenType::Var
                || kind == TokenType::Fun || kind == TokenType::Print || kind == TokenType::Return
                || kind == TokenType::For || kind == TokenType::While || kind == TokenType::If {
                break;
            } else {
                let _ = self.next();
            }
        }
    }

    /// The text of the source in `span`.
    fn lexeme(&self, span: &Range<usize>) -> (r: String)
        requires
            span.start <= span.end <= self.source@.len(),
        ensures
            r@ == self.source@.subrange(span.start as int, span.end as int),
    {
        let mut text = String::new();
        let mut i = span.start;
        while i < span.end
            invariant
                span.start <= i <= span.end <= self.source@.len(),
                text@ == self.source@.subrange(span.start as int, i as int),
            decreases span.end - i,
        {
            push_char(&mut text, self.source[i]);
            assert(text@ =~= self.source@.subrange(span.start as int, i + 1));
            i = i + 1;
        }
        text
    }

    /// Compiles the whole script: declarations up to the end of the source, recording
    /// each error and going on after it; then the implicit return. Hands back the
    /// function, or the errors, and the interner.
    fn compile(self) -> (r: (Result<FunctionObject, Vec<SyntaxError>>, Interner))
        requires
            self.wf(),
            self.errors@.len() == 0,
            self.compiler.enclosing is None,
            self.compiler.function_kind == FunctionKind::Script,
            self.compiler.locals@.len() == 0,
            self.compiler.function_object.arity == 0,
            self.pos == 0,
            self.compiler.loop_context is None,
            self.compiler.n_constants() == 0,
            self.compiler.code().len() == 0,
        ensures
            r.1.wf(),
            r.0 is Ok ==> no_lexical_error_in(self.tokens@, 0, self.tokens@.len() as int),
            forall|x: Seq<char>| #[trigger] self.interner.pool().contains(x) ==> r.1.pool().contains(x),
            match r.0 {
                Ok(f) => is_compiled_script(f, self.compiler.function_object.name@, self.n()),
                Err(errors) => errors@.len() > 0 && forall|i: int|
                    0 <= i < errors@.len() ==> points_into(#[trigger] errors@[i], self.n()),
            },
            r.0 is Ok ==> program_at(token_kinds(self.tokens@), 0),
            program_at(token_kinds(self.tokens@), 0) ==> match r.0 {
                Ok(_) => true,
                Err(errors) => is_context_error(errors@[0], self.tokens@, self.source@),
            },
    {
        let mut parser = self;
        let ghost n = parser.n();
        let ghost p0 = parser;
        let ghost t = token_kinds(parser.tokens@);
        proof {
            lemma_advances_refl(p0);
        }
        parser.compiler.reserve_first_stack_slot(Ghost(n));
        proof {
            lemma_extends_refl(p0.compiler.code(), p0.compiler.starts@);
            lemma_compiler_step(p0.compiler, parser.compiler);
        }
        assert(Parser::advances(p0, parser));
        proof {
            lemma_no_lexical_error_empty(p0.tokens@, 0);
        }
        loop
            invariant_except_break
                counts_ok(parser),
            invariant
                parser.wf(),
                Parser::advances(p0, parser),
                parsed_clean(p0, parser),
                n == parser.n(),
                p0 == self,
                t == token_kinds(parser.tokens@),
                parser.errors@.len() == 0 ==> program_at(t, 0) == program_at(t, parser.pos as int),
                program_at(t, 0) && parser.errors@.len() > 0 ==> is_context_error(parser.errors@[0], p0.tokens@, p0.source@),
                locals_named(parser),
                parser.errors@.len() == 0 ==> compiler::loop_depth(parser.compiler.loop_context) == 0,
                parser.compiler.function_kind == FunctionKind::Script,
            ensures
                parser.wf(),
                Parser::advances(p0, parser),
                parsed_clean(p0, parser),
                t == token_kinds(parser.tokens@),
                parser.errors@.len() == 0 ==> program_at(t, 0) == program_at(t, parser.pos as int),
                program_at(t, 0) && parser.errors@.len() > 0 ==> is_context_error(parser.errors@[0], p0.tokens@, p0.source@),
                locals_named(parser),
                parser.peek_type() == TokenType::Eof,
                parser.compiler.code().len() >= 2,
                parser.compiler.code()[parser.compiler.code().len() - 2] == opcode_byte(OpCode::Nil),
                parser.compiler.code()[parser.compiler.code().len() - 1] == opcode_byte(OpCode::Return),
            decreases parser.tokens@.len() - parser.pos,
        {
            proof {
                assert(t[parser.pos as int] == parser.tokens@[parser.pos as int].token_type);
            }
            if parser.peek_kind() == TokenType::Eof {
                let span = parser.peek_span();
                let ghost q = parser;
                parser.compiler.emit_return(span, Ghost(n));
                proof {
                    lemma_compiler_step(q.compiler, parser.compiler);
                    assert(Parser::advances(q, parser));
                    lemma_advances_trans(p0, q, parser);
                }
                break;
            }
            let ghost q0 = parser;
            proof {
                assert(t[q0.pos as int] == q0.tokens@[q0.pos as int].token_type);
            }
            match parser.declaration() {
                Ok(_) => {
                    proof {
                        if no_lexical_error_in(p0.tokens@, p0.pos as int, q0.pos as int)
                            && no_lexical_error_in(q0.tokens@, q0.pos as int, parser.pos as int) {
                            lemma_no_lexical_error_trans(p0.tokens@, p0.pos as int, q0.pos as int, parser.pos as int);
                        }
                    }
                },
                Err(err) => {
                    parser.errors.push(err);
                    let ghost q1 = parser;
                    assert(Parser::advances(q0, q1));
                    parser.synchronize();
                    proof {
                        lemma_advances_trans(q0, q1, parser);
                    }
                },
            }
            proof {
                lemma_advances_trans(p0, q0, parser);
            }
        }
        proof {
            let f = parser.compiler.function_object;
            lemma_wf_unfold(parser.compiler, n);
            if parser.errors@.len() == 0 {
                reveal(no_lexical_error_in);
                assert(parser.pos == parser.tokens@.len() - 1);
            }
            assert(is_layout(f.chunk.code@, parser.compiler.starts@));
            assert(operands_valid(f.chunk.code@, parser.compiler.starts@, f.chunk.constants@.len() as int));
        }
        let Parser { interner, errors, compiler, .. } = parser;
        if errors.len() == 0 {
            (Ok(compiler.function_object), interner)
        } else {
            (Err(errors), interner)
        }
    }

    /// Makes `new_context` the compiler of the current function; the current one
    /// becomes the enclosing one.
    fn enter_context(&mut self, new_context: Compiler)
        requires
            new_context.enclosing is None,
        ensures
            final(self).compiler.enclosing == Some(Box::new(old(self).compiler)),
            final(self).compiler.function_object == new_context.function_object,
            final(self).compiler.upvalues == new_context.upvalues,
            final(self).compiler.locals == new_context.locals,
            final(self).compiler.function_kind == new_context.function_kind,
            final(self).compiler.scope_depth == new_context.scope_depth,
            final(self).compiler.loop_context == new_context.loop_context,
            final(self).compiler.starts == new_context.starts,
            final(self).source == old(self).source,
            final(self).tokens == old(self).tokens,
            final(self).pos == old(self).pos,
            final(self).interner == old(self).interner,
            final(self).errors == old(self).errors,
    {
        let mut ctx = new_context;
        std::mem::swap(&mut self.compiler, &mut ctx);
        self.compiler.enclosing = Some(Box::new(ctx));
    }

    /// Returns to the enclosing function's compiler and hands back the current one.
    fn exit_context(&mut self) -> (r: Compiler)
        requires
            old(self).compiler.enclosing is Some,
        ensures
            final(self).compiler == *old(self).compiler.enclosing->0,
            r.function_object == old(self).compiler.function_object,
            r.upvalues == old(self).compiler.upvalues,
            final(self).source == old(self).source,
            final(self).tokens == old(self).tokens,
            final(self).pos == old(self).pos,
            final(self).interner == old(self).interner,
            final(self).errors == old(self).errors,
    {
        let boxed = self.compiler.enclosing.take().unwrap();
        let mut enclosing: Compiler = *boxed;
        std::mem::swap(&mut self.compiler, &mut enclosing);
        enclosing
    }
}

} // verus!
