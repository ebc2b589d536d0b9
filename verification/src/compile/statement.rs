use super::codegen::syntax_error;
use super::expression::{emitted_kinds, expression_at, operand_at, operators_at, global_named, lemma_emitted_one, lemma_emitted_same, lemma_patched_word};
use crate::lexer::token_kinds;
use super::compiler;
use super::compiler::{
    chain_frozen, frozen_frame, lemma_chain_frozen_same, lemma_jump_operand_extends, is_jump_operand, lemma_wf_fold,
    lemma_wf_unfold, loop_depth, Compiler, MAX_LOCALS,
};
use super::{
    points_into, locals_named, names_a_repeated_name, counts_ok, counts_grow, counts_grow_by, counts_ok_with_room, lemma_code_below_jump_limit, text_of, lemma_locals_named_keep,
    lemma_locals_named_push,
    lemma_no_lexical_error_empty, parsed_clean,
    is_sync_point, lemma_advances_refl, lemma_advances_trans, lemma_compiler_step,
    lemma_loop_depth, FunctionKind, Identifier, Parser, SyntaxError,
};
use crate::chunk::{copy_span, high_byte, instruction_bytes, low_byte, word_at, Constant, FunctionObject, MAX_CONSTANTS};
use crate::opcode::{opcode_byte, OpCode};
use crate::token::{Token, TokenType};
use std::ops::Range;
use vstd::prelude::*;

verus! {

broadcast use super::lemma_advances_trans, super::lemma_no_lexical_error_trans;

/// The kind of token `i`, or `Eof` past either end.
pub open spec fn kind_at(t: Seq<TokenType>, i: int) -> TokenType {
    if 0 <= i < t.len() {
        t[i]
    } else {
        TokenType::Eof
    }
}

/// Where the expression (of the lowest binding power) at `pos` ends.
pub open spec fn expression_end(t: Seq<TokenType>, pos: int) -> Option<int> {
    match expression_at(t, pos, 0) {
        Some((end, _)) => Some(end),
        None => None,
    }
}

/// What ends at `end` and is followed by `;` ends after the `;`.
pub open spec fn then_semicolon(t: Seq<TokenType>, end: Option<int>) -> Option<int> {
    match end {
        Some(e) => if kind_at(t, e) == TokenType::Semicolon {
            Some(e + 1)
        } else {
            None
        },
        None => None,
    }
}

/// An expression statement at `pos`: an expression and `;`.
pub open spec fn expression_statement_at(t: Seq<TokenType>, pos: int) -> Option<int> {
    then_semicolon(t, expression_end(t, pos))
}

/// The kinds of the instructions that the expression at `pos` compiles to (none where
/// there is no expression).
pub open spec fn expression_kinds(t: Seq<TokenType>, pos: int) -> Seq<OpCode> {
    match expression_at(t, pos, 0) {
        Some((_, kinds)) => kinds,
        None => Seq::empty(),
    }
}

/// The kinds of the instructions that the variable declaration at `pos` compiles to
/// for the variable's value: its initializer's, or a single `Nil` without one.
pub open spec fn initializer_kinds(t: Seq<TokenType>, pos: int) -> Seq<OpCode> {
    if kind_at(t, pos + 2) == TokenType::Equal {
        expression_kinds(t, pos + 3)
    } else {
        seq![OpCode::Nil]
    }
}

/// A variable declared without an initializer gets the value it would get from
/// `= nil`: inserting `= nil` before the `;` of `var name;` leaves the instructions
/// that compute the variable's value the same.
pub proof fn law_var_without_initializer_is_nil(t: Seq<TokenType>, pos: int)
    requires
        0 <= pos,
        pos + 2 < t.len(),
        t[pos + 2] == TokenType::Semicolon,
    ensures
        initializer_kinds(t.take(pos + 2) + seq![TokenType::Equal, TokenType::Nil] + t.skip(pos + 2), pos)
            == initializer_kinds(t, pos),
        initializer_kinds(t, pos) == seq![OpCode::Nil],
{
    let t2 = t.take(pos + 2) + seq![TokenType::Equal, TokenType::Nil] + t.skip(pos + 2);
    assert(t2[pos + 2] == TokenType::Equal);
    assert(t2[pos + 3] == TokenType::Nil);
    assert(t2[pos + 4] == TokenType::Semicolon);
    assert(operand_at(t2, pos + 3, 0) == Some((pos + 4, seq![OpCode::Nil])));
    assert(operators_at(t2, pos + 4, 0, seq![OpCode::Nil]) == Some((pos + 4, seq![OpCode::Nil])));
    assert(expression_at(t2, pos + 3, 0) == Some((pos + 4, seq![OpCode::Nil])));
}

/// `print`, an expression and `;`.
pub open spec fn print_at(t: Seq<TokenType>, pos: int) -> Option<int> {
    then_semicolon(t, expression_end(t, pos + 1))
}

/// `return`, an optional expression, and `;`.
pub open spec fn return_at(t: Seq<TokenType>, pos: int) -> Option<int> {
    if kind_at(t, pos + 1) == TokenType::Semicolon {
        Some(pos + 2)
    } else {
        then_semicolon(t, expression_end(t, pos + 1))
    }
}

/// `break` or `continue`, and `;` (inside a loop only: see `statement_at`).
pub open spec fn jump_statement_at(t: Seq<TokenType>, pos: int) -> Option<int> {
    if kind_at(t, pos + 1) == TokenType::Semicolon {
        Some(pos + 2)
    } else {
        None
    }
}

/// `var`, a name, optionally `=` and an expression, and `;`.
pub open spec fn var_declaration_at(t: Seq<TokenType>, pos: int) -> Option<int> {
    if kind_at(t, pos + 1) != TokenType::Identifier {
        None
    } else if kind_at(t, pos + 2) == TokenType::Equal {
        then_semicolon(t, expression_end(t, pos + 3))
    } else {
        then_semicolon(t, Some(pos + 2))
    }
}

/// Parameter names separated by commas, from `i`, with `k` parameters before them:
/// where the list ends. A function has fewer than 255 parameters.
pub open spec fn parameters_at(t: Seq<TokenType>, i: int, k: int) -> Option<int>
    decreases t.len() - i,
{
    if !(0 <= i < t.len()) || t[i] != TokenType::Identifier {
        None
    } else if k + 1 >= 255 {
        None
    } else if kind_at(t, i + 1) == TokenType::Comma {
        parameters_at(t, i + 2, k + 1)
    } else {
        Some(i + 1)
    }
}

/// The statement grammar: where the declaration at `pos` ends, or `None` where the
/// tokens there do not form one.
pub open spec fn declaration_at(t: Seq<TokenType>, pos: int, in_loop: bool, in_function: bool) -> Option<int>
    decreases t.len() - pos, 9int,
{
    if !(0 <= pos < t.len()) {
        None
    } else if t[pos] == TokenType::Fun {
        if kind_at(t, pos + 1) == TokenType::Identifier && pos + 2 <= t.len() {
            function_at(t, pos + 2)
        } else {
            None
        }
    } else if t[pos] == TokenType::Var {
        var_declaration_at(t, pos)
    } else {
        statement_at(t, pos, in_loop, in_function)
    }
}

/// `fun`, a name, and the function's parameters and body.
pub open spec fn fun_declaration_at(t: Seq<TokenType>, pos: int) -> Option<int> {
    if kind_at(t, pos + 1) == TokenType::Identifier && pos + 2 <= t.len() {
        function_at(t, pos + 2)
    } else {
        None
    }
}

/// A function's parameters in parentheses and its body.
pub open spec fn function_at(t: Seq<TokenType>, q: int) -> Option<int>
    decreases t.len() - q, 7int,
{
    if kind_at(t, q) != TokenType::LeftParen {
        None
    } else {
        let params = if kind_at(t, q + 1) == TokenType::RightParen {
            Some(q + 1)
        } else {
            parameters_at(t, q + 1, 0)
        };
        match params {
            Some(r) => if q < r && r + 1 <= t.len() && kind_at(t, r) == TokenType::RightParen
                && kind_at(t, r + 1) == TokenType::LeftBrace {
                block_at(t, r + 1, false, true)
            } else {
                None
            },
            None => None,
        }
    }
}

/// Where the statement at `pos` ends.
pub open spec fn statement_at(t: Seq<TokenType>, pos: int, in_loop: bool, in_function: bool) -> Option<int>
    decreases t.len() - pos, 8int,
{
    if !(0 <= pos < t.len()) {
        None
    } else {
        match t[pos] {
            TokenType::Print => print_at(t, pos),
            TokenType::LeftBrace => block_at(t, pos, in_loop, in_function),
            TokenType::If => if_at(t, pos, in_loop, in_function),
            TokenType::While => while_at(t, pos, in_loop, in_function),
            TokenType::For => for_at(t, pos, in_function),
            TokenType::Break | TokenType::Continue => if in_loop {
                jump_statement_at(t, pos)
            } else {
                None
            },
            TokenType::Return => if in_function {
                return_at(t, pos)
            } else {
                None
            },
            _ => expression_statement_at(t, pos),
        }
    }
}

/// Declarations up to the `}` that closes a block.
pub open spec fn block_at(t: Seq<TokenType>, pos: int, in_loop: bool, in_function: bool) -> Option<int>
    decreases t.len() - pos, 7int,
{
    if !(0 <= pos < t.len()) || t[pos] != TokenType::LeftBrace {
        None
    } else {
        declarations_at(t, pos + 1, in_loop, in_function)
    }
}

/// The declarations from `q` up to a `}`, and past it.
pub open spec fn declarations_at(t: Seq<TokenType>, q: int, in_loop: bool, in_function: bool) -> Option<int>
    decreases t.len() - q, 10int,
{
    if !(0 <= q < t.len()) || t[q] == TokenType::Eof {
        None
    } else if t[q] == TokenType::RightBrace {
        Some(q + 1)
    } else {
        match declaration_at(t, q, in_loop, in_function) {
            Some(d) => if q < d <= t.len() {
                declarations_at(t, d, in_loop, in_function)
            } else {
                None
            },
            None => None,
        }
    }
}

/// `if`, a condition in parentheses, a statement, and optionally `else` and another.
pub open spec fn if_at(t: Seq<TokenType>, pos: int, in_loop: bool, in_function: bool) -> Option<int>
    decreases t.len() - pos, 7int,
{
    if kind_at(t, pos + 1) != TokenType::LeftParen {
        None
    } else {
        match expression_end(t, pos + 2) {
            Some(c) => if pos < c < t.len() && t[c] == TokenType::RightParen {
                match statement_at(t, c + 1, in_loop, in_function) {
                    Some(s) => if pos < s < t.len() && t[s] == TokenType::Else {
                        statement_at(t, s + 1, in_loop, in_function)
                    } else {
                        Some(s)
                    },
                    None => None,
                }
            } else {
                None
            },
            None => None,
        }
    }
}

/// `while`, a condition in parentheses, and a statement.
pub open spec fn while_at(t: Seq<TokenType>, pos: int, in_loop: bool, in_function: bool) -> Option<int>
    decreases t.len() - pos, 7int,
{
    if kind_at(t, pos + 1) != TokenType::LeftParen {
        None
    } else {
        match expression_end(t, pos + 2) {
            Some(c) => if pos < c < t.len() && t[c] == TokenType::RightParen {
                statement_at(t, c + 1, true, in_function)
            } else {
                None
            },
            None => None,
        }
    }
}

/// `for`, `(`, an initializer (nothing, a variable declaration or an expression
/// statement), then the rest of the clauses and the body.
pub open spec fn for_at(t: Seq<TokenType>, pos: int, in_function: bool) -> Option<int>
    decreases t.len() - pos, 7int,
{
    if kind_at(t, pos + 1) != TokenType::LeftParen {
        None
    } else {
        let q = pos + 2;
        let init = if kind_at(t, q) == TokenType::Semicolon {
            Some(q + 1)
        } else if kind_at(t, q) == TokenType::Var {
            var_declaration_at(t, q)
        } else {
            expression_statement_at(t, q)
        };
        match init {
            Some(i) => if pos < i <= t.len() {
                for_clauses_at(t, i, in_function)
            } else {
                None
            },
            None => None,
        }
    }
}

/// The condition clause of `for` at `i`: nothing or an expression, then `;`.
pub open spec fn for_condition_at(t: Seq<TokenType>, i: int) -> Option<int> {
    then_semicolon(
        t,
        if kind_at(t, i) == TokenType::Semicolon {
            Some(i)
        } else {
            expression_end(t, i)
        },
    )
}

/// The increment clause of `for` at `j`: nothing or an expression, then `)`.
pub open spec fn for_increment_at(t: Seq<TokenType>, j: int) -> Option<int> {
    let incr = if kind_at(t, j) != TokenType::RightParen {
        expression_end(t, j)
    } else {
        Some(j)
    };
    match incr {
        Some(k) => if kind_at(t, k) == TokenType::RightParen {
            Some(k + 1)
        } else {
            None
        },
        None => None,
    }
}

/// The condition clause, the increment clause, and the body.
pub open spec fn for_clauses_at(t: Seq<TokenType>, i: int, in_function: bool) -> Option<int>
    decreases t.len() - i, 6int,
{
    match for_condition_at(t, i) {
        Some(j) => match for_increment_at(t, j) {
            Some(k) => if i < k <= t.len() {
                statement_at(t, k, true, in_function)
            } else {
                None
            },
            None => None,
        },
        None => None,
    }
}

/// The code of a `for` loop that began at byte `start` ends with a loop back, to
/// `start` when there is no increment (else to the increment, right after the `Jump`
/// that takes the first pass over it), and then,
/// when there is a condition, a `Pop` of it where its jump out of the loop lands.
pub open spec fn closes_loop(start: int, code: Seq<u8>, has_condition: bool, has_increment: bool) -> bool {
    &&& start + 3 <= loop_end(code, has_condition)
    &&& has_condition ==> code.last() == opcode_byte(OpCode::Pop)
    &&& exists|target: int|
        start <= target <= loop_end(code, has_condition) - 3 && (!has_increment ==> target == start)
            && (has_increment ==> start + 3 <= target && code[target - 3] == opcode_byte(OpCode::Jump))
            && code.subrange(loop_end(code, has_condition) - 3, loop_end(code, has_condition))
            == #[trigger] loop_back(loop_end(code, has_condition), target)
}

/// Where the loop back of a `for` loop's code ends: before the `Pop` of a condition.
pub open spec fn loop_end(code: Seq<u8>, has_condition: bool) -> int {
    if has_condition {
        code.len() - 1
    } else {
        code.len() as int
    }
}

/// A `Loop` instruction ending at byte `end` that jumps back to byte `target`.
pub open spec fn loop_back(end: int, target: int) -> Seq<u8> {
    instruction_bytes(OpCode::Loop, (end - target) as u16)
}

/// The code of a `while` loop that began at byte `start` ends with a loop back to
/// `start` and then a `Pop` of the condition, where its jump out of the loop lands.
pub open spec fn while_closes(start: int, code: Seq<u8>) -> bool {
    &&& start + 4 <= code.len()
    &&& code.last() == opcode_byte(OpCode::Pop)
    &&& code.subrange(code.len() - 4, code.len() - 1) == loop_back(code.len() - 1, start)
}

/// The `Jump` whose operand is at byte `o` of `code` lands at the end of the code,
/// past the `Pop` that follows it: how an `if` statement ends, its then-branch jumping
/// over the rest.
pub open spec fn skips_to_end(code: Seq<u8>, o: int) -> bool {
    &&& 1 <= o
    &&& o + 3 <= code.len()
    &&& code[o - 1] == opcode_byte(OpCode::Jump)
    &&& code[o + 2] == opcode_byte(OpCode::Pop)
    &&& o + 2 + word_at(code, o) == code.len()
}

/// In a `for` loop with an increment, the loop that closes the body does not go back
/// to the condition: it goes to the increment, which comes after the condition (and a
/// `Jump`), so the increment runs before every test of the condition but the first.
pub proof fn law_for_body_loops_to_increment(start: int, code: Seq<u8>, has_condition: bool)
    requires
        closes_loop(start, code, has_condition, true),
        loop_end(code, has_condition) - start <= u16::MAX,
    ensures
        ({
            let end = loop_end(code, has_condition);
            code.subrange(end - 3, end) != loop_back(end, start)
        }),
{
    let end = loop_end(code, has_condition);
    let target = choose|target: int|
        start <= target <= end - 3 && (!true ==> target == start) && (true ==> start + 3 <= target
            && code[target - 3] == opcode_byte(OpCode::Jump)) && code.subrange(end - 3, end)
            == #[trigger] loop_back(end, target);
    let w1 = (end - target) as u16;
    let w2 = (end - start) as u16;
    assert(w1 != w2);
    if loop_back(end, target) == loop_back(end, start) {
        assert(loop_back(end, target)[1] == low_byte(w1));
        assert(loop_back(end, target)[2] == high_byte(w1));
        assert(loop_back(end, start)[1] == low_byte(w2));
        assert(loop_back(end, start)[2] == high_byte(w2));
        assert((w1 % 256) as u8 + 256 * ((w1 / 256) as u8) == w1) by (nonlinear_arith);
        assert((w2 % 256) as u8 + 256 * ((w2 / 256) as u8) == w2) by (nonlinear_arith);
    }
}

/// The `JumpIfFalse` whose operand is at byte `j` of `code` lands on the last
/// instruction: how a loop with a condition exits, onto the `Pop` of the condition.
pub open spec fn exits_to_last(code: Seq<u8>, j: int) -> bool {
    &&& 1 <= j
    &&& j + 2 <= code.len()
    &&& code[j - 1] == opcode_byte(OpCode::JumpIfFalse)
    &&& j + 2 + word_at(code, j) == code.len() - 1
}

/// Whether the `for` clauses at `i` have an increment.
pub open spec fn has_increment(t: Seq<TokenType>, i: int) -> bool {
    match for_condition_at(t, i) {
        Some(j) => kind_at(t, j) != TokenType::RightParen,
        None => true,
    }
}

/// A whole program from `q`: declarations up to the end of the source.
pub open spec fn program_at(t: Seq<TokenType>, q: int) -> bool
    decreases t.len() - q,
{
    if !(0 <= q < t.len()) {
        false
    } else if t[q] == TokenType::Eof {
        true
    } else {
        match declaration_at(t, q, false, false) {
            Some(d) => if q < d <= t.len() {
                program_at(t, d)
            } else {
                false
            },
            None => false,
        }
    }
}

/// Whether the parser is inside a loop of the function being compiled.
pub(crate) open spec fn in_loop(p: Parser) -> bool {
    p.compiler.loop_context is Some
}

/// Whether the parser is inside a declared function (not the top-level script).
pub(crate) open spec fn in_function(p: Parser) -> bool {
    p.compiler.function_kind == FunctionKind::Function
}

/// The errors that a program the grammar accepts can still meet: a limit of the
/// compiler (the distance of a jump, in a source of more than 200 tokens; constants or
/// local variables, in a source with more tokens than the limit allows of them), or,
/// at an identifier
/// whose name an earlier identifier has, a name declared twice in one scope or read in
/// its own initializer.
pub open spec fn is_context_error(e: SyntaxError, tokens: Seq<Token>, source: Seq<char>) -> bool {
    ||| e.message@ == "Can't store more constants"@ && tokens.len() > MAX_CONSTANTS
    ||| e.message@ == "Too much code to jump over."@ && tokens.len() > 200
    ||| e.message@ == "Too many local variables in function."@ && tokens.len() >= MAX_LOCALS
    ||| (e.message@ == "Already a variable with this name in this scope."@ || e.message@
        == "Can't read local variable in its own initializer."@) && names_a_repeated_name(
        e,
        tokens,
        source,
    )
}

/// The parser read from `old` to `new` what the grammar `expected`: with no error
/// recorded, it ended where the grammar ends; where the grammar accepts the tokens (and
/// the locals are named by tokens read), the first error it recorded is a context error.
pub(crate) open spec fn parsed_as(old: Parser, new: Parser, expected: Option<int>) -> bool {
    &&& new.errors@.len() == old.errors@.len() ==> expected == Some(new.pos as int)
    &&& expected is Some && locals_named(old) && counts_ok(old) && new.errors@.len() > old.errors@.len()
        ==> is_context_error(new.errors@[old.errors@.len() as int], old.tokens@, old.source@)
}

/// Failing with `e` where the grammar accepts the tokens (and the locals are named by
/// tokens read): the first error met, `e` or the first one recorded, is a context error.
pub(crate) open spec fn failed_as(old: Parser, new: Parser, expected: Option<int>, e: SyntaxError) -> bool {
    expected is Some && locals_named(old) && counts_ok(old) ==> if new.errors@.len() == old.errors@.len() {
        is_context_error(e, old.tokens@, old.source@)
    } else {
        is_context_error(new.errors@[old.errors@.len() as int], old.tokens@, old.source@)
    }
}

/// A local declared twice in a scope is named by an identifier token read before the
/// one that declares it again.
pub(crate) proof fn lemma_duplicate_is_repeated(pv: Parser, p1: Parser, identifier: Identifier, e: SyntaxError)
    requires
        pv.wf(),
        p1.tokens@ == pv.tokens@,
        p1.source@ == pv.source@,
        p1.compiler.locals == pv.compiler.locals,
        p1.compiler.scope_depth == pv.compiler.scope_depth,
        identifier.span == pv.tokens@[pv.pos as int].span,
        identifier.name@ == text_of(pv.tokens@, pv.source@, pv.pos as int),
        pv.tokens@[pv.pos as int].token_type == TokenType::Identifier,
        e.span == identifier.span,
        compiler::declared_in_scope(p1.compiler.locals@, p1.compiler.scope_depth, identifier.name@),
    ensures
        locals_named(pv) ==> names_a_repeated_name(e, pv.tokens@, pv.source@),
{
    if locals_named(pv) {
        let j = pv.pos as int;
        let k = choose|k: int|
            0 <= k < p1.compiler.locals@.len() && #[trigger] p1.compiler.locals@[k].identifier.name@
                == identifier.name@ && forall|m: int|
                k <= m < p1.compiler.locals@.len() ==> #[trigger] p1.compiler.locals@[m].depth
                    >= p1.compiler.scope_depth;
        assert(pv.tokens@[j].span.start < pv.tokens@[j].span.end);
        assert(pv.compiler.locals@[k].identifier.name@.len() > 0);
        let i = choose|i: int|
            0 <= i < pv.pos && pv.tokens@[i].token_type == TokenType::Identifier && #[trigger] text_of(
                pv.tokens@,
                pv.source@,
                i,
            ) == pv.compiler.locals@[k].identifier.name@;
        assert(pv.tokens@[j].span == e.span);
    }
}

/// A compiler that only captured more upvalues continues the one it was.
pub proof fn lemma_frozen_continues(a: Compiler, b: Compiler)
    requires
        frozen_frame(a, b),
        chain_frozen(a, b),
    ensures
        Compiler::continues(a, b),
{
    compiler::lemma_extends_refl(a.code(), a.starts@);
}

/// A parser that advanced from `a` to `b`, and whose compiler then only extended its
/// code (leaving scopes and loops, perhaps) and kept its constants, enclosing functions
/// and kind, advances from `a` to `c` when its scopes and loops end no shallower than
/// they were at `a`.
pub(crate) proof fn lemma_advances_rejoin(a: Parser, b: Parser, c: Parser)
    requires
        Parser::advances(a, b),
        c.source@ == b.source@,
        c.tokens@ == b.tokens@,
        b.pos <= c.pos,
        b.errors@.len() <= c.errors@.len(),
        forall|i: int| 0 <= i < b.errors@.len() ==> #[trigger] c.errors@[i] == b.errors@[i],
        compiler::extends_code(b.compiler.code(), b.compiler.starts@, c.compiler.code(), c.compiler.starts@),
        chain_frozen(b.compiler, c.compiler),
        b.compiler.function_kind == c.compiler.function_kind,
        b.compiler.n_constants() <= c.compiler.n_constants(),
        b.compiler.function_object.name == c.compiler.function_object.name,
        b.compiler.function_object.arity == c.compiler.function_object.arity,
        b.interner == c.interner,
        a.compiler.scope_depth <= c.compiler.scope_depth,
        loop_depth(a.compiler.loop_context) <= loop_depth(c.compiler.loop_context),
    ensures
        Parser::advances(a, c),
{
    compiler::lemma_extends_trans(
        a.compiler.code(),
        a.compiler.starts@,
        b.compiler.code(),
        b.compiler.starts@,
        c.compiler.code(),
        c.compiler.starts@,
    );
    compiler::lemma_chain_frozen_trans(a.compiler, b.compiler, c.compiler);
}

impl Parser {
    /// The name of an identifier token, interned; an error with `error_message` if the
    /// current token is not an identifier.
    pub(crate) fn identifier(&mut self, error_message: &str) -> (r: Result<Identifier, SyntaxError>)
        requires
            old(self).wf(),
        ensures
            r matches Err(e) ==> points_into(e, old(self).n()),
            final(self).wf(),
            Parser::advances(*old(self), *final(self)),
            r is Ok ==> parsed_clean(*old(self), *final(self)),
            final(self).compiler == old(self).compiler,
            final(self).errors == old(self).errors,
            r is Ok <==> old(self).peek_type() == TokenType::Identifier,
            r is Ok ==> final(self).pos == old(self).pos + 1,
            r is Err ==> final(self).pos == old(self).pos,
            r matches Ok(id) ==> id.span == old(self).tokens@[old(self).pos as int].span
                && id.span.start <= id.span.end <= old(self).n() && id.name@ == old(
                self,
            ).source@.subrange(id.span.start as int, id.span.end as int),
    {
        let ghost p0 = *self;
        let token = self.expect_token(TokenType::Identifier, error_message)?;
        proof {
            p0.lemma_token_span(p0.pos as int);
        }
        let text = self.lexeme(&token.span);
        let name = self.interner.intern(text.as_str());
        Ok(Identifier { name, span: token.span })
    }

    fn variable(&mut self) -> (r: Result<Identifier, SyntaxError>)
        requires
            old(self).wf(),
        ensures
            r matches Err(e) ==> points_into(e, old(self).n()),
            final(self).wf(),
            Parser::advances(*old(self), *final(self)),
            r is Ok ==> parsed_clean(*old(self), *final(self)),
            final(self).compiler == old(self).compiler,
            final(self).errors == old(self).errors,
            r is Ok ==> final(self).pos == old(self).pos + 1,
            r is Ok <==> old(self).peek_type() == TokenType::Identifier,
            r matches Ok(id) ==> id.span.start <= id.span.end <= old(self).n(),
            r matches Ok(id) ==> id.span == old(self).tokens@[old(self).pos as int].span && id.name@ == text_of(
                old(self).tokens@,
                old(self).source@,
                old(self).pos as int,
            ),
    {
        self.identifier("Expect variable name.")
    }

    fn parameter(&mut self) -> (r: Result<Identifier, SyntaxError>)
        requires
            old(self).wf(),
        ensures
            r matches Err(e) ==> points_into(e, old(self).n()),
            final(self).wf(),
            Parser::advances(*old(self), *final(self)),
            r is Ok ==> parsed_clean(*old(self), *final(self)),
            final(self).compiler == old(self).compiler,
            final(self).errors == old(self).errors,
            r is Ok ==> final(self).pos == old(self).pos + 1,
            r is Ok <==> old(self).peek_type() == TokenType::Identifier,
            r matches Ok(id) ==> id.span.start <= id.span.end <= old(self).n(),
            r matches Ok(id) ==> id.span == old(self).tokens@[old(self).pos as int].span && id.name@ == text_of(
                old(self).tokens@,
                old(self).source@,
                old(self).pos as int,
            ),
    {
        self.identifier("Expect parameter name.")
    }

    /// Compiles a declaration: a function, a variable, or a statement.
    pub(crate) fn declaration(&mut self) -> (r: Result<(), SyntaxError>)
        requires
            old(self).wf(),
            old(self).peek_type() != TokenType::Eof,
        ensures
            r matches Err(e) ==> points_into(e, old(self).n()),
            locals_named(*old(self)) ==> locals_named(*final(self)),
            counts_grow(*old(self), *final(self)),
            r is Ok && final(self).errors@.len() == old(self).errors@.len() ==> loop_depth(
                final(self).compiler.loop_context,
            ) == loop_depth(old(self).compiler.loop_context),
            r is Ok ==> parsed_as(*old(self), *final(self), declaration_at(token_kinds(old(self).tokens@), old(self).pos as int, in_loop(*old(self)), in_function(*old(self)))),
            r matches Err(e) ==> failed_as(*old(self), *final(self), declaration_at(token_kinds(old(self).tokens@), old(self).pos as int, in_loop(*old(self)), in_function(*old(self))), e),
            final(self).wf(),
            Parser::advances(*old(self), *final(self)),
            r is Ok ==> parsed_clean(*old(self), *final(self)),
            final(self).pos == old(self).pos ==> r is Err && !is_sync_point(old(self).peek_type()),
        decreases old(self).tokens@.len() - old(self).pos, 9int,
    {
        let kind = self.peek_kind();
        if kind == TokenType::Fun {
            self.fun_declaration()
        } else if kind == TokenType::Var {
            self.var_declaration()
        } else {
            self.statement()
        }
    }

    /// Compiles a block: declarations between braces, in a scope of their own. An error
    /// in a declaration is recorded and the block goes on after it.
    pub(crate) fn block(&mut self) -> (r: Result<(), SyntaxError>)
        requires
            old(self).wf(),
            old(self).peek_type() == TokenType::LeftBrace,
        ensures
            r matches Err(e) ==> points_into(e, old(self).n()),
            locals_named(*old(self)) ==> locals_named(*final(self)),
            counts_grow(*old(self), *final(self)),
            r is Ok && final(self).errors@.len() == old(self).errors@.len() ==> loop_depth(
                final(self).compiler.loop_context,
            ) == loop_depth(old(self).compiler.loop_context),
            r is Ok ==> parsed_as(*old(self), *final(self), block_at(token_kinds(old(self).tokens@), old(self).pos as int, in_loop(*old(self)), in_function(*old(self)))),
            r matches Err(e) ==> failed_as(*old(self), *final(self), block_at(token_kinds(old(self).tokens@), old(self).pos as int, in_loop(*old(self)), in_function(*old(self))), e),
            final(self).wf(),
            Parser::advances(*old(self), *final(self)),
            r is Ok ==> parsed_clean(*old(self), *final(self)),
            final(self).pos > old(self).pos,
        decreases old(self).tokens@.len() - old(self).pos, 7int,
    {
        let ghost n = self.n();
        let ghost p0 = *self;
        let ghost t = token_kinds(self.tokens@);
        self.next()?;
        let ghost p1 = *self;
        let ghost c1 = self.compiler;
        proof {
            lemma_wf_unfold(self.compiler, n);
        }
        self.compiler.begin_scope();
        proof {
            lemma_wf_fold(self.compiler, n);
            compiler::lemma_extends_refl(c1.code(), c1.starts@);
            lemma_compiler_step(c1, self.compiler);
            if locals_named(p0) {
                lemma_locals_named_keep(p0, *self);
            }
        }
        assert(Parser::advances(p1, *self));
        while self.peek_kind() != TokenType::RightBrace && self.peek_kind() != TokenType::Eof
            invariant
                self.wf(),
                Parser::advances(p0, *self),
                p0 == *old(self),
                self.pos > p0.pos,
                parsed_clean(p0, *self),
                self.compiler.scope_depth >= p0.compiler.scope_depth + 1,
                n == self.n(),
                t == token_kinds(self.tokens@),
                self.errors@.len() == p0.errors@.len() ==> declarations_at(t, p0.pos + 1, in_loop(p0), in_function(p0))
                    == declarations_at(t, self.pos as int, in_loop(p0), in_function(p0)),
                self.errors@.len() == p0.errors@.len() ==> loop_depth(self.compiler.loop_context)
                    == loop_depth(p0.compiler.loop_context),
                in_function(*self) == in_function(p0),
                declarations_at(t, p0.pos + 1, in_loop(p0), in_function(p0)) is Some && locals_named(p0)
                    && counts_ok(p0) && self.errors@.len() > p0.errors@.len() ==> is_context_error(
                    self.errors@[p0.errors@.len() as int],
                    p0.tokens@,
                    p0.source@,
                ),
                locals_named(p0) ==> locals_named(*self),
                counts_grow(p0, *self),
            decreases self.tokens@.len() - self.pos,
        {
            let ghost q0 = *self;
            proof {
                assert(t[q0.pos as int] == q0.tokens@[q0.pos as int].token_type);
            }
            match self.declaration() {
                Ok(_) => {},
                Err(err) => {
                    let ghost qe = *self;
                    self.errors.push(err);
                    let ghost q1 = *self;
                    assert(Parser::advances(q0, q1));
                    self.synchronize();
                    proof {
                        if locals_named(p0) {
                            lemma_locals_named_keep(qe, *self);
                        }
                    }
                },
            }
        }
        proof {
            assert(t[self.pos as int] == self.tokens@[self.pos as int].token_type);
        }
        let ghost qb = *self;
        let closing_brace = self.expect_token(TokenType::RightBrace, "Expect '}' after block.")?;
        proof {
            p0.lemma_token_span(self.pos - 1);
        }
        let ghost q2 = *self;
        let ghost c2 = self.compiler;
        self.compiler.end_scope(&closing_brace.span, Ghost(n));
        proof {
            if locals_named(p0) {
                assert forall|k: int| 0 <= k < self.compiler.locals@.len() implies #[trigger] self.compiler.locals@[k].identifier.name
                    == qb.compiler.locals@[k].identifier.name by {
                    assert(self.compiler.locals@ == c2.locals@.take(self.compiler.locals@.len() as int));
                    assert(self.compiler.locals@[k] == c2.locals@[k]);
                    assert(c2.locals@ == qb.compiler.locals@);
                }
                lemma_locals_named_keep(qb, *self);
            }
            lemma_chain_frozen_same(c2, self.compiler);
            lemma_advances_rejoin(p0, q2, *self);
        }
        Ok(())
    }

    /// Compiles a function declaration: the function is compiled by a compiler of its
    /// own and stored as a constant, then bound to its name (a global at the top level,
    /// else a local).
    #[verifier::spinoff_prover]
    #[verifier::rlimit(60)]
    fn fun_declaration(&mut self) -> (r: Result<(), SyntaxError>)
        requires
            old(self).wf(),
            old(self).peek_type() == TokenType::Fun,
        ensures
            r matches Err(e) ==> points_into(e, old(self).n()),
            locals_named(*old(self)) ==> locals_named(*final(self)),
            counts_grow(*old(self), *final(self)),
            r is Ok && final(self).errors@.len() == old(self).errors@.len() ==> loop_depth(
                final(self).compiler.loop_context,
            ) == loop_depth(old(self).compiler.loop_context),
            r is Ok ==> parsed_as(*old(self), *final(self), fun_declaration_at(token_kinds(old(self).tokens@), old(self).pos as int)),
            r matches Err(e) ==> failed_as(*old(self), *final(self), fun_declaration_at(token_kinds(old(self).tokens@), old(self).pos as int), e),
            final(self).wf(),
            Parser::advances(*old(self), *final(self)),
            r is Ok ==> parsed_clean(*old(self), *final(self)),
            final(self).pos > old(self).pos,
        decreases old(self).tokens@.len() - old(self).pos, 8int,
    {
        let ghost n = self.n();
        let ghost p0 = *self;
        let fun_tok = self.next()?;
        proof {
            p0.lemma_token_span(p0.pos as int);
        }
        let ghost pv = *self;
        proof {
            if locals_named(p0) {
                lemma_locals_named_keep(p0, pv);
            }
        }
        let identifier = self.variable()?;
        let ghost p1 = *self;
        proof {
            if locals_named(p0) {
                lemma_locals_named_keep(pv, p1);
            }
        }
        if !self.compiler.is_global_scope() {
            let index = match self.compiler.add_local(&identifier, Ghost(n)) {
                Ok(index) => index,
                Err(e) => {
                    proof {
                        if compiler::declared_in_scope(p1.compiler.locals@, p1.compiler.scope_depth, identifier.name@) {
                            lemma_duplicate_is_repeated(pv, p1, identifier, e);
                        }
                    }
                    return Err(e);
                },
            };
            let ghost pa = *self;
            proof {
                if locals_named(p0) {
                    lemma_locals_named_push(p1, pa, pv.pos as int);
                }
            }
            self.compiler.initialize_local(index, Ghost(n));
            proof {
                if locals_named(p0) {
                    lemma_locals_named_keep(pa, *self);
                }
            }
        }
        proof {
            compiler::lemma_extends_refl(p1.compiler.code(), p1.compiler.starts@);
            lemma_compiler_step(p1.compiler, self.compiler);
        }
        assert(Parser::advances(p1, *self));
        let ghost p2 = *self;
        let ghost outer = self.compiler;
        let inner_context = Compiler::new(FunctionObject::new(&identifier.name), FunctionKind::Function);
        self.enter_context(inner_context);
        proof {
            assert(self.compiler.frame_wf(n));
            lemma_wf_fold(self.compiler, n);
        }
        self.compiler.begin_scope();
        proof {
            assert(self.compiler.frame_wf(n));
            lemma_wf_fold(self.compiler, n);
        }
        self.compiler.reserve_first_stack_slot(Ghost(n));
        let ghost p3 = *self;
        assert(self.wf());
        assert(locals_named(p3));
        let result = self.function_statement();
        proof {
            lemma_wf_unfold(self.compiler, n);
            assert(chain_frozen(p3.compiler, self.compiler));
        }
        let inner_context = self.exit_context();
        proof {
            lemma_frozen_continues(outer, self.compiler);
        }
        assert(Parser::advances(p2, *self));
        proof {
            if locals_named(p0) {
                lemma_locals_named_keep(p2, *self);
            }
        }
        let function_object = inner_context.function_object;
        result?;
        let ghost p4 = *self;
        let ghost c4 = self.compiler;
        self.compiler.emit_constant(Constant::Function(Box::new(function_object)), fun_tok.span, Ghost(n))?;
        proof {
            lemma_compiler_step(c4, self.compiler);
        }
        assert(Parser::advances(p4, *self));
        proof {
            if locals_named(p0) {
                lemma_locals_named_keep(p4, *self);
            }
        }
        if self.compiler.is_global_scope() {
            let ghost p5 = *self;
            let ghost c5 = self.compiler;
            self.compiler.emit_define_global(&identifier.name, identifier.span, Ghost(n))?;
            proof {
                lemma_compiler_step(c5, self.compiler);
            }
            assert(Parser::advances(p5, *self));
        }
        Ok(())
    }

    /// Compiles the parameters and body of a function, ending with an implicit return.
    #[verifier::spinoff_prover]
    #[verifier::rlimit(60)]
    fn function_statement(&mut self) -> (r: Result<(), SyntaxError>)
        requires
            old(self).wf(),
            old(self).compiler.function_object.arity == 0,
            old(self).compiler.function_kind == FunctionKind::Function,
            old(self).compiler.loop_context is None,
        ensures
            r matches Err(e) ==> points_into(e, old(self).n()),
            locals_named(*old(self)) ==> locals_named(*final(self)),
            counts_grow(*old(self), *final(self)),
            r is Ok ==> parsed_as(*old(self), *final(self), function_at(token_kinds(old(self).tokens@), old(self).pos as int)),
            r matches Err(e) ==> failed_as(*old(self), *final(self), function_at(token_kinds(old(self).tokens@), old(self).pos as int), e),
            final(self).wf(),
            Parser::advances(*old(self), *final(self)),
            r is Ok ==> parsed_clean(*old(self), *final(self)),
        decreases old(self).tokens@.len() - old(self).pos, 7int,
    {
        let ghost n = self.n();
        let ghost p0 = *self;
        let ghost t = token_kinds(self.tokens@);
        proof {
            assert(t[p0.pos as int] == p0.tokens@[p0.pos as int].token_type);
        }
        self.expect_token(TokenType::LeftParen, "Expect '(' after function name.")?;
        proof {
            assert(t[self.pos as int] == self.tokens@[self.pos as int].token_type);
            if locals_named(p0) {
                lemma_locals_named_keep(p0, *self);
            }
        }
        if self.peek_kind() != TokenType::RightParen {
            loop
                invariant_except_break
                    parameters_at(t, p0.pos + 1, 0) == parameters_at(t, self.pos as int, self.compiler.function_object.arity as int),
                invariant
                    self.wf(),
                    p0 == *old(self),
                    Parser::advances(p0, *self),
                    parsed_clean(p0, *self),
                    self.compiler.function_kind == FunctionKind::Function,
                    self.compiler.function_object.arity < 255,
                    n == self.n(),
                    t == token_kinds(self.tokens@),
                    self.errors == p0.errors,
                    self.pos > p0.pos,
                    kind_at(t, p0.pos as int) == TokenType::LeftParen,
                    self.compiler.loop_context is None,
                    kind_at(t, p0.pos + 1) != TokenType::RightParen,
                    locals_named(p0) ==> locals_named(*self),
                    counts_grow(p0, *self),
                ensures
                    locals_named(p0) ==> locals_named(*self),
                    counts_grow(p0, *self),
                    self.wf(),
                    Parser::advances(p0, *self),
                    parsed_clean(p0, *self),
                    self.errors == p0.errors,
                    parameters_at(t, p0.pos + 1, 0) == Some(self.pos as int),
                decreases self.tokens@.len() - self.pos,
            {
                let ghost i0 = self.pos as int;
                proof {
                    assert(t[i0] == self.tokens@[i0].token_type);
                }
                let ghost pv = *self;
                let param = self.parameter()?;
                proof {
                    assert(t[self.pos as int] == self.tokens@[self.pos as int].token_type);
                    if locals_named(p0) {
                        lemma_locals_named_keep(pv, *self);
                    }
                }
                let ghost q0 = *self;
                proof {
                    lemma_wf_unfold(self.compiler, n);
                }
                self.compiler.function_object.arity = self.compiler.function_object.arity + 1;
                proof {
                    lemma_wf_fold(self.compiler, n);
                    compiler::lemma_extends_refl(q0.compiler.code(), q0.compiler.starts@);
                    lemma_compiler_step(q0.compiler, self.compiler);
                }
                assert(Parser::advances(q0, *self));
                proof {
                    if locals_named(p0) {
                        lemma_locals_named_keep(q0, *self);
                    }
                }
                if self.compiler.function_object.arity == 255 {
                    return Err(syntax_error("Can't have more than 255 parameters.", param.span));
                }
                let ghost q1 = *self;
                let local_index = match self.compiler.add_local(&param, Ghost(n)) {
                    Ok(index) => index,
                    Err(e) => {
                        proof {
                            if compiler::declared_in_scope(q1.compiler.locals@, q1.compiler.scope_depth, param.name@) {
                                lemma_duplicate_is_repeated(pv, q1, param, e);
                            }
                        }
                        return Err(e);
                    },
                };
                let ghost q2 = *self;
                proof {
                    if locals_named(p0) {
                        lemma_locals_named_push(q1, q2, pv.pos as int);
                    }
                }
                self.compiler.initialize_local(local_index, Ghost(n));
                proof {
                    if locals_named(p0) {
                        lemma_locals_named_keep(q2, *self);
                    }
                    compiler::lemma_extends_refl(q1.compiler.code(), q1.compiler.starts@);
                    lemma_compiler_step(q1.compiler, self.compiler);
                }
                assert(Parser::advances(q1, *self));
                if self.peek_kind() == TokenType::Comma {
                    let ghost q3 = *self;
                    self.next()?;
                    proof {
                        if locals_named(p0) {
                            lemma_locals_named_keep(q3, *self);
                        }
                    }
                } else {
                    break;
                }
            }
        }
        proof {
            assert(t[self.pos as int] == self.tokens@[self.pos as int].token_type);
        }
        let ghost q4 = *self;
        self.expect_token(TokenType::RightParen, "Expect ')' after parameters.")?;
        proof {
            if locals_named(p0) {
                lemma_locals_named_keep(q4, *self);
            }
            assert(t[self.pos as int] == self.tokens@[self.pos as int].token_type);
        }
        if self.peek_kind() != TokenType::LeftBrace {
            return Err(syntax_error("Expect '{' before function body.", self.peek_span()));
        }
        self.block()?;
        let block_end = self.peek_span().start;
        let ghost q2 = *self;
        let ghost c2 = self.compiler;
        self.compiler.emit_return(Range { start: block_end, end: block_end }, Ghost(n));
        proof {
            lemma_compiler_step(c2, self.compiler);
            if locals_named(p0) {
                lemma_locals_named_keep(q2, *self);
            }
        }
        assert(self.wf());
        assert(Parser::advances(q2, *self));
        Ok(())
    }

    /// Compiles a variable declaration with an optional initializer (`nil` without
    /// one): a global at the top level, else a local that is initialized only after
    /// its initializer.
    #[verifier::spinoff_prover]
    #[verifier::rlimit(60)]
    fn var_declaration(&mut self) -> (r: Result<(), SyntaxError>)
        requires
            old(self).wf(),
            old(self).peek_type() == TokenType::Var,
        ensures
            r matches Err(e) ==> points_into(e, old(self).n()),
            locals_named(*old(self)) ==> locals_named(*final(self)),
            counts_grow(*old(self), *final(self)),
            r is Ok && final(self).errors@.len() == old(self).errors@.len() ==> loop_depth(
                final(self).compiler.loop_context,
            ) == loop_depth(old(self).compiler.loop_context),
            r is Ok ==> parsed_as(*old(self), *final(self), var_declaration_at(token_kinds(old(self).tokens@), old(self).pos as int)),
            r matches Err(e) ==> failed_as(*old(self), *final(self), var_declaration_at(token_kinds(old(self).tokens@), old(self).pos as int), e),
            final(self).wf(),
            Parser::advances(*old(self), *final(self)),
            r is Ok ==> parsed_clean(*old(self), *final(self)),
            final(self).pos > old(self).pos,
            r is Ok && old(self).compiler.scope_depth == 0 ==> final(self).compiler.n_constants() >= 1
                && global_named(
                final(self).compiler.function_object.chunk.constants@.drop_last(),
                final(self).compiler.function_object.chunk.constants@,
                text_of(old(self).tokens@, old(self).source@, old(self).pos + 1),
            ) && final(self).compiler.code().subrange(
                final(self).compiler.code().len() - 3,
                final(self).compiler.code().len() as int,
            ) == instruction_bytes(OpCode::DefineGlobal, (final(self).compiler.n_constants() - 1) as u16),
            r is Ok ==> emitted_kinds(final(self).compiler.code(), final(self).compiler.starts@, old(self).compiler.starts@.len() as int)
                == if old(self).compiler.scope_depth == 0 {
                initializer_kinds(token_kinds(old(self).tokens@), old(self).pos as int).push(OpCode::DefineGlobal)
            } else {
                initializer_kinds(token_kinds(old(self).tokens@), old(self).pos as int)
            },
    {
        let ghost n = self.n();
        let ghost p0 = *self;
        let var = self.next()?;
        proof {
            p0.lemma_token_span(p0.pos as int);
        }
        let ghost pv = *self;
        proof {
            if locals_named(p0) {
                lemma_locals_named_keep(p0, pv);
            }
        }
        let identifier = self.variable()?;
        let ghost p1 = *self;
        proof {
            if locals_named(p0) {
                lemma_locals_named_keep(pv, p1);
            }
        }
        let local_index = if !self.compiler.is_global_scope() {
            match self.compiler.add_local(&identifier, Ghost(n)) {
                Ok(index) => {
                    proof {
                        if locals_named(p0) {
                            lemma_locals_named_push(p1, *self, pv.pos as int);
                        }
                    }
                    Some(index)
                },
                Err(e) => {
                    proof {
                        if compiler::declared_in_scope(p1.compiler.locals@, p1.compiler.scope_depth, identifier.name@) {
                            lemma_duplicate_is_repeated(pv, p1, identifier, e);
                        }
                    }
                    return Err(e);
                },
            }
        } else {
            None
        };
        proof {
            compiler::lemma_extends_refl(p1.compiler.code(), p1.compiler.starts@);
            lemma_compiler_step(p1.compiler, self.compiler);
        }
        assert(Parser::advances(p1, *self));
        let ghost locals1 = self.compiler.locals;
        let ghost pl = *self;
        let ghost base = p0.compiler.starts@.len() as int;
        let ghost t = token_kinds(p0.tokens@);
        assert(pl.compiler.starts@ == p0.compiler.starts@);
        proof {
            assert(t[pl.pos as int] == pl.tokens@[pl.pos as int].token_type);
        }
        if self.peek_kind() == TokenType::Equal {
            let _ = self.next();
            proof {
                if locals_named(p0) {
                    lemma_locals_named_keep(pl, *self);
                }
            }
            self.expression()?;
        } else {
            let ghost q = *self;
            let ghost c = self.compiler;
            self.compiler.emit_byte(OpCode::Nil, copy_span(&var.span), Ghost(n));
            proof {
                lemma_compiler_step(c, self.compiler);
                reveal(emitted_kinds);
                assert(emitted_kinds(c.code(), c.starts@, base) =~= Seq::<OpCode>::empty());
                lemma_emitted_one(c.code(), c.starts@, self.compiler.code(), self.compiler.starts@, base, OpCode::Nil);
                assert(Seq::<OpCode>::empty().push(OpCode::Nil) =~= seq![OpCode::Nil]);
            }
            assert(Parser::advances(q, *self));
        }
        assert(emitted_kinds(self.compiler.code(), self.compiler.starts@, base) == initializer_kinds(t, p0.pos as int));
        let ghost pe = *self;
        self.expect_token(TokenType::Semicolon, "Expect ';' after variable declaration.")?;
        let ghost p2 = *self;
        proof {
            if locals_named(p0) {
                lemma_locals_named_keep(pe, p2);
            }
        }
        let ghost c2 = self.compiler;
        match local_index {
            Some(index) => {
                self.compiler.initialize_local(index, Ghost(n));
                proof {
                    compiler::lemma_extends_refl(c2.code(), c2.starts@);
                    lemma_emitted_same(c2.code(), c2.starts@, self.compiler.code(), self.compiler.starts@, base);
                }
            },
            None => {
                self.compiler.emit_define_global(&identifier.name, identifier.span, Ghost(n))?;
                proof {
                    lemma_emitted_one(c2.code(), c2.starts@, self.compiler.code(), self.compiler.starts@, base, OpCode::DefineGlobal);
                }
                assert(self.compiler.code().subrange(
                    self.compiler.code().len() - 3,
                    self.compiler.code().len() as int,
                ) =~= instruction_bytes(OpCode::DefineGlobal, c2.n_constants() as u16));
                assert(self.compiler.function_object.chunk.constants@.drop_last()
                    =~= c2.function_object.chunk.constants@);
                assert(identifier.name@ == text_of(p0.tokens@, p0.source@, p0.pos + 1));
            },
        }
        proof {
            lemma_compiler_step(c2, self.compiler);
            if locals_named(p0) {
                lemma_locals_named_keep(p2, *self);
            }
        }
        assert(Parser::advances(p2, *self));
        Ok(())
    }

    /// Compiles an expression whose value is discarded.
    fn expression_statement(&mut self) -> (r: Result<(), SyntaxError>)
        requires
            old(self).wf(),
        ensures
            r matches Err(e) ==> points_into(e, old(self).n()),
            locals_named(*old(self)) ==> locals_named(*final(self)),
            counts_grow(*old(self), *final(self)),
            r is Ok && final(self).errors@.len() == old(self).errors@.len() ==> loop_depth(
                final(self).compiler.loop_context,
            ) == loop_depth(old(self).compiler.loop_context),
            r is Ok ==> parsed_as(*old(self), *final(self), expression_statement_at(token_kinds(old(self).tokens@), old(self).pos as int)),
            r is Ok ==> emitted_kinds(final(self).compiler.code(), final(self).compiler.starts@, old(self).compiler.starts@.len() as int)
                == expression_kinds(token_kinds(old(self).tokens@), old(self).pos as int).push(OpCode::Pop),
            r matches Err(e) ==> failed_as(*old(self), *final(self), expression_statement_at(token_kinds(old(self).tokens@), old(self).pos as int), e),
            final(self).wf(),
            Parser::advances(*old(self), *final(self)),
            r is Ok ==> parsed_clean(*old(self), *final(self)),
            final(self).compiler.locals == old(self).compiler.locals,
            final(self).pos == old(self).pos ==> r is Err,
    {
        let ghost n = self.n();
        let ghost p0 = *self;
        self.expression()?;
        let ghost p1 = *self;
        let span = self.expect_token(TokenType::Semicolon, "Expect ';' after value.")?.span;
        proof {
            p0.lemma_token_span(p1.pos as int);
        }
        let ghost p2 = *self;
        let ghost c2 = self.compiler;
        self.compiler.emit_byte(OpCode::Pop, span, Ghost(n));
        proof {
            lemma_compiler_step(c2, self.compiler);
            lemma_emitted_one(c2.code(), c2.starts@, self.compiler.code(), self.compiler.starts@, p0.compiler.starts@.len() as int, OpCode::Pop);
        }
        assert(Parser::advances(p2, *self));
        Ok(())
    }

    /// Compiles a statement.
    fn statement(&mut self) -> (r: Result<(), SyntaxError>)
        requires
            old(self).wf(),
        ensures
            r matches Err(e) ==> points_into(e, old(self).n()),
            locals_named(*old(self)) ==> locals_named(*final(self)),
            counts_grow(*old(self), *final(self)),
            r is Ok && final(self).errors@.len() == old(self).errors@.len() ==> loop_depth(
                final(self).compiler.loop_context,
            ) == loop_depth(old(self).compiler.loop_context),
            r is Ok ==> parsed_as(*old(self), *final(self), statement_at(token_kinds(old(self).tokens@), old(self).pos as int, in_loop(*old(self)), in_function(*old(self)))),
            r matches Err(e) ==> failed_as(*old(self), *final(self), statement_at(token_kinds(old(self).tokens@), old(self).pos as int, in_loop(*old(self)), in_function(*old(self))), e),
            final(self).wf(),
            Parser::advances(*old(self), *final(self)),
            r is Ok ==> parsed_clean(*old(self), *final(self)),
            final(self).pos == old(self).pos ==> r is Err && old(self).peek_type() != TokenType::Print
                && old(self).peek_type() != TokenType::Return && old(self).peek_type() != TokenType::For
                && old(self).peek_type() != TokenType::While && old(self).peek_type() != TokenType::If,
        decreases old(self).tokens@.len() - old(self).pos, 8int,
    {
        let kind = self.peek_kind();
        if kind == TokenType::Print {
            self.print_statement()
        } else if kind == TokenType::LeftBrace {
            self.block()
        } else if kind == TokenType::If {
            self.if_statement()
        } else if kind == TokenType::While {
            self.while_statement()
        } else if kind == TokenType::For {
            self.for_statement()
        } else if kind == TokenType::Break {
            self.break_statement()
        } else if kind == TokenType::Continue {
            self.continue_statement()
        } else if kind == TokenType::Return {
            self.return_statement()
        } else {
            self.expression_statement()
        }
    }

    /// Compiles `print` of an expression.
    fn print_statement(&mut self) -> (r: Result<(), SyntaxError>)
        requires
            old(self).wf(),
            old(self).peek_type() == TokenType::Print,
        ensures
            r matches Err(e) ==> points_into(e, old(self).n()),
            locals_named(*old(self)) ==> locals_named(*final(self)),
            counts_grow(*old(self), *final(self)),
            r is Ok && final(self).errors@.len() == old(self).errors@.len() ==> loop_depth(
                final(self).compiler.loop_context,
            ) == loop_depth(old(self).compiler.loop_context),
            r is Ok ==> parsed_as(*old(self), *final(self), print_at(token_kinds(old(self).tokens@), old(self).pos as int)),
            r is Ok ==> emitted_kinds(final(self).compiler.code(), final(self).compiler.starts@, old(self).compiler.starts@.len() as int)
                == expression_kinds(token_kinds(old(self).tokens@), old(self).pos + 1).push(OpCode::Print),
            r matches Err(e) ==> failed_as(*old(self), *final(self), print_at(token_kinds(old(self).tokens@), old(self).pos as int), e),
            final(self).wf(),
            Parser::advances(*old(self), *final(self)),
            r is Ok ==> parsed_clean(*old(self), *final(self)),
            final(self).pos > old(self).pos,
    {
        let ghost n = self.n();
        let ghost p0 = *self;
        let next = self.next()?;
        proof {
            p0.lemma_token_span(p0.pos as int);
        }
        self.expression()?;
        self.expect_token(TokenType::Semicolon, "Expect ';' after value.")?;
        let ghost p1 = *self;
        let ghost c1 = self.compiler;
        self.compiler.emit_byte(OpCode::Print, next.span, Ghost(n));
        proof {
            lemma_compiler_step(c1, self.compiler);
            lemma_emitted_one(c1.code(), c1.starts@, self.compiler.code(), self.compiler.starts@, p0.compiler.starts@.len() as int, OpCode::Print);
        }
        assert(Parser::advances(p1, *self));
        Ok(())
    }

    /// Compiles `if` with an optional `else`: a false condition jumps over the
    /// then-branch, and the then-branch jumps over the else-branch.
    #[verifier::spinoff_prover]
    #[verifier::rlimit(100)]
    fn if_statement(&mut self) -> (r: Result<(), SyntaxError>)
        requires
            old(self).wf(),
            old(self).peek_type() == TokenType::If,
        ensures
            r matches Err(e) ==> points_into(e, old(self).n()),
            locals_named(*old(self)) ==> locals_named(*final(self)),
            counts_grow(*old(self), *final(self)),
            r is Ok && final(self).errors@.len() == old(self).errors@.len() ==> loop_depth(
                final(self).compiler.loop_context,
            ) == loop_depth(old(self).compiler.loop_context),
            r is Ok ==> parsed_as(*old(self), *final(self), if_at(token_kinds(old(self).tokens@), old(self).pos as int, in_loop(*old(self)), in_function(*old(self)))),
            r matches Err(e) ==> failed_as(*old(self), *final(self), if_at(token_kinds(old(self).tokens@), old(self).pos as int, in_loop(*old(self)), in_function(*old(self))), e),
            final(self).wf(),
            Parser::advances(*old(self), *final(self)),
            r is Ok ==> parsed_clean(*old(self), *final(self)),
            final(self).pos > old(self).pos,
            r is Ok ==> exists|o: int|
                old(self).compiler.code().len() < o && #[trigger] skips_to_end(final(self).compiler.code(), o),
        decreases old(self).tokens@.len() - old(self).pos, 7int,
    {
        let ghost n = self.n();
        let ghost p0 = *self;
        let if_tok = self.next()?;
        proof {
            p0.lemma_token_span(p0.pos as int);
        }
        self.expect_token(TokenType::LeftParen, "Expect '(' after 'if'.")?;
        self.expression()?;
        self.expect_token(TokenType::RightParen, "Expect ')' after condition.")?;
        let ghost q1 = *self;
        let then_jump = self.compiler.emit_jump(OpCode::JumpIfFalse, copy_span(&if_tok.span), Ghost(n));
        let ghost pt = *self;
        proof {
            lemma_compiler_step(q1.compiler, pt.compiler);
        }
        assert(Parser::advances(q1, pt));
        self.compiler.emit_byte(OpCode::Pop, copy_span(&if_tok.span), Ghost(n));
        proof {
            lemma_compiler_step(pt.compiler, self.compiler);
        }
        assert(Parser::advances(pt, *self));
        self.statement()?;
        let ghost q2 = *self;
        let else_jump = self.compiler.emit_jump(OpCode::Jump, copy_span(&if_tok.span), Ghost(n));
        let ghost pe = *self;
        proof {
            lemma_compiler_step(q2.compiler, pe.compiler);
        }
        assert(Parser::advances(q2, pe));
        assert(Parser::advances(pt, pe));
        proof {
            lemma_jump_operand_extends(
                pt.compiler.code(),
                pt.compiler.starts@,
                pe.compiler.code(),
                pe.compiler.starts@,
                then_jump as int,
            );
        }
        self.compiler.patch_jump(then_jump, Ghost(n))?;
        proof {
            lemma_compiler_step(pe.compiler, self.compiler);
        }
        assert(Parser::advances(pe, *self));
        let ghost q3 = *self;
        self.compiler.emit_byte(OpCode::Pop, copy_span(&if_tok.span), Ghost(n));
        proof {
            lemma_compiler_step(q3.compiler, self.compiler);
        }
        assert(Parser::advances(q3, *self));
        let ghost q3b = *self;
        if self.peek_kind() == TokenType::Else {
            self.next()?;
            self.statement()?;
        }
        assert(Parser::advances(pe, *self));
        proof {
            lemma_jump_operand_extends(
                pe.compiler.code(),
                pe.compiler.starts@,
                self.compiler.code(),
                self.compiler.starts@,
                else_jump as int,
            );
        }
        let ghost q4 = *self;
        self.compiler.patch_jump(else_jump, Ghost(n))?;
        proof {
            lemma_compiler_step(q4.compiler, self.compiler);
            let o = else_jump as int;
            let c4 = q4.compiler.code();
            lemma_patched_word(c4, o, (c4.len() - o - 2) as u16);
            let ke = pe.compiler.starts@.len() - 1;
            assert(pe.compiler.starts@[ke] == o - 1);
            assert(c4[pe.compiler.starts@[ke]] == pe.compiler.code()[pe.compiler.starts@[ke]]);
            let kp = q3b.compiler.starts@.len() - 1;
            assert(q3b.compiler.starts@[kp] == o + 2);
            assert(c4[q3b.compiler.starts@[kp]] == q3b.compiler.code()[q3b.compiler.starts@[kp]]);
            assert(skips_to_end(self.compiler.code(), o));
        }
        assert(Parser::advances(q4, *self));
        Ok(())
    }

    /// Compiles `while`: the condition, a jump out when it is false, the body, and a
    /// jump back to the condition; `break` and `continue` in the body refer to this
    /// loop.
    #[verifier::spinoff_prover]
    #[verifier::rlimit(100)]
    fn while_statement(&mut self) -> (r: Result<(), SyntaxError>)
        requires
            old(self).wf(),
            old(self).peek_type() == TokenType::While,
        ensures
            r matches Err(e) ==> points_into(e, old(self).n()),
            locals_named(*old(self)) ==> locals_named(*final(self)),
            counts_grow(*old(self), *final(self)),
            r is Ok && final(self).errors@.len() == old(self).errors@.len() ==> loop_depth(
                final(self).compiler.loop_context,
            ) == loop_depth(old(self).compiler.loop_context),
            r is Ok ==> parsed_as(*old(self), *final(self), while_at(token_kinds(old(self).tokens@), old(self).pos as int, in_loop(*old(self)), in_function(*old(self)))),
            r matches Err(e) ==> failed_as(*old(self), *final(self), while_at(token_kinds(old(self).tokens@), old(self).pos as int, in_loop(*old(self)), in_function(*old(self))), e),
            final(self).wf(),
            Parser::advances(*old(self), *final(self)),
            r is Ok ==> parsed_clean(*old(self), *final(self)),
            final(self).pos > old(self).pos,
            r is Ok ==> while_closes(old(self).compiler.code().len() as int, final(self).compiler.code()),
        decreases old(self).tokens@.len() - old(self).pos, 7int,
    {
        let ghost n = self.n();
        let ghost p0 = *self;
        let loop_start = self.compiler.next_ip();
        self.compiler.enter_loop_context(loop_start, Ghost(n));
        proof {
            compiler::lemma_extends_refl(p0.compiler.code(), p0.compiler.starts@);
            lemma_compiler_step(p0.compiler, self.compiler);
        }
        assert(Parser::advances(p0, *self));
        let ghost p1 = *self;
        let while_tok = self.next()?;
        proof {
            p0.lemma_token_span(p0.pos as int);
        }
        self.expect_token(TokenType::LeftParen, "Expect '(' after 'while'.")?;
        let loop_start = self.compiler.next_ip();
        let ghost pc = *self;
        self.expression()?;
        self.expect_token(TokenType::RightParen, "Expect ')' after condition.")?;
        let ghost q1 = *self;
        let exit_jump = self.compiler.emit_jump(OpCode::JumpIfFalse, copy_span(&while_tok.span), Ghost(n));
        let ghost px = *self;
        proof {
            lemma_compiler_step(q1.compiler, px.compiler);
        }
        assert(Parser::advances(q1, px));
        self.compiler.emit_byte(OpCode::Pop, copy_span(&while_tok.span), Ghost(n));
        proof {
            lemma_compiler_step(px.compiler, self.compiler);
        }
        assert(Parser::advances(px, *self));
        self.statement()?;
        assert(Parser::advances(pc, *self));
        let ghost q2 = *self;
        self.compiler.emit_loop(loop_start, copy_span(&while_tok.span), Ghost(n))?;
        proof {
            lemma_compiler_step(q2.compiler, self.compiler);
        }
        assert(Parser::advances(q2, *self));
        assert(Parser::advances(px, *self));
        proof {
            lemma_jump_operand_extends(
                px.compiler.code(),
                px.compiler.starts@,
                self.compiler.code(),
                self.compiler.starts@,
                exit_jump as int,
            );
        }
        let ghost q3 = *self;
        self.compiler.patch_jump(exit_jump, Ghost(n))?;
        proof {
            lemma_compiler_step(q3.compiler, self.compiler);
        }
        assert(Parser::advances(q3, *self));
        let ghost q4 = *self;
        self.compiler.emit_byte(OpCode::Pop, copy_span(&while_tok.span), Ghost(n));
        proof {
            lemma_compiler_step(q4.compiler, self.compiler);
        }
        assert(Parser::advances(q4, *self));
        assert(Parser::advances(p1, *self));
        let ghost q5 = *self;
        proof {
            lemma_loop_depth(self.compiler.loop_context);
        }
        let result = self.compiler.exit_loop_context(Ghost(n));
        proof {
            lemma_chain_frozen_same(q5.compiler, self.compiler);
            lemma_advances_rejoin(p0, q5, *self);
            let len2 = q2.compiler.code().len() as int;
            let closing = q5.compiler.code().subrange(len2, len2 + 3);
            assert(closing =~= loop_back(len2 + 3, p0.compiler.code().len() as int));
            if result is Ok {
                let patches = q5.compiler.loop_context->0.break_patches@;
                lemma_wf_unfold(q2.compiler, n);
                assert(q2.compiler.loop_context == q5.compiler.loop_context);
                assert forall|j: int| 0 <= j < patches.len() implies #[trigger] patches[j] + 1 < len2 by {
                    compiler::lemma_jump_operand_inside(q2.compiler.code(), q2.compiler.starts@, patches[j] as int);
                }
                assert forall|b: int| len2 <= b < len2 + 4 implies !compiler::patched_at(patches, b) by {
                    if compiler::patched_at(patches, b) {
                        let j = choose|j: int| 0 <= j < patches.len() && (b == #[trigger] patches[j] || b == patches[j] + 1);
                        assert(patches[j] + 1 < len2);
                    }
                }
                assert(self.compiler.code().subrange(len2, len2 + 3) =~= closing);
                assert(self.compiler.code().last() == q5.compiler.code().last());
            }
        }
        result
    }

    /// Compiles `for`: in a scope of its own, the initializer, then the loop of its
    /// clauses and body.
    #[verifier::spinoff_prover]
    #[verifier::rlimit(100)]
    fn for_statement(&mut self) -> (r: Result<(), SyntaxError>)
        requires
            old(self).wf(),
            old(self).peek_type() == TokenType::For,
        ensures
            r matches Err(e) ==> points_into(e, old(self).n()),
            locals_named(*old(self)) ==> locals_named(*final(self)),
            counts_grow(*old(self), *final(self)),
            r is Ok && final(self).errors@.len() == old(self).errors@.len() ==> loop_depth(
                final(self).compiler.loop_context,
            ) == loop_depth(old(self).compiler.loop_context),
            r is Ok ==> parsed_as(*old(self), *final(self), for_at(token_kinds(old(self).tokens@), old(self).pos as int, in_function(*old(self)))),
            r matches Err(e) ==> failed_as(*old(self), *final(self), for_at(token_kinds(old(self).tokens@), old(self).pos as int, in_function(*old(self))), e),
            final(self).wf(),
            Parser::advances(*old(self), *final(self)),
            r is Ok ==> parsed_clean(*old(self), *final(self)),
            final(self).pos > old(self).pos,
        decreases old(self).tokens@.len() - old(self).pos, 7int,
    {
        let ghost n = self.n();
        let ghost p0 = *self;
        let for_tok = self.next()?;
        proof {
            p0.lemma_token_span(p0.pos as int);
        }
        let ghost q0 = *self;
        proof {
            lemma_wf_unfold(self.compiler, n);
        }
        self.compiler.begin_scope();
        proof {
            lemma_wf_fold(self.compiler, n);
            compiler::lemma_extends_refl(q0.compiler.code(), q0.compiler.starts@);
            lemma_compiler_step(q0.compiler, self.compiler);
        }
        assert(Parser::advances(q0, *self));
        let ghost pb = *self;
        self.expect_token(TokenType::LeftParen, "Expect '(' after 'for'.")?;
        let kind = self.peek_kind();
        if kind == TokenType::Semicolon {
            self.next()?;
        } else if kind == TokenType::Var {
            self.var_declaration()?;
        } else {
            self.expression_statement()?;
        }
        let ghost q1 = *self;
        assert(Parser::advances(pb, q1));
        let outer_start = self.compiler.next_ip();
        self.compiler.enter_loop_context(outer_start, Ghost(n));
        proof {
            compiler::lemma_extends_refl(q1.compiler.code(), q1.compiler.starts@);
            lemma_compiler_step(q1.compiler, self.compiler);
        }
        assert(Parser::advances(q1, *self));
        let ghost p1 = *self;
        assert(self.wf());
        self.for_loop(&for_tok.span)?;
        assert(Parser::advances(pb, *self));
        let ghost q12 = *self;
        proof {
            lemma_wf_unfold(self.compiler, n);
        }
        self.compiler.end_scope(&for_tok.span, Ghost(n));
        proof {
            lemma_chain_frozen_same(q12.compiler, self.compiler);
            lemma_loop_depth(self.compiler.loop_context);
        }
        let ghost q13 = *self;
        let result = self.compiler.exit_loop_context(Ghost(n));
        proof {
            lemma_chain_frozen_same(q13.compiler, self.compiler);
            compiler::lemma_extends_trans(
                q12.compiler.code(),
                q12.compiler.starts@,
                q13.compiler.code(),
                q13.compiler.starts@,
                self.compiler.code(),
                self.compiler.starts@,
            );
            compiler::lemma_chain_frozen_trans(q12.compiler, q13.compiler, self.compiler);
            lemma_advances_rejoin(p0, q12, *self);
            assert(q13.wf());
            assert(self.tokens == q13.tokens && self.source == q13.source && self.pos == q13.pos);
            assert(self.errors == q13.errors && self.interner == q13.interner);
            assert(self.compiler.wf(n));
            assert(self.compiler.scope_depth == q13.compiler.scope_depth);
        }
        assert(self.wf());
        result
    }

    /// The loop of a `for` statement: the condition clause, the increment clause, the
    /// body, a loop back to the increment (or to the condition, without one), and the
    /// exit from the loop patched to land after it.
    #[verifier::spinoff_prover]
    #[verifier::rlimit(100)]
    fn for_loop(&mut self, for_span: &Range<usize>) -> (r: Result<(), SyntaxError>)
        requires
            old(self).wf(),
            old(self).compiler.loop_context is Some,
            for_span.start <= for_span.end <= old(self).n(),
        ensures
            r matches Err(e) ==> points_into(e, old(self).n()),
            locals_named(*old(self)) ==> locals_named(*final(self)),
            counts_grow_by(*old(self), *final(self), 4),
            r is Ok && final(self).errors@.len() == old(self).errors@.len() ==> loop_depth(
                final(self).compiler.loop_context,
            ) == loop_depth(old(self).compiler.loop_context),
            r is Ok ==> parsed_as(*old(self), *final(self), for_clauses_at(token_kinds(old(self).tokens@), old(self).pos as int, in_function(*old(self)))),
            r matches Err(e) ==> failed_as(*old(self), *final(self), for_clauses_at(token_kinds(old(self).tokens@), old(self).pos as int, in_function(*old(self))), e),
            final(self).wf(),
            Parser::advances(*old(self), *final(self)),
            r is Ok ==> parsed_clean(*old(self), *final(self)),
            r is Ok ==> closes_loop(
                old(self).compiler.code().len() as int,
                final(self).compiler.code(),
                old(self).peek_type() != TokenType::Semicolon,
                has_increment(token_kinds(old(self).tokens@), old(self).pos as int),
            ),
            r is Ok && old(self).peek_type() != TokenType::Semicolon ==> exists|j: int|
                old(self).compiler.code().len() < j && #[trigger] exits_to_last(final(self).compiler.code(), j),
        decreases old(self).tokens@.len() - old(self).pos, 6int,
    {
        let ghost n = self.n();
        let ghost p1 = *self;
        let condition_start = self.compiler.next_ip();
        let exit_jump = self.for_condition(for_span)?;
        let ghost px = *self;
        assert(p1.tokens@.len() <= 200 && counts_ok(p1) ==> counts_ok_with_room(px, 3));
        let loop_start = self.for_increment(for_span, condition_start)?;
        let ghost ps = *self;
        assert(Parser::advances(px, ps));
        assert(p1.tokens@.len() <= 200 && counts_ok(p1) ==> counts_ok(ps));
        self.statement()?;
        let ghost q9 = *self;
        assert(Parser::advances(px, q9));
        proof {
            if p1.tokens@.len() <= 200 && counts_ok(p1) {
                lemma_code_below_jump_limit(p1, q9, 0);
            }
        }
        self.compiler.emit_loop(loop_start, copy_span(for_span), Ghost(n))?;
        proof {
            lemma_compiler_step(q9.compiler, self.compiler);
        }
        assert(Parser::advances(q9, *self));
        assert(Parser::advances(px, *self));
        let ghost end = self.compiler.code().len() as int;
        let ghost closing = self.compiler.code().subrange(end - 3, end);
        assert(closing =~= instruction_bytes(OpCode::Loop, (end - loop_start) as u16));
        assert(has_increment(token_kinds(p1.tokens@), p1.pos as int) == (px.peek_type() != TokenType::RightParen));
        match exit_jump {
            Some(exit_jump) => {
                proof {
                    lemma_jump_operand_extends(
                        px.compiler.code(),
                        px.compiler.starts@,
                        self.compiler.code(),
                        self.compiler.starts@,
                        exit_jump as int,
                    );
                }
                let ghost q10 = *self;
                proof {
                    if p1.tokens@.len() <= 200 && counts_ok(p1) {
                        lemma_code_below_jump_limit(p1, q10, 3);
                    }
                }
                self.compiler.patch_jump(exit_jump, Ghost(n))?;
                proof {
                    lemma_compiler_step(q10.compiler, self.compiler);
                }
                assert(Parser::advances(q10, *self));
                let ghost q11 = *self;
                self.compiler.emit_byte(OpCode::Pop, copy_span(for_span), Ghost(n));
                proof {
                    lemma_compiler_step(q11.compiler, self.compiler);
                }
                assert(exits_to_last(self.compiler.code(), exit_jump as int)) by {
                    let c10 = q10.compiler.code();
                    let e = exit_jump as int;
                    lemma_patched_word(c10, e, (c10.len() - e - 2) as u16);
                    let k = choose|k: int| 0 <= k < px.compiler.starts@.len() && px.compiler.starts@[k] == e - 1;
                    assert(compiler::extends_code(px.compiler.code(), px.compiler.starts@, c10, q10.compiler.starts@));
                    assert(c10[px.compiler.starts@[k]] == px.compiler.code()[px.compiler.starts@[k]]);
                }
                assert(Parser::advances(q11, *self));
                assert(self.compiler.code().subrange(end - 3, end) =~= closing);
            },
            None => {},
        }
        assert(self.compiler.code().subrange(end - 3, end) == loop_back(end, loop_start as int));
        assert(loop_end(self.compiler.code(), p1.peek_type() != TokenType::Semicolon) == end);
        assert(p1.compiler.code().len() <= condition_start <= loop_start <= end - 3);
        assert(p1.peek_type() != TokenType::Semicolon ==> self.compiler.code().last() == opcode_byte(OpCode::Pop));
        assert(!has_increment(token_kinds(p1.tokens@), p1.pos as int) ==> loop_start == condition_start);
        assert(has_increment(token_kinds(p1.tokens@), p1.pos as int) ==> p1.compiler.code().len() + 3 <= loop_start
            && self.compiler.code()[loop_start - 3] == opcode_byte(OpCode::Jump)) by {
            if px.peek_type() != TokenType::RightParen {
                let k = px.compiler.starts@.len() as int;
                assert(compiler::extends_code(ps.compiler.code(), ps.compiler.starts@, self.compiler.code(), self.compiler.starts@));
                assert(k < ps.compiler.starts@.len());
                assert(self.compiler.code()[ps.compiler.starts@[k]] == ps.compiler.code()[ps.compiler.starts@[k]]);
            }
        }
        Ok(())
    }

    /// The condition clause of `for`: a condition, if there is one, with a jump out of
    /// the loop when it is false (returned, to be patched), and then `;`.
    #[verifier::spinoff_prover]
    #[verifier::rlimit(60)]
    fn for_condition(&mut self, for_span: &Range<usize>) -> (r: Result<Option<usize>, SyntaxError>)
        requires
            old(self).wf(),
            for_span.start <= for_span.end <= old(self).n(),
        ensures
            r matches Err(e) ==> points_into(e, old(self).n()),
            locals_named(*old(self)) ==> locals_named(*final(self)),
            counts_grow_by(*old(self), *final(self), 4),
            r is Ok ==> counts_grow_by(*old(self), *final(self), -296),
            final(self).errors == old(self).errors,
            final(self).compiler.loop_context == old(self).compiler.loop_context,
            final(self).compiler.locals == old(self).compiler.locals,
            r is Ok ==> for_condition_at(token_kinds(old(self).tokens@), old(self).pos as int) == Some(
                final(self).pos as int,
            ),
            r matches Err(e) ==> (for_condition_at(token_kinds(old(self).tokens@), old(self).pos as int)
                is Some && locals_named(*old(self)) && counts_ok(*old(self)) ==> is_context_error(e, old(self).tokens@, old(self).source@)),
            r matches Ok(Some(j)) ==> is_jump_operand(final(self).compiler.code(), final(self).compiler.starts@, j as int)
                && old(self).compiler.code().len() < j && j + 2 < final(self).compiler.code().len(),
            r is Ok ==> (r == Ok::<Option<usize>, SyntaxError>(None) <==> old(self).peek_type() == TokenType::Semicolon),
            r matches Ok(Some(j)) ==> j + 3 == final(self).compiler.code().len() && final(self).compiler.code()[j - 1]
                == opcode_byte(OpCode::JumpIfFalse) && final(self).compiler.code()[j + 2] == opcode_byte(OpCode::Pop),
            r is Ok ==> emitted_kinds(final(self).compiler.code(), final(self).compiler.starts@, old(self).compiler.starts@.len() as int)
                == if old(self).peek_type() == TokenType::Semicolon {
                Seq::<OpCode>::empty()
            } else {
                expression_kinds(token_kinds(old(self).tokens@), old(self).pos as int).push(OpCode::JumpIfFalse).push(OpCode::Pop)
            },
            final(self).wf(),
            Parser::advances(*old(self), *final(self)),
            r is Ok ==> parsed_clean(*old(self), *final(self)),
            r is Ok ==> final(self).pos > old(self).pos,
    {
        let ghost n = self.n();
        let ghost p1 = *self;
        let ghost base = p1.compiler.starts@.len() as int;
        if self.peek_kind() == TokenType::Semicolon {
            self.next()?;
            proof {
                reveal(emitted_kinds);
                assert(emitted_kinds(self.compiler.code(), self.compiler.starts@, base) =~= Seq::<OpCode>::empty());
            }
            return Ok(None);
        }
        self.expression()?;
        let ghost q2 = *self;
        let jump = self.compiler.emit_jump(OpCode::JumpIfFalse, copy_span(for_span), Ghost(n));
        proof {
            lemma_compiler_step(q2.compiler, self.compiler);
            lemma_emitted_one(q2.compiler.code(), q2.compiler.starts@, self.compiler.code(), self.compiler.starts@, base, OpCode::JumpIfFalse);
        }
        assert(Parser::advances(q2, *self));
        let ghost q3 = *self;
        self.compiler.emit_byte(OpCode::Pop, copy_span(for_span), Ghost(n));
        proof {
            lemma_compiler_step(q3.compiler, self.compiler);
            lemma_emitted_one(q3.compiler.code(), q3.compiler.starts@, self.compiler.code(), self.compiler.starts@, base, OpCode::Pop);
            lemma_jump_operand_extends(
                q3.compiler.code(),
                q3.compiler.starts@,
                self.compiler.code(),
                self.compiler.starts@,
                jump as int,
            );
        }
        assert(Parser::advances(q3, *self));
        let ghost q4 = *self;
        self.expect_token(TokenType::Semicolon, "Expect ';' after condition.")?;
        proof {
            lemma_jump_operand_extends(
                q4.compiler.code(),
                q4.compiler.starts@,
                self.compiler.code(),
                self.compiler.starts@,
                jump as int,
            );
        }
        Ok(Some(jump))
    }

    /// The increment clause of `for`: an increment, if there is one, jumped over on the
    /// way into the body, then a loop back to `loop_start`, with the loop restarting at
    /// the increment (where the loop restarts is returned); and then `)`.
    #[verifier::spinoff_prover]
    #[verifier::rlimit(100)]
    fn for_increment(&mut self, for_span: &Range<usize>, loop_start: usize) -> (r: Result<usize, SyntaxError>)
        requires
            old(self).wf(),
            old(self).compiler.loop_context is Some,
            loop_start <= old(self).compiler.code().len(),
            for_span.start <= for_span.end <= old(self).n(),
        ensures
            r matches Err(e) ==> points_into(e, old(self).n()),
            locals_named(*old(self)) ==> locals_named(*final(self)),
            final(self).compiler.n_constants() - old(self).compiler.n_constants() <= final(self).pos - old(self).pos,
            old(self).tokens@.len() <= 200 && counts_ok_with_room(*old(self), 3) ==> final(self).compiler.code().len()
                - old(self).compiler.code().len() <= 300 * (final(self).pos - old(self).pos) + 7,
            r is Ok && old(self).tokens@.len() <= 200 && counts_ok_with_room(*old(self), 3) ==> final(self).compiler.code().len()
                - old(self).compiler.code().len() <= 300 * (final(self).pos - old(self).pos) - 293,
            final(self).errors == old(self).errors,
            final(self).compiler.loop_context is Some,
            loop_depth(final(self).compiler.loop_context) == loop_depth(old(self).compiler.loop_context),
            final(self).compiler.locals == old(self).compiler.locals,
            r matches Ok(s) ==> loop_start <= s <= final(self).compiler.code().len(),
            old(self).peek_type() == TokenType::RightParen ==> (r matches Ok(s) ==> s == loop_start),
            old(self).peek_type() != TokenType::RightParen ==> (r matches Ok(s) ==> s == old(self).compiler.code().len() + 3
                && final(self).compiler.loop_context->0.loop_start == s
                && final(self).compiler.code()[old(self).compiler.code().len() as int] == opcode_byte(OpCode::Jump)
                && old(self).compiler.starts@.len() < final(self).compiler.starts@.len()
                && final(self).compiler.starts@[old(self).compiler.starts@.len() as int] == old(self).compiler.code().len()),
            r is Ok ==> for_increment_at(token_kinds(old(self).tokens@), old(self).pos as int) == Some(
                final(self).pos as int,
            ),
            r matches Err(e) ==> (for_increment_at(token_kinds(old(self).tokens@), old(self).pos as int)
                is Some && locals_named(*old(self)) && counts_ok_with_room(*old(self), 3) ==> is_context_error(e, old(self).tokens@, old(self).source@)),
            final(self).wf(),
            Parser::advances(*old(self), *final(self)),
            r is Ok ==> parsed_clean(*old(self), *final(self)),
            r is Ok ==> final(self).pos > old(self).pos,
            old(self).peek_type() != TokenType::RightParen ==> (r is Ok ==> old(self).compiler.code().len() + 7
                <= final(self).compiler.code().len() && final(self).compiler.code()[final(self).compiler.code().len() - 4]
                == opcode_byte(OpCode::Pop) && final(self).compiler.code().subrange(
                final(self).compiler.code().len() - 3,
                final(self).compiler.code().len() as int,
            ) == loop_back(final(self).compiler.code().len() as int, loop_start as int)
                && old(self).compiler.code().len() + 3 + word_at(final(self).compiler.code(), old(self).compiler.code().len() as int + 1)
                == final(self).compiler.code().len()),
    {
        let ghost n = self.n();
        let ghost p1 = *self;
        let mut loop_start = loop_start;
        let ghost first_start = loop_start as int;
        if self.peek_kind() != TokenType::RightParen {
            let ghost q4 = *self;
            let body_jump = self.compiler.emit_jump(OpCode::Jump, copy_span(for_span), Ghost(n));
            let ghost pb = *self;
            proof {
                lemma_compiler_step(q4.compiler, pb.compiler);
            }
            assert(Parser::advances(q4, pb));
            let increment_start = self.compiler.next_ip();
            self.expression()?;
            let ghost q5 = *self;
            self.compiler.emit_byte(OpCode::Pop, copy_span(for_span), Ghost(n));
            proof {
                lemma_compiler_step(q5.compiler, self.compiler);
            }
            assert(Parser::advances(q5, *self));
            let ghost q6 = *self;
            proof {
                if p1.tokens@.len() <= 200 && counts_ok_with_room(p1, 3) {
                    lemma_code_below_jump_limit(p1, q6, 4);
                }
            }
            self.compiler.emit_loop(loop_start, copy_span(for_span), Ghost(n))?;
            proof {
                lemma_compiler_step(q6.compiler, self.compiler);
            }
            assert(Parser::advances(q6, *self));
            loop_start = increment_start;
            let ghost q7 = *self;
            proof {
                lemma_loop_depth(self.compiler.loop_context);
            }
            self.compiler.rebase_loop_start(increment_start, Ghost(n));
            proof {
                compiler::lemma_extends_refl(q7.compiler.code(), q7.compiler.starts@);
                lemma_compiler_step(q7.compiler, self.compiler);
            }
            assert(Parser::advances(q7, *self));
            assert(Parser::advances(pb, *self));
            proof {
                lemma_jump_operand_extends(
                    pb.compiler.code(),
                    pb.compiler.starts@,
                    self.compiler.code(),
                    self.compiler.starts@,
                    body_jump as int,
                );
            }
            let ghost q8 = *self;
            proof {
                if p1.tokens@.len() <= 200 && counts_ok_with_room(p1, 3) {
                    lemma_code_below_jump_limit(p1, q8, 7);
                }
            }
            self.compiler.patch_jump(body_jump, Ghost(n))?;
            proof {
                let c8 = q8.compiler.code();
                let len = c8.len() as int;
                lemma_patched_word(c8, body_jump as int, (len - body_jump - 2) as u16);
                assert(c8.subrange(len - 3, len) =~= loop_back(len, first_start));
                assert(self.compiler.code().subrange(len - 3, len) =~= c8.subrange(len - 3, len));
                assert(self.compiler.code()[len - 4] == c8[len - 4]);
            }
            proof {
                lemma_compiler_step(q8.compiler, self.compiler);
            }
            assert(Parser::advances(q8, *self));
        } else {
            proof {
                lemma_advances_refl(*self);
            }
        }
        assert(Parser::advances(p1, *self));
        self.expect_token(TokenType::RightParen, "Expect ')' after for clauses.")?;
        Ok(loop_start)
    }

    /// Compiles `break`: an error outside a loop.
    #[verifier::spinoff_prover]
    fn break_statement(&mut self) -> (r: Result<(), SyntaxError>)
        requires
            old(self).wf(),
            old(self).peek_type() == TokenType::Break,
        ensures
            r matches Err(e) ==> points_into(e, old(self).n()),
            locals_named(*old(self)) ==> locals_named(*final(self)),
            counts_grow(*old(self), *final(self)),
            r is Ok && final(self).errors@.len() == old(self).errors@.len() ==> loop_depth(
                final(self).compiler.loop_context,
            ) == loop_depth(old(self).compiler.loop_context),
            r is Ok ==> parsed_as(*old(self), *final(self), statement_at(token_kinds(old(self).tokens@), old(self).pos as int, in_loop(*old(self)), in_function(*old(self)))),
            r matches Err(e) ==> failed_as(*old(self), *final(self), statement_at(token_kinds(old(self).tokens@), old(self).pos as int, in_loop(*old(self)), in_function(*old(self))), e),
            final(self).wf(),
            Parser::advances(*old(self), *final(self)),
            r is Ok ==> parsed_clean(*old(self), *final(self)),
            final(self).pos > old(self).pos,
            old(self).compiler.loop_context is None ==> r is Err,
    {
        let ghost n = self.n();
        let ghost p0 = *self;
        let break_tok = self.next()?;
        proof {
            p0.lemma_token_span(p0.pos as int);
        }
        if !self.compiler.is_inside_loop() {
            return Err(syntax_error("'break' outside loop.", break_tok.span));
        }
        let ghost q = *self;
        self.compiler.compile_break(break_tok.span, Ghost(n));
        proof {
            lemma_compiler_step(q.compiler, self.compiler);
        }
        assert(Parser::advances(q, *self));
        self.expect_token(TokenType::Semicolon, "Expect ';' after break.")?;
        Ok(())
    }

    /// Compiles `continue`: an error outside a loop.
    #[verifier::spinoff_prover]
    fn continue_statement(&mut self) -> (r: Result<(), SyntaxError>)
        requires
            old(self).wf(),
            old(self).peek_type() == TokenType::Continue,
        ensures
            r matches Err(e) ==> points_into(e, old(self).n()),
            locals_named(*old(self)) ==> locals_named(*final(self)),
            counts_grow(*old(self), *final(self)),
            r is Ok && final(self).errors@.len() == old(self).errors@.len() ==> loop_depth(
                final(self).compiler.loop_context,
            ) == loop_depth(old(self).compiler.loop_context),
            r is Ok ==> parsed_as(*old(self), *final(self), statement_at(token_kinds(old(self).tokens@), old(self).pos as int, in_loop(*old(self)), in_function(*old(self)))),
            r matches Err(e) ==> failed_as(*old(self), *final(self), statement_at(token_kinds(old(self).tokens@), old(self).pos as int, in_loop(*old(self)), in_function(*old(self))), e),
            final(self).wf(),
            Parser::advances(*old(self), *final(self)),
            r is Ok ==> parsed_clean(*old(self), *final(self)),
            final(self).pos > old(self).pos,
            old(self).compiler.loop_context is None ==> r is Err,
    {
        let ghost n = self.n();
        let ghost p0 = *self;
        let continue_tok = self.next()?;
        proof {
            p0.lemma_token_span(p0.pos as int);
        }
        if !self.compiler.is_inside_loop() {
            return Err(syntax_error("'continue' outside loop.", continue_tok.span));
        }
        let ghost q = *self;
        let result = self.compiler.compile_continue(continue_tok.span, Ghost(n));
        proof {
            lemma_compiler_step(q.compiler, self.compiler);
        }
        assert(Parser::advances(q, *self));
        result?;
        self.expect_token(TokenType::Semicolon, "Expect ';' after break.")?;
        Ok(())
    }

    /// Compiles `return`, with or without a value: an error in top-level code.
    #[verifier::spinoff_prover]
    fn return_statement(&mut self) -> (r: Result<(), SyntaxError>)
        requires
            old(self).wf(),
            old(self).peek_type() == TokenType::Return,
        ensures
            r matches Err(e) ==> points_into(e, old(self).n()),
            locals_named(*old(self)) ==> locals_named(*final(self)),
            counts_grow(*old(self), *final(self)),
            r is Ok && final(self).errors@.len() == old(self).errors@.len() ==> loop_depth(
                final(self).compiler.loop_context,
            ) == loop_depth(old(self).compiler.loop_context),
            r is Ok ==> parsed_as(*old(self), *final(self), statement_at(token_kinds(old(self).tokens@), old(self).pos as int, in_loop(*old(self)), in_function(*old(self)))),
            r matches Err(e) ==> failed_as(*old(self), *final(self), statement_at(token_kinds(old(self).tokens@), old(self).pos as int, in_loop(*old(self)), in_function(*old(self))), e),
            final(self).wf(),
            Parser::advances(*old(self), *final(self)),
            r is Ok ==> parsed_clean(*old(self), *final(self)),
            final(self).pos > old(self).pos,
            old(self).compiler.function_kind == FunctionKind::Script ==> r is Err,
            r is Ok && kind_at(token_kinds(old(self).tokens@), old(self).pos + 1) != TokenType::Semicolon
                ==> emitted_kinds(final(self).compiler.code(), final(self).compiler.starts@, old(self).compiler.starts@.len() as int)
                == expression_kinds(token_kinds(old(self).tokens@), old(self).pos + 1).push(OpCode::Return),
    {
        let ghost n = self.n();
        let ghost p0 = *self;
        let return_tok = self.next()?;
        proof {
            p0.lemma_token_span(p0.pos as int);
        }
        if self.compiler.is_top_level_code() {
            return Err(syntax_error("Can't return from top-level code.", return_tok.span));
        }
        if self.peek_kind() == TokenType::Semicolon {
            let ghost q = *self;
            self.compiler.emit_return(return_tok.span, Ghost(n));
            proof {
                lemma_compiler_step(q.compiler, self.compiler);
            }
            assert(Parser::advances(q, *self));
        } else {
            self.expression()?;
            let ghost q = *self;
            self.compiler.emit_byte(OpCode::Return, return_tok.span, Ghost(n));
            proof {
                lemma_compiler_step(q.compiler, self.compiler);
                lemma_emitted_one(q.compiler.code(), q.compiler.starts@, self.compiler.code(), self.compiler.starts@, p0.compiler.starts@.len() as int, OpCode::Return);
            }
            assert(Parser::advances(q, *self));
        }
        self.expect_token(TokenType::Semicolon, "Expect ';' after return value.")?;
        Ok(())
    }
}

} // verus!
