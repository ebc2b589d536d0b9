use super::compiler;
use super::compiler::{lemma_jump_operand_extends, loop_depth, Compiler, ResolvedVariable};
use super::statement::{is_context_error, kind_at};
use super::{
    points_into, locals_named, names_a_repeated_name, counts_ok, counts_grow, text_of,
    lemma_no_lexical_error_empty, parsed_clean,
    lemma_advances_refl, lemma_advances_trans, lemma_compiler_step, Identifier, Parser, SyntaxError,
};
use super::codegen::syntax_error;
use crate::chunk::{copy_span, high_byte, is_layout, low_byte, word_at, Constant, MAX_CONSTANTS};
use super::codegen::MAX_JUMP;
use crate::opcode::{byte_opcode, opcode_byte, OpCode};
use crate::lexer::token_kinds;
use crate::token::TokenType;
use vstd::prelude::*;

verus! {

broadcast use super::lemma_advances_trans, super::lemma_no_lexical_error_trans;

/// The binding power of a prefix operator (`-` and `!`) on its operand.
pub open spec fn spec_prefix_binding_power(token_type: TokenType) -> Option<((), u8)> {
    match token_type {
        TokenType::Minus | TokenType::Bang => Some(((), 40)),
        _ => None,
    }
}

/// The left and right binding powers of an infix operator: factors bind tighter than
/// terms, terms than comparisons, comparisons than `and`, `and` than `or`; each left
/// power is below its right power, so operators of one level associate to the left.
pub open spec fn spec_infix_binding_power(token_type: TokenType) -> Option<(u8, u8)> {
    match token_type {
        TokenType::Star | TokenType::Slash => Some((29, 30)),
        TokenType::Plus | TokenType::Minus => Some((19, 20)),
        TokenType::EqualEqual | TokenType::Less | TokenType::LessEqual | TokenType::Greater
        | TokenType::GreaterEqual | TokenType::BangEqual => Some((9, 10)),
        TokenType::And => Some((7, 8)),
        TokenType::Or => Some((5, 6)),
        _ => None,
    }
}

pub fn prefix_binding_power(token_type: &TokenType) -> (r: Option<((), u8)>)
    ensures
        r == spec_prefix_binding_power(*token_type),
{
    match token_type {
        TokenType::Minus | TokenType::Bang => Some(((), 40)),
        _ => None,
    }
}

pub fn infix_binding_power(token_type: &TokenType) -> (r: Option<(u8, u8)>)
    ensures
        r == spec_infix_binding_power(*token_type),
{
    let bp = match token_type {
        TokenType::Star | TokenType::Slash => (29, 30),
        TokenType::Plus | TokenType::Minus => (19, 20),
        TokenType::EqualEqual | TokenType::Less | TokenType::LessEqual | TokenType::Greater
        | TokenType::GreaterEqual | TokenType::BangEqual => (9, 10),
        TokenType::And => (7, 8),
        TokenType::Or => (5, 6),
        _ => {
            return None;
        },
    };
    Some(bp)
}

/// Every infix operator associates to the left: its left binding power is below its
/// right one, so a following operator of the same level does not bind into the right
/// operand.
pub proof fn law_infix_left_associative(t: TokenType)
    ensures
        spec_infix_binding_power(t) matches Some((l, r)) ==> l < r && r == l + 1,
{
}

/// Prefix operators bind tighter than any infix operator.
pub proof fn law_prefix_binds_tightest(p: TokenType, t: TokenType)
    requires
        spec_prefix_binding_power(p) is Some,
        spec_infix_binding_power(t) is Some,
    ensures
        left_power(t) < prefix_power(p),
{
}

/// The binding power of a prefix operator on its operand (0 for other tokens).
pub open spec fn prefix_power(t: TokenType) -> int {
    match spec_prefix_binding_power(t) {
        Some((_, r)) => r as int,
        None => 0,
    }
}

/// The left binding power of an infix operator (0 for other tokens).
pub open spec fn left_power(t: TokenType) -> int {
    match spec_infix_binding_power(t) {
        Some((l, _)) => l as int,
        None => 0,
    }
}

/// The right binding power of an infix operator (0 for other tokens).
pub open spec fn right_power(t: TokenType) -> int {
    match spec_infix_binding_power(t) {
        Some((_, r)) => r as int,
        None => 0,
    }
}

/// Precedence levels: `*` `/` bind tighter than `+` `-`, which bind tighter than the
/// comparisons, which bind tighter than `and`, which binds tighter than `or`.
pub proof fn law_precedence_levels()
    ensures
        left_power(TokenType::Star) > right_power(TokenType::Plus),
        left_power(TokenType::Plus) > right_power(TokenType::Less),
        left_power(TokenType::Less) > right_power(TokenType::And),
        left_power(TokenType::And) > right_power(TokenType::Or),
        spec_infix_binding_power(TokenType::Slash) == spec_infix_binding_power(TokenType::Star),
        spec_infix_binding_power(TokenType::Minus) == spec_infix_binding_power(TokenType::Plus),
        spec_infix_binding_power(TokenType::EqualEqual) == spec_infix_binding_power(TokenType::Less),
        spec_infix_binding_power(TokenType::BangEqual) == spec_infix_binding_power(TokenType::Less),
        spec_infix_binding_power(TokenType::Greater) == spec_infix_binding_power(TokenType::Less),
        spec_infix_binding_power(TokenType::GreaterEqual) == spec_infix_binding_power(TokenType::Less),
        spec_infix_binding_power(TokenType::LessEqual) == spec_infix_binding_power(TokenType::Less),
{
}

/// The kind of an instruction, with the three ways of reading a variable taken as one
/// and the three ways of assigning one as one: which of them a name compiles to
/// depends on where the name is declared, not on the tokens.
pub open spec fn instruction_kind(op: OpCode) -> OpCode {
    match op {
        OpCode::GetUpvalue | OpCode::GetGlobal => OpCode::GetLocal,
        OpCode::SetUpvalue | OpCode::SetGlobal => OpCode::SetLocal,
        _ => op,
    }
}

/// The kinds of the instructions of `code` that begin at `starts[from]` and after, in
/// order.
#[verifier::opaque]
pub open spec fn emitted_kinds(code: Seq<u8>, starts: Seq<int>, from: int) -> Seq<OpCode> {
    Seq::new(
        (starts.len() - from) as nat,
        |k: int| instruction_kind(byte_opcode(code[starts[from + k]])),
    )
}

/// The instructions an arithmetic or comparison operator compiles to, after both of
/// its operands.
pub open spec fn operator_kinds(t: TokenType) -> Seq<OpCode> {
    match t {
        TokenType::Minus => seq![OpCode::Subtract],
        TokenType::Plus => seq![OpCode::Add],
        TokenType::Slash => seq![OpCode::Divide],
        TokenType::Star => seq![OpCode::Multiply],
        TokenType::Less => seq![OpCode::Less],
        TokenType::Greater => seq![OpCode::Greater],
        TokenType::EqualEqual => seq![OpCode::Equal],
        TokenType::GreaterEqual => seq![OpCode::Less, OpCode::Not],
        TokenType::LessEqual => seq![OpCode::Less, OpCode::Not],
        TokenType::BangEqual => seq![OpCode::Equal, OpCode::Not],
        _ => Seq::empty(),
    }
}

/// The expression grammar over token kinds, with the instructions each expression
/// compiles to. `expression_at(t, pos, min_bp)` parses an expression at token `pos`
/// whose infix operators bind at least as tightly as `min_bp`; it gives the position
/// after the expression and the kinds of its instructions in order, or `None` where
/// the tokens do not form one.
pub open spec fn expression_at(t: Seq<TokenType>, pos: int, min_bp: int) -> Option<(int, Seq<OpCode>)>
    decreases t.len() - pos, 1int,
{
    if !(0 <= pos < t.len()) {
        None
    } else {
        match operand_at(t, pos, min_bp) {
            Some((end, ops)) => if pos < end <= t.len() {
                operators_at(t, end, min_bp, ops)
            } else {
                None
            },
            None => None,
        }
    }
}

/// The operand an expression starts with: a literal, a parenthesized expression, a
/// prefix operator and its operand, a variable, or (at the lowest binding power) an
/// assignment to a variable.
pub open spec fn operand_at(t: Seq<TokenType>, pos: int, min_bp: int) -> Option<(int, Seq<OpCode>)>
    decreases t.len() - pos, 0int,
{
    if !(0 <= pos < t.len()) {
        None
    } else {
        match t[pos] {
            TokenType::Number | TokenType::String => Some((pos + 1, seq![OpCode::Constant])),
            TokenType::True => Some((pos + 1, seq![OpCode::True])),
            TokenType::False => Some((pos + 1, seq![OpCode::False])),
            TokenType::Nil => Some((pos + 1, seq![OpCode::Nil])),
            TokenType::LeftParen => match expression_at(t, pos + 1, 0) {
                Some((end, ops)) => if 0 <= end < t.len() && t[end] == TokenType::RightParen {
                    Some((end + 1, ops))
                } else {
                    None
                },
                None => None,
            },
            TokenType::Minus => match expression_at(t, pos + 1, prefix_power(TokenType::Minus)) {
                Some((end, ops)) => Some((end, ops.push(OpCode::Negate))),
                None => None,
            },
            TokenType::Bang => match expression_at(t, pos + 1, prefix_power(TokenType::Bang)) {
                Some((end, ops)) => Some((end, ops.push(OpCode::Not))),
                None => None,
            },
            TokenType::Identifier => if pos + 1 < t.len() && t[pos + 1] == TokenType::Equal && min_bp
                == 0 {
                match expression_at(t, pos + 2, 0) {
                    Some((end, ops)) => Some((end, ops.push(OpCode::SetLocal))),
                    None => None,
                }
            } else {
                Some((pos + 1, seq![OpCode::GetLocal]))
            },
            _ => None,
        }
    }
}

/// The infix operators that follow an operand, `acc` being the instructions so far: an
/// operator that binds at least as tightly as `min_bp` takes the expression after it
/// (of its right binding power) as right operand; `and` and `or` jump over it.
pub open spec fn operators_at(t: Seq<TokenType>, pos: int, min_bp: int, acc: Seq<OpCode>) -> Option<
    (int, Seq<OpCode>),
>
    decreases t.len() - pos, 2int,
{
    if !(0 <= pos < t.len()) {
        None
    } else if t[pos] == TokenType::Equal {
        None
    } else {
        match spec_infix_binding_power(t[pos]) {
            Some((l, r)) => if l < min_bp {
                Some((pos, acc))
            } else {
                match expression_at(t, pos + 1, r as int) {
                    Some((end, ops)) => if pos < end <= t.len() {
                        let next = if t[pos] == TokenType::And {
                            acc + seq![OpCode::JumpIfFalse, OpCode::Pop] + ops
                        } else if t[pos] == TokenType::Or {
                            acc + seq![OpCode::JumpIfFalse, OpCode::Jump, OpCode::Pop] + ops
                        } else {
                            acc + ops + operator_kinds(t[pos])
                        };
                        operators_at(t, end, min_bp, next)
                    } else {
                        None
                    },
                    None => None,
                }
            },
            None => Some((pos, acc)),
        }
    }
}

/// The errors that an expression the grammar accepts can still meet: a limit of the
/// compiler (on constants or on the distance of a jump), or a local variable read in
/// its own initializer.
pub open spec fn is_limit_error(e: SyntaxError) -> bool {
    ||| e.message@ == "Can't store more constants"@
    ||| e.message@ == "Too much code to jump over."@
    ||| e.message@ == "Can't read local variable in its own initializer."@
}

/// The text of the source that token `i` spans.
pub(crate) open spec fn token_text(p: Parser, i: int) -> Seq<char> {
    p.source@.subrange(p.tokens@[i].span.start as int, p.tokens@[i].span.end as int)
}

/// `e` reports a limit that holds in the state `p` it was met in: the constants are
/// full, the code is too long for a jump to cross, or the name just read is a local
/// variable whose initializer is being compiled.
pub(crate) open spec fn limit_met(e: SyntaxError, p: Parser) -> bool {
    ||| e.message@ == "Can't store more constants"@ && p.compiler.n_constants() >= MAX_CONSTANTS
    ||| e.message@ == "Too much code to jump over."@ && p.compiler.code().len() > MAX_JUMP
    ||| e.message@ == "Can't read local variable in its own initializer."@ && 1 <= p.pos
        && p.tokens@[p.pos - 1].token_type == TokenType::Identifier && exists|i: int|
        compiler::is_last_local_named(p.compiler.locals@, token_text(p, p.pos - 1), i)
            && !p.compiler.locals@[i].initialized
}

/// The instructions that begin in the layout `starts1` keep their kinds when the code
/// is extended; the kinds of those after them follow.
pub proof fn lemma_emitted_extends(c1: Seq<u8>, s1: Seq<int>, c2: Seq<u8>, s2: Seq<int>, from: int)
    requires
        compiler::extends_code(c1, s1, c2, s2),
        0 <= from <= s1.len(),
    ensures
        emitted_kinds(c2, s2, from) == emitted_kinds(c1, s1, from) + emitted_kinds(c2, s2, s1.len() as int),
{
    reveal(emitted_kinds);
    let a = emitted_kinds(c1, s1, from);
    let b = emitted_kinds(c2, s2, s1.len() as int);
    let e = emitted_kinds(c2, s2, from);
    assert forall|k: int| 0 <= k < e.len() implies e[k] == (a + b)[k] by {
        if k < a.len() {
            assert(s2[from + k] == s1[from + k]) by {
                assert(s2.subrange(0, s1.len() as int)[from + k] == s2[from + k]);
            }
            assert(c2[s1[from + k]] == c1[s1[from + k]]);
        }
    }
    assert(e =~= a + b);
}

/// Appending one instruction whose opcode is `op` adds its kind.
pub proof fn lemma_emitted_one(c1: Seq<u8>, s1: Seq<int>, c2: Seq<u8>, s2: Seq<int>, from: int, op: OpCode)
    requires
        compiler::extends_code(c1, s1, c2, s2),
        0 <= from <= s1.len(),
        s2 == s1.push(c1.len() as int),
        c1.len() < c2.len(),
        c2[c1.len() as int] == opcode_byte(op),
    ensures
        emitted_kinds(c2, s2, from) == emitted_kinds(c1, s1, from).push(instruction_kind(op)),
{
    lemma_emitted_extends(c1, s1, c2, s2, from);
    reveal(emitted_kinds);
    crate::opcode::law_opcode_roundtrip(op);
    assert(emitted_kinds(c2, s2, s1.len() as int) =~= seq![instruction_kind(op)]);
}

/// Code whose layout is unchanged has the same instruction kinds from any point.
pub proof fn lemma_emitted_same(c1: Seq<u8>, s1: Seq<int>, c2: Seq<u8>, s2: Seq<int>, from: int)
    requires
        compiler::extends_code(c1, s1, c2, s2),
        s2 == s1,
        0 <= from <= s1.len(),
    ensures
        emitted_kinds(c2, s2, from) == emitted_kinds(c1, s1, from),
{
    lemma_emitted_extends(c1, s1, c2, s2, from);
    reveal(emitted_kinds);
    assert(emitted_kinds(c2, s2, s1.len() as int) =~= Seq::<OpCode>::empty());
}

/// One infix operator at `pos`, binding at least as tightly as `min_bp`, with its right
/// operand ending at `end`: the operators after an operand go on after it.
proof fn lemma_operator_step(
    t: Seq<TokenType>,
    pos: int,
    min_bp: int,
    acc: Seq<OpCode>,
    end: int,
    ops: Seq<OpCode>,
)
    requires
        0 <= pos < end <= t.len(),
        t[pos] != TokenType::Equal,
        spec_infix_binding_power(t[pos]) matches Some((l, r)) && l >= min_bp && expression_at(
            t,
            pos + 1,
            r as int,
        ) == Some((end, ops)),
    ensures
        operators_at(t, pos, min_bp, acc) == operators_at(
            t,
            end,
            min_bp,
            if t[pos] == TokenType::And {
                acc + seq![OpCode::JumpIfFalse, OpCode::Pop] + ops
            } else if t[pos] == TokenType::Or {
                acc + seq![OpCode::JumpIfFalse, OpCode::Jump, OpCode::Pop] + ops
            } else {
                acc + ops + operator_kinds(t[pos])
            },
        ),
{
}

/// From `before` to `after` one constant was added, the name `name` (as a string): the
/// operand a global variable's instruction reads the variable's name from.
pub open spec fn global_named(before: Seq<Constant>, after: Seq<Constant>, name: Seq<char>) -> bool {
    &&& after.len() == before.len() + 1
    &&& after.drop_last() == before
    &&& after.last() matches Constant::Str(s) && s@ == name
}

/// Whether the instruction at byte `at` of `code` is a jump forward.
pub open spec fn is_forward_jump(code: Seq<u8>, at: int) -> bool {
    code[at] == opcode_byte(OpCode::Jump) || code[at] == opcode_byte(OpCode::JumpIfFalse)
}

/// Whether the jump at byte `at` of `code` lands within the code (at its end at most).
pub open spec fn lands(code: Seq<u8>, at: int) -> bool {
    at + 3 + word_at(code, at + 1) <= code.len()
}

/// Every jump forward among the instructions from the `from`-th on lands within the
/// code: none is left unpatched.
pub open spec fn jumps_land(code: Seq<u8>, starts: Seq<int>, from: int) -> bool {
    forall|k: int| from <= k < starts.len() && #[trigger] is_forward_jump(code, starts[k]) ==> lands(code, starts[k])
}

/// `new` begins with the bytes of `old`.
pub open spec fn keeps_prefix(old: Seq<u8>, new: Seq<u8>) -> bool {
    old.len() <= new.len() && forall|i: int| 0 <= i < old.len() ==> #[trigger] new[i] == old[i]
}

/// A jump instruction of a layout lies, with its operand, inside the code.
proof fn lemma_jump_inside(code: Seq<u8>, starts: Seq<int>, k: int)
    requires
        is_layout(code, starts),
        0 <= k < starts.len(),
        is_forward_jump(code, starts[k]),
    ensures
        starts[k] + 3 <= code.len(),
{
    crate::opcode::law_opcode_roundtrip(OpCode::Jump);
    crate::opcode::law_opcode_roundtrip(OpCode::JumpIfFalse);
    assert(crate::chunk::instruction_end(code, starts, k) <= code.len());
}

/// The jumps of the instructions from the `from`-th to the last of `(c1, s1)` land the
/// same in code that begins with `c1`.
proof fn lemma_lands_prefix(c1: Seq<u8>, s1: Seq<int>, c2: Seq<u8>, s2: Seq<int>, from: int)
    requires
        jumps_land(c1, s1, from),
        is_layout(c1, s1),
        keeps_prefix(c1, c2),
        s1.len() <= s2.len(),
        s2.subrange(0, s1.len() as int) == s1,
        0 <= from,
    ensures
        forall|k: int|
            from <= k < s1.len() && #[trigger] is_forward_jump(c2, s2[k]) ==> lands(c2, s2[k]),
{
    assert forall|k: int| from <= k < s1.len() && #[trigger] is_forward_jump(c2, s2[k]) implies lands(
        c2,
        s2[k],
    ) by {
        assert(s2.subrange(0, s1.len() as int)[k] == s2[k]);
        let at = s1[k];
        assert(0 <= at < c1.len());
        assert(c2[at] == c1[at]);
        assert(is_forward_jump(c1, s1[k]));
        lemma_jump_inside(c1, s1, k);
        assert(c2[at + 1] == c1[at + 1]);
        assert(c2[at + 2] == c1[at + 2]);
    }
}

/// The jumps of the instructions from the `mid`-th on land the same in code of the same
/// length whose bytes from that instruction on are the same.
proof fn lemma_lands_suffix(c3: Seq<u8>, s: Seq<int>, c4: Seq<u8>, mid: int, lo: int)
    requires
        jumps_land(c3, s, mid),
        is_layout(c3, s),
        c4.len() == c3.len(),
        0 <= mid,
        mid < s.len() ==> lo <= s[mid],
        forall|b: int| lo <= b < c3.len() ==> #[trigger] c4[b] == c3[b],
    ensures
        jumps_land(c4, s, mid),
{
    assert forall|k: int| mid <= k < s.len() && #[trigger] is_forward_jump(c4, s[k]) implies lands(c4, s[k]) by {
        assert(s[mid] <= s[k]);
        assert(0 <= s[k] < c3.len());
        assert(c4[s[k]] == c3[s[k]]);
        assert(is_forward_jump(c3, s[k]));
        lemma_jump_inside(c3, s, k);
        assert(lands(c3, s[k]));
        assert(c4[s[k] + 1] == c3[s[k] + 1]);
        assert(c4[s[k] + 2] == c3[s[k] + 2]);
        assert(word_at(c4, s[k] + 1) == word_at(c3, s[k] + 1));
    }
}

/// An instruction that is not a jump forward adds no jump to land.
proof fn lemma_lands_append(c: Seq<u8>, s: Seq<int>, c2: Seq<u8>, s2: Seq<int>, op: OpCode)
    requires
        s2 == s.push(c.len() as int),
        c.len() < c2.len(),
        c2[c.len() as int] == opcode_byte(op),
        op != OpCode::Jump,
        op != OpCode::JumpIfFalse,
    ensures
        jumps_land(c2, s2, s.len() as int),
{
    crate::opcode::law_opcode_roundtrip(op);
    crate::opcode::law_opcode_roundtrip(OpCode::Jump);
    crate::opcode::law_opcode_roundtrip(OpCode::JumpIfFalse);
    assert forall|k: int| s.len() <= k < s2.len() && #[trigger] is_forward_jump(c2, s2[k]) implies lands(c2, s2[k]) by {
        assert(k == s.len());
    }
}

/// Jumps that land in `(c1, s1)` from the `from`-th instruction, and in `(c2, s2)` from
/// the first instruction after those of `s1`, all land in `(c2, s2)` when `c2` begins
/// with `c1`.
proof fn lemma_lands_join(c1: Seq<u8>, s1: Seq<int>, c2: Seq<u8>, s2: Seq<int>, from: int)
    requires
        jumps_land(c1, s1, from),
        is_layout(c1, s1),
        keeps_prefix(c1, c2),
        compiler::extends_code(c1, s1, c2, s2),
        0 <= from,
        jumps_land(c2, s2, s1.len() as int),
    ensures
        jumps_land(c2, s2, from),
{
    lemma_lands_prefix(c1, s1, c2, s2, from);
}

/// The code of `and` lands all its jumps: the code before it, its `JumpIfFalse` and
/// `Pop`, then the right operand's code, with the `JumpIfFalse` patched to the end.
proof fn lemma_and_lands(
    c0: Seq<u8>,
    s0: Seq<int>,
    c2: Seq<u8>,
    c3: Seq<u8>,
    s3: Seq<int>,
    cf: Seq<u8>,
    base: int,
)
    requires
        0 <= base <= s0.len(),
        jumps_land(c0, s0, base),
        is_layout(c0, s0),
        is_layout(c3, s3),
        c2.len() == c0.len() as int + 4,
        keeps_prefix(c0, c2),
        c2[c0.len() as int] == opcode_byte(OpCode::JumpIfFalse),
        c2[c0.len() as int + 3] == opcode_byte(OpCode::Pop),
        keeps_prefix(c2, c3),
        compiler::extends_code(c2, s0.push(c0.len() as int).push(c0.len() as int + 3), c3, s3),
        jumps_land(c3, s3, s0.len() as int + 2),
        c3.len() - c0.len() - 3 <= u16::MAX,
        cf == c3.update(c0.len() as int + 1, low_byte((c3.len() - c0.len() - 3) as u16)).update(
            c0.len() as int + 2,
            high_byte((c3.len() - c0.len() - 3) as u16),
        ),
    ensures
        jumps_land(cf, s3, base),
        keeps_prefix(c0, cf),
{
    let n0 = s0.len() as int;
    let s2 = s0.push(c0.len() as int).push(c0.len() as int + 3);
    crate::opcode::law_opcode_roundtrip(OpCode::Pop);
    crate::opcode::law_opcode_roundtrip(OpCode::Jump);
    crate::opcode::law_opcode_roundtrip(OpCode::JumpIfFalse);
    lemma_patched_word(c3, c0.len() as int + 1, (c3.len() - c0.len() - 3) as u16);
    assert(s3.subrange(0, s2.len() as int)[n0] == s3[n0]);
    assert(s3.subrange(0, s2.len() as int)[n0 + 1] == s3[n0 + 1]);
    assert(s3[n0 + 1] == c0.len() as int + 3);
    if n0 + 2 < s3.len() {
        assert(s3[n0 + 1] < s3[n0 + 2]);
    }
    lemma_lands_suffix(c3, s3, cf, n0 + 2, c0.len() as int + 4);
    assert(keeps_prefix(c0, cf));
    assert(s3.subrange(0, n0) =~= s0) by {
        assert forall|k: int| 0 <= k < n0 implies s3.subrange(0, n0)[k] == s0[k] by {
            assert(s3.subrange(0, s2.len() as int)[k] == s3[k]);
        }
    }
    lemma_lands_prefix(c0, s0, cf, s3, base);
    assert forall|k: int| base <= k < s3.len() && #[trigger] is_forward_jump(cf, s3[k]) implies lands(cf, s3[k]) by {
        if k == n0 + 1 {
            assert(cf[c0.len() as int + 3] == c3[c0.len() as int + 3]);
        }
    }
}

/// The code of `or` lands all its jumps: the code before it, its `JumpIfFalse` patched
/// past its `Jump`, the `Jump`, a `Pop`, then the right operand's code, with the `Jump`
/// patched to the end.
proof fn lemma_or_lands(
    c0: Seq<u8>,
    s0: Seq<int>,
    c4: Seq<u8>,
    c5: Seq<u8>,
    s5: Seq<int>,
    cf: Seq<u8>,
    base: int,
)
    requires
        0 <= base <= s0.len(),
        jumps_land(c0, s0, base),
        is_layout(c0, s0),
        is_layout(c5, s5),
        c4.len() == c0.len() as int + 7,
        keeps_prefix(c0, c4),
        c4[c0.len() as int] == opcode_byte(OpCode::JumpIfFalse),
        word_at(c4, c0.len() as int + 1) == 3,
        c4[c0.len() as int + 3] == opcode_byte(OpCode::Jump),
        c4[c0.len() as int + 6] == opcode_byte(OpCode::Pop),
        keeps_prefix(c4, c5),
        compiler::extends_code(
            c4,
            s0.push(c0.len() as int).push(c0.len() as int + 3).push(c0.len() as int + 6),
            c5,
            s5,
        ),
        jumps_land(c5, s5, s0.len() as int + 3),
        c5.len() - c0.len() - 6 <= u16::MAX,
        cf == c5.update(c0.len() as int + 4, low_byte((c5.len() - c0.len() - 6) as u16)).update(
            c0.len() as int + 5,
            high_byte((c5.len() - c0.len() - 6) as u16),
        ),
    ensures
        jumps_land(cf, s5, base),
        keeps_prefix(c0, cf),
{
    let n0 = s0.len() as int;
    let s4 = s0.push(c0.len() as int).push(c0.len() as int + 3).push(c0.len() as int + 6);
    crate::opcode::law_opcode_roundtrip(OpCode::Pop);
    crate::opcode::law_opcode_roundtrip(OpCode::Jump);
    crate::opcode::law_opcode_roundtrip(OpCode::JumpIfFalse);
    lemma_patched_word(c5, c0.len() as int + 4, (c5.len() - c0.len() - 6) as u16);
    assert(s5.subrange(0, s4.len() as int)[n0] == s5[n0]);
    assert(s5.subrange(0, s4.len() as int)[n0 + 1] == s5[n0 + 1]);
    assert(s5.subrange(0, s4.len() as int)[n0 + 2] == s5[n0 + 2]);
    assert(s5[n0 + 2] == c0.len() as int + 6);
    if n0 + 3 < s5.len() {
        assert(s5[n0 + 2] < s5[n0 + 3]);
    }
    lemma_lands_suffix(c5, s5, cf, n0 + 3, c0.len() as int + 7);
    assert(keeps_prefix(c0, cf));
    assert(s5.subrange(0, n0) =~= s0) by {
        assert forall|k: int| 0 <= k < n0 implies s5.subrange(0, n0)[k] == s0[k] by {
            assert(s5.subrange(0, s4.len() as int)[k] == s5[k]);
        }
    }
    lemma_lands_prefix(c0, s0, cf, s5, base);
    assert forall|k: int| base <= k < s5.len() && #[trigger] is_forward_jump(cf, s5[k]) implies lands(cf, s5[k]) by {
        if k == n0 {
            assert(cf[c0.len() as int + 1] == c4[c0.len() as int + 1]);
            assert(cf[c0.len() as int + 2] == c4[c0.len() as int + 2]);
        } else if k == n0 + 2 {
            assert(cf[c0.len() as int + 6] == c4[c0.len() as int + 6]);
        }
    }
}

/// A word patched into two bytes reads back as that word.
pub(crate) proof fn lemma_patched_word(code: Seq<u8>, offset: int, w: u16)
    requires
        0 <= offset,
        offset + 1 < code.len(),
    ensures
        word_at(code.update(offset, low_byte(w)).update(offset + 1, high_byte(w)), offset) == w,
{
    let c = code.update(offset, low_byte(w)).update(offset + 1, high_byte(w));
    assert(c[offset] == low_byte(w));
    assert(c[offset + 1] == high_byte(w));
    assert((w % 256) as u8 + 256 * ((w / 256) as u8) == w) by (nonlinear_arith);
}

impl Parser {
    /// Compiles an expression.
    pub(crate) fn expression(&mut self) -> (r: Result<(), SyntaxError>)
        requires
            old(self).wf(),
        ensures
            r matches Err(e) ==> points_into(e, old(self).n()),
            locals_named(*old(self)) ==> locals_named(*final(self)),
            counts_grow(*old(self), *final(self)),
            final(self).wf(),
            Parser::advances(*old(self), *final(self)),
            r is Ok ==> parsed_clean(*old(self), *final(self)),
            final(self).compiler.locals == old(self).compiler.locals,
            final(self).pos == old(self).pos ==> r is Err,
            final(self).errors == old(self).errors,
            final(self).compiler.loop_context == old(self).compiler.loop_context,
            keeps_prefix(old(self).compiler.code(), final(self).compiler.code()),
            r is Ok ==> jumps_land(final(self).compiler.code(), final(self).compiler.starts@, old(self).compiler.starts@.len() as int),
            r matches Err(e) ==> (expression_at(token_kinds(old(self).tokens@), old(self).pos as int, 0)
                is Some ==> limit_met(e, *final(self))),
            r matches Err(e) ==> (expression_at(token_kinds(old(self).tokens@), old(self).pos as int, 0)
                is Some && locals_named(*old(self)) && counts_ok(*old(self)) ==> is_context_error(e, old(self).tokens@, old(self).source@)),
            r is Ok ==> expression_at(token_kinds(old(self).tokens@), old(self).pos as int, 0) == Some(
                (
                    final(self).pos as int,
                    emitted_kinds(
                        final(self).compiler.code(),
                        final(self).compiler.starts@,
                        old(self).compiler.starts@.len() as int,
                    ),
                ),
            ),
        decreases old(self).tokens@.len() - old(self).pos, 3int,
    {
        self.expr_bp(0)
    }

    /// Compiles a variable read, or at the lowest binding power an assignment to it.
    #[verifier::spinoff_prover]
    #[verifier::rlimit(100)]
    fn named_operand(&mut self, min_bp: u8) -> (r: Result<(), SyntaxError>)
        requires
            old(self).wf(),
            old(self).peek_type() == TokenType::Identifier,
        ensures
            r matches Err(e) ==> points_into(e, old(self).n()),
            locals_named(*old(self)) ==> locals_named(*final(self)),
            counts_grow(*old(self), *final(self)),
            final(self).wf(),
            Parser::advances(*old(self), *final(self)),
            r is Ok ==> parsed_clean(*old(self), *final(self)),
            final(self).compiler.locals == old(self).compiler.locals,
            final(self).pos == old(self).pos ==> r is Err,
            final(self).errors == old(self).errors,
            final(self).compiler.loop_context == old(self).compiler.loop_context,
            keeps_prefix(old(self).compiler.code(), final(self).compiler.code()),
            r is Ok ==> jumps_land(final(self).compiler.code(), final(self).compiler.starts@, old(self).compiler.starts@.len() as int),
            r matches Err(e) ==> (operand_at(token_kinds(old(self).tokens@), old(self).pos as int, min_bp as int)
                is Some ==> limit_met(e, *final(self))),
            r matches Err(e) ==> (operand_at(token_kinds(old(self).tokens@), old(self).pos as int, min_bp as int)
                is Some && locals_named(*old(self)) && counts_ok(*old(self)) ==> is_context_error(e, old(self).tokens@, old(self).source@)),
            r is Ok ==> operand_at(token_kinds(old(self).tokens@), old(self).pos as int, min_bp as int)
                == Some(
                (
                    final(self).pos as int,
                    emitted_kinds(
                        final(self).compiler.code(),
                        final(self).compiler.starts@,
                        old(self).compiler.starts@.len() as int,
                    ),
                ),
            ),
            r is Ok && !(kind_at(token_kinds(old(self).tokens@), old(self).pos + 1) == TokenType::Equal
                && min_bp == 0) ==> forall|k: int|
                compiler::is_last_local_named(
                    old(self).compiler.locals@,
                    text_of(old(self).tokens@, old(self).source@, old(self).pos as int),
                    k,
                ) ==> final(self).compiler.code() == old(self).compiler.code() + crate::chunk::instruction_bytes(
                    OpCode::GetLocal,
                    k as u16,
                ),
            r is Ok && kind_at(token_kinds(old(self).tokens@), old(self).pos + 1) == TokenType::Equal
                && min_bp == 0 ==> forall|k: int|
                compiler::is_last_local_named(
                    old(self).compiler.locals@,
                    text_of(old(self).tokens@, old(self).source@, old(self).pos as int),
                    k,
                ) ==> final(self).compiler.code().len() >= old(self).compiler.code().len() + 3
                    && final(self).compiler.code().subrange(
                    final(self).compiler.code().len() - 3,
                    final(self).compiler.code().len() as int,
                ) == crate::chunk::instruction_bytes(OpCode::SetLocal, k as u16),
            r is Ok && !(kind_at(token_kinds(old(self).tokens@), old(self).pos + 1) == TokenType::Equal
                && min_bp == 0) && final(self).compiler.code()[old(self).compiler.code().len() as int]
                == opcode_byte(OpCode::GetGlobal) ==> global_named(
                old(self).compiler.function_object.chunk.constants@,
                final(self).compiler.function_object.chunk.constants@,
                text_of(old(self).tokens@, old(self).source@, old(self).pos as int),
            ) && final(self).compiler.code() == old(self).compiler.code() + crate::chunk::instruction_bytes(
                OpCode::GetGlobal,
                old(self).compiler.n_constants() as u16,
            ),
            r is Ok && kind_at(token_kinds(old(self).tokens@), old(self).pos + 1) == TokenType::Equal
                && min_bp == 0 && final(self).compiler.code()[final(self).compiler.code().len() - 3]
                == opcode_byte(OpCode::SetGlobal) ==> final(self).compiler.n_constants() >= 1
                && global_named(
                final(self).compiler.function_object.chunk.constants@.drop_last(),
                final(self).compiler.function_object.chunk.constants@,
                text_of(old(self).tokens@, old(self).source@, old(self).pos as int),
            ) && final(self).compiler.code().subrange(
                final(self).compiler.code().len() - 3,
                final(self).compiler.code().len() as int,
            ) == crate::chunk::instruction_bytes(
                OpCode::SetGlobal,
                (final(self).compiler.n_constants() - 1) as u16,
            ),
            r is Ok && !(kind_at(token_kinds(old(self).tokens@), old(self).pos + 1) == TokenType::Equal
                && min_bp == 0) && !compiler::has_local_named(
                old(self).compiler.locals@,
                text_of(old(self).tokens@, old(self).source@, old(self).pos as int),
            ) ==> if compiler::resolves_in_enclosing(
                old(self).compiler,
                text_of(old(self).tokens@, old(self).source@, old(self).pos as int),
            ) {
                final(self).compiler.code().len() == old(self).compiler.code().len() + 3
                    && final(self).compiler.code()[old(self).compiler.code().len() as int] == opcode_byte(OpCode::GetUpvalue)
            } else {
                final(self).compiler.code() == old(self).compiler.code() + crate::chunk::instruction_bytes(
                    OpCode::GetGlobal,
                    old(self).compiler.n_constants() as u16,
                ) && global_named(
                    old(self).compiler.function_object.chunk.constants@,
                    final(self).compiler.function_object.chunk.constants@,
                    text_of(old(self).tokens@, old(self).source@, old(self).pos as int),
                )
            },
            r is Ok && kind_at(token_kinds(old(self).tokens@), old(self).pos + 1) == TokenType::Equal
                && min_bp == 0 && !compiler::has_local_named(
                old(self).compiler.locals@,
                text_of(old(self).tokens@, old(self).source@, old(self).pos as int),
            ) ==> final(self).compiler.code().len() >= old(self).compiler.code().len() + 3
                && if compiler::resolves_in_enclosing(
                old(self).compiler,
                text_of(old(self).tokens@, old(self).source@, old(self).pos as int),
            ) {
                final(self).compiler.code()[final(self).compiler.code().len() - 3] == opcode_byte(OpCode::SetUpvalue)
            } else {
                final(self).compiler.n_constants() >= 1 && global_named(
                    final(self).compiler.function_object.chunk.constants@.drop_last(),
                    final(self).compiler.function_object.chunk.constants@,
                    text_of(old(self).tokens@, old(self).source@, old(self).pos as int),
                ) && final(self).compiler.code().subrange(
                    final(self).compiler.code().len() - 3,
                    final(self).compiler.code().len() as int,
                ) == crate::chunk::instruction_bytes(
                    OpCode::SetGlobal,
                    (final(self).compiler.n_constants() - 1) as u16,
                )
            },
        decreases old(self).tokens@.len() - old(self).pos, 0int,
    {
        let ghost n = self.n();
        let ghost p0 = *self;
        let ghost t = token_kinds(self.tokens@);
        let ghost base = self.compiler.starts@.len() as int;
        proof {
            reveal(emitted_kinds);
            lemma_advances_refl(p0);
            assert(emitted_kinds(p0.compiler.code(), p0.compiler.starts@, base) =~= Seq::<OpCode>::empty());
            assert(t[p0.pos as int] == p0.tokens@[p0.pos as int].token_type);
        }
        let ident_span = self.next()?.span;
        proof {
            p0.lemma_token_span(p0.pos as int);
        }
        let text = self.lexeme(&ident_span);
        let name = self.interner.intern(text.as_str());
        let identifier = Identifier { name, span: ident_span };
        assert(Parser::advances(p0, *self));
        let ghost p1 = *self;
        assert(p1.wf());
        let ghost j = p0.pos as int;
        let ghost name_text = identifier.name@;
        assert(name_text == text_of(p0.tokens@, p0.source@, j));
        let resolved = match self.compiler.resolve_variable(&identifier, Ghost(n)) {
            Ok(resolved) => resolved,
            Err(e) => {
                proof {
                    if locals_named(p0) {
                        let k = choose|k: int|
                            compiler::is_last_local_named(p1.compiler.locals@, identifier.name@, k)
                                && !p1.compiler.locals@[k].initialized;
                        assert(identifier.name@ == text_of(p0.tokens@, p0.source@, j));
                        assert(p0.tokens@[j].span.start < p0.tokens@[j].span.end);
                        assert(p0.compiler.locals@[k].identifier.name@.len() > 0);
                        let i = choose|i: int|
                            0 <= i < p0.pos && p0.tokens@[i].token_type == TokenType::Identifier
                                && #[trigger] text_of(p0.tokens@, p0.source@, i)
                                == p0.compiler.locals@[k].identifier.name@;
                        assert(p0.tokens@[j].span == e.span);
                        assert(names_a_repeated_name(e, p0.tokens@, p0.source@));
                    }
                }
                return Err(e);
            },
        };
        assert(Parser::advances(p1, *self));
        assert(self.errors == p1.errors && self.tokens == p1.tokens && self.pos == p1.pos);
        proof {
            super::lemma_wf_compiler_step(p1, *self);
        }
        proof {
            assert(t[self.pos as int] == self.tokens@[self.pos as int].token_type);
        }
        if self.peek_kind() == TokenType::Equal && min_bp == 0 {
            let ghost q = *self;
            let span = self.next()?.span;
            proof {
                q.lemma_token_span(q.pos as int);
            }
            self.expression()?;
            let ghost p2 = *self;
            let ghost c1 = self.compiler;
            let ghost set_op = match resolved {
                ResolvedVariable::Local(_) => OpCode::SetLocal,
                ResolvedVariable::Upvalue(_) => OpCode::SetUpvalue,
                ResolvedVariable::Global => OpCode::SetGlobal,
            };
            match resolved {
                ResolvedVariable::Local(index) => {
                    self.compiler.emit_with_word(OpCode::SetLocal, index, span, Ghost(n));
                    assert(self.compiler.code()[self.compiler.code().len() - 3] == opcode_byte(OpCode::SetLocal));
                    assert(self.compiler.code().subrange(
                        self.compiler.code().len() - 3,
                        self.compiler.code().len() as int,
                    ) =~= crate::chunk::instruction_bytes(OpCode::SetLocal, index));
                },
                ResolvedVariable::Upvalue(index) => {
                    self.compiler.emit_with_word(OpCode::SetUpvalue, index, span, Ghost(n));
                    assert(self.compiler.code()[self.compiler.code().len() - 3] == opcode_byte(OpCode::SetUpvalue));
                },
                ResolvedVariable::Global => {
                    let target = Identifier { name: identifier.name, span };
                    self.compiler.emit_set_global(target, Ghost(n))?;
                    assert(self.compiler.code().subrange(
                        self.compiler.code().len() - 3,
                        self.compiler.code().len() as int,
                    ) =~= crate::chunk::instruction_bytes(OpCode::SetGlobal, c1.n_constants() as u16));
                    assert(self.compiler.function_object.chunk.constants@.drop_last()
                        =~= c1.function_object.chunk.constants@);
                },
            }
            proof {
                lemma_compiler_step(c1, self.compiler);
                lemma_emitted_one(c1.code(), c1.starts@, self.compiler.code(), self.compiler.starts@, base, set_op);
                lemma_lands_append(c1.code(), c1.starts@, self.compiler.code(), self.compiler.starts@, set_op);
                compiler::lemma_wf_unfold(c1, n);
                assert(keeps_prefix(c1.code(), self.compiler.code()));
                lemma_lands_join(c1.code(), c1.starts@, self.compiler.code(), self.compiler.starts@, base);
            }
            assert(Parser::advances(p2, *self));
            assert(self.wf());
        } else {
            let ghost p2 = *self;
            let ghost c1 = self.compiler;
            let ghost get_op = match resolved {
                ResolvedVariable::Local(_) => OpCode::GetLocal,
                ResolvedVariable::Upvalue(_) => OpCode::GetUpvalue,
                ResolvedVariable::Global => OpCode::GetGlobal,
            };
            match resolved {
                ResolvedVariable::Local(index) => {
                    self.compiler.emit_with_word(OpCode::GetLocal, index, identifier.span, Ghost(n));
                    assert(self.compiler.code()[c1.code().len() as int] == opcode_byte(OpCode::GetLocal));
                },
                ResolvedVariable::Upvalue(index) => {
                    self.compiler.emit_with_word(OpCode::GetUpvalue, index, identifier.span, Ghost(n));
                    assert(self.compiler.code()[c1.code().len() as int] == opcode_byte(OpCode::GetUpvalue));
                },
                ResolvedVariable::Global => {
                    self.compiler.emit_get_global(identifier, Ghost(n))?;
                    assert(self.compiler.function_object.chunk.constants@.drop_last()
                        =~= c1.function_object.chunk.constants@);
                },
            }
            assert(c1.code() == p0.compiler.code());
            assert(c1.n_constants() == p0.compiler.n_constants());
            assert(c1.function_object.chunk.constants@ == p0.compiler.function_object.chunk.constants@);
            proof {
                lemma_compiler_step(c1, self.compiler);
                lemma_emitted_one(c1.code(), c1.starts@, self.compiler.code(), self.compiler.starts@, base, get_op);
                lemma_lands_append(c1.code(), c1.starts@, self.compiler.code(), self.compiler.starts@, get_op);
            }
            assert(Parser::advances(p2, *self));
            assert(self.wf());
        }
        Ok(())
    }

    /// Compiles the operand an expression starts with: a literal, a variable or an
    /// assignment to one, a parenthesized expression, or a prefix operator and its
    /// operand.
    #[verifier::spinoff_prover]
    #[verifier::rlimit(100)]
    fn operand(&mut self, min_bp: u8) -> (r: Result<(), SyntaxError>)
        requires
            old(self).wf(),
        ensures
            r matches Err(e) ==> points_into(e, old(self).n()),
            locals_named(*old(self)) ==> locals_named(*final(self)),
            counts_grow(*old(self), *final(self)),
            final(self).wf(),
            Parser::advances(*old(self), *final(self)),
            r is Ok ==> parsed_clean(*old(self), *final(self)),
            final(self).compiler.locals == old(self).compiler.locals,
            final(self).pos == old(self).pos ==> r is Err,
            final(self).errors == old(self).errors,
            final(self).compiler.loop_context == old(self).compiler.loop_context,
            keeps_prefix(old(self).compiler.code(), final(self).compiler.code()),
            r is Ok ==> jumps_land(final(self).compiler.code(), final(self).compiler.starts@, old(self).compiler.starts@.len() as int),
            r matches Err(e) ==> (operand_at(token_kinds(old(self).tokens@), old(self).pos as int, min_bp as int)
                is Some ==> limit_met(e, *final(self))),
            r matches Err(e) ==> (operand_at(token_kinds(old(self).tokens@), old(self).pos as int, min_bp as int)
                is Some && locals_named(*old(self)) && counts_ok(*old(self)) ==> is_context_error(e, old(self).tokens@, old(self).source@)),
            r is Ok ==> operand_at(token_kinds(old(self).tokens@), old(self).pos as int, min_bp as int)
                == Some(
                (
                    final(self).pos as int,
                    emitted_kinds(
                        final(self).compiler.code(),
                        final(self).compiler.starts@,
                        old(self).compiler.starts@.len() as int,
                    ),
                ),
            ),
            r is Ok && old(self).peek_type() == TokenType::Number ==> (final(self).compiler.n_constants()
                == old(self).compiler.n_constants() + 1 && (final(self).compiler.function_object.chunk.constants@.last()
                matches Constant::Number(text) && text@ == text_of(old(self).tokens@, old(self).source@, old(self).pos as int))),
            r is Ok && old(self).peek_type() == TokenType::String ==> (final(self).compiler.n_constants()
                == old(self).compiler.n_constants() + 1 && (final(self).compiler.function_object.chunk.constants@.last()
                matches Constant::Str(text) && text@ == text_of(old(self).tokens@, old(self).source@, old(self).pos as int))),
        decreases old(self).tokens@.len() - old(self).pos, 1int,
    {
        let ghost n = self.n();
        let ghost p0 = *self;
        let ghost t = token_kinds(self.tokens@);
        let ghost base = self.compiler.starts@.len() as int;
        proof {
            reveal(emitted_kinds);
            lemma_advances_refl(p0);
            assert(emitted_kinds(p0.compiler.code(), p0.compiler.starts@, base) =~= Seq::<OpCode>::empty());
            assert(t[p0.pos as int] == p0.tokens@[p0.pos as int].token_type);
        }
        let kind = self.peek_kind();
        if kind == TokenType::Number || kind == TokenType::String {
            let span = self.next()?.span;
            proof {
                p0.lemma_token_span(p0.pos as int);
            }
            let text = self.lexeme(&span);
            let value = if kind == TokenType::Number {
                Constant::Number(text)
            } else {
                Constant::Str(self.interner.intern(text.as_str()))
            };
            assert(Parser::advances(p0, *self));
            let ghost c0 = self.compiler;
            let ghost pre = *self;
            assert(pre.wf());
            match self.compiler.emit_constant(value, span, Ghost(n)) {
                Ok(()) => {},
                Err(e) => {
                    assert(*self == pre);
                    return Err(e);
                },
            }
            proof {
                lemma_compiler_step(c0, self.compiler);
                lemma_emitted_one(c0.code(), c0.starts@, self.compiler.code(), self.compiler.starts@, base, OpCode::Constant);
                lemma_lands_append(c0.code(), c0.starts@, self.compiler.code(), self.compiler.starts@, OpCode::Constant);
            }
            assert(Parser::advances(p0, *self));
        } else if kind == TokenType::UnterminatedString {
            let span = self.peek_span();
            return Err(syntax_error("Unterminated string", span));
        } else if kind == TokenType::True || kind == TokenType::False || kind == TokenType::Nil {
            let span = self.next()?.span;
            proof {
                p0.lemma_token_span(p0.pos as int);
            }
            let op = if kind == TokenType::True {
                OpCode::True
            } else if kind == TokenType::False {
                OpCode::False
            } else {
                OpCode::Nil
            };
            let ghost c0 = self.compiler;
            self.compiler.emit_byte(op, span, Ghost(n));
            proof {
                lemma_compiler_step(c0, self.compiler);
                lemma_emitted_one(c0.code(), c0.starts@, self.compiler.code(), self.compiler.starts@, base, op);
                lemma_lands_append(c0.code(), c0.starts@, self.compiler.code(), self.compiler.starts@, op);
            }
            assert(Parser::advances(p0, *self));
        } else if kind == TokenType::LeftParen {
            let _ = self.next();
            self.expr_bp(0)?;
            let ghost q = *self;
            self.expect_token(TokenType::RightParen, "Expect ')' after expression.")?;
            proof {
                assert(t[q.pos as int] == q.tokens@[q.pos as int].token_type);
            }
        } else if kind == TokenType::Minus || kind == TokenType::Bang {
            let token = self.next()?;
            proof {
                p0.lemma_token_span(p0.pos as int);
            }
            let (_, r_bp) = prefix_binding_power(&token.token_type).unwrap();
            let opcode = if token.token_type == TokenType::Minus {
                OpCode::Negate
            } else {
                OpCode::Not
            };
            self.expr_bp(r_bp)?;
            let ghost p1 = *self;
            let ghost c0 = self.compiler;
            self.compiler.emit_byte(opcode, token.span, Ghost(n));
            proof {
                lemma_compiler_step(c0, self.compiler);
                lemma_emitted_one(c0.code(), c0.starts@, self.compiler.code(), self.compiler.starts@, base, opcode);
            }
            assert(jumps_land(self.compiler.code(), self.compiler.starts@, base)) by {
                lemma_lands_append(c0.code(), c0.starts@, self.compiler.code(), self.compiler.starts@, opcode);
                compiler::lemma_wf_unfold(c0, n);
                assert(keeps_prefix(c0.code(), self.compiler.code()));
                lemma_lands_join(c0.code(), c0.starts@, self.compiler.code(), self.compiler.starts@, base);
            }
            assert(Parser::advances(p1, *self));
            assert(self.wf());
        } else if kind == TokenType::Identifier {
            self.named_operand(min_bp)?;
        } else {
            let span = self.peek_span();
            return Err(syntax_error("Expected expression", span));
        }
        Ok(())
    }

    /// Compiles an expression whose operators bind at least as tightly as `min_bp`: a
    /// prefix (literal, variable or assignment, parenthesized expression, or prefix
    /// operator) followed by infix operators, in the order of their binding powers. On
    /// success the tokens read form such an expression, and the instructions appended
    /// are the ones `expression_at` gives, in order.
    #[verifier::spinoff_prover]
    #[verifier::rlimit(100)]
    pub(crate) fn expr_bp(&mut self, min_bp: u8) -> (r: Result<(), SyntaxError>)
        requires
            old(self).wf(),
        ensures
            r matches Err(e) ==> points_into(e, old(self).n()),
            locals_named(*old(self)) ==> locals_named(*final(self)),
            counts_grow(*old(self), *final(self)),
            final(self).wf(),
            Parser::advances(*old(self), *final(self)),
            r is Ok ==> parsed_clean(*old(self), *final(self)),
            final(self).compiler.locals == old(self).compiler.locals,
            final(self).pos == old(self).pos ==> r is Err,
            final(self).errors == old(self).errors,
            final(self).compiler.loop_context == old(self).compiler.loop_context,
            keeps_prefix(old(self).compiler.code(), final(self).compiler.code()),
            r is Ok ==> jumps_land(final(self).compiler.code(), final(self).compiler.starts@, old(self).compiler.starts@.len() as int),
            r matches Err(e) ==> (expression_at(token_kinds(old(self).tokens@), old(self).pos as int, min_bp as int)
                is Some ==> limit_met(e, *final(self))),
            r matches Err(e) ==> (expression_at(token_kinds(old(self).tokens@), old(self).pos as int, min_bp as int)
                is Some && locals_named(*old(self)) && counts_ok(*old(self)) ==> is_context_error(e, old(self).tokens@, old(self).source@)),
            r is Ok ==> expression_at(token_kinds(old(self).tokens@), old(self).pos as int, min_bp as int)
                == Some(
                (
                    final(self).pos as int,
                    emitted_kinds(
                        final(self).compiler.code(),
                        final(self).compiler.starts@,
                        old(self).compiler.starts@.len() as int,
                    ),
                ),
            ),
        decreases old(self).tokens@.len() - old(self).pos, 2int,
    {
        let ghost n = self.n();
        let ghost p0 = *self;
        let ghost t = token_kinds(self.tokens@);
        let ghost base = self.compiler.starts@.len() as int;
        self.operand(min_bp)?;
        assert(operand_at(t, p0.pos as int, min_bp as int) == Some(
            (self.pos as int, emitted_kinds(self.compiler.code(), self.compiler.starts@, base)),
        ));
        loop
            invariant
                self.wf(),
                Parser::advances(p0, *self),
                p0 == *old(self),
                self.compiler.locals == p0.compiler.locals,
                self.errors == p0.errors,
                self.compiler.loop_context == p0.compiler.loop_context,
                self.pos > p0.pos,
                parsed_clean(p0, *self),
                n == self.n(),
                t == token_kinds(self.tokens@),
                base == p0.compiler.starts@.len(),
                counts_grow(p0, *self),
                locals_named(p0) ==> locals_named(*self),
                keeps_prefix(p0.compiler.code(), self.compiler.code()),
                jumps_land(self.compiler.code(), self.compiler.starts@, base),
                expression_at(t, p0.pos as int, min_bp as int) == operators_at(
                    t,
                    self.pos as int,
                    min_bp as int,
                    emitted_kinds(self.compiler.code(), self.compiler.starts@, base),
                ),
            ensures
                expression_at(t, p0.pos as int, min_bp as int) == Some(
                    (self.pos as int, emitted_kinds(self.compiler.code(), self.compiler.starts@, base)),
                ),
            decreases self.tokens@.len() - self.pos,
        {
            let ghost pos = self.pos as int;
            let ghost acc = emitted_kinds(self.compiler.code(), self.compiler.starts@, base);
            proof {
                assert(t[pos] == self.tokens@[pos].token_type);
            }
            let op_kind = self.peek_kind();
            if op_kind == TokenType::Equal {
                return Err(syntax_error("Invalid assignment target.", self.peek_span()));
            }
            match infix_binding_power(&op_kind) {
                Some((l_bp, r_bp)) => {
                    if l_bp < min_bp {
                        break;
                    }
                    let ghost q0 = *self;
                    let op = self.next()?;
                    proof {
                        q0.lemma_token_span(q0.pos as int);
                    }
                    let ghost q1 = *self;
                    if op.token_type == TokenType::And {
                        let ghost c0 = self.compiler;
                        let jump = self.compiler.emit_jump(OpCode::JumpIfFalse, copy_span(&op.span), Ghost(n));
                        let ghost c1 = self.compiler;
                        self.compiler.emit_byte(OpCode::Pop, copy_span(&op.span), Ghost(n));
                        let ghost c2 = self.compiler;
                        proof {
                            lemma_compiler_step(c0, c1);
                            lemma_compiler_step(c1, c2);
                            compiler::lemma_chain_frozen_trans(c0, c1, c2);
                            compiler::lemma_extends_trans(c0.code(), c0.starts@, c1.code(), c1.starts@, c2.code(), c2.starts@);
                            lemma_compiler_step(c0, c2);
                            lemma_emitted_one(c0.code(), c0.starts@, c1.code(), c1.starts@, base, OpCode::JumpIfFalse);
                            lemma_emitted_one(c1.code(), c1.starts@, c2.code(), c2.starts@, base, OpCode::Pop);
                        }
                        assert(Parser::advances(q1, *self));
                        let ghost q2 = *self;
                        self.expr_bp(r_bp)?;
                        proof {
                            compiler::lemma_extends_trans(c1.code(), c1.starts@, c2.code(), c2.starts@, self.compiler.code(), self.compiler.starts@);
                            lemma_jump_operand_extends(c1.code(), c1.starts@, self.compiler.code(), self.compiler.starts@, jump as int);
                        }
                        let ghost q3 = *self;
                        let ghost c3 = self.compiler;
                        self.compiler.patch_jump(jump, Ghost(n))?;
                        proof {
                            compiler::lemma_wf_unfold(c0, n);
                            compiler::lemma_wf_unfold(c3, n);
                            assert(keeps_prefix(c0.code(), c2.code()));
                            lemma_and_lands(c0.code(), c0.starts@, c2.code(), c3.code(), c3.starts@, self.compiler.code(), base);
                        }
                        proof {
                            lemma_compiler_step(c3, self.compiler);
                            lemma_emitted_extends(c2.code(), c2.starts@, c3.code(), c3.starts@, base);
                            lemma_emitted_same(c3.code(), c3.starts@, self.compiler.code(), self.compiler.starts@, base);
                            let sub = emitted_kinds(c3.code(), c3.starts@, c2.starts@.len() as int);
                            assert(acc.push(OpCode::JumpIfFalse).push(OpCode::Pop) + sub =~= acc + seq![
                                OpCode::JumpIfFalse,
                                OpCode::Pop,
                            ] + sub);
                        }
                        assert(Parser::advances(q3, *self));
                        proof {
                            assert(operators_at(t, pos, min_bp as int, acc) == operators_at(
                                t,
                                self.pos as int,
                                min_bp as int,
                                emitted_kinds(self.compiler.code(), self.compiler.starts@, base),
                            )) by {
                                lemma_operator_step(t, pos, min_bp as int, acc, self.pos as int, emitted_kinds(c3.code(), c3.starts@, c2.starts@.len() as int));
                            }
                        }
                        assert(self.wf());
                    } else if op.token_type == TokenType::Or {
                        let ghost c0 = self.compiler;
                        let else_jump = self.compiler.emit_jump(OpCode::JumpIfFalse, copy_span(&op.span), Ghost(n));
                        let ghost c1 = self.compiler;
                        let end_jump = self.compiler.emit_jump(OpCode::Jump, copy_span(&op.span), Ghost(n));
                        let ghost c2 = self.compiler;
                        proof {
                            lemma_jump_operand_extends(c1.code(), c1.starts@, c2.code(), c2.starts@, else_jump as int);
                            compiler::lemma_extends_trans(c0.code(), c0.starts@, c1.code(), c1.starts@, c2.code(), c2.starts@);
                            lemma_compiler_step(c0, c2);
                            lemma_emitted_one(c0.code(), c0.starts@, c1.code(), c1.starts@, base, OpCode::JumpIfFalse);
                            lemma_emitted_one(c1.code(), c1.starts@, c2.code(), c2.starts@, base, OpCode::Jump);
                        }
                        assert(Parser::advances(q1, *self));
                        self.compiler.patch_jump(else_jump, Ghost(n))?;
                        let ghost c3 = self.compiler;
                        self.compiler.emit_byte(OpCode::Pop, copy_span(&op.span), Ghost(n));
                        let ghost c4 = self.compiler;
                        proof {
                            compiler::lemma_extends_trans(c0.code(), c0.starts@, c2.code(), c2.starts@, c3.code(), c3.starts@);
                            compiler::lemma_extends_trans(c0.code(), c0.starts@, c3.code(), c3.starts@, c4.code(), c4.starts@);
                            compiler::lemma_extends_trans(c2.code(), c2.starts@, c3.code(), c3.starts@, c4.code(), c4.starts@);
                            lemma_compiler_step(c0, c4);
                            lemma_emitted_same(c2.code(), c2.starts@, c3.code(), c3.starts@, base);
                            lemma_emitted_one(c3.code(), c3.starts@, c4.code(), c4.starts@, base, OpCode::Pop);
                        }
                        assert(Parser::advances(q1, *self));
                        self.expr_bp(r_bp)?;
                        proof {
                            compiler::lemma_extends_trans(c2.code(), c2.starts@, c4.code(), c4.starts@, self.compiler.code(), self.compiler.starts@);
                            lemma_jump_operand_extends(c2.code(), c2.starts@, self.compiler.code(), self.compiler.starts@, end_jump as int);
                        }
                        let ghost q5 = *self;
                        let ghost c5 = self.compiler;
                        self.compiler.patch_jump(end_jump, Ghost(n))?;
                        proof {
                            compiler::lemma_wf_unfold(c0, n);
                            compiler::lemma_wf_unfold(c5, n);
                            lemma_patched_word(c2.code(), else_jump as int, 3);
                            assert(keeps_prefix(c0.code(), c4.code()));
                            assert(word_at(c4.code(), c0.code().len() as int + 1) == 3);
                            lemma_or_lands(c0.code(), c0.starts@, c4.code(), c5.code(), c5.starts@, self.compiler.code(), base);
                        }
                        proof {
                            lemma_compiler_step(c5, self.compiler);
                            lemma_emitted_extends(c4.code(), c4.starts@, c5.code(), c5.starts@, base);
                            lemma_emitted_same(c5.code(), c5.starts@, self.compiler.code(), self.compiler.starts@, base);
                            let sub = emitted_kinds(c5.code(), c5.starts@, c4.starts@.len() as int);
                            assert(acc.push(OpCode::JumpIfFalse).push(OpCode::Jump).push(OpCode::Pop) + sub =~= acc
                                + seq![OpCode::JumpIfFalse, OpCode::Jump, OpCode::Pop] + sub);
                        }
                        assert(Parser::advances(q5, *self));
                        proof {
                            assert(operators_at(t, pos, min_bp as int, acc) == operators_at(
                                t,
                                self.pos as int,
                                min_bp as int,
                                emitted_kinds(self.compiler.code(), self.compiler.starts@, base),
                            )) by {
                                lemma_operator_step(t, pos, min_bp as int, acc, self.pos as int, emitted_kinds(c5.code(), c5.starts@, c4.starts@.len() as int));
                            }
                        }
                        assert(self.wf());
                    } else {
                        let (first, second) = if op.token_type == TokenType::Minus {
                            (OpCode::Subtract, None)
                        } else if op.token_type == TokenType::Plus {
                            (OpCode::Add, None)
                        } else if op.token_type == TokenType::Slash {
                            (OpCode::Divide, None)
                        } else if op.token_type == TokenType::Star {
                            (OpCode::Multiply, None)
                        } else if op.token_type == TokenType::Less {
                            (OpCode::Less, None)
                        } else if op.token_type == TokenType::Greater {
                            (OpCode::Greater, None)
                        } else if op.token_type == TokenType::EqualEqual {
                            (OpCode::Equal, None)
                        } else if op.token_type == TokenType::GreaterEqual {
                            (OpCode::Less, Some(OpCode::Not))
                        } else if op.token_type == TokenType::LessEqual {
                            (OpCode::Less, Some(OpCode::Not))
                        } else {
                            (OpCode::Equal, Some(OpCode::Not))
                        };
                        proof {
                            assert(operator_kinds(t[pos]) == match second {
                                Some(s2) => seq![first, s2],
                                None => seq![first],
                            });
                        }
                        let ghost cs = self.compiler;
                        self.expr_bp(r_bp)?;
                        let ghost q2 = *self;
                        let ghost c0 = self.compiler;
                        proof {
                            compiler::lemma_wf_unfold(cs, n);
                            compiler::lemma_wf_unfold(c0, n);
                            lemma_lands_join(cs.code(), cs.starts@, c0.code(), c0.starts@, base);
                        }
                        let ghost sub = emitted_kinds(c0.code(), c0.starts@, cs.starts@.len() as int);
                        proof {
                            lemma_emitted_extends(cs.code(), cs.starts@, c0.code(), c0.starts@, base);
                        }
                        self.compiler.emit_byte(first, copy_span(&op.span), Ghost(n));
                        proof {
                            lemma_compiler_step(c0, self.compiler);
                            lemma_emitted_one(c0.code(), c0.starts@, self.compiler.code(), self.compiler.starts@, base, first);
                            lemma_lands_append(c0.code(), c0.starts@, self.compiler.code(), self.compiler.starts@, first);
                            assert(keeps_prefix(c0.code(), self.compiler.code()));
                            lemma_lands_join(c0.code(), c0.starts@, self.compiler.code(), self.compiler.starts@, base);
                        }
                        assert(Parser::advances(q2, *self));
                        if let Some(code) = second {
                            let ghost q3 = *self;
                            let ghost c1 = self.compiler;
                            self.compiler.emit_byte(code, copy_span(&op.span), Ghost(n));
                            proof {
                                lemma_compiler_step(c1, self.compiler);
                                lemma_emitted_one(c1.code(), c1.starts@, self.compiler.code(), self.compiler.starts@, base, code);
                                compiler::lemma_wf_unfold(c1, n);
                                lemma_lands_append(c1.code(), c1.starts@, self.compiler.code(), self.compiler.starts@, code);
                                assert(keeps_prefix(c1.code(), self.compiler.code()));
                                lemma_lands_join(c1.code(), c1.starts@, self.compiler.code(), self.compiler.starts@, base);
                                assert((acc + sub).push(first).push(code) =~= acc + sub + seq![first, code]);
                            }
                            assert(Parser::advances(q3, *self));
                        } else {
                            proof {
                                assert((acc + sub).push(first) =~= acc + sub + seq![first]);
                            }
                        }
                        proof {
                            assert(operators_at(t, pos, min_bp as int, acc) == operators_at(
                                t,
                                self.pos as int,
                                min_bp as int,
                                emitted_kinds(self.compiler.code(), self.compiler.starts@, base),
                            )) by {
                                lemma_operator_step(t, pos, min_bp as int, acc, self.pos as int, sub);
                            }
                        }
                        assert(self.wf());
                    }
                },
                None => {
                    break;
                },
            }
        }
        Ok(())
    }
}

} // verus!
