use crate::token::{Token, TokenType};
use std::ops::Range;
use vstd::prelude::*;

verus! {

// ---------------------------------------------------------------------------
// Character classes
// ---------------------------------------------------------------------------

/// An ASCII decimal digit.
pub open spec fn spec_is_digit(c: char) -> bool {
    '0' <= c <= '9'
}

/// An ASCII letter or digit, or an underscore: the characters of an identifier.
pub open spec fn spec_is_ident_char(c: char) -> bool {
    ||| '0' <= c <= '9'
    ||| 'a' <= c <= 'z'
    ||| 'A' <= c <= 'Z'
    ||| c == '_'
}

/// The Unicode `White_Space` property, which is what `char::is_whitespace` tests.
pub open spec fn spec_is_white_space(c: char) -> bool {
    let n = c as u32;
    ||| 0x09 <= n <= 0x0d
    ||| n == 0x20
    ||| n == 0x85
    ||| n == 0xa0
    ||| n == 0x1680
    ||| 0x2000 <= n <= 0x200a
    ||| n == 0x2028
    ||| n == 0x2029
    ||| n == 0x202f
    ||| n == 0x205f
    ||| n == 0x3000
}

pub fn is_digit(c: char) -> (r: bool)
    ensures
        r == spec_is_digit(c),
{
    '0' <= c && c <= '9'
}

pub fn is_ident_char(c: char) -> (r: bool)
    ensures
        r == spec_is_ident_char(c),
{
    ('0' <= c && c <= '9') || ('a' <= c && c <= 'z') || ('A' <= c && c <= 'Z') || c == '_'
}

/// Anything but a quote or a newline: a character inside a string literal.
pub fn is_string_content(c: char) -> (r: bool)
    ensures
        r == (c != '"' && c != '\n'),
{
    c != '"' && c != '\n'
}

/// Anything but a newline: a character of a line comment.
pub fn is_not_newline(c: char) -> (r: bool)
    ensures
        r == (c != '\n'),
{
    c != '\n'
}

pub fn is_white_space(c: char) -> (r: bool)
    ensures
        r == spec_is_white_space(c),
{
    let n = c as u32;
    (0x09 <= n && n <= 0x0d) || n == 0x20 || n == 0x85 || n == 0xa0 || n == 0x1680 || (0x2000
        <= n && n <= 0x200a) || n == 0x2028 || n == 0x2029 || n == 0x202f || n == 0x205f || n
        == 0x3000
}

// ---------------------------------------------------------------------------
// The lexical grammar, as spec functions over the source characters
// ---------------------------------------------------------------------------

/// The first position at or after `i` whose character does not satisfy `p`
/// (or the end of `s`).
pub open spec fn scan_while(s: Seq<char>, i: int, p: spec_fn(char) -> bool) -> int
    decreases s.len() - i,
{
    if 0 <= i < s.len() && p(s[i]) {
        scan_while(s, i + 1, p)
    } else {
        i
    }
}

pub proof fn lemma_scan_while(s: Seq<char>, i: int, p: spec_fn(char) -> bool)
    requires
        0 <= i <= s.len(),
    ensures
        i <= scan_while(s, i, p) <= s.len(),
        forall|k: int| i <= k < scan_while(s, i, p) ==> #[trigger] p(s[k]),
        scan_while(s, i, p) < s.len() ==> !p(s[scan_while(s, i, p)]),
    decreases s.len() - i,
{
    if i < s.len() && p(s[i]) {
        lemma_scan_while(s, i + 1, p);
    }
}

pub open spec fn white_space_pred() -> spec_fn(char) -> bool {
    |c: char| spec_is_white_space(c)
}

pub open spec fn digit_pred() -> spec_fn(char) -> bool {
    |c: char| spec_is_digit(c)
}

pub open spec fn ident_pred() -> spec_fn(char) -> bool {
    |c: char| spec_is_ident_char(c)
}

/// Characters inside a string literal: anything but a quote or a newline.
pub open spec fn string_content_pred() -> spec_fn(char) -> bool {
    |c: char| c != '"' && c != '\n'
}

/// Characters of a line comment: anything but a newline.
pub open spec fn comment_pred() -> spec_fn(char) -> bool {
    |c: char| c != '\n'
}

/// The token kind of a word made of identifier characters: a keyword or an identifier.
pub open spec fn keyword_kind(w: Seq<char>) -> TokenType {
    if w == seq!['p', 'r', 'i', 'n', 't'] {
        TokenType::Print
    } else if w == seq!['v', 'a', 'r'] {
        TokenType::Var
    } else if w == seq!['a', 'n', 'd'] {
        TokenType::And
    } else if w == seq!['c', 'l', 'a', 's', 's'] {
        TokenType::Class
    } else if w == seq!['e', 'l', 's', 'e'] {
        TokenType::Else
    } else if w == seq!['f', 'a', 'l', 's', 'e'] {
        TokenType::False
    } else if w == seq!['f', 'u', 'n'] {
        TokenType::Fun
    } else if w == seq!['f', 'o', 'r'] {
        TokenType::For
    } else if w == seq!['i', 'f'] {
        TokenType::If
    } else if w == seq!['n', 'i', 'l'] {
        TokenType::Nil
    } else if w == seq!['o', 'r'] {
        TokenType::Or
    } else if w == seq!['r', 'e', 't', 'u', 'r', 'n'] {
        TokenType::Return
    } else if w == seq!['s', 'u', 'p', 'e', 'r'] {
        TokenType::Super
    } else if w == seq!['t', 'h', 'i', 's'] {
        TokenType::This
    } else if w == seq!['t', 'r', 'u', 'e'] {
        TokenType::True
    } else if w == seq!['w', 'h', 'i', 'l', 'e'] {
        TokenType::While
    } else if w == seq!['b', 'r', 'e', 'a', 'k'] {
        TokenType::Break
    } else if w == seq!['c', 'o', 'n', 't', 'i', 'n', 'u', 'e'] {
        TokenType::Continue
    } else {
        TokenType::Identifier
    }
}

/// A lexed token as a mathematical value: kind, span start, span end, and the
/// position where lexing continues.
pub struct SpecLexeme {
    pub kind: TokenType,
    pub start: int,
    pub end: int,
    pub next: int,
}

/// A number literal starting at `p`: digits, then optionally a dot followed by digits.
pub open spec fn lex_number_at(s: Seq<char>, p: int) -> SpecLexeme {
    let e = scan_while(s, p, digit_pred());
    if e + 1 < s.len() && s[e] == '.' && spec_is_digit(s[e + 1]) {
        let f = scan_while(s, e + 1, digit_pred());
        SpecLexeme { kind: TokenType::Number, start: p, end: f, next: f }
    } else {
        SpecLexeme { kind: TokenType::Number, start: p, end: e, next: e }
    }
}

/// A string literal whose opening quote is at `p`. The span is the contents; a
/// literal that a newline or the end of the source cuts off is unterminated.
pub open spec fn lex_string_at(s: Seq<char>, p: int) -> SpecLexeme {
    let e = scan_while(s, p + 1, string_content_pred());
    if e < s.len() && s[e] == '"' {
        SpecLexeme { kind: TokenType::String, start: p + 1, end: e, next: e + 1 }
    } else {
        SpecLexeme { kind: TokenType::UnterminatedString, start: p + 1, end: p + 1, next: e }
    }
}

/// A keyword or identifier starting at `p`.
pub open spec fn lex_word_at(s: Seq<char>, p: int) -> SpecLexeme {
    let e = scan_while(s, p, ident_pred());
    SpecLexeme { kind: keyword_kind(s.subrange(p, e)), start: p, end: e, next: e }
}

/// The kind of a one-character symbol, or of the two-character symbol it starts when
/// `followed_by_eq` (for `=`, `<`, `>`, `!`).
pub open spec fn symbol_kind(c: char, followed_by_eq: bool) -> TokenType {
    if c == '(' {
        TokenType::LeftParen
    } else if c == ')' {
        TokenType::RightParen
    } else if c == '{' {
        TokenType::LeftBrace
    } else if c == '}' {
        TokenType::RightBrace
    } else if c == ',' {
        TokenType::Comma
    } else if c == '.' {
        TokenType::Dot
    } else if c == '-' {
        TokenType::Minus
    } else if c == '+' {
        TokenType::Plus
    } else if c == ';' {
        TokenType::Semicolon
    } else if c == '*' {
        TokenType::Star
    } else if c == '/' {
        TokenType::Slash
    } else if c == '=' {
        if followed_by_eq { TokenType::EqualEqual } else { TokenType::Equal }
    } else if c == '<' {
        if followed_by_eq { TokenType::LessEqual } else { TokenType::Less }
    } else if c == '>' {
        if followed_by_eq { TokenType::GreaterEqual } else { TokenType::Greater }
    } else if c == '!' {
        if followed_by_eq { TokenType::BangEqual } else { TokenType::Bang }
    } else {
        TokenType::Unknown
    }
}

/// Whether a symbol may take a following `=` to form a two-character token.
pub open spec fn takes_eq(c: char) -> bool {
    c == '=' || c == '<' || c == '>' || c == '!'
}

/// A symbol (other than the start of a comment) at `p`.
pub open spec fn lex_symbol_at(s: Seq<char>, p: int) -> SpecLexeme {
    let c = s[p];
    let two = takes_eq(c) && p + 1 < s.len() && s[p + 1] == '=';
    let len: int = if two { 2 } else { 1 };
    SpecLexeme { kind: symbol_kind(c, two), start: p, end: p + len, next: p + len }
}

/// Whether a line comment starts at `p`.
pub open spec fn comment_at(s: Seq<char>, p: int) -> bool {
    p + 1 < s.len() && s[p] == '/' && s[p + 1] == '/'
}

/// The token that lexing the source `s` from position `pos` produces: whitespace and
/// line comments are skipped, and at the end of the source the token is `Eof`.
pub open spec fn lex_at(s: Seq<char>, pos: int) -> SpecLexeme
    decreases s.len() - pos,
{
    if !(0 <= pos <= s.len()) {
        SpecLexeme { kind: TokenType::Eof, start: pos, end: pos, next: pos }
    } else {
        let p = scan_while(s, pos, white_space_pred());
        if !(pos <= p <= s.len()) {
            // unreachable: see lemma_scan_while
            SpecLexeme { kind: TokenType::Eof, start: p, end: p, next: p }
        } else if p == s.len() {
            SpecLexeme { kind: TokenType::Eof, start: p, end: p, next: p }
        } else if spec_is_digit(s[p]) {
            lex_number_at(s, p)
        } else if s[p] == '"' {
            lex_string_at(s, p)
        } else if spec_is_ident_char(s[p]) {
            lex_word_at(s, p)
        } else if comment_at(s, p) {
            let q = scan_while(s, p + 2, comment_pred());
            if pos < q <= s.len() {
                lex_at(s, q)
            } else {
                // unreachable: see lemma_scan_while
                SpecLexeme { kind: TokenType::Eof, start: q, end: q, next: q }
            }
        } else {
            lex_symbol_at(s, p)
        }
    }
}

/// The spec token built from a lexeme.
pub open spec fn spec_token(l: SpecLexeme) -> Token {
    Token { token_type: l.kind, span: Range { start: l.start as usize, end: l.end as usize } }
}

/// Every token that lexing `s` from `pos` produces, up to and including `Eof`.
pub open spec fn tokens_from(s: Seq<char>, pos: int) -> Seq<Token>
    decreases s.len() - pos,
{
    let l = lex_at(s, pos);
    if l.kind == TokenType::Eof || !(pos < l.next <= s.len()) {
        seq![spec_token(l)]
    } else {
        seq![spec_token(l)] + tokens_from(s, l.next)
    }
}

/// The tokens of a whole source.
pub open spec fn tokenize(s: Seq<char>) -> Seq<Token> {
    tokens_from(s, 0)
}

// ---------------------------------------------------------------------------
// Facts about the lexical grammar
// ---------------------------------------------------------------------------

/// Lexing from a position inside the source ends inside the source, after that
/// position unless the token is `Eof`, and the span lies between them.
pub proof fn lemma_lex_at_bounds(s: Seq<char>, pos: int)
    requires
        0 <= pos <= s.len(),
    ensures
        pos <= lex_at(s, pos).start <= lex_at(s, pos).end <= lex_at(s, pos).next <= s.len(),
        lex_at(s, pos).kind != TokenType::Eof ==> pos < lex_at(s, pos).next,
        lex_at(s, pos).kind == TokenType::Eof ==> lex_at(s, pos).start == lex_at(s, pos).end
            == lex_at(s, pos).next == s.len(),
    decreases s.len() - pos,
{
    let p = scan_while(s, pos, white_space_pred());
    lemma_scan_while(s, pos, white_space_pred());
    if p < s.len() {
        if spec_is_digit(s[p]) {
            lemma_scan_while(s, p, digit_pred());
            let e = scan_while(s, p, digit_pred());
            if e + 1 < s.len() && s[e] == '.' && spec_is_digit(s[e + 1]) {
                lemma_scan_while(s, e + 1, digit_pred());
            }
        } else if s[p] == '"' {
            lemma_scan_while(s, p + 1, string_content_pred());
        } else if spec_is_ident_char(s[p]) {
            lemma_scan_while(s, p, ident_pred());
        } else if comment_at(s, p) {
            lemma_scan_while(s, p + 2, comment_pred());
            let q = scan_while(s, p + 2, comment_pred());
            lemma_lex_at_bounds(s, q);
        }
    }
}


// ---------------------------------------------------------------------------
// The lexer
// ---------------------------------------------------------------------------

/// The characters of `source`, in order.
pub fn source_chars(source: &str) -> (r: Vec<char>)
    ensures
        r@ == source@,
{
    broadcast use vstd::string::group_string_axioms;

    let mut chars: Vec<char> = Vec::new();
    for c in it: source.chars()
        invariant
            chars@ == it.seq().take(it.index()),
            it.seq() == source@,
    {
        chars.push(c);
    }
    chars
}

/// A call on a lexer's characters: taking the next one, or looking at the next one or
/// at the one after it.
pub enum CharCall {
    Next,
    Peek,
    PeekTwo,
}

/// What a call returns on `chars` at position `pos`, and the position it leaves: what
/// `next_char`, `peek_char` and `peek_two_chars` ensure.
pub open spec fn char_call(chars: Seq<char>, pos: int, call: CharCall) -> (Option<char>, int) {
    match call {
        CharCall::Next => if pos < chars.len() {
            (Some(chars[pos]), pos + 1)
        } else {
            (None, pos)
        },
        CharCall::Peek => (if pos < chars.len() {
            Some(chars[pos])
        } else {
            None
        }, pos),
        CharCall::PeekTwo => (if pos + 1 < chars.len() {
            Some(chars[pos + 1])
        } else {
            None
        }, pos),
    }
}

/// What each of `calls` returns, made in turn from the start of `chars`, and the
/// position they leave.
pub open spec fn run_calls(chars: Seq<char>, calls: Seq<CharCall>) -> (Seq<Option<char>>, int)
    decreases calls.len(),
{
    if calls.len() == 0 {
        (Seq::empty(), 0)
    } else {
        let (results, pos) = run_calls(chars, calls.drop_last());
        let (r, next) = char_call(chars, pos, calls.last());
        (results.push(r), next)
    }
}

/// The characters that the `Next` calls among `calls` handed out, in order.
pub open spec fn taken(calls: Seq<CharCall>, results: Seq<Option<char>>) -> Seq<char>
    decreases calls.len(),
{
    if calls.len() == 0 || results.len() == 0 {
        Seq::empty()
    } else {
        let earlier = taken(calls.drop_last(), results.drop_last());
        match (calls.last(), results.last()) {
            (CharCall::Next, Some(c)) => earlier.push(c),
            _ => earlier,
        }
    }
}

/// The number of `Next` calls among `calls`.
pub open spec fn next_calls(calls: Seq<CharCall>) -> int
    decreases calls.len(),
{
    if calls.len() == 0 {
        0
    } else {
        next_calls(calls.drop_last()) + if calls.last() is Next {
            1int
        } else {
            0int
        }
    }
}

/// However calls to take and to look at characters interleave from the start of a
/// source: the characters taken are the source's own, in order, one per taking call
/// until the source runs out and none after; the position is the number taken; and a
/// look at the next character sees what taking it would return.
pub proof fn law_char_calls(chars: Seq<char>, calls: Seq<CharCall>)
    ensures
        run_calls(chars, calls).0.len() == calls.len(),
        0 <= run_calls(chars, calls).1 <= chars.len(),
        0 <= next_calls(calls),
        taken(calls, run_calls(chars, calls).0) == chars.take(run_calls(chars, calls).1),
        run_calls(chars, calls).1 == if next_calls(calls) < chars.len() {
            next_calls(calls)
        } else {
            chars.len() as int
        },
        char_call(chars, run_calls(chars, calls).1, CharCall::Peek).0 == char_call(
            chars,
            run_calls(chars, calls).1,
            CharCall::Next,
        ).0,
    decreases calls.len(),
{
    if calls.len() > 0 {
        law_char_calls(chars, calls.drop_last());
        let (results, pos) = run_calls(chars, calls.drop_last());
        let (r, next) = char_call(chars, pos, calls.last());
        assert(results.push(r).drop_last() == results);
        if calls.last() is Next && pos < chars.len() {
            assert(chars.take(pos).push(chars[pos]) =~= chars.take(pos + 1));
        }
    }
}

/// Turns source text into tokens, one at a time, ending with one `Eof` token.
pub struct Lexer {
    chars: Vec<char>,
    pos: usize,
    finished: bool,
}

impl Lexer {
    /// The characters of the source.
    pub closed spec fn source(&self) -> Seq<char> {
        self.chars@
    }

    /// The position (in characters) where lexing continues.
    pub closed spec fn position(&self) -> int {
        self.pos as int
    }

    /// Whether the `Eof` token has been handed out.
    pub closed spec fn is_finished(&self) -> bool {
        self.finished
    }

    pub closed spec fn wf(&self) -> bool {
        self.pos <= self.chars@.len()
    }

    pub fn new(source: &str) -> (r: Lexer)
        ensures
            r.wf(),
            r.source() == source@,
            r.position() == 0,
            !r.is_finished(),
    {
        Lexer { chars: source_chars(source), pos: 0, finished: false }
    }

    fn peek_char(&self) -> (r: Option<char>)
        requires
            self.wf(),
        ensures
            r == if self.pos < self.chars@.len() {
                Some(self.chars@[self.pos as int])
            } else {
                None::<char>
            },
    {
        if self.pos < self.chars.len() {
            Some(self.chars[self.pos])
        } else {
            None
        }
    }

    /// The character after the next one.
    fn peek_two_chars(&self) -> (r: Option<char>)
        requires
            self.wf(),
        ensures
            r == if self.pos + 1 < self.chars@.len() {
                Some(self.chars@[self.pos + 1])
            } else {
                None::<char>
            },
    {
        if self.chars.len() - self.pos > 1 {
            Some(self.chars[self.pos + 1])
        } else {
            None
        }
    }

    fn next_char(&mut self) -> (r: Option<char>)
        requires
            old(self).wf(),
        ensures
            final(self).wf(),
            final(self).chars == old(self).chars,
            final(self).finished == old(self).finished,
            old(self).pos < old(self).chars@.len() ==> r == Some(old(self).chars@[old(self).pos as int])
                && final(self).pos == old(self).pos + 1,
            old(self).pos >= old(self).chars@.len() ==> r is None && final(self).pos == old(self).pos,
    {
        if self.pos < self.chars.len() {
            let c = self.chars[self.pos];
            self.pos = self.pos + 1;
            Some(c)
        } else {
            None
        }
    }

    fn match_next_char(&mut self, expected: char) -> (r: bool)
        requires
            old(self).wf(),
        ensures
            final(self).wf(),
            final(self).chars == old(self).chars,
            final(self).finished == old(self).finished,
            r == (old(self).pos < old(self).chars@.len() && old(self).chars@[old(self).pos as int]
                == expected),
            final(self).pos == if r { old(self).pos + 1 } else { old(self).pos as int },
    {
        if let Some(next) = self.peek_char() {
            if next == expected {
                self.next_char();
                return true;
            }
        }
        false
    }

    /// Advances over the characters that satisfy `till` and returns the range passed over.
    fn take_till(&mut self, till: impl Fn(char) -> bool, Ghost(pred): Ghost<spec_fn(char) -> bool>) -> (r: Range<usize>)
        requires
            old(self).wf(),
            forall|c: char| till.requires((c,)),
            forall|c: char, b: bool| till.ensures((c,), b) ==> b == pred(c),
        ensures
            final(self).wf(),
            final(self).chars == old(self).chars,
            final(self).finished == old(self).finished,
            final(self).pos == scan_while(old(self).chars@, old(self).pos as int, pred),
            r.start == old(self).pos,
            r.end == final(self).pos,
    {
        let start = self.pos;
        proof {
            lemma_scan_while(self.chars@, start as int, pred);
        }
        while self.pos < self.chars.len() && till(self.chars[self.pos])
            invariant
                self.wf(),
                start <= self.pos,
                self.chars == old(self).chars,
                self.finished == old(self).finished,
                old(self).pos == start,
                forall|c: char| till.requires((c,)),
                forall|c: char, b: bool| till.ensures((c,), b) ==> b == pred(c),
                scan_while(self.chars@, self.pos as int, pred) == scan_while(
                    self.chars@,
                    start as int,
                    pred,
                ),
            decreases self.chars@.len() - self.pos,
        {
            self.pos = self.pos + 1;
        }
        Range { start, end: self.pos }
    }

    fn skip_spaces(&mut self)
        requires
            old(self).wf(),
        ensures
            final(self).wf(),
            final(self).chars == old(self).chars,
            final(self).finished == old(self).finished,
            final(self).pos == scan_while(old(self).chars@, old(self).pos as int, white_space_pred()),
    {
        self.take_till(
            is_white_space,
            Ghost(white_space_pred()),
        );
    }

    fn lex_number(&mut self) -> (r: Token)
        requires
            old(self).wf(),
            old(self).pos < old(self).chars@.len(),
            spec_is_digit(old(self).chars@[old(self).pos as int]),
        ensures
            final(self).wf(),
            final(self).chars == old(self).chars,
            final(self).finished == old(self).finished,
            r == spec_token(lex_number_at(old(self).chars@, old(self).pos as int)),
            final(self).pos == lex_number_at(old(self).chars@, old(self).pos as int).next,
    {
        let token_start = self.pos;
        let ghost s = self.chars@;
        self.take_till(
            is_digit,
            Ghost(digit_pred()),
        );
        proof {
            lemma_scan_while(s, token_start as int, digit_pred());
        }
        let dot = self.peek_char();
        let after = self.peek_two_chars();
        if dot == Some('.') && after.is_some() && is_digit(after.unwrap()) {
            self.next_char();
            proof {
                lemma_scan_while(s, self.pos as int, digit_pred());
            }
            self.take_till(
                is_digit,
                Ghost(digit_pred()),
            );
        }
        Token { token_type: TokenType::Number, span: Range { start: token_start, end: self.pos } }
    }

    fn lex_string(&mut self) -> (r: Token)
        requires
            old(self).wf(),
            old(self).pos < old(self).chars@.len(),
            old(self).chars@[old(self).pos as int] == '"',
        ensures
            final(self).wf(),
            final(self).chars == old(self).chars,
            final(self).finished == old(self).finished,
            r == spec_token(lex_string_at(old(self).chars@, old(self).pos as int)),
            final(self).pos == lex_string_at(old(self).chars@, old(self).pos as int).next,
    {
        self.next_char();
        let content_start = self.pos;
        let content_span = self.take_till(
            is_string_content,
            Ghost(string_content_pred()),
        );
        if self.match_next_char('"') {
            Token { token_type: TokenType::String, span: content_span }
        } else {
            Token {
                token_type: TokenType::UnterminatedString,
                span: Range { start: content_start, end: content_start },
            }
        }
    }

    /// Whether the characters in `start..end` spell `word`.
    fn spells(&self, start: usize, end: usize, word: &[char]) -> (r: bool)
        requires
            start <= end <= self.chars@.len(),
        ensures
            r == (self.chars@.subrange(start as int, end as int) == word@),
    {
        if end - start != word.len() {
            return false;
        }
        let mut i: usize = 0;
        while i < word.len()
            invariant
                start <= end <= self.chars@.len(),
                end - start == word@.len(),
                0 <= i <= word@.len(),
                forall|k: int| 0 <= k < i ==> self.chars@[start + k] == word@[k],
            decreases word@.len() - i,
        {
            if self.chars[start + i] != word[i] {
                assert(self.chars@.subrange(start as int, end as int)[i as int] != word@[i as int]);
                return false;
            }
            i = i + 1;
        }
        assert(self.chars@.subrange(start as int, end as int) =~= word@);
        true
    }

    fn keyword_kind(&self, start: usize, end: usize) -> (r: TokenType)
        requires
            start <= end <= self.chars@.len(),
        ensures
            r == keyword_kind(self.chars@.subrange(start as int, end as int)),
    {
        let ghost w = self.chars@.subrange(start as int, end as int);
        assert(['p', 'r', 'i', 'n', 't']@ == seq!['p', 'r', 'i', 'n', 't']);
        assert(['v', 'a', 'r']@ == seq!['v', 'a', 'r']);
        assert(['a', 'n', 'd']@ == seq!['a', 'n', 'd']);
        assert(['c', 'l', 'a', 's', 's']@ == seq!['c', 'l', 'a', 's', 's']);
        assert(['e', 'l', 's', 'e']@ == seq!['e', 'l', 's', 'e']);
        assert(['f', 'a', 'l', 's', 'e']@ == seq!['f', 'a', 'l', 's', 'e']);
        assert(['f', 'u', 'n']@ == seq!['f', 'u', 'n']);
        assert(['f', 'o', 'r']@ == seq!['f', 'o', 'r']);
        assert(['i', 'f']@ == seq!['i', 'f']);
        assert(['n', 'i', 'l']@ == seq!['n', 'i', 'l']);
        assert(['o', 'r']@ == seq!['o', 'r']);
        assert(['r', 'e', 't', 'u', 'r', 'n']@ == seq!['r', 'e', 't', 'u', 'r', 'n']);
        assert(['s', 'u', 'p', 'e', 'r']@ == seq!['s', 'u', 'p', 'e', 'r']);
        assert(['t', 'h', 'i', 's']@ == seq!['t', 'h', 'i', 's']);
        assert(['t', 'r', 'u', 'e']@ == seq!['t', 'r', 'u', 'e']);
        assert(['w', 'h', 'i', 'l', 'e']@ == seq!['w', 'h', 'i', 'l', 'e']);
        assert(['b', 'r', 'e', 'a', 'k']@ == seq!['b', 'r', 'e', 'a', 'k']);
        assert(['c', 'o', 'n', 't', 'i', 'n', 'u', 'e']@ == seq!['c', 'o', 'n', 't', 'i', 'n', 'u', 'e']);
        if self.spells(start, end, &['p', 'r', 'i', 'n', 't']) {
            TokenType::Print
        } else if self.spells(start, end, &['v', 'a', 'r']) {
            TokenType::Var
        } else if self.spells(start, end, &['a', 'n', 'd']) {
            TokenType::And
        } else if self.spells(start, end, &['c', 'l', 'a', 's', 's']) {
            TokenType::Class
        } else if self.spells(start, end, &['e', 'l', 's', 'e']) {
            TokenType::Else
        } else if self.spells(start, end, &['f', 'a', 'l', 's', 'e']) {
            TokenType::False
        } else if self.spells(start, end, &['f', 'u', 'n']) {
            TokenType::Fun
        } else if self.spells(start, end, &['f', 'o', 'r']) {
            TokenType::For
        } else if self.spells(start, end, &['i', 'f']) {
            TokenType::If
        } else if self.spells(start, end, &['n', 'i', 'l']) {
            TokenType::Nil
        } else if self.spells(start, end, &['o', 'r']) {
            TokenType::Or
        } else if self.spells(start, end, &['r', 'e', 't', 'u', 'r', 'n']) {
            TokenType::Return
        } else if self.spells(start, end, &['s', 'u', 'p', 'e', 'r']) {
            TokenType::Super
        } else if self.spells(start, end, &['t', 'h', 'i', 's']) {
            TokenType::This
        } else if self.spells(start, end, &['t', 'r', 'u', 'e']) {
            TokenType::True
        } else if self.spells(start, end, &['w', 'h', 'i', 'l', 'e']) {
            TokenType::While
        } else if self.spells(start, end, &['b', 'r', 'e', 'a', 'k']) {
            TokenType::Break
        } else if self.spells(start, end, &['c', 'o', 'n', 't', 'i', 'n', 'u', 'e']) {
            TokenType::Continue
        } else {
            TokenType::Identifier
        }
    }

    fn lex_keyword_or_identifier(&mut self) -> (r: Token)
        requires
            old(self).wf(),
            old(self).pos < old(self).chars@.len(),
        ensures
            final(self).wf(),
            final(self).chars == old(self).chars,
            final(self).finished == old(self).finished,
            r == spec_token(lex_word_at(old(self).chars@, old(self).pos as int)),
            final(self).pos == lex_word_at(old(self).chars@, old(self).pos as int).next,
    {
        let token_start = self.pos;
        let lexeme = self.take_till(
            is_ident_char,
            Ghost(ident_pred()),
        );
        proof {
            lemma_scan_while(old(self).chars@, token_start as int, ident_pred());
        }
        let token_type = self.keyword_kind(lexeme.start, lexeme.end);
        Token { token_type, span: Range { start: token_start, end: self.pos } }
    }

    /// Lexes a symbol; after `//` it skips the rest of the line and lexes the next token.
    fn lex_symbol(&mut self) -> (r: Token)
        requires
            old(self).wf(),
            old(self).pos < old(self).chars@.len(),
            !spec_is_white_space(old(self).chars@[old(self).pos as int]),
            !spec_is_digit(old(self).chars@[old(self).pos as int]),
            old(self).chars@[old(self).pos as int] != '"',
            !spec_is_ident_char(old(self).chars@[old(self).pos as int]),
        ensures
            final(self).wf(),
            final(self).chars == old(self).chars,
            final(self).finished == old(self).finished,
            r == spec_token(lex_at(old(self).chars@, old(self).pos as int)),
            final(self).pos == lex_at(old(self).chars@, old(self).pos as int).next,
        decreases old(self).chars@.len() - old(self).pos, 0int,
    {
        proof {
            lemma_lex_at_symbol(self.chars@, self.pos as int);
        }
        let token_start = self.pos;
        let c = self.next_char().unwrap();
        let token_type = if c == '(' {
            TokenType::LeftParen
        } else if c == ')' {
            TokenType::RightParen
        } else if c == '{' {
            TokenType::LeftBrace
        } else if c == '}' {
            TokenType::RightBrace
        } else if c == ',' {
            TokenType::Comma
        } else if c == '.' {
            TokenType::Dot
        } else if c == '-' {
            TokenType::Minus
        } else if c == '+' {
            TokenType::Plus
        } else if c == ';' {
            TokenType::Semicolon
        } else if c == '*' {
            TokenType::Star
        } else if c == '=' {
            if self.match_next_char('=') {
                TokenType::EqualEqual
            } else {
                TokenType::Equal
            }
        } else if c == '<' {
            if self.match_next_char('=') {
                TokenType::LessEqual
            } else {
                TokenType::Less
            }
        } else if c == '>' {
            if self.match_next_char('=') {
                TokenType::GreaterEqual
            } else {
                TokenType::Greater
            }
        } else if c == '!' {
            if self.match_next_char('=') {
                TokenType::BangEqual
            } else {
                TokenType::Bang
            }
        } else if c == '/' {
            if self.match_next_char('/') {
                proof {
                    lemma_scan_while(self.chars@, self.pos as int, comment_pred());
                }
                self.take_till(
                    is_not_newline,
                    Ghost(comment_pred()),
                );
                return self.lex();
            } else {
                TokenType::Slash
            }
        } else {
            TokenType::Unknown
        };
        Token { token_type, span: Range { start: token_start, end: self.pos } }
    }

    /// Skips whitespace and lexes one token; at the end of the source the token is `Eof`.
    fn lex(&mut self) -> (r: Token)
        requires
            old(self).wf(),
        ensures
            final(self).wf(),
            final(self).chars == old(self).chars,
            final(self).finished == old(self).finished,
            r == spec_token(lex_at(old(self).chars@, old(self).pos as int)),
            final(self).pos == lex_at(old(self).chars@, old(self).pos as int).next,
        decreases old(self).chars@.len() - old(self).pos, 1int,
    {
        let ghost s = self.chars@;
        let ghost pos0 = self.pos as int;
        proof {
            lemma_scan_while(s, pos0, white_space_pred());
        }
        self.skip_spaces();
        if let Some(c) = self.peek_char() {
            proof {
                lemma_lex_at_after_spaces(s, pos0);
            }
            if is_digit(c) {
                self.lex_number()
            } else if c == '"' {
                self.lex_string()
            } else if is_ident_char(c) {
                self.lex_keyword_or_identifier()
            } else {
                self.lex_symbol()
            }
        } else {
            Token { token_type: TokenType::Eof, span: Range { start: self.pos, end: self.pos } }
        }
    }

    /// The next token, or `None` once `Eof` has been handed out.
    pub fn next(&mut self) -> (r: Option<Token>)
        requires
            old(self).wf(),
        ensures
            final(self).wf(),
            final(self).source() == old(self).source(),
            old(self).is_finished() ==> r is None && final(self).position() == old(self).position()
                && final(self).is_finished(),
            !old(self).is_finished() ==> {
                let l = lex_at(old(self).source(), old(self).position());
                &&& r == Some(spec_token(l))
                &&& final(self).position() == l.next
                &&& final(self).is_finished() == (l.kind == TokenType::Eof)
            },
            (r, final(self).position(), final(self).is_finished()) == next_step(
                old(self).source(),
                old(self).position(),
                old(self).is_finished(),
            ),
    {
        if self.finished {
            return None;
        }
        let tok = self.lex();
        if tok.token_type == TokenType::Eof {
            self.finished = true;
        }
        Some(tok)
    }
}

/// When the character after the whitespace is not a digit, quote or identifier
/// character, lexing from the starting position is lexing a symbol (or comment) there.
proof fn lemma_lex_at_after_spaces(s: Seq<char>, pos: int)
    requires
        0 <= pos <= s.len(),
        scan_while(s, pos, white_space_pred()) < s.len(),
    ensures
        ({
            let p = scan_while(s, pos, white_space_pred());
            &&& !spec_is_white_space(s[p])
            &&& spec_is_digit(s[p]) ==> lex_at(s, pos) == lex_number_at(s, p)
            &&& (!spec_is_digit(s[p]) && s[p] == '"') ==> lex_at(s, pos) == lex_string_at(s, p)
            &&& (!spec_is_digit(s[p]) && s[p] != '"' && spec_is_ident_char(s[p])) ==> lex_at(s, pos)
                == lex_word_at(s, p)
            &&& (!spec_is_digit(s[p]) && s[p] != '"' && !spec_is_ident_char(s[p])) ==> lex_at(s, pos)
                == lex_at(s, p)
        }),
{
    lemma_scan_while(s, pos, white_space_pred());
    let p = scan_while(s, pos, white_space_pred());
    assert(scan_while(s, p, white_space_pred()) == p);
    lemma_scan_while(s, p, white_space_pred());
    if !spec_is_digit(s[p]) && s[p] != '"' && !spec_is_ident_char(s[p]) && comment_at(s, p) {
        lemma_scan_while(s, p + 2, comment_pred());
    }
}

/// Lexing at a non-whitespace symbol character: either the symbol or, for `//`, the
/// token after the comment.
proof fn lemma_lex_at_symbol(s: Seq<char>, p: int)
    requires
        0 <= p < s.len(),
        !spec_is_white_space(s[p]),
        !spec_is_digit(s[p]) && s[p] != '"' && !spec_is_ident_char(s[p]),
    ensures
        comment_at(s, p) ==> lex_at(s, p) == lex_at(s, scan_while(s, p + 2, comment_pred())),
        !comment_at(s, p) ==> lex_at(s, p) == lex_symbol_at(s, p),
        p < scan_while(s, p + 2, comment_pred()) <= s.len() || !comment_at(s, p),
{
    assert(scan_while(s, p, white_space_pred()) == p);
    if comment_at(s, p) {
        lemma_scan_while(s, p + 2, comment_pred());
    }
}

/// Every token of `source`, ending with `Eof`.
pub fn collect_tokens(source: &str) -> (r: Vec<Token>)
    ensures
        r@ == tokenize(source@),
{
    let mut lexer = Lexer::new(source);
    let mut tokens: Vec<Token> = Vec::new();
    loop
        invariant
            lexer.wf(),
            lexer.source() == source@,
            0 <= lexer.position() <= source@.len(),
            !lexer.is_finished() ==> tokens@ + tokens_from(source@, lexer.position()) == tokenize(source@),
            lexer.is_finished() ==> tokens@ == tokenize(source@),
        decreases (if lexer.is_finished() { 0int } else { source@.len() - lexer.position() + 1 }),
    {
        let ghost pos = lexer.position();
        let ghost was_finished = lexer.is_finished();
        match lexer.next() {
            None => {
                return tokens;
            },
            Some(tok) => {
                proof {
                    lemma_lex_at_bounds(source@, pos);
                    let l = lex_at(source@, pos);
                    assert(tokens_from(source@, pos) == if l.kind == TokenType::Eof {
                        seq![spec_token(l)]
                    } else {
                        seq![spec_token(l)] + tokens_from(source@, l.next)
                    });
                    if l.kind == TokenType::Eof {
                        assert(tokens@.push(tok) == tokens@ + seq![spec_token(l)]);
                    } else {
                        assert(tokens@.push(tok) + tokens_from(source@, l.next) == tokens@ + (seq![
                            spec_token(l),
                        ] + tokens_from(source@, l.next)));
                    }
                }
                tokens.push(tok);
            },
        }
    }
}


/// Facts of the tokens that lexing from `pos` produces: the last is `Eof` and no
/// other is; every span lies in the source after `pos`; spans come in order and do
/// not overlap.
proof fn lemma_tokens_from(s: Seq<char>, pos: int)
    requires
        0 <= pos <= s.len(),
        s.len() <= usize::MAX,
    ensures
        tokens_from(s, pos).len() >= 1,
        tokens_from(s, pos).last().token_type == TokenType::Eof,
        forall|i: int|
            0 <= i < tokens_from(s, pos).len() - 1 ==> #[trigger] tokens_from(s, pos)[i].token_type
                != TokenType::Eof,
        forall|i: int|
            0 <= i < tokens_from(s, pos).len() ==> pos <= #[trigger] tokens_from(s, pos)[i].span.start
                <= tokens_from(s, pos)[i].span.end <= s.len(),
        forall|i: int, j: int|
            0 <= i < j < tokens_from(s, pos).len() ==> #[trigger] tokens_from(s, pos)[i].span.end
                <= #[trigger] tokens_from(s, pos)[j].span.start,
    decreases s.len() - pos,
{
    lemma_lex_at_bounds(s, pos);
    let l = lex_at(s, pos);
    let t = tokens_from(s, pos);
    if l.kind != TokenType::Eof {
        lemma_tokens_from(s, l.next);
        let rest = tokens_from(s, l.next);
        assert(t == seq![spec_token(l)] + rest);
        assert forall|i: int, j: int| 0 <= i < j < t.len() implies #[trigger] t[i].span.end
            <= #[trigger] t[j].span.start by {
            if i == 0 {
                assert(t[j] == rest[j - 1]);
            } else {
                assert(t[i] == rest[i - 1]);
                assert(t[j] == rest[j - 1]);
            }
        }
        assert forall|i: int| 0 <= i < t.len() - 1 implies #[trigger] t[i].token_type
            != TokenType::Eof by {
            if i > 0 {
                assert(t[i] == rest[i - 1]);
            }
        }
        assert forall|i: int| 0 <= i < t.len() implies pos <= #[trigger] t[i].span.start
            <= t[i].span.end <= s.len() by {
            if i > 0 {
                assert(t[i] == rest[i - 1]);
            }
        }
    }
}

/// Lexing any source yields a token list that ends with exactly one `Eof` token,
/// whose spans lie in the source, in order and without overlap.
pub proof fn law_tokenize_shape(s: Seq<char>)
    requires
        s.len() <= usize::MAX,
    ensures
        tokenize(s).len() >= 1,
        tokenize(s).last().token_type == TokenType::Eof,
        tokenize(s).last().span.start == s.len(),
        forall|i: int|
            0 <= i < tokenize(s).len() - 1 ==> #[trigger] tokenize(s)[i].token_type
                != TokenType::Eof,
        forall|i: int|
            0 <= i < tokenize(s).len() ==> #[trigger] tokenize(s)[i].span.start
                <= tokenize(s)[i].span.end <= s.len(),
        forall|i: int, j: int|
            0 <= i < j < tokenize(s).len() ==> #[trigger] tokenize(s)[i].span.end
                <= #[trigger] tokenize(s)[j].span.start,
{
    lemma_tokens_from(s, 0);
    lemma_tokens_from_last(s, 0);
}

proof fn lemma_tokens_from_last(s: Seq<char>, pos: int)
    requires
        0 <= pos <= s.len(),
        s.len() <= usize::MAX,
    ensures
        tokens_from(s, pos).last().span.start == s.len(),
    decreases s.len() - pos,
{
    lemma_lex_at_bounds(s, pos);
    let l = lex_at(s, pos);
    if l.kind != TokenType::Eof {
        lemma_tokens_from_last(s, l.next);
        assert(tokens_from(s, pos).last() == tokens_from(s, l.next).last());
    }
}

/// What one call of `Lexer::next` does to a lexer over `s` at position `pos`: the
/// token it hands out, and the position and finished flag after the call.
pub open spec fn next_step(s: Seq<char>, pos: int, finished: bool) -> (Option<Token>, int, bool) {
    if finished {
        (None, pos, true)
    } else {
        let l = lex_at(s, pos);
        (Some(spec_token(l)), l.next, l.kind == TokenType::Eof)
    }
}

/// What `k` successive calls of `Lexer::next` hand out, from a lexer over `s` at
/// position `pos`.
pub open spec fn next_results(s: Seq<char>, pos: int, finished: bool, k: nat) -> Seq<Option<Token>>
    decreases k,
{
    if k == 0 {
        Seq::empty()
    } else {
        let (r, p, f) = next_step(s, pos, finished);
        seq![r] + next_results(s, p, f, (k - 1) as nat)
    }
}

proof fn lemma_next_results_finished(s: Seq<char>, pos: int, k: nat)
    ensures
        next_results(s, pos, true, k).len() == k,
        forall|i: int| 0 <= i < k ==> #[trigger] next_results(s, pos, true, k)[i] is None,
    decreases k,
{
    if k > 0 {
        lemma_next_results_finished(s, pos, (k - 1) as nat);
        let rest = next_results(s, pos, true, (k - 1) as nat);
        assert(next_results(s, pos, true, k) == seq![None::<Token>] + rest);
        assert forall|i: int| 0 <= i < k implies #[trigger] next_results(s, pos, true, k)[i] is None by {
            if i > 0 {
                assert(next_results(s, pos, true, k)[i] == rest[i - 1]);
            }
        }
    }
}

proof fn lemma_next_results(s: Seq<char>, pos: int, k: nat)
    requires
        0 <= pos <= s.len(),
    ensures
        next_results(s, pos, false, k).len() == k,
        tokens_from(s, pos).len() <= s.len() - pos + 1,
        forall|i: int|
            0 <= i < k ==> #[trigger] next_results(s, pos, false, k)[i] == if i < tokens_from(
                s,
                pos,
            ).len() {
                Some(tokens_from(s, pos)[i])
            } else {
                None
            },
    decreases k, s.len() - pos,
{
    lemma_lex_at_bounds(s, pos);
    let l = lex_at(s, pos);
    let t = tokens_from(s, pos);
    if l.kind != TokenType::Eof {
        lemma_next_results(s, l.next, 0);
        assert(t == seq![spec_token(l)] + tokens_from(s, l.next));
    } else {
        assert(t == seq![spec_token(l)]);
    }
    if k > 0 {
        let res = next_results(s, pos, false, k);
        if l.kind == TokenType::Eof {
            lemma_next_results_finished(s, l.next, (k - 1) as nat);
            let rest = next_results(s, l.next, true, (k - 1) as nat);
            assert(res == seq![Some(spec_token(l))] + rest);
            assert forall|i: int| 0 <= i < k implies #[trigger] res[i] == if i < t.len() {
                Some(t[i])
            } else {
                None
            } by {
                if i > 0 {
                    assert(res[i] == rest[i - 1]);
                }
            }
        } else {
            lemma_next_results(s, l.next, (k - 1) as nat);
            let rest = next_results(s, l.next, false, (k - 1) as nat);
            let tr = tokens_from(s, l.next);
            assert(res == seq![Some(spec_token(l))] + rest);
            assert forall|i: int| 0 <= i < k implies #[trigger] res[i] == if i < t.len() {
                Some(t[i])
            } else {
                None
            } by {
                if i > 0 {
                    assert(res[i] == rest[i - 1]);
                    if i < t.len() {
                        assert(t[i] == tr[i - 1]);
                    }
                }
            }
        }
    }
}

/// Successive calls of `next` on a new lexer hand out the tokens of the whole source
/// in order, the last of them `Eof`, and then `None` on every later call; so there is
/// exactly one `Eof`, and at most one call more than the source has characters hands
/// out a token.
pub proof fn law_next_calls(s: Seq<char>, k: nat)
    requires
        s.len() <= usize::MAX,
    ensures
        next_results(s, 0, false, k).len() == k,
        forall|i: int|
            0 <= i < k ==> #[trigger] next_results(s, 0, false, k)[i] == if i < tokenize(s).len() {
                Some(tokenize(s)[i])
            } else {
                None
            },
        tokenize(s).len() <= s.len() + 1,
        tokenize(s).last().token_type == TokenType::Eof,
        forall|i: int|
            0 <= i < tokenize(s).len() - 1 ==> #[trigger] tokenize(s)[i].token_type
                != TokenType::Eof,
{
    lemma_next_results(s, 0, k);
    law_tokenize_shape(s);
}

/// Whitespace between tokens does not matter: lexing from a whitespace character
/// gives the same token as lexing from the character after it.
pub proof fn law_whitespace_skipped(s: Seq<char>, pos: int)
    requires
        0 <= pos < s.len(),
        spec_is_white_space(s[pos]),
    ensures
        lex_at(s, pos) == lex_at(s, pos + 1),
{
    assert(scan_while(s, pos, white_space_pred()) == scan_while(s, pos + 1, white_space_pred()));
    lemma_scan_while(s, pos + 1, white_space_pred());
    let p = scan_while(s, pos + 1, white_space_pred());
    if p + 1 < s.len() {
        lemma_scan_while(s, p + 2, comment_pred());
    }
}

/// The kinds of a sequence of tokens.
pub open spec fn token_kinds(tokens: Seq<Token>) -> Seq<TokenType> {
    tokens.map_values(|tok: Token| tok.token_type)
}

/// `s` with a space inserted after position `w`.
pub open spec fn insert_space_after(s: Seq<char>, w: int) -> Seq<char> {
    s.take(w + 1) + seq![' '] + s.skip(w + 1)
}

/// Where position `p` of `s` lies once a space is inserted after position `w`.
pub open spec fn shifted(p: int, w: int) -> int {
    if p <= w {
        p
    } else {
        p + 1
    }
}

proof fn lemma_insert_chars(s: Seq<char>, w: int)
    requires
        0 <= w < s.len(),
    ensures
        insert_space_after(s, w).len() == s.len() + 1,
        insert_space_after(s, w)[w + 1] == ' ',
        forall|i: int| 0 <= i < s.len() ==> #[trigger] insert_space_after(s, w)[shifted(i, w)] == s[i],
{
    let s2 = insert_space_after(s, w);
    assert forall|i: int| 0 <= i < s.len() implies #[trigger] s2[shifted(i, w)] == s[i] by {
        if i <= w {
            assert(s2[i] == s.take(w + 1)[i]);
        } else {
            assert(s2[i + 1] == s.skip(w + 1)[i - w - 1]);
        }
    }
}

/// Scanning the source with the space inserted gives the shifted position, for a
/// class of characters that takes the space wherever it takes the character at `w`.
proof fn lemma_scan_shift(s: Seq<char>, w: int, i: int, p: spec_fn(char) -> bool)
    requires
        0 <= w < s.len(),
        0 <= i <= s.len(),
        p(s[w]) ==> p(' '),
    ensures
        scan_while(insert_space_after(s, w), shifted(i, w), p) == shifted(scan_while(s, i, p), w),
    decreases s.len() - i,
{
    let s2 = insert_space_after(s, w);
    lemma_insert_chars(s, w);
    if i < s.len() && p(s[i]) {
        lemma_scan_shift(s, w, i + 1, p);
        assert(s2[shifted(i, w)] == s[i]);
        if i == w {
            assert(scan_while(s2, w + 1, p) == scan_while(s2, w + 2, p));
        }
    } else if i < s.len() {
        assert(s2[shifted(i, w)] == s[i]);
    }
}

proof fn lemma_white_space_class(c: char)
    requires
        spec_is_white_space(c),
    ensures
        !spec_is_digit(c),
        !spec_is_ident_char(c),
        c != '"',
        c != '.',
        c != '=',
        c != '/',
{
}

/// Lexing the source with the space inserted, from the shifted position, gives a
/// token of the same kind and continues at the shifted position.
proof fn lemma_lex_shift(s: Seq<char>, w: int, pos: int)
    requires
        0 <= w < s.len(),
        spec_is_white_space(s[w]),
        0 <= pos <= s.len(),
    ensures
        lex_at(insert_space_after(s, w), shifted(pos, w)).kind == lex_at(s, pos).kind,
        lex_at(insert_space_after(s, w), shifted(pos, w)).next == shifted(lex_at(s, pos).next, w),
    decreases s.len() - pos,
{
    let s2 = insert_space_after(s, w);
    let pos2 = shifted(pos, w);
    lemma_insert_chars(s, w);
    lemma_white_space_class(s[w]);
    lemma_scan_while(s, pos, white_space_pred());
    lemma_scan_shift(s, w, pos, white_space_pred());
    let p = scan_while(s, pos, white_space_pred());
    let p2 = scan_while(s2, pos2, white_space_pred());
    assert(p2 == shifted(p, w));
    lemma_scan_while(s2, pos2, white_space_pred());
    if p < s.len() {
        assert(s2[p2] == s[p]);
        assert(p != w);
        if spec_is_digit(s[p]) {
            lemma_scan_while(s, p, digit_pred());
            lemma_scan_shift(s, w, p, digit_pred());
            let e = scan_while(s, p, digit_pred());
            if e + 1 < s.len() {
                assert(s2[shifted(e, w)] == s[e]);
                if e != w {
                    assert(shifted(e, w) + 1 == shifted(e + 1, w));
                    assert(s2[shifted(e + 1, w)] == s[e + 1]);
                    lemma_scan_shift(s, w, e + 1, digit_pred());
                }
            }
        } else if s[p] == '"' {
            lemma_scan_while(s, p + 1, string_content_pred());
            assert(shifted(p, w) + 1 == shifted(p + 1, w));
            lemma_scan_shift(s, w, p + 1, string_content_pred());
            let e = scan_while(s, p + 1, string_content_pred());
            if e < s.len() {
                assert(s2[shifted(e, w)] == s[e]);
            }
        } else if spec_is_ident_char(s[p]) {
            lemma_scan_while(s, p, ident_pred());
            lemma_scan_shift(s, w, p, ident_pred());
            let e = scan_while(s, p, ident_pred());
            let e2 = shifted(e, w);
            if p < w {
                assert(e <= w) by {
                    if e > w {
                        assert(ident_pred()(s[w]));
                    }
                }
                assert(s2.subrange(p, e) =~= s.subrange(p, e)) by {
                    assert forall|k: int| 0 <= k < e - p implies s2.subrange(p, e)[k] == s.subrange(p, e)[k] by {
                        assert(s2[shifted(p + k, w)] == s[p + k]);
                    }
                }
            } else {
                assert(s2.subrange(p + 1, e + 1) =~= s.subrange(p, e)) by {
                    assert forall|k: int| 0 <= k < e - p implies s2.subrange(p + 1, e + 1)[k] == s.subrange(p, e)[k] by {
                        assert(s2[shifted(p + k, w)] == s[p + k]);
                    }
                }
            }
        } else if comment_at(s, p) {
            assert(p + 1 != w);
            assert(shifted(p, w) + 1 == shifted(p + 1, w));
            assert(s2[shifted(p + 1, w)] == s[p + 1]);
            assert(shifted(p, w) + 2 == shifted(p + 2, w));
            lemma_scan_while(s, p + 2, comment_pred());
            lemma_scan_shift(s, w, p + 2, comment_pred());
            let q = scan_while(s, p + 2, comment_pred());
            lemma_lex_shift(s, w, q);
        } else {
            assert(shifted(p, w) + 1 == shifted(p + 1, w));
            if p + 1 < s.len() {
                assert(s2[shifted(p + 1, w)] == s[p + 1]);
            }
            assert(!comment_at(s2, p2));
            if p + 1 != w {
                assert(shifted(p, w) + 2 == shifted(p + 2, w));
            }
        }
    }
}

proof fn lemma_tokens_shift(s: Seq<char>, w: int, pos: int)
    requires
        0 <= w < s.len(),
        spec_is_white_space(s[w]),
        0 <= pos <= s.len(),
    ensures
        token_kinds(tokens_from(insert_space_after(s, w), shifted(pos, w))) == token_kinds(
            tokens_from(s, pos),
        ),
    decreases s.len() - pos,
{
    let s2 = insert_space_after(s, w);
    lemma_insert_chars(s, w);
    lemma_lex_shift(s, w, pos);
    lemma_lex_at_bounds(s, pos);
    lemma_lex_at_bounds(s2, shifted(pos, w));
    let l = lex_at(s, pos);
    let l2 = lex_at(s2, shifted(pos, w));
    if l.kind != TokenType::Eof {
        lemma_tokens_shift(s, w, l.next);
        let a = tokens_from(s, pos);
        let b = tokens_from(s2, shifted(pos, w));
        assert(a == seq![spec_token(l)] + tokens_from(s, l.next));
        assert(b == seq![spec_token(l2)] + tokens_from(s2, l2.next));
        assert(token_kinds(a) =~= token_kinds(b)) by {
            assert(token_kinds(a) =~= seq![l.kind] + token_kinds(tokens_from(s, l.next)));
            assert(token_kinds(b) =~= seq![l2.kind] + token_kinds(tokens_from(s2, l2.next)));
        }
    } else {
        assert(token_kinds(tokens_from(s, pos)) =~= seq![l.kind]);
        assert(token_kinds(tokens_from(s2, shifted(pos, w))) =~= seq![l2.kind]);
    }
}

/// A space inserted right after a whitespace character changes no token's kind:
/// whitespace between tokens is skipped, and inside a string or a comment it stays in
/// the same token.
pub proof fn law_inserted_space(s: Seq<char>, w: int)
    requires
        0 <= w < s.len(),
        spec_is_white_space(s[w]),
    ensures
        token_kinds(tokenize(insert_space_after(s, w))) == token_kinds(tokenize(s)),
{
    lemma_tokens_shift(s, w, 0);
}

/// The characters of Unicode's `White_Space` property, which `char::is_whitespace`
/// tests, listed one by one.
pub open spec fn is_unicode_white_space(c: char) -> bool {
    ||| c == '\t'
    ||| c == '\n'
    ||| c == '\u{0B}'
    ||| c == '\u{0C}'
    ||| c == '\r'
    ||| c == ' '
    ||| c == '\u{85}'
    ||| c == '\u{A0}'
    ||| c == '\u{1680}'
    ||| ('\u{2000}' <= c && c <= '\u{200A}')
    ||| c == '\u{2028}'
    ||| c == '\u{2029}'
    ||| c == '\u{202F}'
    ||| c == '\u{205F}'
    ||| c == '\u{3000}'
}

proof fn lemma_unicode_white_space(c: char)
    requires
        is_unicode_white_space(c),
    ensures
        spec_is_white_space(c),
{
}

/// Scanning two sources of the same length, on whose characters `p` agrees, stops at
/// the same position.
proof fn lemma_scan_agree(s: Seq<char>, s2: Seq<char>, i: int, p: spec_fn(char) -> bool)
    requires
        s2.len() == s.len(),
        forall|k: int| 0 <= k < s.len() ==> p(#[trigger] s2[k]) == p(s[k]),
    ensures
        scan_while(s2, i, p) == scan_while(s, i, p),
    decreases s.len() - i,
{
    if 0 <= i < s.len() {
        assert(p(s2[i]) == p(s[i]));
        lemma_scan_agree(s, s2, i + 1, p);
    }
}

/// Lexing a source in which a white-space character other than a newline became a
/// space gives the same token from every position.
proof fn lemma_lex_as_space(s: Seq<char>, w: int, pos: int)
    requires
        0 <= w < s.len(),
        spec_is_white_space(s[w]),
        s[w] != '\n',
    ensures
        lex_at(s.update(w, ' '), pos) == lex_at(s, pos),
    decreases s.len() - pos,
{
    let s2 = s.update(w, ' ');
    lemma_white_space_class(s[w]);
    assert(spec_is_white_space(' '));
    assert forall|k: int| 0 <= k < s.len() implies (#[trigger] white_space_pred()(s2[k]) == white_space_pred()(s[k])
        && digit_pred()(s2[k]) == digit_pred()(s[k]) && ident_pred()(s2[k]) == ident_pred()(s[k])
        && string_content_pred()(s2[k]) == string_content_pred()(s[k]) && comment_pred()(s2[k])
        == comment_pred()(s[k])) by {
        if k != w {
            assert(s2[k] == s[k]);
        }
    }
    if 0 <= pos <= s.len() {
        lemma_scan_agree(s, s2, pos, white_space_pred());
        lemma_scan_while(s, pos, white_space_pred());
        let p = scan_while(s, pos, white_space_pred());
        if p < s.len() {
            assert(p != w);
            assert(s2[p] == s[p]);
            lemma_scan_agree(s, s2, p, digit_pred());
            lemma_scan_agree(s, s2, p, ident_pred());
            lemma_scan_agree(s, s2, p + 1, string_content_pred());
            lemma_scan_agree(s, s2, p + 2, comment_pred());
            let e = scan_while(s, p, digit_pred());
            lemma_scan_while(s, p, digit_pred());
            lemma_scan_agree(s, s2, e + 1, digit_pred());
            if 0 <= e < s.len() {
                if e != w {
                    assert(s2[e] == s[e]);
                }
            }
            if 0 <= e + 1 < s.len() && e + 1 != w {
                assert(s2[e + 1] == s[e + 1]);
            }
            let es = scan_while(s, p + 1, string_content_pred());
            if p + 1 <= s.len() {
                lemma_scan_while(s, p + 1, string_content_pred());
            }
            if 0 <= es < s.len() && es != w {
                assert(s2[es] == s[es]);
            }
            if p + 1 < s.len() && p + 1 != w {
                assert(s2[p + 1] == s[p + 1]);
            }
            let ew = scan_while(s, p, ident_pred());
            lemma_scan_while(s, p, ident_pred());
            assert(s2.subrange(p, ew) =~= s.subrange(p, ew)) by {
                assert forall|k: int| 0 <= k < ew - p implies s2.subrange(p, ew)[k] == s.subrange(p, ew)[k] by {
                    if p + k == w {
                        assert(ident_pred()(s[p + k]));
                    }
                }
            }
            if comment_at(s, p) {
                let q = scan_while(s, p + 2, comment_pred());
                if pos < q <= s.len() {
                    lemma_lex_as_space(s, w, q);
                }
            }
        }
    }
}

/// The tokens from every position are the same in a source in which a white-space
/// character other than a newline became a space.
proof fn lemma_tokens_as_space(s: Seq<char>, w: int, pos: int)
    requires
        0 <= w < s.len(),
        spec_is_white_space(s[w]),
        s[w] != '\n',
    ensures
        tokens_from(s.update(w, ' '), pos) == tokens_from(s, pos),
    decreases s.len() - pos,
{
    lemma_lex_as_space(s, w, pos);
    let l = lex_at(s, pos);
    if !(l.kind == TokenType::Eof || !(pos < l.next <= s.len())) {
        lemma_tokens_as_space(s, w, l.next);
    }
}

/// Every white-space character of Unicode but the newline (a tab, a carriage return, a
/// no-break space, ...) lexes as a space wherever it stands: between tokens it
/// separates them, and inside a string or a comment it stays in the same token. The
/// newline differs only in ending a comment or a string.
pub proof fn law_white_space_lexes_as_space(s: Seq<char>, w: int)
    requires
        0 <= w < s.len(),
        is_unicode_white_space(s[w]),
        s[w] != '\n',
    ensures
        tokenize(s.update(w, ' ')) == tokenize(s),
{
    lemma_unicode_white_space(s[w]);
    lemma_tokens_as_space(s, w, 0);
}

/// A source made only of Unicode white space holds no token: lexing it gives `Eof`
/// alone.
pub proof fn law_white_space_source_is_empty(s: Seq<char>)
    requires
        forall|i: int| 0 <= i < s.len() ==> is_unicode_white_space(#[trigger] s[i]),
    ensures
        token_kinds(tokenize(s)) == seq![TokenType::Eof],
{
    assert forall|i: int| 0 <= i < s.len() implies #[trigger] white_space_pred()(s[i]) by {
        lemma_unicode_white_space(s[i]);
    }
    lemma_scan_while(s, 0, white_space_pred());
    let p = scan_while(s, 0, white_space_pred());
    if p < s.len() {
        assert(white_space_pred()(s[p]));
    }
    assert(token_kinds(tokenize(s)) =~= seq![TokenType::Eof]);
}

/// Every identifier token of a source spans at least one character.
pub proof fn law_identifier_tokens_nonempty(s: Seq<char>)
    requires
        s.len() <= usize::MAX,
    ensures
        forall|i: int|
            0 <= i < tokenize(s).len() && #[trigger] tokenize(s)[i].token_type == TokenType::Identifier
                ==> tokenize(s)[i].span.start < tokenize(s)[i].span.end,
{
    lemma_identifier_tokens_from(s, 0);
}

proof fn lemma_identifier_tokens_from(s: Seq<char>, pos: int)
    requires
        s.len() <= usize::MAX,
        0 <= pos <= s.len(),
    ensures
        forall|i: int|
            0 <= i < tokens_from(s, pos).len() && #[trigger] tokens_from(s, pos)[i].token_type
                == TokenType::Identifier ==> tokens_from(s, pos)[i].span.start < tokens_from(s, pos)[i].span.end,
    decreases s.len() - pos,
{
    lemma_lex_at_bounds(s, pos);
    let l = lex_at(s, pos);
    let t = tokens_from(s, pos);
    if l.kind == TokenType::Identifier {
        law_identifier_token(s, pos);
    }
    if l.kind != TokenType::Eof {
        lemma_identifier_tokens_from(s, l.next);
        let rest = tokens_from(s, l.next);
        assert(t == seq![spec_token(l)] + rest);
        assert forall|i: int|
            0 <= i < t.len() && #[trigger] t[i].token_type == TokenType::Identifier implies t[i].span.start
                < t[i].span.end by {
            if i > 0 {
                assert(t[i] == rest[i - 1]);
            }
        }
    }
}

/// The text of a token other than a string literal holds no whitespace: numbers,
/// names, keywords and symbols are written without it.
pub proof fn law_token_text_has_no_whitespace(s: Seq<char>, pos: int)
    requires
        0 <= pos <= s.len(),
        lex_at(s, pos).kind != TokenType::String,
    ensures
        forall|k: int|
            lex_at(s, pos).start <= k < lex_at(s, pos).end ==> !spec_is_white_space(#[trigger] s[k]),
    decreases s.len() - pos,
{
    lemma_scan_while(s, pos, white_space_pred());
    let p = scan_while(s, pos, white_space_pred());
    if p < s.len() {
        if spec_is_digit(s[p]) {
            lemma_scan_while(s, p, digit_pred());
            let e = scan_while(s, p, digit_pred());
            if e + 1 < s.len() && s[e] == '.' && spec_is_digit(s[e + 1]) {
                lemma_scan_while(s, e + 1, digit_pred());
                let f = scan_while(s, e + 1, digit_pred());
                assert forall|k: int| p <= k < f implies !spec_is_white_space(#[trigger] s[k]) by {
                    if k < e {
                        assert(digit_pred()(s[k]));
                    } else if k > e {
                        assert(digit_pred()(s[k]));
                    }
                }
            } else {
                assert forall|k: int| p <= k < e implies !spec_is_white_space(#[trigger] s[k]) by {
                    assert(digit_pred()(s[k]));
                }
            }
        } else if s[p] == '"' {
            lemma_scan_while(s, p + 1, string_content_pred());
        } else if spec_is_ident_char(s[p]) {
            lemma_scan_while(s, p, ident_pred());
            let e = scan_while(s, p, ident_pred());
            assert forall|k: int| p <= k < e implies !spec_is_white_space(#[trigger] s[k]) by {
                assert(ident_pred()(s[k]));
            }
        } else if comment_at(s, p) {
            lemma_scan_while(s, p + 2, comment_pred());
            let q = scan_while(s, p + 2, comment_pred());
            law_token_text_has_no_whitespace(s, q);
        }
    }
}

/// No token of a source but a string literal holds whitespace in its text.
pub proof fn law_tokens_have_no_whitespace(s: Seq<char>)
    requires
        s.len() <= usize::MAX,
    ensures
        forall|i: int, k: int|
            0 <= i < tokenize(s).len() && #[trigger] tokenize(s)[i].token_type != TokenType::String
                && tokenize(s)[i].span.start <= k < tokenize(s)[i].span.end ==> !spec_is_white_space(
                #[trigger] s[k],
            ),
{
    lemma_tokens_no_whitespace_from(s, 0);
}

proof fn lemma_tokens_no_whitespace_from(s: Seq<char>, pos: int)
    requires
        s.len() <= usize::MAX,
        0 <= pos <= s.len(),
    ensures
        forall|i: int, k: int|
            0 <= i < tokens_from(s, pos).len() && #[trigger] tokens_from(s, pos)[i].token_type
                != TokenType::String && tokens_from(s, pos)[i].span.start <= k < tokens_from(s, pos)[i].span.end
                ==> !spec_is_white_space(#[trigger] s[k]),
    decreases s.len() - pos,
{
    lemma_lex_at_bounds(s, pos);
    let l = lex_at(s, pos);
    let t = tokens_from(s, pos);
    if l.kind != TokenType::String {
        law_token_text_has_no_whitespace(s, pos);
    }
    if l.kind != TokenType::Eof {
        lemma_tokens_no_whitespace_from(s, l.next);
        let rest = tokens_from(s, l.next);
        assert(t == seq![spec_token(l)] + rest);
        assert forall|i: int, k: int|
            0 <= i < t.len() && #[trigger] t[i].token_type != TokenType::String && t[i].span.start <= k
                < t[i].span.end implies !spec_is_white_space(#[trigger] s[k]) by {
            if i > 0 {
                assert(t[i] == rest[i - 1]);
            }
        }
    }
}

/// A token of kind `Identifier` spans a nonempty word of identifier characters that
/// is not a keyword and does not start with a digit.
pub proof fn law_identifier_token(s: Seq<char>, pos: int)
    requires
        0 <= pos <= s.len(),
        lex_at(s, pos).kind == TokenType::Identifier,
    ensures
        lex_at(s, pos).start < lex_at(s, pos).end,
        !spec_is_digit(s[lex_at(s, pos).start]),
        forall|k: int| lex_at(s, pos).start <= k < lex_at(s, pos).end ==> #[trigger] spec_is_ident_char(s[k]),
        keyword_kind(s.subrange(lex_at(s, pos).start, lex_at(s, pos).end)) == TokenType::Identifier,
    decreases s.len() - pos,
{
    lemma_scan_while(s, pos, white_space_pred());
    let p = scan_while(s, pos, white_space_pred());
    if p < s.len() {
        if spec_is_digit(s[p]) {
            lemma_scan_while(s, p, digit_pred());
            let e = scan_while(s, p, digit_pred());
            if e + 1 < s.len() && s[e] == '.' && spec_is_digit(s[e + 1]) {
                lemma_scan_while(s, e + 1, digit_pred());
            }
        } else if s[p] == '"' {
        } else if spec_is_ident_char(s[p]) {
            lemma_scan_while(s, p, ident_pred());
            let e = scan_while(s, p, ident_pred());
            assert forall|k: int| p <= k < e implies #[trigger] spec_is_ident_char(s[k]) by {
                assert(ident_pred()(s[k]));
            }
        } else if comment_at(s, p) {
            lemma_scan_while(s, p + 2, comment_pred());
            let q = scan_while(s, p + 2, comment_pred());
            law_identifier_token(s, q);
        }
    }
}

} // verus!
