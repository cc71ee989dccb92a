//! The mathematical model of one scan: byte classes, line accounting,
//! maximal-munch runs, the single-lexeme step relation, and the full
//! token sequence (or first diagnostic) that a scan of a byte buffer
//! must produce. The executable scanner is verified against this model.

use vstd::prelude::*;

use crate::lox::ErrorKind;
use crate::token::Literal;
use crate::token::Token;
use crate::token::TokenKind;

verus! {

// ---------------------------------------------------------------------
// Byte values the scanner distinguishes
// ---------------------------------------------------------------------

pub const TAB: u8 = 9;

pub const LF: u8 = 10;

pub const CR: u8 = 13;

pub const SPACE: u8 = 32;

pub const B_BANG: u8 = 33;

pub const QUOTE: u8 = 34;

pub const B_LPAREN: u8 = 40;

pub const B_RPAREN: u8 = 41;

pub const B_STAR: u8 = 42;

pub const B_PLUS: u8 = 43;

pub const B_COMMA: u8 = 44;

pub const B_MINUS: u8 = 45;

pub const B_DOT: u8 = 46;

pub const B_SLASH: u8 = 47;

pub const B_ZERO: u8 = 48;

pub const B_NINE: u8 = 57;

pub const B_SEMICOLON: u8 = 59;

pub const B_LESS: u8 = 60;

pub const B_EQUAL: u8 = 61;

pub const B_GREATER: u8 = 62;

pub const B_UPPER_A: u8 = 65;

pub const B_UPPER_Z: u8 = 90;

pub const B_UNDERSCORE: u8 = 95;

pub const B_LOWER_A: u8 = 97;

pub const B_LOWER_Z: u8 = 122;

pub const B_LBRACE: u8 = 123;

pub const B_RBRACE: u8 = 125;

// ---------------------------------------------------------------------
// Byte classes
// ---------------------------------------------------------------------

/// ASCII decimal digit.
pub open spec fn is_digit(b: u8) -> bool {
    B_ZERO <= b <= B_NINE
}

/// ASCII letter or underscore: the bytes that may begin an identifier.
pub open spec fn is_alpha(b: u8) -> bool {
    (B_LOWER_A <= b <= B_LOWER_Z) || (B_UPPER_A <= b <= B_UPPER_Z) || b == B_UNDERSCORE
}

/// ASCII alphanumeric or underscore: the bytes that may continue an
/// identifier.
pub open spec fn is_alnum(b: u8) -> bool {
    is_alpha(b) || is_digit(b)
}

// ---------------------------------------------------------------------
// Line accounting
// ---------------------------------------------------------------------

/// How many newline bytes a byte sequence holds.
pub open spec fn count_newlines(s: Seq<u8>) -> int
    decreases s.len(),
{
    if s.len() == 0 {
        0
    } else {
        count_newlines(s.drop_last()) + if s.last() == LF {
            1int
        } else {
            0int
        }
    }
}

/// The 1-based line on which the byte at offset `pos` stands: one more
/// than the number of newline bytes strictly before `pos`.
#[verifier::opaque]
pub open spec fn line_at(src: Seq<u8>, pos: int) -> int
    recommends
        0 <= pos <= src.len(),
{
    1 + count_newlines(src.subrange(0, pos))
}

// ---------------------------------------------------------------------
// Maximal-munch runs
// ---------------------------------------------------------------------

/// The first offset at or after `i` whose byte fails `p`, or the buffer
/// length when every remaining byte satisfies `p`.
pub open spec fn run_end(src: Seq<u8>, i: int, p: spec_fn(u8) -> bool) -> int
    decreases src.len() - i,
    when 0 <= i <= src.len()
{
    if i >= src.len() || !p(src[i]) {
        i
    } else {
        run_end(src, i + 1, p)
    }
}

/// The bytes that may continue a digit run.
pub open spec fn digit_pred() -> spec_fn(u8) -> bool {
    |b: u8| is_digit(b)
}

/// The bytes that may continue an identifier run.
pub open spec fn alnum_pred() -> spec_fn(u8) -> bool {
    |b: u8| is_alnum(b)
}

/// The bytes that stay inside a line comment.
pub open spec fn not_newline() -> spec_fn(u8) -> bool {
    |b: u8| b != LF
}

/// The bytes that stay inside a string literal.
pub open spec fn not_quote() -> spec_fn(u8) -> bool {
    |b: u8| b != QUOTE
}

/// Where a number lexeme beginning at `pos` ends: the maximal digit run,
/// extended over a fractional part only when a dot is directly followed
/// by another digit.
pub open spec fn number_end(src: Seq<u8>, pos: int) -> int
    recommends
        0 <= pos < src.len(),
        is_digit(src[pos]),
{
    let d1 = run_end(src, pos, digit_pred());
    if d1 < src.len() && src[d1] == B_DOT && d1 + 1 < src.len() && is_digit(src[d1 + 1]) {
        run_end(src, d1 + 1, digit_pred())
    } else {
        d1
    }
}

// ---------------------------------------------------------------------
// The keyword table
// ---------------------------------------------------------------------

/// The fixed, read-only mapping from reserved-word spelling to keyword
/// token kind. A spelling not listed here is an ordinary identifier.
pub open spec fn spec_keyword_kind(s: Seq<u8>) -> Option<TokenKind> {
    if s.len() == 2 && s[0] == 105 && s[1] == 102 {
        // "if"
        Some(TokenKind::IF)
    } else if s.len() == 2 && s[0] == 111 && s[1] == 114 {
        // "or"
        Some(TokenKind::OR)
    } else if s.len() == 3 && s[0] == 97 && s[1] == 110 && s[2] == 100 {
        // "and"
        Some(TokenKind::AND)
    } else if s.len() == 3 && s[0] == 102 && s[1] == 111 && s[2] == 114 {
        // "for"
        Some(TokenKind::FOR)
    } else if s.len() == 3 && s[0] == 102 && s[1] == 117 && s[2] == 110 {
        // "fun"
        Some(TokenKind::FUN)
    } else if s.len() == 3 && s[0] == 110 && s[1] == 105 && s[2] == 108 {
        // "nil"
        Some(TokenKind::NIL)
    } else if s.len() == 3 && s[0] == 118 && s[1] == 97 && s[2] == 114 {
        // "var"
        Some(TokenKind::VAR)
    } else if s.len() == 4 && s[0] == 101 && s[1] == 108 && s[2] == 115 && s[3] == 101 {
        // "else"
        Some(TokenKind::ELSE)
    } else if s.len() == 4 && s[0] == 116 && s[1] == 104 && s[2] == 105 && s[3] == 115 {
        // "this"
        Some(TokenKind::THIS)
    } else if s.len() == 4 && s[0] == 116 && s[1] == 114 && s[2] == 117 && s[3] == 101 {
        // "true"
        Some(TokenKind::TRUE)
    } else if s.len() == 5 && s[0] == 99 && s[1] == 108 && s[2] == 97 && s[3] == 115 && s[4]
        == 115 {
        // "class"
        Some(TokenKind::CLASS)
    } else if s.len() == 5 && s[0] == 102 && s[1] == 97 && s[2] == 108 && s[3] == 115 && s[4]
        == 101 {
        // "false"
        Some(TokenKind::FALSE)
    } else if s.len() == 5 && s[0] == 112 && s[1] == 114 && s[2] == 105 && s[3] == 110 && s[4]
        == 116 {
        // "print"
        Some(TokenKind::PRINT)
    } else if s.len() == 5 && s[0] == 115 && s[1] == 117 && s[2] == 112 && s[3] == 101 && s[4]
        == 114 {
        // "super"
        Some(TokenKind::SUPER)
    } else if s.len() == 5 && s[0] == 119 && s[1] == 104 && s[2] == 105 && s[3] == 108 && s[4]
        == 101 {
        // "while"
        Some(TokenKind::WHILE)
    } else if s.len() == 6 && s[0] == 114 && s[1] == 101 && s[2] == 116 && s[3] == 117 && s[4]
        == 114 && s[5] == 110 {
        // "return"
        Some(TokenKind::RETURN)
    } else {
        None
    }
}

// ---------------------------------------------------------------------
// Lexeme classification
// ---------------------------------------------------------------------

/// The ten bytes that map directly to a single-character symbol token.
pub open spec fn single_symbol_kind(b: u8) -> Option<TokenKind> {
    if b == B_LPAREN {
        Some(TokenKind::LEFT_PAREN)
    } else if b == B_RPAREN {
        Some(TokenKind::RIGHT_PAREN)
    } else if b == B_LBRACE {
        Some(TokenKind::LEFT_BRACE)
    } else if b == B_RBRACE {
        Some(TokenKind::RIGHT_BRACE)
    } else if b == B_COMMA {
        Some(TokenKind::COMMA)
    } else if b == B_DOT {
        Some(TokenKind::DOT)
    } else if b == B_MINUS {
        Some(TokenKind::MINUS)
    } else if b == B_PLUS {
        Some(TokenKind::PLUS)
    } else if b == B_SEMICOLON {
        Some(TokenKind::SEMICOLON)
    } else if b == B_STAR {
        Some(TokenKind::STAR)
    } else {
        None
    }
}

/// The four bytes that open a one-or-two-character operator, each with
/// its bare kind and its kind when an `=` follows.
pub open spec fn operator_kinds(b: u8) -> Option<(TokenKind, TokenKind)> {
    if b == B_BANG {
        Some((TokenKind::BANG, TokenKind::BANG_EQUAL))
    } else if b == B_EQUAL {
        Some((TokenKind::EQUAL, TokenKind::EQUAL_EQUAL))
    } else if b == B_LESS {
        Some((TokenKind::LESS, TokenKind::LESS_EQUAL))
    } else if b == B_GREATER {
        Some((TokenKind::GREATER, TokenKind::GREATER_EQUAL))
    } else {
        None
    }
}

// ---------------------------------------------------------------------
// The token model
// ---------------------------------------------------------------------

/// A token of the model: besides the fields the executable token
/// carries, it records the offsets of its lexeme in the source buffer.
pub struct SpecToken {
    pub kind: TokenKind,
    pub lexeme: Seq<u8>,
    pub literal: Option<SpecLiteral>,
    pub line: int,
    pub start: int,
    pub end: int,
}

/// The literal payload of a token of the model.
pub enum SpecLiteral {
    Str(Seq<u8>),
    Num(Seq<u8>),
}

/// A diagnostic of the model: the line at which it was detected, and
/// its kind.
pub struct SpecError {
    pub line: int,
    pub kind: ErrorKind,
}

/// What one classification step does: where the cursor stands
/// afterwards, and the token it emits, if any.
pub struct ScanStep {
    pub next: int,
    pub emit: Option<SpecToken>,
}

/// The token whose lexeme is `src[start, end)`, standing on the line of
/// its start offset.
pub open spec fn span_token(
    src: Seq<u8>,
    kind: TokenKind,
    literal: Option<SpecLiteral>,
    start: int,
    end: int,
) -> SpecToken {
    SpecToken {
        kind,
        lexeme: src.subrange(start, end),
        literal,
        line: line_at(src, start),
        start,
        end,
    }
}

/// The terminal end-of-input marker: empty lexeme at the final line.
pub open spec fn eof_token(src: Seq<u8>) -> SpecToken {
    span_token(src, TokenKind::EOF, None, src.len() as int, src.len() as int)
}

// ---------------------------------------------------------------------
// The step relation
// ---------------------------------------------------------------------

/// Classifies exactly one lexeme starting at `pos`: either the cursor
/// position after it together with the token it emits (none for
/// comments, whitespace and newlines), or the first diagnostic.
#[verifier::opaque]
pub open spec fn spec_step(src: Seq<u8>, pos: int) -> Result<ScanStep, SpecError>
    recommends
        0 <= pos < src.len(),
{
    let c = src[pos];
    if single_symbol_kind(c) is Some {
        Ok(
            ScanStep {
                next: pos + 1,
                emit: Some(span_token(src, single_symbol_kind(c)->Some_0, None, pos, pos + 1)),
            },
        )
    } else if operator_kinds(c) is Some {
        let with_eq = pos + 1 < src.len() && src[pos + 1] == B_EQUAL;
        let end = if with_eq {
            pos + 2
        } else {
            pos + 1
        };
        let kind = if with_eq {
            operator_kinds(c)->Some_0.1
        } else {
            operator_kinds(c)->Some_0.0
        };
        Ok(ScanStep { next: end, emit: Some(span_token(src, kind, None, pos, end)) })
    } else if c == B_SLASH {
        if pos + 1 < src.len() && src[pos + 1] == B_SLASH {
            // A comment runs to the end of the physical line and emits
            // nothing; the newline itself is left for the next step.
            Ok(ScanStep { next: run_end(src, pos + 2, not_newline()), emit: None })
        } else {
            Ok(
                ScanStep {
                    next: pos + 1,
                    emit: Some(span_token(src, TokenKind::SLASH, None, pos, pos + 1)),
                },
            )
        }
    } else if c == SPACE || c == CR || c == TAB || c == LF {
        Ok(ScanStep { next: pos + 1, emit: None })
    } else if c == QUOTE {
        let close = run_end(src, pos + 1, not_quote());
        if close >= src.len() {
            Err(
                SpecError {
                    line: line_at(src, src.len() as int),
                    kind: ErrorKind::UnterminatedString,
                },
            )
        } else {
            Ok(
                ScanStep {
                    next: close + 1,
                    emit: Some(
                        span_token(
                            src,
                            TokenKind::STRING,
                            Some(SpecLiteral::Str(src.subrange(pos + 1, close))),
                            pos,
                            close + 1,
                        ),
                    ),
                },
            )
        }
    } else if is_digit(c) {
        let end = number_end(src, pos);
        Ok(
            ScanStep {
                next: end,
                emit: Some(
                    span_token(
                        src,
                        TokenKind::NUMBER,
                        Some(SpecLiteral::Num(src.subrange(pos, end))),
                        pos,
                        end,
                    ),
                ),
            },
        )
    } else if is_alpha(c) {
        let end = run_end(src, pos, alnum_pred());
        let kind = match spec_keyword_kind(src.subrange(pos, end)) {
            Some(k) => k,
            None => TokenKind::IDENTIFIER,
        };
        Ok(ScanStep { next: end, emit: Some(span_token(src, kind, None, pos, end)) })
    } else {
        Err(SpecError { line: line_at(src, pos), kind: ErrorKind::UnexpectedCharacter })
    }
}

// ---------------------------------------------------------------------
// The whole scan
// ---------------------------------------------------------------------

/// The tokens that scanning from `pos` onward must produce, closed by
/// the end-of-input marker; or the first diagnostic, with no tokens.
pub open spec fn spec_scan_from(src: Seq<u8>, pos: int) -> Result<Seq<SpecToken>, SpecError>
    decreases src.len() - pos,
    when 0 <= pos <= src.len()
    via spec_scan_from_decreases
{
    if pos >= src.len() {
        Ok(seq![eof_token(src)])
    } else {
        match spec_step(src, pos) {
            Err(e) => Err(e),
            Ok(step) => match spec_scan_from(src, step.next) {
                Err(e) => Err(e),
                Ok(rest) => Ok(
                    match step.emit {
                        Some(t) => seq![t] + rest,
                        None => rest,
                    },
                ),
            },
        }
    }
}

#[via_fn]
proof fn spec_scan_from_decreases(src: Seq<u8>, pos: int) {
    if pos < src.len() {
        lemma_step_props(src, pos);
    }
}

/// The complete result of scanning a byte buffer.
pub open spec fn spec_scan(src: Seq<u8>) -> Result<Seq<SpecToken>, SpecError> {
    spec_scan_from(src, 0)
}

// ---------------------------------------------------------------------
// Relating executable tokens to the model
// ---------------------------------------------------------------------

/// The executable literal payload carries the same bytes as the model's.
pub open spec fn lit_matches(l: Option<Literal>, sl: Option<SpecLiteral>) -> bool {
    match (l, sl) {
        (None, None) => true,
        (Some(Literal::String(v)), Some(SpecLiteral::Str(s))) => v@ == s,
        (Some(Literal::Number(v)), Some(SpecLiteral::Num(s))) => v@ == s,
        _ => false,
    }
}

/// The executable token agrees with the model token on kind, lexeme
/// bytes, literal payload and line.
pub open spec fn tok_matches(t: Token, st: SpecToken) -> bool {
    &&& t.kind == st.kind
    &&& t.lexeme@ == st.lexeme
    &&& lit_matches(t.literal, st.literal)
    &&& t.line as int == st.line
}

/// Pointwise agreement of a whole token sequence with the model's.
pub open spec fn tokens_match(ts: Seq<Token>, sts: Seq<SpecToken>) -> bool {
    &&& ts.len() == sts.len()
    &&& forall|i: int| 0 <= i < ts.len() ==> tok_matches(ts[i], sts[i])
}

/// The tokens already emitted, followed by whatever scanning the rest of
/// the buffer yields, make up exactly the scan of the whole buffer.
pub open spec fn scan_continues(src: Seq<u8>, done: Seq<SpecToken>, pos: int) -> bool {
    spec_scan(src) == match spec_scan_from(src, pos) {
        Ok(rest) => Ok::<Seq<SpecToken>, SpecError>(done + rest),
        Err(e) => Err::<Seq<SpecToken>, SpecError>(e),
    }
}

// ---------------------------------------------------------------------
// Facts about the model
// ---------------------------------------------------------------------

/// A maximal run stays inside the buffer, every byte strictly inside it
/// satisfies the predicate, and the byte at its end (if any) does not.
pub proof fn lemma_run_end(src: Seq<u8>, i: int, p: spec_fn(u8) -> bool)
    requires
        0 <= i <= src.len(),
    ensures
        i <= run_end(src, i, p) <= src.len(),
        forall|j: int| i <= j < run_end(src, i, p) ==> p(src[j]),
        run_end(src, i, p) < src.len() ==> !p(src[run_end(src, i, p)]),
    decreases src.len() - i,
{
    if i < src.len() && p(src[i]) {
        lemma_run_end(src, i + 1, p);
    }
}

/// Crossing one byte advances the line count exactly when that byte is
/// a newline.
pub proof fn lemma_line_at_step(src: Seq<u8>, pos: int)
    requires
        0 <= pos < src.len(),
    ensures
        line_at(src, pos + 1) == line_at(src, pos) + if src[pos] == LF {
            1int
        } else {
            0int
        },
{
    reveal(line_at);
    assert(src.subrange(0, pos + 1).drop_last() =~= src.subrange(0, pos));
    assert(src.subrange(0, pos + 1).last() == src[pos]);
}

/// Crossing a span without newlines leaves the line unchanged.
pub proof fn lemma_line_at_same(src: Seq<u8>, a: int, b: int)
    requires
        0 <= a <= b <= src.len(),
        forall|j: int| a <= j < b ==> src[j] != LF,
    ensures
        line_at(src, b) == line_at(src, a),
    decreases b - a,
{
    if a < b {
        lemma_line_at_step(src, a);
        lemma_line_at_same(src, a + 1, b);
    }
}

/// A line number is at least 1 and at most one more than the offset.
pub proof fn lemma_line_at_bounds(src: Seq<u8>, pos: int)
    requires
        0 <= pos <= src.len(),
    ensures
        1 <= line_at(src, pos) <= pos + 1,
    decreases pos,
{
    reveal(line_at);
    if pos == 0 {
        assert(src.subrange(0, 0) =~= Seq::<u8>::empty());
    } else {
        lemma_line_at_bounds(src, pos - 1);
        lemma_line_at_step(src, pos - 1);
    }
}

/// Lines never decrease as the offset grows.
pub proof fn lemma_line_at_mono(src: Seq<u8>, a: int, b: int)
    requires
        0 <= a <= b <= src.len(),
    ensures
        line_at(src, a) <= line_at(src, b),
    decreases b - a,
{
    if a < b {
        lemma_line_at_step(src, a);
        lemma_line_at_mono(src, a + 1, b);
    }
}

/// A successful step consumes at least one byte, stays inside the
/// buffer, and the token it emits (if any) spans exactly the consumed
/// bytes, on the line of its start; the end-of-input marker is never
/// emitted by a step.
pub proof fn lemma_step_props(src: Seq<u8>, pos: int)
    requires
        0 <= pos < src.len(),
    ensures
        match spec_step(src, pos) {
            Ok(step) => pos < step.next <= src.len() && match step.emit {
                Some(t) => t.start == pos && t.end == step.next && t.lexeme == src.subrange(
                    pos,
                    step.next,
                ) && t.line == line_at(src, pos) && t.kind != TokenKind::EOF,
                None => true,
            },
            Err(_) => true,
        },
{
    reveal(spec_step);
    let c = src[pos];
    if c == QUOTE {
        lemma_run_end(src, pos + 1, not_quote());
    } else if single_symbol_kind(c) is Some || operator_kinds(c) is Some {
    } else if c == B_SLASH && pos + 1 < src.len() && src[pos + 1] == B_SLASH {
        lemma_run_end(src, pos + 2, not_newline());
    } else if is_digit(c) {
        let d1 = run_end(src, pos, digit_pred());
        lemma_run_end(src, pos, digit_pred());
        assert(digit_pred()(src[pos]));
        assert(d1 == run_end(src, pos + 1, digit_pred()));
        lemma_run_end(src, pos + 1, digit_pred());
        if d1 < src.len() && src[d1] == B_DOT && d1 + 1 < src.len() && is_digit(src[d1 + 1]) {
            lemma_run_end(src, d1 + 1, digit_pred());
        }
    } else if is_alpha(c) {
        lemma_run_end(src, pos, alnum_pred());
        assert(alnum_pred()(src[pos]));
        assert(run_end(src, pos, alnum_pred()) == run_end(src, pos + 1, alnum_pred()));
        lemma_run_end(src, pos + 1, alnum_pred());
    }
}

} // verus!
