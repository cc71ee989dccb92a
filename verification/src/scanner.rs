//! The scanner: a forward-only, single-pass state machine over one byte
//! buffer. It owns the buffer, three offsets (lexeme start, read
//! position, current line) and the tokens emitted so far, and is
//! verified against the model in `model`.

use vstd::prelude::*;

use crate::lox::Error;
use crate::lox::ErrorKind;
use crate::model::alnum_pred;
use crate::model::B_BANG;
use crate::model::B_COMMA;
use crate::model::B_DOT;
use crate::model::B_LBRACE;
use crate::model::B_LPAREN;
use crate::model::B_MINUS;
use crate::model::B_PLUS;
use crate::model::B_RBRACE;
use crate::model::B_RPAREN;
use crate::model::B_SEMICOLON;
use crate::model::B_STAR;
use crate::model::B_EQUAL;
use crate::model::B_GREATER;
use crate::model::B_LESS;
use crate::model::B_LOWER_A;
use crate::model::B_LOWER_Z;
use crate::model::B_NINE;
use crate::model::B_SLASH;
use crate::model::B_UNDERSCORE;
use crate::model::B_UPPER_A;
use crate::model::B_UPPER_Z;
use crate::model::B_ZERO;
use crate::model::CR;
use crate::model::LF;
use crate::model::QUOTE;
use crate::model::SPACE;
use crate::model::TAB;
use crate::model::digit_pred;
use crate::model::eof_token;
use crate::model::is_alnum;
use crate::model::is_alpha;
use crate::model::is_digit;
use crate::model::lemma_line_at_bounds;
use crate::model::lemma_line_at_same;
use crate::model::lemma_line_at_step;
use crate::model::lemma_run_end;
use crate::model::lemma_step_props;
use crate::model::line_at;
use crate::model::not_newline;
use crate::model::not_quote;
use crate::model::number_end;
use crate::model::run_end;
use crate::model::scan_continues;
use crate::model::span_token;
use crate::model::spec_keyword_kind;
use crate::model::spec_scan;
use crate::model::spec_scan_from;
use crate::model::spec_step;
use crate::model::tok_matches;
use crate::model::tokens_match;
use crate::model::SpecError;
use crate::model::SpecLiteral;
use crate::model::SpecToken;
use crate::token::Literal;
use crate::token::Token;
use crate::token::TokenKind;

verus! {

/// Copies the bytes `src[start, end)` into an owned vector.
fn copy_span(src: &Vec<u8>, start: usize, end: usize) -> (r: Vec<u8>)
    requires
        start <= end <= src@.len(),
    ensures
        r@ == src@.subrange(start as int, end as int),
{
    let mut out: Vec<u8> = Vec::new();
    let mut i: usize = start;
    assert(src@.subrange(start as int, start as int) =~= out@);
    while i < end
        invariant
            start <= i <= end <= src@.len(),
            out@ == src@.subrange(start as int, i as int),
        decreases end - i,
    {
        out.push(src[i]);
        assert(src@.subrange(start as int, i + 1 as int) =~= src@.subrange(
            start as int,
            i as int,
        ).push(src@[i as int]));
        i = i + 1;
    }
    out
}

/// Whether `b` is an ASCII decimal digit.
fn is_digit_byte(b: u8) -> (r: bool)
    ensures
        r == is_digit(b),
{
    B_ZERO <= b && b <= B_NINE
}

/// Whether `b` may begin an identifier.
fn is_alpha_byte(b: u8) -> (r: bool)
    ensures
        r == is_alpha(b),
{
    (B_LOWER_A <= b && b <= B_LOWER_Z) || (B_UPPER_A <= b && b <= B_UPPER_Z) || b == B_UNDERSCORE
}

/// Whether `b` may continue an identifier.
fn is_alnum_byte(b: u8) -> (r: bool)
    ensures
        r == is_alnum(b),
{
    is_alpha_byte(b) || is_digit_byte(b)
}

/// Resolves a lexeme against the keyword table: the reserved-word kind
/// for an exact match, or nothing for an ordinary identifier.
pub fn keyword_kind(text: &Vec<u8>) -> (r: Option<TokenKind>)
    ensures
        r == spec_keyword_kind(text@),
{
    let n = text.len();
    if n == 2 {
        if text[0] == 105 && text[1] == 102 {
            // "if"
            return Some(TokenKind::IF);
        }
        if text[0] == 111 && text[1] == 114 {
            // "or"
            return Some(TokenKind::OR);
        }
    } else if n == 3 {
        if text[0] == 97 && text[1] == 110 && text[2] == 100 {
            // "and"
            return Some(TokenKind::AND);
        }
        if text[0] == 102 && text[1] == 111 && text[2] == 114 {
            // "for"
            return Some(TokenKind::FOR);
        }
        if text[0] == 102 && text[1] == 117 && text[2] == 110 {
            // "fun"
            return Some(TokenKind::FUN);
        }
        if text[0] == 110 && text[1] == 105 && text[2] == 108 {
            // "nil"
            return Some(TokenKind::NIL);
        }
        if text[0] == 118 && text[1] == 97 && text[2] == 114 {
            // "var"
            return Some(TokenKind::VAR);
        }
    } else if n == 4 {
        if text[0] == 101 && text[1] == 108 && text[2] == 115 && text[3] == 101 {
            // "else"
            return Some(TokenKind::ELSE);
        }
        if text[0] == 116 && text[1] == 104 && text[2] == 105 && text[3] == 115 {
            // "this"
            return Some(TokenKind::THIS);
        }
        if text[0] == 116 && text[1] == 114 && text[2] == 117 && text[3] == 101 {
            // "true"
            return Some(TokenKind::TRUE);
        }
    } else if n == 5 {
        if text[0] == 99 && text[1] == 108 && text[2] == 97 && text[3] == 115 && text[4]
            == 115 {
            // "class"
            return Some(TokenKind::CLASS);
        }
        if text[0] == 102 && text[1] == 97 && text[2] == 108 && text[3] == 115 && text[4]
            == 101 {
            // "false"
            return Some(TokenKind::FALSE);
        }
        if text[0] == 112 && text[1] == 114 && text[2] == 105 && text[3] == 110 && text[4]
            == 116 {
            // "print"
            return Some(TokenKind::PRINT);
        }
        if text[0] == 115 && text[1] == 117 && text[2] == 112 && text[3] == 101 && text[4]
            == 114 {
            // "super"
            return Some(TokenKind::SUPER);
        }
        if text[0] == 119 && text[1] == 104 && text[2] == 105 && text[3] == 108 && text[4]
            == 101 {
            // "while"
            return Some(TokenKind::WHILE);
        }
    } else if n == 6 {
        if text[0] == 114 && text[1] == 101 && text[2] == 116 && text[3] == 117 && text[4]
            == 114 && text[5] == 110 {
            // "return"
            return Some(TokenKind::RETURN);
        }
    }
    None
}

/// The scanner over one byte buffer. `start` marks the first byte of
/// the lexeme being scanned, `current` the next byte to read, and
/// `line` the 1-based line on which `current` stands.
pub struct Scanner {
    pub source: Vec<u8>,
    pub tokens: Vec<Token>,
    pub start: usize,
    pub current: usize,
    pub line: usize,
}

impl Scanner {
    /// A fresh scanner at the start of its buffer. The buffer must
    /// leave room for line numbers to stay within the machine's range.
    pub fn new(source: Vec<u8>) -> (s: Scanner)
        requires
            source@.len() < usize::MAX,
        ensures
            s.source == source,
            s.tokens@ == Seq::<Token>::empty(),
            s.start == 0,
            s.current == 0,
            s.line == 1,
    {
        Scanner { source, tokens: Vec::new(), start: 0, current: 0, line: 1 }
    }

    /// True iff the read position has reached the end of the buffer.
    fn is_at_end(&self) -> (r: bool)
        ensures
            r == (self.current >= self.source@.len()),
    {
        self.current >= self.source.len()
    }

    /// The byte at the read position, without consuming it.
    fn peek(&self) -> (r: Option<u8>)
        ensures
            r == if self.current < self.source@.len() {
                Some(self.source@[self.current as int])
            } else {
                None::<u8>
            },
    {
        if self.current < self.source.len() {
            Some(self.source[self.current])
        } else {
            None
        }
    }

    /// The byte one past the read position, without consuming anything.
    fn peek_next(&self) -> (r: Option<u8>)
        requires
            self.current < usize::MAX,
        ensures
            r == if self.current + 1 < self.source@.len() {
                Some(self.source@[self.current + 1])
            } else {
                None::<u8>
            },
    {
        if self.current + 1 < self.source.len() {
            Some(self.source[self.current + 1])
        } else {
            None
        }
    }

    /// Consumes and returns the byte at the read position.
    fn advance(&mut self) -> (r: u8)
        requires
            old(self).current < old(self).source@.len(),
        ensures
            r == old(self).source@[old(self).current as int],
            final(self).current == old(self).current + 1,
            final(self).source == old(self).source,
            final(self).tokens == old(self).tokens,
            final(self).start == old(self).start,
            final(self).line == old(self).line,
    {
        let n = self.source.len();
        let b = self.source[self.current];
        assert(self.current < n);
        self.current = self.current + 1;
        b
    }

    /// Consumes the next byte only if it equals `expected`.
    fn match_byte(&mut self, expected: u8) -> (r: bool)
        requires
            old(self).current <= old(self).source@.len(),
        ensures
            final(self).source == old(self).source,
            final(self).tokens == old(self).tokens,
            final(self).start == old(self).start,
            final(self).line == old(self).line,
            if old(self).current < old(self).source@.len() && old(self).source@[old(
                self,
            ).current as int] == expected {
                r && final(self).current == old(self).current + 1
            } else {
                !r && final(self).current == old(self).current
            },
    {
        if self.is_at_end() {
            return false;
        }
        let n = self.source.len();
        if self.source[self.current] != expected {
            return false;
        }
        assert(self.current < n);
        self.current = self.current + 1;
        true
    }

    /// Materializes the token for the current lexeme span and appends
    /// it to the output sequence.
    fn push_token(&mut self, kind: TokenKind, literal: Option<Literal>, line: usize)
        requires
            old(self).start <= old(self).current <= old(self).source@.len(),
        ensures
            final(self).source == old(self).source,
            final(self).start == old(self).start,
            final(self).current == old(self).current,
            final(self).line == old(self).line,
            final(self).tokens@.len() == old(self).tokens@.len() + 1,
            final(self).tokens@.drop_last() == old(self).tokens@,
            final(self).tokens@.last().kind == kind,
            final(self).tokens@.last().lexeme@ == old(self).source@.subrange(
                old(self).start as int,
                old(self).current as int,
            ),
            final(self).tokens@.last().literal == literal,
            final(self).tokens@.last().line == line,
    {
        let text = copy_span(&self.source, self.start, self.current);
        let t = Token::new(kind, text, literal, line);
        self.tokens.push(t);
        assert(self.tokens@.drop_last() =~= old(self).tokens@);
    }

    /// Appends a token with no literal payload, on the current line.
    fn add_token(&mut self, kind: TokenKind)
        requires
            old(self).start <= old(self).current <= old(self).source@.len(),
        ensures
            final(self).source == old(self).source,
            final(self).start == old(self).start,
            final(self).current == old(self).current,
            final(self).line == old(self).line,
            final(self).tokens@.len() == old(self).tokens@.len() + 1,
            final(self).tokens@.drop_last() == old(self).tokens@,
            final(self).tokens@.last().kind == kind,
            final(self).tokens@.last().lexeme@ == old(self).source@.subrange(
                old(self).start as int,
                old(self).current as int,
            ),
            final(self).tokens@.last().literal == None::<Literal>,
            final(self).tokens@.last().line == old(self).line,
    {
        let line = self.line;
        self.push_token(kind, None, line);
    }

    /// Appends a token carrying a literal payload, on the given line.
    fn add_token_with_value(&mut self, kind: TokenKind, literal: Literal, line: usize)
        requires
            old(self).start <= old(self).current <= old(self).source@.len(),
        ensures
            final(self).source == old(self).source,
            final(self).start == old(self).start,
            final(self).current == old(self).current,
            final(self).line == old(self).line,
            final(self).tokens@.len() == old(self).tokens@.len() + 1,
            final(self).tokens@.drop_last() == old(self).tokens@,
            final(self).tokens@.last().kind == kind,
            final(self).tokens@.last().lexeme@ == old(self).source@.subrange(
                old(self).start as int,
                old(self).current as int,
            ),
            final(self).tokens@.last().literal == Some(literal),
            final(self).tokens@.last().line == line,
    {
        self.push_token(kind, Some(literal), line);
    }

    /// Scans the remainder of a string literal whose opening quote has
    /// just been consumed. Strings may span lines; backslashes are
    /// ordinary bytes (no escape processing). Fails when the buffer
    /// ends before a closing quote, tagged with the line reached at the
    /// end of the buffer.
    fn string(&mut self) -> (r: Result<(), Error>)
        requires
            old(self).current == old(self).start + 1,
            old(self).current <= old(self).source@.len(),
            old(self).source@.len() < usize::MAX,
            old(self).source@[old(self).start as int] == QUOTE,
            old(self).line as int == line_at(old(self).source@, old(self).current as int),
        ensures
            final(self).source == old(self).source,
            final(self).start == old(self).start,
            ({
                let src = old(self).source@;
                let pos = old(self).start as int;
                let close = run_end(src, pos + 1, not_quote());
                if close >= src.len() {
                    &&& r matches Err(e) && e.line as int == line_at(src, src.len() as int)
                        && e.kind == ErrorKind::UnterminatedString
                    &&& final(self).tokens@ == old(self).tokens@
                } else {
                    &&& r is Ok
                    &&& final(self).current == close + 1
                    &&& final(self).line as int == line_at(src, close + 1)
                    &&& final(self).tokens@.len() == old(self).tokens@.len() + 1
                    &&& final(self).tokens@.drop_last() == old(self).tokens@
                    &&& tok_matches(
                        final(self).tokens@.last(),
                        span_token(
                            src,
                            TokenKind::STRING,
                            Some(SpecLiteral::Str(src.subrange(pos + 1, close))),
                            pos,
                            close + 1,
                        ),
                    )
                }
            }),
    {
        let ghost src = self.source@;
        let ghost pos = self.start as int;
        proof {
            lemma_line_at_step(src, pos);
        }
        let line_start = self.line;
        while self.current < self.source.len() && self.source[self.current] != QUOTE
            invariant
                self.source == old(self).source,
                self.source@ == src,
                self.start == old(self).start,
                self.tokens == old(self).tokens,
                old(self).current <= self.current <= src.len(),
                src.len() < usize::MAX,
                self.line as int == line_at(src, self.current as int),
                run_end(src, old(self).current as int, not_quote()) == run_end(
                    src,
                    self.current as int,
                    not_quote(),
                ),
            decreases src.len() - self.current,
        {
            if self.source[self.current] == LF {
                proof {
                    lemma_line_at_bounds(src, self.current as int);
                }
                self.line = self.line + 1;
            }
            proof {
                lemma_line_at_step(src, self.current as int);
                assert(not_quote()(src[self.current as int]));
                assert(run_end(src, self.current as int, not_quote()) == run_end(
                    src,
                    self.current as int + 1,
                    not_quote(),
                ));
            }
            self.advance();
        }
        if self.is_at_end() {
            proof {
                assert(run_end(src, self.current as int, not_quote()) == self.current as int);
            }
            let line = self.line;
            return Err(Error::new(line, ErrorKind::UnterminatedString));
        }
        proof {
            assert(!not_quote()(src[self.current as int]));
            assert(run_end(src, self.current as int, not_quote()) == self.current as int);
            lemma_line_at_step(src, self.current as int);
        }
        // The closing quote.
        self.advance();
        // The literal value: the bytes strictly between the quotes.
        let value = copy_span(&self.source, self.start + 1, self.current - 1);
        self.add_token_with_value(TokenKind::STRING, Literal::String(value), line_start);
        Ok(())
    }

    /// Scans the remainder of a number literal whose leading digit has
    /// just been consumed: a maximal digit run, extended over a
    /// fractional part only when a dot is directly followed by another
    /// digit. The token carries the raw digit span as its literal;
    /// decoding it to a machine number is the consumer's concern.
    fn number(&mut self)
        requires
            old(self).current == old(self).start + 1,
            old(self).current <= old(self).source@.len(),
            old(self).source@.len() < usize::MAX,
            is_digit(old(self).source@[old(self).start as int]),
            old(self).line as int == line_at(old(self).source@, old(self).current as int),
        ensures
            final(self).source == old(self).source,
            final(self).start == old(self).start,
            final(self).line == old(self).line,
            ({
                let src = old(self).source@;
                let pos = old(self).start as int;
                let end = number_end(src, pos);
                &&& final(self).current == end
                &&& final(self).line as int == line_at(src, end)
                &&& final(self).tokens@.len() == old(self).tokens@.len() + 1
                &&& final(self).tokens@.drop_last() == old(self).tokens@
                &&& tok_matches(
                    final(self).tokens@.last(),
                    span_token(
                        src,
                        TokenKind::NUMBER,
                        Some(SpecLiteral::Num(src.subrange(pos, end))),
                        pos,
                        end,
                    ),
                )
            }),
    {
        let ghost src = self.source@;
        let ghost pos = self.start as int;
        proof {
            assert(digit_pred()(src[pos]));
            assert(run_end(src, pos, digit_pred()) == run_end(src, pos + 1, digit_pred()));
            lemma_run_end(src, pos + 1, digit_pred());
            lemma_line_at_step(src, pos);
        }
        let ghost d1 = run_end(src, pos, digit_pred());
        loop
            invariant
                self.source == old(self).source,
                self.source@ == src,
                self.start == old(self).start,
                self.tokens == old(self).tokens,
                self.line == old(self).line,
                old(self).current <= self.current <= src.len(),
                src.len() < usize::MAX,
                run_end(src, old(self).current as int, digit_pred()) == run_end(
                    src,
                    self.current as int,
                    digit_pred(),
                ),
                d1 == run_end(src, old(self).current as int, digit_pred()),
            ensures
                self.current as int == d1,
            decreases src.len() - self.current,
        {
            if self.is_at_end() {
                break;
            }
            if !is_digit_byte(self.source[self.current]) {
                proof {
                    assert(!digit_pred()(src[self.current as int]));
                }
                break;
            }
            proof {
                assert(digit_pred()(src[self.current as int]));
                assert(run_end(src, self.current as int, digit_pred()) == run_end(
                    src,
                    self.current as int + 1,
                    digit_pred(),
                ));
            }
            self.advance();
        }
        // Look for a fractional part.
        let mut with_fraction = false;
        match self.peek() {
            Some(c) => {
                if c == B_DOT {
                    match self.peek_next() {
                        Some(c2) => {
                            if is_digit_byte(c2) {
                                with_fraction = true;
                            }
                        },
                        None => {},
                    }
                }
            },
            None => {},
        }
        if with_fraction {
            // Consume the dot.
            self.advance();
            proof {
                lemma_run_end(src, d1 + 1, digit_pred());
            }
            loop
                invariant
                    self.source == old(self).source,
                    self.source@ == src,
                    self.start == old(self).start,
                    self.tokens == old(self).tokens,
                    self.line == old(self).line,
                    d1 + 1 <= self.current <= src.len(),
                    src.len() < usize::MAX,
                    run_end(src, d1 + 1, digit_pred()) == run_end(
                        src,
                        self.current as int,
                        digit_pred(),
                    ),
                ensures
                    self.current as int == run_end(src, d1 + 1, digit_pred()),
                decreases src.len() - self.current,
            {
                if self.is_at_end() {
                    break;
                }
                if !is_digit_byte(self.source[self.current]) {
                    proof {
                        assert(!digit_pred()(src[self.current as int]));
                    }
                    break;
                }
                proof {
                    assert(digit_pred()(src[self.current as int]));
                    assert(run_end(src, self.current as int, digit_pred()) == run_end(
                        src,
                        self.current as int + 1,
                        digit_pred(),
                    ));
                }
                self.advance();
            }
        }
        let ghost end = number_end(src, pos);
        proof {
            assert(self.current as int == end);
            // No byte of the lexeme is a newline, so the line is that of
            // the leading digit.
            lemma_run_end(src, pos, digit_pred());
            assert forall|j: int| pos <= j < end implies src[j] != LF by {
                if j < d1 {
                    assert(digit_pred()(src[j]));
                } else if j == d1 {
                } else {
                    assert(digit_pred()(src[j]));
                }
            }
            lemma_line_at_same(src, pos, end);
            lemma_line_at_step(src, pos);
        }
        let value = copy_span(&self.source, self.start, self.current);
        let line = self.line;
        self.add_token_with_value(TokenKind::NUMBER, Literal::Number(value), line);
    }

    /// Scans the remainder of an identifier whose leading letter or
    /// underscore has just been consumed: a maximal run of ASCII
    /// alphanumerics and underscores, then resolved against the keyword
    /// table.
    fn identifier(&mut self)
        requires
            old(self).current == old(self).start + 1,
            old(self).current <= old(self).source@.len(),
            old(self).source@.len() < usize::MAX,
            is_alpha(old(self).source@[old(self).start as int]),
            old(self).line as int == line_at(old(self).source@, old(self).current as int),
        ensures
            final(self).source == old(self).source,
            final(self).start == old(self).start,
            final(self).line == old(self).line,
            ({
                let src = old(self).source@;
                let pos = old(self).start as int;
                let end = run_end(src, pos, alnum_pred());
                let kind = match spec_keyword_kind(src.subrange(pos, end)) {
                    Some(k) => k,
                    None => TokenKind::IDENTIFIER,
                };
                &&& final(self).current == end
                &&& final(self).line as int == line_at(src, end)
                &&& final(self).tokens@.len() == old(self).tokens@.len() + 1
                &&& final(self).tokens@.drop_last() == old(self).tokens@
                &&& tok_matches(final(self).tokens@.last(), span_token(src, kind, None, pos, end))
            }),
    {
        let ghost src = self.source@;
        let ghost pos = self.start as int;
        proof {
            assert(alnum_pred()(src[pos]));
            assert(run_end(src, pos, alnum_pred()) == run_end(src, pos + 1, alnum_pred()));
            lemma_run_end(src, pos + 1, alnum_pred());
            lemma_line_at_step(src, pos);
        }
        let ghost end = run_end(src, pos, alnum_pred());
        loop
            invariant
                self.source == old(self).source,
                self.source@ == src,
                self.start == old(self).start,
                self.tokens == old(self).tokens,
                self.line == old(self).line,
                old(self).current <= self.current <= src.len(),
                src.len() < usize::MAX,
                run_end(src, old(self).current as int, alnum_pred()) == run_end(
                    src,
                    self.current as int,
                    alnum_pred(),
                ),
                end == run_end(src, old(self).current as int, alnum_pred()),
            ensures
                self.current as int == end,
            decreases src.len() - self.current,
        {
            if self.is_at_end() {
                break;
            }
            if !is_alnum_byte(self.source[self.current]) {
                proof {
                    assert(!alnum_pred()(src[self.current as int]));
                }
                break;
            }
            proof {
                assert(alnum_pred()(src[self.current as int]));
                assert(run_end(src, self.current as int, alnum_pred()) == run_end(
                    src,
                    self.current as int + 1,
                    alnum_pred(),
                ));
            }
            self.advance();
        }
        proof {
            lemma_run_end(src, pos, alnum_pred());
            assert forall|j: int| pos <= j < end implies src[j] != LF by {
                assert(alnum_pred()(src[j]));
            }
            lemma_line_at_same(src, pos, end);
            lemma_line_at_step(src, pos);
        }
        // See if the identifier is a reserved word.
        let text = copy_span(&self.source, self.start, self.current);
        let kind = match keyword_kind(&text) {
            Some(k) => k,
            None => TokenKind::IDENTIFIER,
        };
        self.add_token(kind);
    }

    /// Classifies and consumes exactly one lexeme starting at `start`
    /// (which must equal `current`): appends at most one token, or
    /// returns the first diagnostic.
    fn scan_token(&mut self) -> (r: Result<(), Error>)
        requires
            old(self).start == old(self).current,
            old(self).current < old(self).source@.len(),
            old(self).source@.len() < usize::MAX,
            old(self).line as int == line_at(old(self).source@, old(self).current as int),
        ensures
            final(self).source == old(self).source,
            final(self).start == old(self).start,
            match spec_step(old(self).source@, old(self).start as int) {
                Ok(step) => {
                    &&& r is Ok
                    &&& final(self).current == step.next
                    &&& final(self).line as int == line_at(old(self).source@, step.next)
                    &&& match step.emit {
                        Some(st) => final(self).tokens@.len() == old(self).tokens@.len() + 1
                            && final(self).tokens@.drop_last() == old(self).tokens@ && tok_matches(
                            final(self).tokens@.last(),
                            st,
                        ),
                        None => final(self).tokens@ == old(self).tokens@,
                    }
                },
                Err(se) => {
                    &&& r matches Err(e) && e.line as int == se.line && e.kind == se.kind
                    &&& final(self).tokens@ == old(self).tokens@
                },
            },
    {
        let ghost src = self.source@;
        let ghost pos = self.start as int;
        proof {
            reveal(spec_step);
        }
        let c = self.advance();
        if c == B_LPAREN {
            self.add_token(TokenKind::LEFT_PAREN);
            proof {
                lemma_line_at_step(src, pos);
            }
            Ok(())
        } else if c == B_RPAREN {
            self.add_token(TokenKind::RIGHT_PAREN);
            proof {
                lemma_line_at_step(src, pos);
            }
            Ok(())
        } else if c == B_LBRACE {
            self.add_token(TokenKind::LEFT_BRACE);
            proof {
                lemma_line_at_step(src, pos);
            }
            Ok(())
        } else if c == B_RBRACE {
            self.add_token(TokenKind::RIGHT_BRACE);
            proof {
                lemma_line_at_step(src, pos);
            }
            Ok(())
        } else if c == B_COMMA {
            self.add_token(TokenKind::COMMA);
            proof {
                lemma_line_at_step(src, pos);
            }
            Ok(())
        } else if c == B_DOT {
            self.add_token(TokenKind::DOT);
            proof {
                lemma_line_at_step(src, pos);
            }
            Ok(())
        } else if c == B_MINUS {
            self.add_token(TokenKind::MINUS);
            proof {
                lemma_line_at_step(src, pos);
            }
            Ok(())
        } else if c == B_PLUS {
            self.add_token(TokenKind::PLUS);
            proof {
                lemma_line_at_step(src, pos);
            }
            Ok(())
        } else if c == B_SEMICOLON {
            self.add_token(TokenKind::SEMICOLON);
            proof {
                lemma_line_at_step(src, pos);
            }
            Ok(())
        } else if c == B_STAR {
            self.add_token(TokenKind::STAR);
            proof {
                lemma_line_at_step(src, pos);
            }
            Ok(())
        } else if c == B_BANG {
            let kind = if self.match_byte(B_EQUAL) {
                TokenKind::BANG_EQUAL
            } else {
                TokenKind::BANG
            };
            self.add_token(kind);
            proof {
                lemma_line_at_step(src, pos);
                if pos + 1 < src.len() && src[pos + 1] == B_EQUAL {
                    lemma_line_at_step(src, pos + 1);
                }
            }
            Ok(())
        } else if c == B_EQUAL {
            let kind = if self.match_byte(B_EQUAL) {
                TokenKind::EQUAL_EQUAL
            } else {
                TokenKind::EQUAL
            };
            self.add_token(kind);
            proof {
                lemma_line_at_step(src, pos);
                if pos + 1 < src.len() && src[pos + 1] == B_EQUAL {
                    lemma_line_at_step(src, pos + 1);
                }
            }
            Ok(())
        } else if c == B_LESS {
            let kind = if self.match_byte(B_EQUAL) {
                TokenKind::LESS_EQUAL
            } else {
                TokenKind::LESS
            };
            self.add_token(kind);
            proof {
                lemma_line_at_step(src, pos);
                if pos + 1 < src.len() && src[pos + 1] == B_EQUAL {
                    lemma_line_at_step(src, pos + 1);
                }
            }
            Ok(())
        } else if c == B_GREATER {
            let kind = if self.match_byte(B_EQUAL) {
                TokenKind::GREATER_EQUAL
            } else {
                TokenKind::GREATER
            };
            self.add_token(kind);
            proof {
                lemma_line_at_step(src, pos);
                if pos + 1 < src.len() && src[pos + 1] == B_EQUAL {
                    lemma_line_at_step(src, pos + 1);
                }
            }
            Ok(())
        } else if c == B_SLASH {
            if self.match_byte(B_SLASH) {
                // A comment goes until the end of the line and emits no
                // token.
                proof {
                    lemma_line_at_step(src, pos);
                    lemma_line_at_step(src, pos + 1);
                }
                while self.current < self.source.len() && self.source[self.current] != LF
                    invariant
                        self.source == old(self).source,
                        self.source@ == src,
                        self.start == old(self).start,
                        self.tokens == old(self).tokens,
                        self.line == old(self).line,
                        pos + 2 <= self.current <= src.len(),
                        src.len() < usize::MAX,
                        self.line as int == line_at(src, self.current as int),
                        run_end(src, pos + 2, not_newline()) == run_end(
                            src,
                            self.current as int,
                            not_newline(),
                        ),
                    decreases src.len() - self.current,
                {
                    proof {
                        assert(not_newline()(src[self.current as int]));
                        assert(run_end(src, self.current as int, not_newline()) == run_end(
                            src,
                            self.current as int + 1,
                            not_newline(),
                        ));
                        lemma_line_at_step(src, self.current as int);
                    }
                    self.advance();
                }
                proof {
                    if self.current < self.source@.len() {
                        assert(!not_newline()(src[self.current as int]));
                    }
                    assert(run_end(src, self.current as int, not_newline())
                        == self.current as int);
                }
                Ok(())
            } else {
                self.add_token(TokenKind::SLASH);
                proof {
                    lemma_line_at_step(src, pos);
                }
                Ok(())
            }
        } else if c == SPACE || c == CR || c == TAB {
            proof {
                lemma_line_at_step(src, pos);
            }
            Ok(())
        } else if c == LF {
            proof {
                lemma_line_at_bounds(src, pos);
                lemma_line_at_step(src, pos);
            }
            self.line = self.line + 1;
            Ok(())
        } else if c == QUOTE {
            proof {
                lemma_line_at_step(src, pos);
            }
            self.string()
        } else if is_digit_byte(c) {
            proof {
                lemma_line_at_step(src, pos);
            }
            self.number();
            Ok(())
        } else if is_alpha_byte(c) {
            proof {
                lemma_line_at_step(src, pos);
            }
            self.identifier();
            Ok(())
        } else {
            let line = self.line;
            Err(Error::new(line, ErrorKind::UnexpectedCharacter))
        }
    }

    /// Drives the scan to completion or first failure: marks each
    /// lexeme start, classifies it, and on success appends the terminal
    /// end-of-input marker. On the first diagnostic the whole scan
    /// aborts and returns no tokens at all.
    #[verifier::loop_isolation(false)]
    pub fn scan_tokens(self) -> (r: Result<Vec<Token>, Error>)
        requires
            self.start == 0,
            self.current == 0,
            self.line == 1,
            self.tokens@ == Seq::<Token>::empty(),
            self.source@.len() < usize::MAX,
        ensures
            match spec_scan(self.source@) {
                Ok(sts) => r matches Ok(ts) && tokens_match(ts@, sts),
                Err(se) => r matches Err(e) && e.line as int == se.line && e.kind == se.kind,
            },
    {
        let mut s = self;
        let ghost src = s.source@;
        let ghost mut done: Seq<SpecToken> = Seq::empty();
        proof {
            assert(line_at(src, 0) == 1) by {
                reveal(line_at);
                assert(src.subrange(0, 0) =~= Seq::<u8>::empty());
            }
            assert(done + spec_scan_from(src, 0)->Ok_0 =~= spec_scan_from(src, 0)->Ok_0);
        }
        while s.current < s.source.len()
            invariant
                s.source@ == src,
                s.current <= src.len(),
                src.len() < usize::MAX,
                s.line as int == line_at(src, s.current as int),
                tokens_match(s.tokens@, done),
                scan_continues(src, done, s.current as int),
            decreases src.len() - s.current,
        {
            // We are at the beginning of the next lexeme.
            s.start = s.current;
            let ghost prev = s;
            let ghost cur = s.current as int;
            let step_result = s.scan_token();
            proof {
                lemma_step_props(src, cur);
            }
            match step_result {
                Err(e) => {
                    return Err(e);
                },
                Ok(()) => {
                    proof {
                        let step = spec_step(src, cur)->Ok_0;
                        let prev_done = done;
                        match step.emit {
                            Some(st) => {
                                done = done + seq![st];
                                assert forall|i: int| 0 <= i < s.tokens@.len() implies tok_matches(
                                    s.tokens@[i],
                                    done[i],
                                ) by {
                                    if i < s.tokens@.len() - 1 {
                                        assert(s.tokens@[i] == s.tokens@.drop_last()[i]);
                                        assert(done[i] == prev_done[i]);
                                    }
                                }
                            },
                            None => {},
                        }
                        if spec_scan_from(src, step.next) is Ok {
                            let rest = spec_scan_from(src, step.next)->Ok_0;
                            match step.emit {
                                Some(st) => {
                                    assert((prev_done + (seq![st] + rest)) =~= (done + rest));
                                },
                                None => {},
                            }
                        }
                    }
                },
            }
        }
        proof {
            assert(spec_scan_from(src, s.current as int) == Ok::<Seq<SpecToken>, SpecError>(
                seq![eof_token(src)],
            ));
        }
        let line = s.line;
        let eof_lexeme: Vec<u8> = Vec::new();
        s.tokens.push(Token::new(TokenKind::EOF, eof_lexeme, None, line));
        proof {
            let sts = done + seq![eof_token(src)];
            assert(eof_token(src).lexeme =~= Seq::<u8>::empty());
            assert forall|i: int| 0 <= i < s.tokens@.len() implies tok_matches(
                s.tokens@[i],
                sts[i],
            ) by {
                if i < s.tokens@.len() - 1 {
                    assert(s.tokens@[i] == s.tokens@.drop_last()[i]);
                }
            }
        }
        Ok(s.tokens)
    }
}

} // verus!
