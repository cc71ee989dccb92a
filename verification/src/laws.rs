//! Laws of the scanner, stated over the model and proved for every
//! input: the lexeme round trip, the line accounting, the ordering of
//! tokens, and the shape of all-symbol scans.

use vstd::prelude::*;

use crate::model::count_newlines;
use crate::model::eof_token;
use crate::model::lemma_line_at_mono;
use crate::model::lemma_step_props;
use crate::model::line_at;
use crate::model::single_symbol_kind;
use crate::model::spec_scan;
use crate::model::spec_scan_from;
use crate::model::spec_step;
use crate::token::TokenKind;

verus! {

/// Every token of a successful scan from `pos` onward starts at or
/// after `pos`, spans exactly its recorded source bytes, and stands on
/// the line of its start offset; the sequence closes with the
/// end-of-input marker.
#[verifier::rlimit(100)]
#[verifier::spinoff_prover]
proof fn lemma_scan_from_spans(src: Seq<u8>, pos: int)
    requires
        0 <= pos <= src.len(),
    ensures
        spec_scan_from(src, pos) matches Ok(toks) ==> {
            &&& toks.len() >= 1
            &&& toks.last() == eof_token(src)
            &&& forall|i: int|
                0 <= i < toks.len() ==> pos <= (#[trigger] toks[i]).start <= toks[i].end
                    <= src.len()
            &&& forall|i: int|
                0 <= i < toks.len() ==> (#[trigger] toks[i]).lexeme == src.subrange(
                    toks[i].start,
                    toks[i].end,
                )
            &&& forall|i: int|
                0 <= i < toks.len() ==> (#[trigger] toks[i]).line == line_at(src, toks[i].start)
        },
    decreases src.len() - pos,
{
    if pos < src.len() {
        match spec_step(src, pos) {
            Err(_) => {},
            Ok(step) => {
                lemma_step_props(src, pos);
                lemma_scan_from_spans(src, step.next);
                match spec_scan_from(src, step.next) {
                    Err(_) => {},
                    Ok(rest) => {
                        match step.emit {
                            Some(t) => {
                                let toks = seq![t] + rest;
                                assert(toks.last() == rest.last());
                                assert(forall|i: int|
                                    1 <= i < toks.len() ==> (#[trigger] toks[i]) == rest[i - 1]);
                                assert(toks[0] == t);
                            },
                            None => {},
                        }
                    },
                }
            },
        }
    }
}

/// The tokens of a successful scan from `pos` onward appear in source
/// order, and only the final one carries the end-of-input kind.
#[verifier::rlimit(100)]
#[verifier::spinoff_prover]
proof fn lemma_scan_from_order(src: Seq<u8>, pos: int)
    requires
        0 <= pos <= src.len(),
    ensures
        spec_scan_from(src, pos) matches Ok(toks) ==> {
            &&& toks.len() >= 1
            &&& toks.last().kind == TokenKind::EOF
            &&& forall|i: int|
                0 <= i < toks.len() ==> pos <= (#[trigger] toks[i]).start <= toks[i].end
                    <= src.len()
            &&& forall|i: int| 0 <= i < toks.len() - 1 ==> (#[trigger] toks[i]).kind
                != TokenKind::EOF
            &&& forall|i: int|
                0 <= i < toks.len() - 1 ==> (#[trigger] toks[i]).end <= toks[i + 1].start
        },
    decreases src.len() - pos,
{
    if pos < src.len() {
        match spec_step(src, pos) {
            Err(_) => {},
            Ok(step) => {
                lemma_step_props(src, pos);
                lemma_scan_from_order(src, step.next);
                match spec_scan_from(src, step.next) {
                    Err(_) => {},
                    Ok(rest) => {
                        match step.emit {
                            Some(t) => {
                                let toks = seq![t] + rest;
                                assert(toks.last() == rest.last());
                                assert(forall|i: int|
                                    1 <= i < toks.len() ==> (#[trigger] toks[i]) == rest[i - 1]);
                                assert(toks[0] == t);
                            },
                            None => {},
                        }
                    },
                }
            },
        }
    }
}

/// Round trip: every token of a successful scan records as its lexeme
/// exactly the source bytes between its start and end offsets (the
/// end-of-input marker carries the empty span at the buffer's end).
#[verifier::rlimit(100)]
#[verifier::spinoff_prover]
pub proof fn lemma_lexeme_round_trip(src: Seq<u8>)
    ensures
        spec_scan(src) matches Ok(toks) ==> forall|i: int|
            0 <= i < toks.len() ==> 0 <= (#[trigger] toks[i]).start <= toks[i].end <= src.len()
                && toks[i].lexeme == src.subrange(toks[i].start, toks[i].end),
{
    lemma_scan_from_spans(src, 0);
}

/// Line accounting: every token of a successful scan stands on line
/// `1 + (number of newline bytes strictly before its start offset)`.
#[verifier::rlimit(100)]
#[verifier::spinoff_prover]
pub proof fn lemma_line_accounting(src: Seq<u8>)
    ensures
        spec_scan(src) matches Ok(toks) ==> forall|i: int|
            0 <= i < toks.len() ==> (#[trigger] toks[i]).line == 1 + count_newlines(
                src.subrange(0, toks[i].start),
            ),
{
    reveal(line_at);
    lemma_scan_from_spans(src, 0);
}

/// Tokens appear in source order with non-decreasing line numbers, and
/// the end-of-input marker is always last and unique.
#[verifier::rlimit(100)]
#[verifier::spinoff_prover]
pub proof fn lemma_source_order(src: Seq<u8>)
    ensures
        spec_scan(src) matches Ok(toks) ==> {
            &&& toks.len() >= 1
            &&& toks.last().kind == TokenKind::EOF
            &&& forall|i: int| 0 <= i < toks.len() - 1 ==> (#[trigger] toks[i]).kind
                != TokenKind::EOF
            &&& forall|i: int|
                0 <= i < toks.len() - 1 ==> (#[trigger] toks[i]).end <= toks[i + 1].start
            &&& forall|i: int|
                0 <= i < toks.len() - 1 ==> (#[trigger] toks[i]).line <= toks[i + 1].line
        },
{
    lemma_scan_from_order(src, 0);
    lemma_scan_from_lines(src, 0);
}

/// Every token of a successful scan from `pos` onward stands on a line
/// no earlier than that of `pos`, and line numbers never decrease from
/// one token to the next.
#[verifier::rlimit(100)]
#[verifier::spinoff_prover]
proof fn lemma_scan_from_lines(src: Seq<u8>, pos: int)
    requires
        0 <= pos <= src.len(),
    ensures
        spec_scan_from(src, pos) matches Ok(toks) ==> {
            &&& forall|i: int| 0 <= i < toks.len() ==> line_at(src, pos) <= (#[trigger] toks[i]).line
            &&& forall|i: int|
                0 <= i < toks.len() - 1 ==> (#[trigger] toks[i]).line <= toks[i + 1].line
        },
    decreases src.len() - pos,
{
    if pos < src.len() {
        match spec_step(src, pos) {
            Err(_) => {},
            Ok(step) => {
                lemma_step_props(src, pos);
                lemma_scan_from_lines(src, step.next);
                lemma_line_at_mono(src, pos, step.next);
                match spec_scan_from(src, step.next) {
                    Err(_) => {},
                    Ok(rest) => {
                        match step.emit {
                            Some(t) => {
                                let toks = seq![t] + rest;
                                assert(forall|i: int|
                                    1 <= i < toks.len() ==> (#[trigger] toks[i]) == rest[i - 1]);
                                assert(toks[0] == t);
                            },
                            None => {},
                        }
                    },
                }
            },
        }
    }
}

/// An input made only of the ten single-character symbols scans to one
/// token per input byte, each of that byte's kind, followed by the
/// end-of-input marker.
pub proof fn lemma_single_symbols(src: Seq<u8>)
    requires
        forall|i: int| 0 <= i < src.len() ==> single_symbol_kind(#[trigger] src[i]) is Some,
    ensures
        spec_scan(src) is Ok,
        spec_scan(src)->Ok_0.len() == src.len() + 1,
        forall|i: int|
            0 <= i < src.len() ==> (#[trigger] spec_scan(src)->Ok_0[i]).kind == single_symbol_kind(
                src[i],
            )->Some_0,
        spec_scan(src)->Ok_0.last().kind == TokenKind::EOF,
{
    lemma_symbols_from(src, 0);
}

/// The inductive step behind `lemma_single_symbols`, for scans that
/// start in the middle of the buffer.
#[verifier::rlimit(100)]
#[verifier::spinoff_prover]
proof fn lemma_symbols_from(src: Seq<u8>, pos: int)
    requires
        0 <= pos <= src.len(),
        forall|i: int| 0 <= i < src.len() ==> single_symbol_kind(#[trigger] src[i]) is Some,
    ensures
        spec_scan_from(src, pos) is Ok,
        spec_scan_from(src, pos)->Ok_0.len() == src.len() - pos + 1,
        forall|i: int|
            0 <= i < src.len() - pos ==> (#[trigger] spec_scan_from(src, pos)->Ok_0[i]).kind
                == single_symbol_kind(src[pos + i])->Some_0,
        spec_scan_from(src, pos)->Ok_0.last().kind == TokenKind::EOF,
    decreases src.len() - pos,
{
    reveal(spec_step);
    if pos < src.len() {
        lemma_symbols_from(src, pos + 1);
        let step = spec_step(src, pos)->Ok_0;
        let rest = spec_scan_from(src, pos + 1)->Ok_0;
        let t = step.emit->Some_0;
        let toks = seq![t] + rest;
        assert(toks.last() == rest.last());
        assert forall|i: int|
            0 <= i < src.len() - pos implies (#[trigger] toks[i]).kind == single_symbol_kind(
            src[pos + i],
        )->Some_0 by {
            if i > 0 {
                assert(toks[i] == rest[i - 1]);
                assert(rest[i - 1].kind == single_symbol_kind(src[pos + 1 + (i - 1)])->Some_0);
            }
        }
    }
}

} // verus!
