use vstd::prelude::*;

use crate::chars::is_blank;
use crate::grammar::{
    lemma_line_end, lemma_quote_end, lemma_step_bounds, line_end, opt_seq, quote_end, scan,
    scan_from, step,
};
use crate::token::{DiagnosticView, TokenType, TokenView};

verus! {

/// Whether `s`, from index `i` on, holds nothing but whitespace, newlines and
/// line comments.
pub open spec fn only_blank_from(s: Seq<char>, i: int) -> bool
    decreases s.len() - i,
    via only_blank_from_decreases
{
    if i < 0 || i >= s.len() {
        true
    } else if is_blank(s[i]) || s[i] == '\n' {
        only_blank_from(s, i + 1)
    } else if i + 1 < s.len() && s[i] == '/' && s[i + 1] == '/' {
        only_blank_from(s, line_end(s, i + 2))
    } else {
        false
    }
}

#[via_fn]
proof fn only_blank_from_decreases(s: Seq<char>, i: int) {
    if 0 <= i && i + 1 < s.len() {
        lemma_line_end(s, i + 2);
    }
}

/// Whether `s` holds nothing but whitespace, newlines and line comments.
pub open spec fn only_blank(s: Seq<char>) -> bool {
    only_blank_from(s, 0)
}

proof fn lemma_blank_scan_from(s: Seq<char>, i: int, line: nat)
    requires
        0 <= i,
        only_blank_from(s, i),
    ensures
        scan_from(s, i, line).tokens.len() == 1,
        scan_from(s, i, line).tokens[0].kind == TokenType::EOF,
        scan_from(s, i, line).errors.len() == 0,
    decreases s.len() - i,
{
    if i < s.len() {
        let st = step(s, i, line);
        lemma_step_bounds(s, i, line);
        lemma_blank_scan_from(s, st.end, st.line);
        assert(scan_from(s, i, line).tokens =~= scan_from(s, st.end, st.line).tokens);
        assert(scan_from(s, i, line).errors =~= scan_from(s, st.end, st.line).errors);
    }
}

/// Input made only of whitespace and comments scans to the end-of-input
/// marker alone, with no error.
pub proof fn lemma_blank_input(s: Seq<char>)
    requires
        only_blank(s),
    ensures
        scan(s).tokens.len() == 1,
        scan(s).tokens[0].kind == TokenType::EOF,
        scan(s).errors.len() == 0,
{
    lemma_blank_scan_from(s, 0, 1);
}

/// The stretch of source that one step consumed, with what it produced.
pub struct Piece {
    pub text: Seq<char>,
    pub token: Option<TokenView>,
    pub error: Option<DiagnosticView>,
}

/// The stretches of `s` that the scan from `pos` consumes, step by step.
pub open spec fn pieces_from(s: Seq<char>, pos: int, line: nat) -> Seq<Piece>
    decreases s.len() - pos,
    via pieces_from_decreases
{
    if pos < 0 || pos >= s.len() {
        Seq::empty()
    } else {
        let st = step(s, pos, line);
        seq![Piece { text: s.subrange(pos, st.end), token: st.token, error: st.error }]
            + pieces_from(s, st.end, st.line)
    }
}

#[via_fn]
proof fn pieces_from_decreases(s: Seq<char>, pos: int, line: nat) {
    if !(pos < 0 || pos >= s.len()) {
        lemma_step_bounds(s, pos, line);
    }
}

/// The stretches of `s` that its scan consumes, in order.
pub open spec fn pieces(s: Seq<char>) -> Seq<Piece> {
    pieces_from(s, 0, 1)
}

/// The texts of `ps`, concatenated in order.
pub open spec fn joined(ps: Seq<Piece>) -> Seq<char>
    decreases ps.len(),
{
    if ps.len() == 0 {
        Seq::empty()
    } else {
        ps[0].text + joined(ps.drop_first())
    }
}

/// The tokens of `ps`, in order.
pub open spec fn piece_tokens(ps: Seq<Piece>) -> Seq<TokenView>
    decreases ps.len(),
{
    if ps.len() == 0 {
        Seq::empty()
    } else {
        opt_seq(ps[0].token) + piece_tokens(ps.drop_first())
    }
}

/// A stretch that produced no token: one whitespace character or newline, a
/// line comment, a rejected character, or a string literal cut off by the
/// end of input.
pub open spec fn discarded(p: Piece) -> bool {
    &&& p.token is None
    &&& {
        ||| p.error is None && p.text.len() == 1 && (is_blank(p.text[0]) || p.text[0] == '\n')
        ||| p.error is None && p.text.len() >= 2 && p.text[0] == '/' && p.text[1] == '/' && (forall|k: int|
            2 <= k < p.text.len() ==> #[trigger] p.text[k] != '\n')
        ||| p.error is Some && p.text.len() == 1
        ||| p.error is Some && p.text.len() >= 1 && p.text[0] == '"' && (forall|k: int|
            1 <= k < p.text.len() ==> #[trigger] p.text[k] != '"')
    }
}

/// A stretch either is exactly the lexeme of the token it produced, or was
/// discarded.
pub open spec fn accounted(p: Piece) -> bool {
    match p.token {
        Some(t) => t.lexeme == p.text,
        None => discarded(p),
    }
}

proof fn lemma_step_accounted(s: Seq<char>, start: int, line: nat)
    requires
        0 <= start < s.len(),
    ensures
        ({
            let st = step(s, start, line);
            accounted(Piece { text: s.subrange(start, st.end), token: st.token, error: st.error })
        }),
{
    let c = s[start];
    let st = step(s, start, line);
    lemma_step_bounds(s, start, line);
    let text = s.subrange(start, st.end);
    if c == '/' && start + 1 < s.len() && s[start + 1] == '/' {
        lemma_line_end(s, start + 2);
        assert forall|k: int| 2 <= k < text.len() implies #[trigger] text[k] != '\n' by {
            assert(text[k] == s[start + k]);
        }
    } else if c == '"' {
        lemma_quote_end(s, start + 1);
        if quote_end(s, start + 1) >= s.len() {
            assert forall|k: int| 1 <= k < text.len() implies #[trigger] text[k] != '"' by {
                assert(text[k] == s[start + k]);
            }
        }
    }
}

proof fn lemma_pieces_from(s: Seq<char>, pos: int, line: nat)
    requires
        0 <= pos <= s.len(),
    ensures
        joined(pieces_from(s, pos, line)) == s.subrange(pos, s.len() as int),
        piece_tokens(pieces_from(s, pos, line)) == scan_from(s, pos, line).tokens.drop_last(),
        forall|i: int|
            0 <= i < pieces_from(s, pos, line).len() ==> accounted(
                #[trigger] pieces_from(s, pos, line)[i],
            ),
    decreases s.len() - pos,
{
    let ps = pieces_from(s, pos, line);
    if pos < s.len() {
        let st = step(s, pos, line);
        lemma_step_bounds(s, pos, line);
        lemma_step_accounted(s, pos, line);
        lemma_pieces_from(s, st.end, st.line);
        let rest = pieces_from(s, st.end, st.line);
        assert(ps.drop_first() =~= rest);
        assert(joined(ps) == s.subrange(pos, st.end) + joined(rest));
        assert(joined(ps) =~= s.subrange(pos, s.len() as int));
        let later = scan_from(s, st.end, st.line).tokens;
        crate::grammar::lemma_scan_ends_with_eof(s, st.end, st.line);
        assert(piece_tokens(ps) == opt_seq(st.token) + piece_tokens(rest));
        assert((opt_seq(st.token) + later).drop_last() =~= opt_seq(st.token) + later.drop_last());
        assert forall|i: int| 0 <= i < ps.len() implies accounted(#[trigger] ps[i]) by {
            if i > 0 {
                assert(ps[i] == rest[i - 1]);
            }
        }
    } else {
        assert(joined(ps) =~= s.subrange(pos, s.len() as int));
        assert(scan_from(s, pos, line).tokens.drop_last() =~= Seq::<TokenView>::empty());
    }
}

/// The scan accounts for every character exactly once: the stretches it
/// consumes, joined in order, give back the input; the tokens before the
/// end-of-input marker are those the stretches produced, in order, each
/// with its stretch as lexeme; and every other stretch is whitespace, a
/// line comment, or a rejected character or unterminated string that was
/// reported.
pub proof fn lemma_round_trip(s: Seq<char>)
    ensures
        joined(pieces(s)) == s,
        piece_tokens(pieces(s)) == scan(s).tokens.drop_last(),
        forall|i: int| 0 <= i < pieces(s).len() ==> accounted(#[trigger] pieces(s)[i]),
{
    lemma_pieces_from(s, 0, 1);
    assert(s.subrange(0, s.len() as int) =~= s);
}

} // verus!
