use vstd::prelude::*;

use crate::chars::{alphabetic, alphanumeric, is_blank, is_digit, keyword_kind};
use crate::token::{DiagnosticView, LiteralView, TokenType, TokenView};

verus! {

/// End of the run of digits that starts at `i`.
pub open spec fn digits_end(s: Seq<char>, i: int) -> int
    decreases s.len() - i,
{
    if 0 <= i < s.len() && is_digit(s[i]) {
        digits_end(s, i + 1)
    } else {
        i
    }
}

/// End of the run of alphanumeric characters that starts at `i`.
pub open spec fn word_end(s: Seq<char>, i: int) -> int
    decreases s.len() - i,
{
    if 0 <= i < s.len() && alphanumeric(s[i]) {
        word_end(s, i + 1)
    } else {
        i
    }
}

/// End of a number whose first digit is at `i`: digits, then a dot and
/// digits only if a digit follows the dot.
pub open spec fn number_end(s: Seq<char>, i: int) -> int {
    let j = digits_end(s, i);
    if j + 1 < s.len() && s[j] == '.' && is_digit(s[j + 1]) {
        digits_end(s, j + 1)
    } else {
        j
    }
}

/// Index of the first newline at or after `i`, or the end of `s`.
pub open spec fn line_end(s: Seq<char>, i: int) -> int
    decreases s.len() - i,
{
    if 0 <= i < s.len() && s[i] != '\n' {
        line_end(s, i + 1)
    } else {
        i
    }
}

/// Index of the first double quote at or after `i`, or the end of `s`.
pub open spec fn quote_end(s: Seq<char>, i: int) -> int
    decreases s.len() - i,
{
    if 0 <= i < s.len() && s[i] != '"' {
        quote_end(s, i + 1)
    } else {
        i
    }
}

/// Number of newlines in `s`.
pub open spec fn newlines(s: Seq<char>) -> nat
    decreases s.len(),
{
    if s.len() == 0 {
        0
    } else {
        newlines(s.drop_last()) + if s.last() == '\n' { 1nat } else { 0nat }
    }
}

/// The message reported for a character that no rule accepts.
pub open spec fn unexpected_message(c: char) -> Seq<char> {
    "Unexpected character: '"@ + seq![c, '\'', '.']
}

/// The message reported for a string literal that reaches the end of input.
pub open spec fn unterminated_message() -> Seq<char> {
    "Unterminated string"@
}

/// What one scanning step does from `start`: where it stops, the line it
/// leaves the scanner on, and the token or error it produces, if any.
pub struct Step {
    pub end: int,
    pub line: nat,
    pub token: Option<TokenView>,
    pub error: Option<DiagnosticView>,
}

/// A token with no literal value, spanning `start` to `end`.
pub open spec fn plain(s: Seq<char>, start: int, end: int, kind: TokenType, line: nat) -> Step {
    Step {
        end,
        line,
        token: Some(TokenView { kind, lexeme: s.subrange(start, end), literal: LiteralView::Nothing, line }),
        error: None,
    }
}

/// Input consumed up to `end` that produces nothing.
pub open spec fn skip(end: int, line: nat) -> Step {
    Step { end, line, token: None, error: None }
}

/// A one-character operator, or its two-character form when `=` follows.
pub open spec fn with_equal(s: Seq<char>, start: int, line: nat, one: TokenType, two: TokenType) -> Step {
    if start + 1 < s.len() && s[start + 1] == '=' {
        plain(s, start, start + 2, two, line)
    } else {
        plain(s, start, start + 1, one, line)
    }
}

/// A string literal whose opening quote is at `start`.
pub open spec fn string_step(s: Seq<char>, start: int, line: nat) -> Step {
    let q = quote_end(s, start + 1);
    let after = line + newlines(s.subrange(start + 1, q));
    if q >= s.len() {
        Step {
            end: s.len() as int,
            line: after,
            token: None,
            error: Some(DiagnosticView { line: after, message: unterminated_message() }),
        }
    } else {
        Step {
            end: q + 1,
            line: after,
            token: Some(
                TokenView {
                    kind: TokenType::STRING,
                    lexeme: s.subrange(start, q + 1),
                    literal: LiteralView::Text(s.subrange(start + 1, q)),
                    line,
                },
            ),
            error: None,
        }
    }
}

/// A number literal whose first digit is at `start`.
pub open spec fn number_step(s: Seq<char>, start: int, line: nat) -> Step {
    let end = number_end(s, start);
    Step {
        end,
        line,
        token: Some(
            TokenView {
                kind: TokenType::NUMBER,
                lexeme: s.subrange(start, end),
                literal: LiteralView::Number(s.subrange(start, end)),
                line,
            },
        ),
        error: None,
    }
}

/// An identifier or reserved word whose first letter is at `start`.
pub open spec fn word_step(s: Seq<char>, start: int, line: nat) -> Step {
    let end = word_end(s, start + 1);
    let kind = match keyword_kind(s.subrange(start, end)) {
        Some(k) => k,
        None => TokenType::IDENTIFIER,
    };
    plain(s, start, end, kind, line)
}

/// The scanning step that starts at `start`, on line `line`.
pub open spec fn step(s: Seq<char>, start: int, line: nat) -> Step
    recommends
        0 <= start < s.len(),
{
    let c = s[start];
    if c == '(' {
        plain(s, start, start + 1, TokenType::LEFT_PAREN, line)
    } else if c == ')' {
        plain(s, start, start + 1, TokenType::RIGHT_PAREN, line)
    } else if c == '{' {
        plain(s, start, start + 1, TokenType::LEFT_BRACE, line)
    } else if c == '}' {
        plain(s, start, start + 1, TokenType::RIGHT_BRACE, line)
    } else if c == ',' {
        plain(s, start, start + 1, TokenType::COMMA, line)
    } else if c == '.' {
        plain(s, start, start + 1, TokenType::DOT, line)
    } else if c == '-' {
        plain(s, start, start + 1, TokenType::MINUS, line)
    } else if c == '+' {
        plain(s, start, start + 1, TokenType::PLUS, line)
    } else if c == ';' {
        plain(s, start, start + 1, TokenType::SEMICOLON, line)
    } else if c == '*' {
        plain(s, start, start + 1, TokenType::STAR, line)
    } else if c == '!' {
        with_equal(s, start, line, TokenType::BANG, TokenType::BANG_EQUAL)
    } else if c == '=' {
        with_equal(s, start, line, TokenType::EQUAL, TokenType::EQUAL_EQUAL)
    } else if c == '<' {
        with_equal(s, start, line, TokenType::LESS, TokenType::LESS_EQUAL)
    } else if c == '>' {
        with_equal(s, start, line, TokenType::GREATER, TokenType::GREATER_EQUAL)
    } else if c == '/' {
        if start + 1 < s.len() && s[start + 1] == '/' {
            skip(line_end(s, start + 2), line)
        } else {
            plain(s, start, start + 1, TokenType::SLASH, line)
        }
    } else if is_blank(c) {
        skip(start + 1, line)
    } else if c == '\n' {
        skip(start + 1, line + 1)
    } else if c == '"' {
        string_step(s, start, line)
    } else if is_digit(c) {
        number_step(s, start, line)
    } else if alphabetic(c) {
        word_step(s, start, line)
    } else {
        Step {
            end: start + 1,
            line,
            token: None,
            error: Some(DiagnosticView { line, message: unexpected_message(c) }),
        }
    }
}

/// The end-of-input marker on line `line`.
pub open spec fn eof(line: nat) -> TokenView {
    TokenView { kind: TokenType::EOF, lexeme: Seq::empty(), literal: LiteralView::Nothing, line }
}

/// The zero- or one-element sequence holding what `o` holds.
pub open spec fn opt_seq<T>(o: Option<T>) -> Seq<T> {
    match o {
        Some(x) => seq![x],
        None => Seq::empty(),
    }
}

/// The tokens and the errors of a scan, each in the order found.
pub struct Scan {
    pub tokens: Seq<TokenView>,
    pub errors: Seq<DiagnosticView>,
}

/// Scanning `s` from index `pos` with the line counter at `line`.
pub open spec fn scan_from(s: Seq<char>, pos: int, line: nat) -> Scan
    decreases s.len() - pos,
    via scan_from_decreases
{
    if pos < 0 || pos >= s.len() {
        Scan { tokens: seq![eof(line)], errors: Seq::empty() }
    } else {
        let st = step(s, pos, line);
        let rest = scan_from(s, st.end, st.line);
        Scan { tokens: opt_seq(st.token) + rest.tokens, errors: opt_seq(st.error) + rest.errors }
    }
}

#[via_fn]
proof fn scan_from_decreases(s: Seq<char>, pos: int, line: nat) {
    if !(pos < 0 || pos >= s.len()) {
        lemma_step_bounds(s, pos, line);
    }
}

/// The whole scan of `s`, from its first character on line 1.
pub open spec fn scan(s: Seq<char>) -> Scan {
    scan_from(s, 0, 1)
}

/// A run of digits ends within the input, at a character that is no digit.
pub proof fn lemma_digits_end(s: Seq<char>, i: int)
    requires
        0 <= i <= s.len(),
    ensures
        i <= digits_end(s, i) <= s.len(),
        forall|k: int| i <= k < digits_end(s, i) ==> is_digit(#[trigger] s[k]),
        digits_end(s, i) < s.len() ==> !is_digit(s[digits_end(s, i)]),
    decreases s.len() - i,
{
    if i < s.len() && is_digit(s[i]) {
        lemma_digits_end(s, i + 1);
    }
}

/// A word ends within the input, at a character that is not alphanumeric.
pub proof fn lemma_word_end(s: Seq<char>, i: int)
    requires
        0 <= i <= s.len(),
    ensures
        i <= word_end(s, i) <= s.len(),
        forall|k: int| i <= k < word_end(s, i) ==> alphanumeric(#[trigger] s[k]),
        word_end(s, i) < s.len() ==> !alphanumeric(s[word_end(s, i)]),
    decreases s.len() - i,
{
    if i < s.len() && alphanumeric(s[i]) {
        lemma_word_end(s, i + 1);
    }
}

/// The rest of a line holds no newline and ends at one or at the end of input.
pub proof fn lemma_line_end(s: Seq<char>, i: int)
    requires
        0 <= i <= s.len(),
    ensures
        i <= line_end(s, i) <= s.len(),
        forall|k: int| i <= k < line_end(s, i) ==> #[trigger] s[k] != '\n',
        line_end(s, i) < s.len() ==> s[line_end(s, i)] == '\n',
    decreases s.len() - i,
{
    if i < s.len() && s[i] != '\n' {
        lemma_line_end(s, i + 1);
    }
}

/// The search for a closing quote passes no quote and ends at one or at the end of input.
pub proof fn lemma_quote_end(s: Seq<char>, i: int)
    requires
        0 <= i <= s.len(),
    ensures
        i <= quote_end(s, i) <= s.len(),
        forall|k: int| i <= k < quote_end(s, i) ==> #[trigger] s[k] != '"',
        quote_end(s, i) < s.len() ==> s[quote_end(s, i)] == '"',
    decreases s.len() - i,
{
    if i < s.len() && s[i] != '"' {
        lemma_quote_end(s, i + 1);
    }
}

/// A number ends within the input, no earlier than its run of leading digits.
pub proof fn lemma_number_end(s: Seq<char>, i: int)
    requires
        0 <= i <= s.len(),
    ensures
        i <= digits_end(s, i) <= number_end(s, i) <= s.len(),
{
    lemma_digits_end(s, i);
    let j = digits_end(s, i);
    if j + 1 < s.len() && s[j] == '.' && is_digit(s[j + 1]) {
        lemma_digits_end(s, j + 1);
    }
}

/// A text holds at most as many newlines as characters.
pub proof fn lemma_newlines_bound(s: Seq<char>)
    ensures
        newlines(s) <= s.len(),
    decreases s.len(),
{
    if s.len() > 0 {
        lemma_newlines_bound(s.drop_last());
    }
}

/// Each step consumes at least one character and stays within the input;
/// the line counter never decreases, and grows by at most what was consumed.
pub proof fn lemma_step_bounds(s: Seq<char>, start: int, line: nat)
    requires
        0 <= start < s.len(),
    ensures
        start < step(s, start, line).end <= s.len(),
        line <= step(s, start, line).line <= line + (step(s, start, line).end - start),
{
    let c = s[start];
    if c == '/' && start + 1 < s.len() && s[start + 1] == '/' {
        lemma_line_end(s, start + 2);
    } else if c == '"' {
        lemma_quote_end(s, start + 1);
        lemma_newlines_bound(s.subrange(start + 1, quote_end(s, start + 1)));
    } else if is_digit(c) {
        lemma_number_end(s, start);
        assert(digits_end(s, start) == digits_end(s, start + 1));
        lemma_digits_end(s, start + 1);
    } else if alphabetic(c) {
        lemma_word_end(s, start + 1);
    }
}

/// Every scan ends with exactly one end-of-input marker, after which nothing follows.
pub proof fn lemma_scan_ends_with_eof(s: Seq<char>, pos: int, line: nat)
    ensures
        scan_from(s, pos, line).tokens.len() > 0,
        scan_from(s, pos, line).tokens.last().kind == TokenType::EOF,
        forall|i: int|
            0 <= i < scan_from(s, pos, line).tokens.len() - 1
                ==> (#[trigger] scan_from(s, pos, line).tokens[i]).kind != TokenType::EOF,
    decreases s.len() - pos,
{
    if !(pos < 0 || pos >= s.len()) {
        let st = step(s, pos, line);
        lemma_step_bounds(s, pos, line);
        lemma_scan_ends_with_eof(s, st.end, st.line);
        lemma_step_token_not_eof(s, pos, line);
        let rest = scan_from(s, st.end, st.line).tokens;
        assert(scan_from(s, pos, line).tokens == opt_seq(st.token) + rest);
        assert forall|i: int|
            0 <= i < scan_from(s, pos, line).tokens.len() - 1
                implies (#[trigger] scan_from(s, pos, line).tokens[i]).kind != TokenType::EOF by {
            if st.token is Some && i > 0 {
                assert(scan_from(s, pos, line).tokens[i] == rest[i - 1]);
            }
        }
    }
}

/// No step produces an end-of-input marker.
pub proof fn lemma_step_token_not_eof(s: Seq<char>, start: int, line: nat)
    requires
        0 <= start < s.len(),
    ensures
        step(s, start, line).token matches Some(t) ==> t.kind != TokenType::EOF,
{
    let c = s[start];
    if alphabetic(c) && !is_digit(c) {
        let end = word_end(s, start + 1);
        let t = s.subrange(start, end);
        assert(keyword_kind(t) != Some(TokenType::EOF));
    }
}

} // verus!
