use vstd::prelude::*;

use crate::chars::{chars_of, digit, is_alphabetic, is_alphanumeric, is_digit, keyword, string_of};
use crate::grammar::{
    digits_end, eof, lemma_digits_end, lemma_line_end, lemma_newlines_bound, lemma_quote_end,
    lemma_scan_ends_with_eof, lemma_step_bounds, lemma_word_end, line_end, newlines, number_end,
    number_step, opt_seq, quote_end, scan_from, step, string_step, unexpected_message, word_end,
    word_step, Step,
};
use crate::token::{Diagnostic, DiagnosticView, Literal, Token, TokenType, TokenView};

verus! {

/// The views of a sequence of tokens.
pub open spec fn token_views(v: Seq<Token>) -> Seq<TokenView> {
    v.map_values(|t: Token| t@)
}

/// The views of a sequence of diagnostics.
pub open spec fn diagnostic_views(v: Seq<Diagnostic>) -> Seq<DiagnosticView> {
    v.map_values(|d: Diagnostic| d@)
}

/// A cursor over one source text that collects its tokens and its errors.
pub struct Scanner {
    source: Vec<char>,
    tokens: Vec<Token>,
    errors: Vec<Diagnostic>,
    start: usize,
    current: usize,
    line: usize,
}

impl Scanner {
    /// The characters being scanned.
    pub closed spec fn text(&self) -> Seq<char> {
        self.source@
    }

    /// The tokens produced so far.
    pub closed spec fn emitted(&self) -> Seq<TokenView> {
        token_views(self.tokens@)
    }

    /// The errors reported so far.
    pub closed spec fn reported(&self) -> Seq<DiagnosticView> {
        diagnostic_views(self.errors@)
    }

    /// Index of the next character to read.
    pub closed spec fn position(&self) -> int {
        self.current as int
    }

    /// The current line counter.
    pub closed spec fn current_line(&self) -> nat {
        self.line as nat
    }

    /// Indices and the line counter stay within the text, which leaves room
    /// for the line counter to grow by one per character.
    pub closed spec fn wf(&self) -> bool {
        &&& self.source@.len() < usize::MAX
        &&& self.start <= self.current <= self.source@.len()
        &&& self.line <= self.current + 1
    }

    /// A fresh scanner over `source`, at its first character on line 1.
    pub fn new(source: &str) -> (r: Scanner)
        requires
            source@.len() < usize::MAX,
        ensures
            r.wf(),
            r.text() == source@,
            r.emitted() == Seq::<TokenView>::empty(),
            r.reported() == Seq::<DiagnosticView>::empty(),
            r.position() == 0,
            r.current_line() == 1,
    {
        let r = Scanner {
            source: chars_of(source),
            tokens: Vec::new(),
            errors: Vec::new(),
            start: 0,
            current: 0,
            line: 1,
        };
        assert(r.emitted() =~= Seq::<TokenView>::empty());
        assert(r.reported() =~= Seq::<DiagnosticView>::empty());
        r
    }

    fn is_at_end(&self) -> (r: bool)
        requires
            self.wf(),
        ensures
            r == (self.current >= self.source@.len()),
    {
        self.current >= self.source.len()
    }

    fn peek(&self) -> (r: char)
        requires
            self.wf(),
        ensures
            self.current < self.source@.len() ==> r == self.source@[self.current as int],
            self.current >= self.source@.len() ==> r == '\0',
    {
        if self.is_at_end() {
            return '\0';
        }
        self.source[self.current]
    }

    fn peek_next(&self) -> (r: char)
        requires
            self.wf(),
        ensures
            self.current + 1 < self.source@.len() ==> r == self.source@[self.current + 1],
            self.current + 1 >= self.source@.len() ==> r == '\0',
    {
        if self.current + 1 >= self.source.len() {
            return '\0';
        }
        self.source[self.current + 1]
    }

    fn advance(&mut self) -> (r: char)
        requires
            old(self).wf(),
            old(self).current < old(self).source@.len(),
        ensures
            final(self).wf(),
            r == old(self).source@[old(self).current as int],
            final(self).current == old(self).current + 1,
            final(self).source == old(self).source,
            final(self).tokens == old(self).tokens,
            final(self).errors == old(self).errors,
            final(self).start == old(self).start,
            final(self).line == old(self).line,
    {
        self.current = self.current + 1;
        self.source[self.current - 1]
    }

    fn _match(&mut self, expected: char) -> (r: bool)
        requires
            old(self).wf(),
        ensures
            final(self).wf(),
            r == (old(self).current < old(self).source@.len()
                && old(self).source@[old(self).current as int] == expected),
            final(self).current == old(self).current + if r { 1usize } else { 0usize },
            final(self).source == old(self).source,
            final(self).tokens == old(self).tokens,
            final(self).errors == old(self).errors,
            final(self).start == old(self).start,
            final(self).line == old(self).line,
    {
        if self.is_at_end() {
            return false;
        }
        if self.source[self.current] != expected {
            return false;
        }
        self.current = self.current + 1;
        true
    }

    /// Appends the token spanning the current lexeme, begun on `line`.
    fn add_token(&mut self, kind: TokenType, literal: Literal, line: usize)
        requires
            old(self).wf(),
        ensures
            final(self).wf(),
            final(self).emitted() == old(self).emitted().push(
                TokenView {
                    kind,
                    lexeme: old(self).source@.subrange(old(self).start as int, old(self).current as int),
                    literal: literal@,
                    line: line as nat,
                },
            ),
            final(self).source == old(self).source,
            final(self).errors == old(self).errors,
            final(self).start == old(self).start,
            final(self).current == old(self).current,
            final(self).line == old(self).line,
    {
        let lexeme = string_of(&self.source.as_slice()[self.start..self.current]);
        self.tokens.push(Token { _type: kind, lexeme, literal, line });
        assert(self.emitted() =~= old(self).emitted().push(self.tokens@.last()@));
    }

    /// Records a lexical error against `line`.
    fn report(&mut self, line: usize, message: String)
        requires
            old(self).wf(),
        ensures
            final(self).wf(),
            final(self).reported() == old(self).reported().push(
                DiagnosticView { line: line as nat, message: message@ },
            ),
            final(self).source == old(self).source,
            final(self).tokens == old(self).tokens,
            final(self).start == old(self).start,
            final(self).current == old(self).current,
            final(self).line == old(self).line,
    {
        self.errors.push(Diagnostic { line, message });
        assert(self.reported() =~= old(self).reported().push(self.errors@.last()@));
    }

    /// `self` is `before` after taking step `st` from the lexeme's start.
    closed spec fn follows(self, before: Scanner, st: Step) -> bool {
        &&& self.wf()
        &&& self.source == before.source
        &&& self.start == before.start
        &&& self.current == st.end
        &&& self.line == st.line
        &&& self.emitted() == before.emitted() + opt_seq(st.token)
        &&& self.reported() == before.reported() + opt_seq(st.error)
    }

    /// Finishes a number whose first digit has been read.
    fn number(&mut self)
        requires
            old(self).wf(),
            old(self).current == old(self).start + 1,
            is_digit(old(self).source@[old(self).start as int]),
        ensures
            final(self).follows(*old(self), number_step(old(self).source@, old(self).start as int, old(self).line as nat)),
    {
        let ghost s = self.source@;
        let ghost start = self.start as int;
        proof {
            lemma_digits_end(s, start + 1);
        }
        while !self.is_at_end() && digit(self.peek())
            invariant
                self.wf(),
                self.source == old(self).source,
                self.source@ == s,
                self.start == old(self).start,
                self.line == old(self).line,
                self.tokens == old(self).tokens,
                self.errors == old(self).errors,
                start + 1 <= self.current,
                digits_end(s, self.current as int) == digits_end(s, start + 1),
            decreases s.len() - self.current,
        {
            self.advance();
        }
        assert(digits_end(s, start) == digits_end(s, start + 1));
        let ghost j = self.current as int;
        if self.peek() == '.' && digit(self.peek_next()) {
            self.advance();
            proof {
                lemma_digits_end(s, j + 1);
            }
            while !self.is_at_end() && digit(self.peek())
                invariant
                    self.wf(),
                    self.source == old(self).source,
                    self.source@ == s,
                    self.start == old(self).start,
                    self.line == old(self).line,
                    self.tokens == old(self).tokens,
                    self.errors == old(self).errors,
                    j + 1 <= self.current,
                    digits_end(s, self.current as int) == digits_end(s, j + 1),
                decreases s.len() - self.current,
            {
                self.advance();
            }
        }
        assert(self.current == number_end(s, start));
        let text = string_of(&self.source.as_slice()[self.start..self.current]);
        self.add_token(TokenType::NUMBER, Literal::Number(text), self.line);
        proof {
            let st = number_step(s, start, self.line as nat);
            assert(self.emitted() =~= old(self).emitted() + opt_seq(st.token));
            assert(self.reported() =~= old(self).reported() + opt_seq(st.error));
        }
    }

    /// Finishes an identifier or reserved word whose first letter has been read.
    fn identifier(&mut self)
        requires
            old(self).wf(),
            old(self).current == old(self).start + 1,
        ensures
            final(self).follows(*old(self), word_step(old(self).source@, old(self).start as int, old(self).line as nat)),
    {
        let ghost s = self.source@;
        let ghost start = self.start as int;
        proof {
            lemma_word_end(s, start + 1);
        }
        while !self.is_at_end() && is_alphanumeric(self.peek())
            invariant
                self.wf(),
                self.source == old(self).source,
                self.source@ == s,
                self.start == old(self).start,
                self.line == old(self).line,
                self.tokens == old(self).tokens,
                self.errors == old(self).errors,
                start + 1 <= self.current,
                word_end(s, self.current as int) == word_end(s, start + 1),
            decreases s.len() - self.current,
        {
            self.advance();
        }
        let kind = match keyword(&self.source.as_slice()[self.start..self.current]) {
            Some(k) => k,
            None => TokenType::IDENTIFIER,
        };
        assert(self.current == word_end(s, start + 1));
        self.add_token(kind, Literal::Nothing, self.line);
        proof {
            let st = word_step(s, start, self.line as nat);
            assert(self.emitted() =~= old(self).emitted() + opt_seq(st.token));
            assert(self.reported() =~= old(self).reported() + opt_seq(st.error));
        }
    }

    /// Finishes a string literal whose opening quote has been read.
    fn string(&mut self)
        requires
            old(self).wf(),
            old(self).current == old(self).start + 1,
            old(self).line <= old(self).current,
        ensures
            final(self).follows(*old(self), string_step(old(self).source@, old(self).start as int, old(self).line as nat)),
    {
        let ghost s = self.source@;
        let ghost start = self.start as int;
        let first = self.line;
        proof {
            lemma_quote_end(s, start + 1);
            assert(s.subrange(start + 1, start + 1) =~= Seq::<char>::empty());
        }
        while !self.is_at_end() && self.peek() != '"'
            invariant
                self.wf(),
                self.source == old(self).source,
                self.source@ == s,
                self.start == old(self).start,
                self.tokens == old(self).tokens,
                self.errors == old(self).errors,
                start == self.start,
                start + 1 <= self.current,
                quote_end(s, self.current as int) == quote_end(s, start + 1),
                self.line == first + newlines(s.subrange(start + 1, self.current as int)),
                self.line <= self.current,
            decreases s.len() - self.current,
        {
            let ghost cur = self.current as int;
            proof {
                let longer = s.subrange(start + 1, cur + 1);
                assert(longer.drop_last() =~= s.subrange(start + 1, cur));
                assert(longer.last() == s[cur]);
            }
            if self.peek() == '\n' {
                self.line = self.line + 1;
            }
            self.advance();
        }
        proof {
            lemma_newlines_bound(s.subrange(start + 1, self.current as int));
        }
        if self.is_at_end() {
            self.report(self.line, String::from_str("Unterminated string"));
            proof {
                let st = string_step(s, start, first as nat);
                assert(self.emitted() =~= old(self).emitted() + opt_seq(st.token));
                assert(self.reported() =~= old(self).reported() + opt_seq(st.error));
            }
            return;
        }
        self.advance();
        let value = string_of(&self.source.as_slice()[self.start + 1..self.current - 1]);
        self.add_token(TokenType::STRING, Literal::Text(value), first);
        proof {
            let st = string_step(s, start, first as nat);
            assert(self.emitted() =~= old(self).emitted() + opt_seq(st.token));
            assert(self.reported() =~= old(self).reported() + opt_seq(st.error));
        }
    }

    /// The message for a character that no rule accepts.
    fn unexpected(c: char) -> (r: String)
        ensures
            r@ == unexpected_message(c),
    {
        let mut tail: Vec<char> = Vec::new();
        tail.push(c);
        tail.push('\'');
        tail.push('.');
        let tail = string_of(tail.as_slice());
        let mut message = String::from_str("Unexpected character: '");
        message.append(tail.as_str());
        assert(tail@ =~= seq![c, '\'', '.']);
        message
    }

    /// Reads one lexeme from `start`: emits its token, reports its error, or
    /// discards it.
    #[verifier::rlimit(40)]
    fn scan_token(&mut self)
        requires
            old(self).wf(),
            old(self).start == old(self).current,
            old(self).current < old(self).source@.len(),
        ensures
            final(self).follows(*old(self), step(old(self).source@, old(self).start as int, old(self).line as nat)),
    {
        let ghost s = self.source@;
        let ghost start = self.start as int;
        let c = self.advance();
        match c {
            '(' => self.add_token(TokenType::LEFT_PAREN, Literal::Nothing, self.line),
            ')' => self.add_token(TokenType::RIGHT_PAREN, Literal::Nothing, self.line),
            '{' => self.add_token(TokenType::LEFT_BRACE, Literal::Nothing, self.line),
            '}' => self.add_token(TokenType::RIGHT_BRACE, Literal::Nothing, self.line),
            ',' => self.add_token(TokenType::COMMA, Literal::Nothing, self.line),
            '.' => self.add_token(TokenType::DOT, Literal::Nothing, self.line),
            '-' => self.add_token(TokenType::MINUS, Literal::Nothing, self.line),
            '+' => self.add_token(TokenType::PLUS, Literal::Nothing, self.line),
            ';' => self.add_token(TokenType::SEMICOLON, Literal::Nothing, self.line),
            '*' => self.add_token(TokenType::STAR, Literal::Nothing, self.line),
            '!' => {
                let kind = if self._match('=') { TokenType::BANG_EQUAL } else { TokenType::BANG };
                self.add_token(kind, Literal::Nothing, self.line);
            },
            '=' => {
                let kind = if self._match('=') { TokenType::EQUAL_EQUAL } else { TokenType::EQUAL };
                self.add_token(kind, Literal::Nothing, self.line);
            },
            '<' => {
                let kind = if self._match('=') { TokenType::LESS_EQUAL } else { TokenType::LESS };
                self.add_token(kind, Literal::Nothing, self.line);
            },
            '>' => {
                let kind = if self._match('=') { TokenType::GREATER_EQUAL } else { TokenType::GREATER };
                self.add_token(kind, Literal::Nothing, self.line);
            },
            '/' => {
                if self._match('/') {
                    proof {
                        lemma_line_end(s, start + 2);
                    }
                    while self.peek() != '\n' && !self.is_at_end()
                        invariant
                            self.wf(),
                            self.source == old(self).source,
                            self.source@ == s,
                            start == self.start,
                            self.line == old(self).line,
                            self.tokens == old(self).tokens,
                            self.errors == old(self).errors,
                            start + 2 <= self.current,
                            line_end(s, self.current as int) == line_end(s, start + 2),
                        decreases s.len() - self.current,
                    {
                        self.advance();
                    }
                } else {
                    self.add_token(TokenType::SLASH, Literal::Nothing, self.line);
                }
            },
            ' ' | '\r' | '\t' => {},
            '"' => self.string(),
            '\n' => {
                self.line = self.line + 1;
            },
            _ => {
                if digit(c) {
                    self.number();
                } else if is_alphabetic(c) {
                    self.identifier();
                } else {
                    self.report(self.line, Self::unexpected(c));
                }
            },
        }
        proof {
            let st = step(s, start, old(self).line as nat);
            assert(self.emitted() =~= old(self).emitted() + opt_seq(st.token));
            assert(self.reported() =~= old(self).reported() + opt_seq(st.error));
        }
    }

    /// Scans the rest of the text, then appends the end-of-input marker.
    /// Returns every token produced so far.
    pub fn scan_tokens(&mut self) -> (r: &Vec<Token>)
        requires
            old(self).wf(),
        ensures
            final(self).wf(),
            final(self).text() == old(self).text(),
            final(self).position() == old(self).text().len(),
            final(self).emitted() == old(self).emitted() + scan_from(
                old(self).text(),
                old(self).position(),
                old(self).current_line(),
            ).tokens,
            final(self).reported() == old(self).reported() + scan_from(
                old(self).text(),
                old(self).position(),
                old(self).current_line(),
            ).errors,
            token_views(r@) == final(self).emitted(),
            r@.len() > 0,
            r@.last()._type == TokenType::EOF,
    {
        let ghost s = self.source@;
        let ghost goal = scan_from(s, self.current as int, self.line as nat);
        while !self.is_at_end()
            invariant
                self.wf(),
                self.source@ == s,
                old(self).emitted() + goal.tokens == self.emitted() + scan_from(
                    s,
                    self.current as int,
                    self.line as nat,
                ).tokens,
                old(self).reported() + goal.errors == self.reported() + scan_from(
                    s,
                    self.current as int,
                    self.line as nat,
                ).errors,
            decreases s.len() - self.current,
        {
            self.start = self.current;
            let ghost before = *self;
            proof {
                lemma_step_bounds(s, self.current as int, self.line as nat);
            }
            self.scan_token();
            proof {
                let st = step(s, before.current as int, before.line as nat);
                assert(before.emitted() + scan_from(s, before.current as int, before.line as nat).tokens
                    =~= self.emitted() + scan_from(s, self.current as int, self.line as nat).tokens);
                assert(before.reported() + scan_from(s, before.current as int, before.line as nat).errors
                    =~= self.reported() + scan_from(s, self.current as int, self.line as nat).errors);
            }
        }
        let eof_line = self.line;
        let lexeme = String::new();
        self.tokens.push(Token { _type: TokenType::EOF, lexeme, literal: Literal::Nothing, line: eof_line });
        proof {
            let ends = scan_from(s, self.current as int, eof_line as nat);
            assert(ends.tokens =~= seq![eof(eof_line as nat)]);
            assert(ends.errors =~= Seq::<DiagnosticView>::empty());
            assert(self.emitted() =~= old(self).emitted() + goal.tokens);
            assert(self.reported() =~= old(self).reported() + goal.errors);
        }
        &self.tokens
    }

    /// The errors reported so far, in the order found.
    pub fn errors(&self) -> (r: &Vec<Diagnostic>)
        ensures
            diagnostic_views(r@) == self.reported(),
    {
        &self.errors
    }

    /// Whether any error has been reported.
    pub fn had_error(&self) -> (r: bool)
        ensures
            r == (self.reported().len() > 0),
    {
        self.errors.len() > 0
    }
}

/// Scans `source` whole: its tokens, ending with the end-of-input marker,
/// and the errors found, each in order.
pub fn scan(source: &str) -> (r: (Vec<Token>, Vec<Diagnostic>))
    requires
        source@.len() < usize::MAX,
    ensures
        token_views(r.0@) == crate::grammar::scan(source@).tokens,
        diagnostic_views(r.1@) == crate::grammar::scan(source@).errors,
        r.0@.len() > 0,
        r.0@.last()._type == TokenType::EOF,
{
    let mut scanner = Scanner::new(source);
    scanner.scan_tokens();
    assert(scanner.emitted() =~= crate::grammar::scan(source@).tokens);
    assert(scanner.reported() =~= crate::grammar::scan(source@).errors);
    proof {
        lemma_scan_ends_with_eof(source@, 0, 1);
        let n = scanner.tokens@.len();
        assert(token_views(scanner.tokens@)[n - 1] == scanner.tokens@[n - 1]@);
    }
    (scanner.tokens, scanner.errors)
}

} // verus!
