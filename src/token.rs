use vstd::prelude::*;

verus! {

/// The kind of a lexical unit.
#[allow(non_camel_case_types)]
#[derive(Clone, Copy, Debug, PartialEq, Eq, Structural)]
pub enum TokenType {
    LEFT_PAREN,
    RIGHT_PAREN,
    LEFT_BRACE,
    RIGHT_BRACE,
    COMMA,
    DOT,
    MINUS,
    PLUS,
    SEMICOLON,
    SLASH,
    STAR,
    BANG,
    BANG_EQUAL,
    EQUAL,
    EQUAL_EQUAL,
    LESS_EQUAL,
    LESS,
    GREATER_EQUAL,
    GREATER,
    STRING,
    NUMBER,
    IDENTIFIER,
    IF,
    NIL,
    WHILE,
    TRUE,
    FALSE,
    EOF,
}

/// The decoded value that a literal token carries.
///
/// A number is kept as its decimal spelling (digits, then optionally a dot
/// and more digits); turning it into a binary floating-point value is left
/// to the consumer.
#[derive(Clone, Debug, PartialEq, Eq)]
pub enum Literal {
    Nothing,
    Text(String),
    Number(String),
}

/// The mathematical value of a [`Literal`].
pub enum LiteralView {
    Nothing,
    Text(Seq<char>),
    Number(Seq<char>),
}

impl View for Literal {
    type V = LiteralView;

    open spec fn view(&self) -> LiteralView {
        match self {
            Literal::Nothing => LiteralView::Nothing,
            Literal::Text(s) => LiteralView::Text(s@),
            Literal::Number(s) => LiteralView::Number(s@),
        }
    }
}

/// One classified lexeme of the source, with the line on which it began.
#[derive(Clone, Debug)]
pub struct Token {
    pub _type: TokenType,
    pub lexeme: String,
    pub literal: Literal,
    pub line: usize,
}

/// The mathematical value of a [`Token`].
pub struct TokenView {
    pub kind: TokenType,
    pub lexeme: Seq<char>,
    pub literal: LiteralView,
    pub line: nat,
}

impl View for Token {
    type V = TokenView;

    open spec fn view(&self) -> TokenView {
        TokenView {
            kind: self._type,
            lexeme: self.lexeme@,
            literal: self.literal@,
            line: self.line as nat,
        }
    }
}

/// A lexical error, reported against the line on which it was found.
#[derive(Clone, Debug)]
pub struct Diagnostic {
    pub line: usize,
    pub message: String,
}

/// The mathematical value of a [`Diagnostic`].
pub struct DiagnosticView {
    pub line: nat,
    pub message: Seq<char>,
}

impl View for Diagnostic {
    type V = DiagnosticView;

    open spec fn view(&self) -> DiagnosticView {
        DiagnosticView { line: self.line as nat, message: self.message@ }
    }
}

} // verus!
