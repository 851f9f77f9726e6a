//! Tokens: the classified lexical units the parser consumes, and the binding
//! strength attached to each kind.
use vstd::prelude::*;

verus! {

/// The classification of a token.
#[allow(non_camel_case_types)]
#[derive(Debug, Clone, Copy, PartialEq, Eq, Structural)]
pub enum TokenKind {
    ILLEGAL,
    EOF,
    IDENT,
    INT,
    STRING,
    ASSIGN,
    PLUS,
    MINUS,
    BANG,
    ASTERISK,
    SLASH,
    LT,
    GT,
    EQ,
    NotEq,
    COMMA,
    SEMICOLON,
    COLON,
    LPAREN,
    RPAREN,
    LBRACE,
    RBRACE,
    LBRACKET,
    RBRACKET,
    FUNCTION,
    LET,
    TRUE,
    FALSE,
    IF,
    ELSE,
    RETURN,
}

/// Binding strength of an operator, weakest first.
#[allow(non_camel_case_types)]
#[derive(Debug, Clone, Copy, PartialEq, Eq, Structural)]
pub enum Precedence {
    LOWEST,
    EQUALS,
    LESSGREATER,
    SUM,
    PRODUCT,
    PREFIX,
    CALL,
}

impl Precedence {
    /// The position of this strength in the order `LOWEST < EQUALS <
    /// LESSGREATER < SUM < PRODUCT < PREFIX < CALL`.
    pub open spec fn level(self) -> nat {
        match self {
            Precedence::LOWEST => 0,
            Precedence::EQUALS => 1,
            Precedence::LESSGREATER => 2,
            Precedence::SUM => 3,
            Precedence::PRODUCT => 4,
            Precedence::PREFIX => 5,
            Precedence::CALL => 6,
        }
    }

    /// The position of this strength in the order, as a machine integer.
    pub fn rank(&self) -> (r: u8)
        ensures
            r == self.level(),
    {
        match self {
            Precedence::LOWEST => 0,
            Precedence::EQUALS => 1,
            Precedence::LESSGREATER => 2,
            Precedence::SUM => 3,
            Precedence::PRODUCT => 4,
            Precedence::PREFIX => 5,
            Precedence::CALL => 6,
        }
    }

    /// Whether `self` binds strictly weaker than `other`.
    pub fn weaker_than(&self, other: &Precedence) -> (r: bool)
        ensures
            r == (self.level() < other.level()),
    {
        self.rank() < other.rank()
    }
}

impl TokenKind {
    /// The binding strength of a token kind when it stands after an operand.
    /// Kinds that are not operators bind at `LOWEST`.
    pub open spec fn precedence(self) -> Precedence {
        match self {
            TokenKind::EQ | TokenKind::NotEq => Precedence::EQUALS,
            TokenKind::LT | TokenKind::GT => Precedence::LESSGREATER,
            TokenKind::PLUS | TokenKind::MINUS => Precedence::SUM,
            TokenKind::ASTERISK | TokenKind::SLASH => Precedence::PRODUCT,
            TokenKind::LPAREN | TokenKind::LBRACKET => Precedence::CALL,
            _ => Precedence::LOWEST,
        }
    }

    /// Whether the kind is one of the eight binary operators.
    pub open spec fn is_binary_operator(self) -> bool {
        matches!(
            self,
            TokenKind::PLUS | TokenKind::MINUS | TokenKind::ASTERISK | TokenKind::SLASH
                | TokenKind::EQ | TokenKind::NotEq | TokenKind::LT | TokenKind::GT
        )
    }

    /// The binding strength of this kind.
    pub fn get_precedence(&self) -> (p: Precedence)
        ensures
            p == self.precedence(),
    {
        match self {
            TokenKind::EQ | TokenKind::NotEq => Precedence::EQUALS,
            TokenKind::LT | TokenKind::GT => Precedence::LESSGREATER,
            TokenKind::PLUS | TokenKind::MINUS => Precedence::SUM,
            TokenKind::ASTERISK | TokenKind::SLASH => Precedence::PRODUCT,
            TokenKind::LPAREN | TokenKind::LBRACKET => Precedence::CALL,
            _ => Precedence::LOWEST,
        }
    }
}

/// A token: its kind and the text it was read from.
#[derive(Debug, PartialEq, Eq)]
pub struct Token {
    pub token_type: TokenKind,
    pub literal: String,
}

/// The mathematical value of a token.
pub ghost struct TokenView {
    pub kind: TokenKind,
    pub literal: Seq<char>,
}

impl View for Token {
    type V = TokenView;

    open spec fn view(&self) -> TokenView {
        TokenView { kind: self.token_type, literal: self.literal@ }
    }
}

impl Clone for Token {
    fn clone(&self) -> (t: Token)
        ensures
            t == *self,
    {
        Token { token_type: self.token_type, literal: self.literal.clone() }
    }
}

impl Token {
    /// A token of the given kind and text.
    pub fn new(token_type: TokenKind, literal: &str) -> (t: Token)
        ensures
            t@ == (TokenView { kind: token_type, literal: literal@ }),
    {
        Token { token_type, literal: String::from_str(literal) }
    }

    /// The binding strength of this token's kind.
    pub fn get_precedence(&self) -> (p: Precedence)
        ensures
            p == self@.kind.precedence(),
    {
        self.token_type.get_precedence()
    }
}

/// The view of the end-of-input marker: kind `EOF`, empty text.
pub open spec fn eof_view() -> TokenView {
    TokenView { kind: TokenKind::EOF, literal: Seq::empty() }
}

/// The views of a sequence of tokens.
pub open spec fn token_views(tokens: Seq<Token>) -> Seq<TokenView> {
    tokens.map_values(|t: Token| t@)
}

} // verus!
