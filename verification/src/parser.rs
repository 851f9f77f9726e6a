//! The parser: one forward pass over the tokens with one token of lookahead,
//! statements by recursive descent and expressions by precedence climbing.
//!
//! What each function reads is stated by the function of the same construct
//! in `grammar`. A token that stands where the grammar does not allow it ends
//! the parse: the error carries that token, and no tree is given. No
//! placeholder ever stands for what could not be read. A return statement
//! without `;` runs to the end of input, and a block without `}` ends there.
//!
//! A parser owns its lexer and holds two tokens, the current one and the one
//! after it. It takes a token from the lexer each time it moves on; past the
//! last token it stands on the end-of-input marker.
use vstd::prelude::*;
use crate::ast::{
    expr_views, lemma_views_unfold, stmt_views, ExprView, Expression, Program, Statement, StmtView,
};
use crate::errors::Errors;
use crate::grammar::{
    alternative, as_array, as_block, at, block_items, called, expression, extend, function_literal,
    grouped, hash_pairs, if_expression, indexed, infixed, left, let_statement, list_items,
    list_tail, operator_text, parameters, parameters_tail, prefix, prefixed, program, returned,
    seek_terminator, skip_terminator, statement, step, terminated, Outcome,
};
use crate::lexer::{lemma_scan_advances, lemma_scan_end_again, tokens_from, Lexer};
use crate::pairs::add_pair;
use crate::shape::good_stmts;
use crate::sound::lemma_program;
use crate::text::{int_value, integer_value};
use crate::token::{eof_view, Precedence, Token, TokenKind, TokenView};

verus! {

/// The outcome that an expression parser reports, as a value of the grammar.
pub open spec fn expr_outcome(res: Result<Expression, Errors>, end: nat) -> Outcome<ExprView> {
    Outcome {
        value: match res {
            Ok(e) => Ok(e@),
            Err(err) => Err(err.offender()),
        },
        end,
    }
}

/// The outcome that a statement parser reports, as a value of the grammar.
pub open spec fn stmt_outcome(res: Result<Statement, Errors>, end: nat) -> Outcome<StmtView> {
    Outcome {
        value: match res {
            Ok(s) => Ok(s@),
            Err(err) => Err(err.offender()),
        },
        end,
    }
}

/// The outcome that a list parser reports, as a value of the grammar.
pub open spec fn exprs_outcome(res: Result<Vec<Expression>, Errors>, end: nat) -> Outcome<
    Seq<ExprView>,
> {
    Outcome {
        value: match res {
            Ok(v) => Ok(expr_views(v@)),
            Err(err) => Err(err.offender()),
        },
        end,
    }
}

/// The outcome that the parser of an optional block reports, as a value of
/// the grammar.
pub open spec fn branch_outcome(res: Result<Option<Box<Statement>>, Errors>, end: nat) -> Outcome<
    Option<Box<StmtView>>,
> {
    Outcome {
        value: match res {
            Ok(Some(b)) => Ok(Some(Box::new(b@))),
            Ok(None) => Ok(None),
            Err(err) => Err(err.offender()),
        },
        end,
    }
}

/// The outcome that parsing a program reports, as a value of the grammar.
pub open spec fn program_outcome(res: Result<Program, Errors>, end: nat) -> Outcome<
    Seq<StmtView>,
> {
    Outcome {
        value: match res {
            Ok(p) => Ok(p@),
            Err(err) => Err(err.offender()),
        },
        end,
    }
}

/// The token as a sequence: nothing for the end-of-input marker.
pub open spec fn live(t: TokenView) -> Seq<TokenView> {
    if t.kind == TokenKind::EOF {
        Seq::empty()
    } else {
        seq![t]
    }
}

/// A parser over the tokens of a lexer. It holds two tokens: the current
/// one, on which it stands, and the one after it. It takes a token from its
/// lexer each time it moves on.
pub struct Parser<'a> {
    lexer: Lexer<'a>,
    current_token: Token,
    next_token: Token,
    consumed: Ghost<Seq<TokenView>>,
}

impl<'a> Clone for Parser<'a> {
    /// A parser over the same tokens, at the same position.
    fn clone(&self) -> (p: Parser<'a>)
        ensures
            p.stream() == self.stream(),
            p.cursor() == self.cursor(),
    {
        proof {
            use_type_invariant(self);
            reveal(Parser::stream);
            reveal(Parser::cursor);
        }
        Parser {
            lexer: self.lexer.clone(),
            current_token: self.current_token.clone(),
            next_token: self.next_token.clone(),
            consumed: self.consumed,
        }
    }
}

impl<'a> Parser<'a> {
    /// Behind the end-of-input marker nothing follows: if the current token
    /// is the marker, so is the next, and if the next token is the marker,
    /// the lexer has no token left.
    #[verifier::type_invariant]
    spec fn bounded(&self) -> bool {
        &&& self.current_token@.kind == TokenKind::EOF ==> self.current_token@ == eof_view()
            && self.next_token@.kind == TokenKind::EOF
        &&& self.next_token@.kind == TokenKind::EOF ==> self.next_token@ == eof_view()
            && self.lexer.remaining().len() == 0
    }

    /// All tokens that the parser reads, those behind it too, without the
    /// end-of-input marker.
    #[verifier::opaque]
    pub closed spec fn stream(&self) -> Seq<TokenView> {
        self.consumed@ + (live(self.current_token@) + (live(self.next_token@)
            + self.lexer.remaining()))
    }

    /// The position of the current token in `stream()`.
    #[verifier::opaque]
    pub closed spec fn cursor(&self) -> nat {
        self.consumed@.len()
    }

    /// The view of the current token.
    pub open spec fn current(&self) -> TokenView {
        at(self.stream(), self.cursor())
    }

    /// The view of the token after the current one.
    pub open spec fn peek(&self) -> TokenView {
        at(self.stream(), self.cursor() + 1)
    }

    /// The two tokens that the parser holds are those at the cursor and
    /// after it.
    proof fn lemma_window(&self)
        requires
            self.bounded(),
        ensures
            self.current() == self.current_token@,
            self.peek() == self.next_token@,
            self.cursor() < self.stream().len() <==> self.current_token@.kind != TokenKind::EOF,
    {
        reveal(Parser::stream);
        reveal(Parser::cursor);
        let c = self.consumed@;
        let ahead = live(self.current_token@) + (live(self.next_token@) + self.lexer.remaining());
        assert(self.stream() == c + ahead);
        if self.current_token@.kind != TokenKind::EOF {
            assert(ahead[0] == self.current_token@);
            assert((c + ahead)[c.len() as int] == ahead[0]);
            if self.next_token@.kind != TokenKind::EOF {
                assert(ahead[1] == self.next_token@);
                assert((c + ahead)[c.len() as int + 1] == ahead[1]);
            } else {
                assert(ahead.len() == 1);
            }
        } else {
            assert(ahead.len() == 0);
        }
    }

    /// A parser over the tokens that `l` still has to give. It stands on the
    /// first of them.
    pub fn new(l: Lexer<'a>) -> (p: Parser<'a>)
        ensures
            p.stream() == l.remaining(),
            p.cursor() == 0,
    {
        let mut lexer = l;
        let ghost text = l.text();
        let ghost start = l.offset();
        let current = lexer.next_token();
        let ghost mid = lexer.offset();
        let next = lexer.next_token();
        proof {
            lemma_scan_advances(text, start);
            lemma_scan_advances(text, mid);
            if current@.kind == TokenKind::EOF {
                lemma_scan_end_again(text, start);
            }
            if next@.kind == TokenKind::EOF {
                lemma_scan_end_again(text, mid);
            }
            assert(tokens_from(text, start) =~= live(current@) + tokens_from(text, mid));
            assert(tokens_from(text, mid) =~= live(next@) + tokens_from(text, lexer.offset()));
        }
        let p = Parser {
            lexer,
            current_token: current,
            next_token: next,
            consumed: Ghost(Seq::empty()),
        };
        proof {
            reveal(Parser::stream);
            reveal(Parser::cursor);
            assert(p.stream() =~= l.remaining());
        }
        p
    }

    /// Moves to the next token: what was seen ahead becomes the current
    /// token, and the lexer gives the token to see ahead. At the end of input
    /// the parser stays where it is.
    pub fn next_token(&mut self)
        ensures
            final(self).stream() == old(self).stream(),
            final(self).cursor() == step(old(self).stream(), old(self).cursor()),
            final(self).current() == old(self).peek(),
    {
        proof {
            use_type_invariant(&*self);
            self.lemma_window();
            reveal(Parser::stream);
            reveal(Parser::cursor);
            reveal_strlit("");
        }
        let ghost text = self.lexer.text();
        let ghost before = self.lexer.offset();
        // The lexer steps outside the parser, which holds an empty one meanwhile.
        let mut lexer = Lexer::new("");
        core::mem::swap(&mut lexer, &mut self.lexer);
        let token = lexer.next_token();
        proof {
            lemma_scan_advances(text, before);
            if token@.kind == TokenKind::EOF {
                lemma_scan_end_again(text, before);
            }
            assert(tokens_from(text, before) =~= live(token@) + tokens_from(text, lexer.offset()));
        }
        core::mem::swap(&mut lexer, &mut self.lexer);
        proof {
            self.consumed@ = self.consumed@ + live(self.current_token@);
        }
        self.current_token = self.next_token.clone();
        self.next_token = token;
        proof {
            use_type_invariant(&*self);
            self.lemma_window();
            assert(self.stream() =~= old(self).stream());
        }
    }

    /// The current token.
    pub fn current_token(&self) -> (t: Token)
        ensures
            t@ == self.current(),
    {
        proof {
            use_type_invariant(self);
            self.lemma_window();
        }
        self.current_token.clone()
    }

    /// The token after the current one.
    pub fn peek_token(&self) -> (t: Token)
        ensures
            t@ == self.peek(),
    {
        proof {
            use_type_invariant(self);
            self.lemma_window();
        }
        self.next_token.clone()
    }

    /// The kind of the current token.
    fn current_kind(&self) -> (k: TokenKind)
        ensures
            k == self.current().kind,
    {
        proof {
            use_type_invariant(self);
            self.lemma_window();
        }
        self.current_token.token_type
    }

    /// The kind of the token after the current one.
    fn peek_kind(&self) -> (k: TokenKind)
        ensures
            k == self.peek().kind,
    {
        proof {
            use_type_invariant(self);
            self.lemma_window();
        }
        self.next_token.token_type
    }

    /// The binding strength of the current token.
    fn current_precedence(&self) -> (p: Precedence)
        ensures
            p == self.current().kind.precedence(),
    {
        self.current_kind().get_precedence()
    }

    /// The binding strength of the token after the current one.
    fn next_precedence(&self) -> (p: Precedence)
        ensures
            p == self.peek().kind.precedence(),
    {
        self.peek_kind().get_precedence()
    }

    /// Whether the current token is of the given kind.
    fn is_current_token(&self, token_kind: TokenKind) -> (b: bool)
        ensures
            b == (self.current().kind == token_kind),
    {
        self.current_kind() == token_kind
    }

    /// Whether the token after the current one is of the given kind.
    fn is_next_token(&self, token_kind: TokenKind) -> (b: bool)
        ensures
            b == (self.peek().kind == token_kind),
    {
        self.peek_kind() == token_kind
    }

    /// Moves onto the next token if it is of the given kind, and says whether
    /// it did.
    fn expect_next_token(&mut self, token_kind: TokenKind) -> (b: bool)
        ensures
            final(self).stream() == old(self).stream(),
            b == (old(self).peek().kind == token_kind),
            final(self).cursor() == if b {
                step(old(self).stream(), old(self).cursor())
            } else {
                old(self).cursor()
            },
    {
        if self.is_next_token(token_kind) {
            self.next_token();
            true
        } else {
            false
        }
    }

    /// The error that names the current token.
    fn reject_current(&self) -> (err: Errors)
        ensures
            err.offender() == self.current(),
    {
        Errors::TokenInvalid(self.current_token())
    }

    /// The error that names the token after the current one.
    fn reject_next(&self) -> (err: Errors)
        ensures
            err.offender() == self.peek(),
    {
        Errors::TokenInvalid(self.peek_token())
    }

    /// Reads statements up to the end of input. The result is the program, or
    /// the token that stands where the grammar does not allow it.
    #[verifier::rlimit(50)]
    #[verifier::spinoff_prover]
    pub fn parse_program(&mut self) -> (res: Result<Program, Errors>)
        ensures
            final(self).stream() == old(self).stream(),
            program_outcome(res, final(self).cursor()) == program(
                old(self).stream(),
                old(self).cursor(),
                Seq::empty(),
            ),
            final(self).cursor() >= old(self).cursor(),
            res matches Ok(p) ==> good_stmts(old(self).stream(), p@),
    {
        proof {
            lemma_program(old(self).stream(), old(self).cursor(), Seq::empty());
        }
        let mut statements: Vec<Statement> = Vec::new();
        assert(stmt_views(statements@) =~= Seq::empty());
        while !self.is_current_token(TokenKind::EOF)
            invariant
                self.stream() == old(self).stream(),
                self.cursor() >= old(self).cursor(),
                program(old(self).stream(), old(self).cursor(), Seq::empty()) == program(
                    self.stream(),
                    self.cursor(),
                    stmt_views(statements@),
                ),
            decreases left(self.stream(), self.cursor()),
        {
            let ghost acc = stmt_views(statements@);
            match self.parse_statement() {
                Ok(statement) => {
                    assert(stmt_views(statements@.push(statement)) =~= acc.push(statement@));
                    statements.push(statement);
                    self.next_token();
                },
                Err(err) => {
                    return Err(err);
                },
            }
        }
        Ok(Program { statements })
    }

    /// Reads the statement that starts with the current token.
    fn parse_statement(&mut self) -> (res: Result<Statement, Errors>)
        ensures
            final(self).stream() == old(self).stream(),
            final(self).cursor() >= old(self).cursor(),
            stmt_outcome(res, final(self).cursor()) == statement(
                old(self).stream(),
                old(self).cursor(),
            ),
        decreases left(old(self).stream(), old(self).cursor()), 4nat,
    {
        match self.current_kind() {
            TokenKind::LET => self.parse_let_statement(),
            TokenKind::RETURN => self.parse_return_statement(),
            _ => self.parse_expression_statement(),
        }
    }

    /// Reads a let statement: a name, `=`, and a value. A `;` after the value is
    /// consumed.
    #[verifier::rlimit(50)]
    #[verifier::spinoff_prover]
    fn parse_let_statement(&mut self) -> (res: Result<Statement, Errors>)
        requires
            old(self).current().kind == TokenKind::LET,
        ensures
            final(self).stream() == old(self).stream(),
            final(self).cursor() >= old(self).cursor(),
            stmt_outcome(res, final(self).cursor()) == let_statement(
                old(self).stream(),
                old(self).cursor(),
            ),
        decreases left(old(self).stream(), old(self).cursor()), 3nat,
    {
        self.next_token();
        if !self.is_current_token(TokenKind::IDENT) {
            return Err(self.reject_current());
        }
        let identifier = Expression::Identifier(self.parse_identifier());
        if !self.expect_next_token(TokenKind::ASSIGN) {
            return Err(self.reject_next());
        }
        self.next_token();
        let ghost ts = old(self).stream();
        let ghost p = old(self).cursor();
        assert(self.cursor() == p + 3);
        assert(identifier@ == ExprView::Identifier(at(ts, p + 1).literal));
        assert(at(ts, p + 1).kind == TokenKind::IDENT);
        assert(at(ts, p + 2).kind == TokenKind::ASSIGN);
        match self.parse_expression(Precedence::LOWEST) {
            Ok(value) => {
                let ghost c = self.cursor();
                assert(expression(ts, p + 3, Precedence::LOWEST) == Outcome::<ExprView> {
                    value: Ok(value@),
                    end: c,
                });
                if self.is_next_token(TokenKind::SEMICOLON) {
                    self.next_token();
                }
                assert(self.cursor() == skip_terminator(ts, c));
                let st = Statement::LetStatement { identifier, value };
                assert(st@ == StmtView::Let { identifier: identifier@, value: value@ });
                Ok(st)
            },
            Err(err) => Err(err),
        }
    }

    /// Reads a return statement: a value, then on to the next `;` or to the end
    /// of input.
    #[verifier::rlimit(50)]
    #[verifier::spinoff_prover]
    fn parse_return_statement(&mut self) -> (res: Result<Statement, Errors>)
        requires
            old(self).current().kind == TokenKind::RETURN,
        ensures
            final(self).stream() == old(self).stream(),
            final(self).cursor() >= old(self).cursor(),
            stmt_outcome(res, final(self).cursor()) == returned(
                old(self).stream(),
                expression(old(self).stream(), old(self).cursor() + 1, Precedence::LOWEST),
            ),
        decreases left(old(self).stream(), old(self).cursor()), 3nat,
    {
        self.next_token();
        match self.parse_expression(Precedence::LOWEST) {
            Ok(value) => {
                let ghost from = self.cursor();
                while !self.is_current_token(TokenKind::SEMICOLON) && !self.is_current_token(
                    TokenKind::EOF,
                )
                    invariant
                        self.stream() == old(self).stream(),
                        self.cursor() >= from,
                        seek_terminator(self.stream(), from) == seek_terminator(
                            self.stream(),
                            self.cursor(),
                        ),
                    decreases left(self.stream(), self.cursor()),
                {
                    self.next_token();
                }
                Ok(Statement::Return(value))
            },
            Err(err) => Err(err),
        }
    }

    /// Reads an expression as a statement. A `;` after it is consumed.
    fn parse_expression_statement(&mut self) -> (res: Result<Statement, Errors>)
        ensures
            final(self).stream() == old(self).stream(),
            final(self).cursor() >= old(self).cursor(),
            stmt_outcome(res, final(self).cursor()) == terminated(
                old(self).stream(),
                expression(old(self).stream(), old(self).cursor(), Precedence::LOWEST),
            ),
        decreases left(old(self).stream(), old(self).cursor()), 3nat,
    {
        match self.parse_expression(Precedence::LOWEST) {
            Ok(value) => {
                if self.is_next_token(TokenKind::SEMICOLON) {
                    self.next_token();
                }
                Ok(Statement::ExpressionStatement(value))
            },
            Err(err) => Err(err),
        }
    }

    /// Reads the expression that starts with the current token, with every
    /// operator that binds more strongly than `precedence`.
    #[verifier::rlimit(50)]
    #[verifier::spinoff_prover]
    fn parse_expression(&mut self, precedence: Precedence) -> (res: Result<Expression, Errors>)
        ensures
            final(self).stream() == old(self).stream(),
            final(self).cursor() >= old(self).cursor(),
            expr_outcome(res, final(self).cursor()) == expression(
                old(self).stream(),
                old(self).cursor(),
                precedence,
            ),
        decreases left(old(self).stream(), old(self).cursor()), 2nat,
    {
        let head = match self.current_kind() {
            TokenKind::IDENT => Ok(Expression::Identifier(self.parse_identifier())),
            TokenKind::STRING => Ok(Expression::String(self.parse_string())),
            TokenKind::INT => match self.parse_integer() {
                Ok(i) => Ok(Expression::Integer(i)),
                Err(err) => Err(err),
            },
            TokenKind::TRUE => Ok(Expression::Bool(true)),
            TokenKind::FALSE => Ok(Expression::Bool(false)),
            TokenKind::IF => self.parse_if_expression(),
            TokenKind::LPAREN => self.parse_grouped_expression(),
            TokenKind::LBRACE => self.parse_hash_literal(),
            TokenKind::LBRACKET => self.parse_array_literal(),
            TokenKind::FUNCTION => self.parse_function_expression(),
            TokenKind::BANG => self.parse_prefix_expression(),
            TokenKind::MINUS => self.parse_prefix_expression(),
            _ => Err(self.reject_current()),
        };
        assert(expr_outcome(head, self.cursor()) == prefix(old(self).stream(), old(self).cursor()));
        let mut exp = match head {
            Ok(e) => e,
            Err(err) => {
                return Err(err);
            },
        };
        while !self.is_next_token(TokenKind::SEMICOLON) && precedence.weaker_than(
            &self.next_precedence(),
        )
            invariant
                self.stream() == old(self).stream(),
                self.cursor() >= old(self).cursor(),
                expression(old(self).stream(), old(self).cursor(), precedence) == extend(
                    self.stream(),
                    self.cursor(),
                    exp@,
                    precedence,
                ),
                left(self.stream(), self.cursor()) <= left(old(self).stream(), old(self).cursor()),
            decreases left(self.stream(), self.cursor()),
        {
            let grown = match self.peek_kind() {
                TokenKind::PLUS | TokenKind::MINUS | TokenKind::SLASH | TokenKind::ASTERISK
                | TokenKind::EQ | TokenKind::NotEq | TokenKind::LT | TokenKind::GT => {
                    self.next_token();
                    self.parse_infix_expression(exp)
                },
                TokenKind::LPAREN => {
                    self.next_token();
                    self.parse_call_arguments(exp)
                },
                TokenKind::LBRACKET => {
                    self.next_token();
                    self.parse_index_expression(exp)
                },
                _ => {
                    return Ok(exp);
                },
            };
            match grown {
                Ok(e) => {
                    exp = e;
                },
                Err(err) => {
                    return Err(err);
                },
            }
        }
        Ok(exp)
    }

    /// The name that the current token holds.
    fn parse_identifier(&self) -> (s: String)
        ensures
            s@ == self.current().literal,
    {
        self.current_token().literal
    }

    /// The text that the current token holds.
    fn parse_string(&self) -> (s: String)
        ensures
            s@ == self.current().literal,
    {
        self.current_token().literal
    }

    /// The value of the integer literal that the current token holds, or the
    /// error that names it.
    fn parse_integer(&self) -> (res: Result<i32, Errors>)
        ensures
            match res {
                Ok(i) => int_value(self.current().literal) == Some(i as int),
                Err(err) => int_value(self.current().literal) is None && err.offender()
                    == self.current(),
            },
    {
        let token = self.current_token();
        match integer_value(token.literal.as_str()) {
            Some(i) => Ok(i),
            None => Err(Errors::TokenInvalid(token)),
        }
    }

    /// Reads a hash literal whose `{` is the current token.
    #[verifier::rlimit(50)]
    #[verifier::spinoff_prover]
    fn parse_hash_literal(&mut self) -> (res: Result<Expression, Errors>)
        requires
            old(self).current().kind == TokenKind::LBRACE,
        ensures
            final(self).stream() == old(self).stream(),
            final(self).cursor() >= old(self).cursor(),
            expr_outcome(res, final(self).cursor()) == hash_pairs(
                old(self).stream(),
                old(self).cursor() + 1,
                Seq::empty(),
            ),
        decreases left(old(self).stream(), old(self).cursor()), 0nat,
    {
        let mut pairs: Vec<(Expression, Expression)> = Vec::new();
        assert(crate::ast::pair_views(pairs@) =~= Seq::empty());
        self.next_token();
        while !self.is_current_token(TokenKind::RBRACE)
            invariant
                self.stream() == old(self).stream(),
                self.cursor() > old(self).cursor(),
                left(self.stream(), self.cursor()) < left(old(self).stream(), old(self).cursor())
                    || self.cursor() >= self.stream().len(),
                old(self).cursor() < old(self).stream().len(),
                hash_pairs(old(self).stream(), old(self).cursor() + 1, Seq::empty()) == hash_pairs(
                    self.stream(),
                    self.cursor(),
                    crate::ast::pair_views(pairs@),
                ),
            decreases left(self.stream(), self.cursor()),
        {
            let key = match self.parse_expression(Precedence::LOWEST) {
                Ok(e) => e,
                Err(err) => {
                    return Err(err);
                },
            };
            if !self.expect_next_token(TokenKind::COLON) {
                return Err(self.reject_next());
            }
            self.next_token();
            let value = match self.parse_expression(Precedence::LOWEST) {
                Ok(e) => e,
                Err(err) => {
                    return Err(err);
                },
            };
            add_pair(&mut pairs, key, value);
            if self.is_next_token(TokenKind::RBRACE) {
                self.next_token();
                let e = Expression::Hashmap(pairs);
                proof {
                    lemma_views_unfold(e);
                }
                return Ok(e);
            }
            if !self.expect_next_token(TokenKind::COMMA) {
                return Err(self.reject_next());
            }
            self.next_token();
        }
        let e = Expression::Hashmap(pairs);
        proof {
            lemma_views_unfold(e);
        }
        Ok(e)
    }

    /// Reads an array literal whose `[` is the current token.
    fn parse_array_literal(&mut self) -> (res: Result<Expression, Errors>)
        requires
            old(self).current().kind == TokenKind::LBRACKET,
        ensures
            final(self).stream() == old(self).stream(),
            final(self).cursor() >= old(self).cursor(),
            expr_outcome(res, final(self).cursor()) == as_array(
                list_items(old(self).stream(), old(self).cursor() + 1, TokenKind::RBRACKET),
            ),
        decreases left(old(self).stream(), old(self).cursor()), 1nat,
    {
        match self.parse_expression_list(TokenKind::RBRACKET) {
            Ok(list) => {
                let e = Expression::Array(list);
                proof {
                    lemma_views_unfold(e);
                }
                Ok(e)
            },
            Err(err) => Err(err),
        }
    }

    /// Reads a comma-separated list of expressions after the current token,
    /// up to the closing token of kind `end`.
    #[verifier::rlimit(50)]
    #[verifier::spinoff_prover]
    fn parse_expression_list(&mut self, end: TokenKind) -> (res: Result<Vec<Expression>, Errors>)
        requires
            old(self).current().kind != TokenKind::EOF,
            end != TokenKind::EOF,
        ensures
            final(self).stream() == old(self).stream(),
            final(self).cursor() > old(self).cursor(),
            exprs_outcome(res, final(self).cursor()) == list_items(
                old(self).stream(),
                old(self).cursor() + 1,
                end,
            ),
        decreases left(old(self).stream(), old(self).cursor()), 0nat,
    {
        let mut list: Vec<Expression> = Vec::new();
        assert(expr_views(list@) =~= Seq::empty());
        if self.is_next_token(end) {
            self.next_token();
            return Ok(list);
        }
        self.next_token();
        match self.parse_expression(Precedence::LOWEST) {
            Ok(e) => {
                assert(expr_views(list@.push(e)) =~= seq![e@]);
                list.push(e);
            },
            Err(err) => {
                return Err(err);
            },
        }
        while self.is_next_token(TokenKind::COMMA)
            invariant
                self.stream() == old(self).stream(),
                self.cursor() > old(self).cursor(),
                old(self).cursor() < old(self).stream().len(),
                end != TokenKind::EOF,
                list_items(old(self).stream(), old(self).cursor() + 1, end) == list_tail(
                    self.stream(),
                    self.cursor(),
                    end,
                    expr_views(list@),
                ),
            decreases left(self.stream(), self.cursor()),
        {
            self.next_token();
            self.next_token();
            let ghost acc = expr_views(list@);
            match self.parse_expression(Precedence::LOWEST) {
                Ok(e) => {
                    assert(expr_views(list@.push(e)) =~= acc.push(e@));
                    list.push(e);
                },
                Err(err) => {
                    return Err(err);
                },
            }
        }
        if self.expect_next_token(end) {
            Ok(list)
        } else {
            Err(self.reject_next())
        }
    }

    /// Reads the subscript of `left_side`, whose `[` is the current token.
    #[verifier::rlimit(50)]
    #[verifier::spinoff_prover]
    fn parse_index_expression(&mut self, left_side: Expression) -> (res: Result<
        Expression,
        Errors,
    >)
        requires
            old(self).current().kind == TokenKind::LBRACKET,
        ensures
            final(self).stream() == old(self).stream(),
            final(self).cursor() > old(self).cursor(),
            expr_outcome(res, final(self).cursor()) == indexed(
                old(self).stream(),
                left_side@,
                expression(old(self).stream(), old(self).cursor() + 1, Precedence::LOWEST),
            ),
        decreases left(old(self).stream(), old(self).cursor()), 0nat,
    {
        self.next_token();
        match self.parse_expression(Precedence::LOWEST) {
            Ok(index) => {
                if !self.expect_next_token(TokenKind::RBRACKET) {
                    return Err(self.reject_next());
                }
                Ok(
                    Expression::IndexExpression {
                        array: Box::new(left_side),
                        subscript: Box::new(index),
                    },
                )
            },
            Err(err) => Err(err),
        }
    }

    /// Reads a parenthesised expression whose `(` is the current token.
    #[verifier::rlimit(50)]
    #[verifier::spinoff_prover]
    fn parse_grouped_expression(&mut self) -> (res: Result<Expression, Errors>)
        requires
            old(self).current().kind == TokenKind::LPAREN,
        ensures
            final(self).stream() == old(self).stream(),
            final(self).cursor() >= old(self).cursor(),
            expr_outcome(res, final(self).cursor()) == grouped(
                old(self).stream(),
                expression(old(self).stream(), old(self).cursor() + 1, Precedence::LOWEST),
            ),
        decreases left(old(self).stream(), old(self).cursor()), 0nat,
    {
        self.next_token();
        match self.parse_expression(Precedence::LOWEST) {
            Ok(inner) => {
                if self.expect_next_token(TokenKind::RPAREN) {
                    Ok(inner)
                } else {
                    Err(self.reject_next())
                }
            },
            Err(err) => Err(err),
        }
    }

    /// Reads a conditional whose `if` is the current token.
    #[verifier::rlimit(50)]
    #[verifier::spinoff_prover]
    fn parse_if_expression(&mut self) -> (res: Result<Expression, Errors>)
        requires
            old(self).current().kind == TokenKind::IF,
        ensures
            final(self).stream() == old(self).stream(),
            final(self).cursor() >= old(self).cursor(),
            expr_outcome(res, final(self).cursor()) == if_expression(
                old(self).stream(),
                old(self).cursor(),
            ),
        decreases left(old(self).stream(), old(self).cursor()), 0nat,
    {
        if !self.is_next_token(TokenKind::LPAREN) {
            return Err(self.reject_next());
        }
        self.next_token();
        let condition = match self.parse_expression(Precedence::LOWEST) {
            Ok(e) => e,
            Err(err) => {
                return Err(err);
            },
        };
        if !self.expect_next_token(TokenKind::LBRACE) {
            return Err(self.reject_next());
        }
        let consequence = match self.parse_block_statements() {
            Ok(b) => b,
            Err(err) => {
                return Err(err);
            },
        };
        let other = match self.alternative() {
            Ok(a) => a,
            Err(err) => {
                return Err(err);
            },
        };
        Ok(
            Expression::IfExpression {
                condition: Box::new(condition),
                consequence: Box::new(consequence),
                alternative: other,
            },
        )
    }

    /// Reads the statements of a block whose `{` is the current token, up to
    /// its `}` or the end of input.
    #[verifier::rlimit(50)]
    #[verifier::spinoff_prover]
    fn parse_block_statements(&mut self) -> (res: Result<Statement, Errors>)
        requires
            old(self).current().kind == TokenKind::LBRACE,
        ensures
            final(self).stream() == old(self).stream(),
            final(self).cursor() > old(self).cursor(),
            stmt_outcome(res, final(self).cursor()) == as_block(
                block_items(old(self).stream(), old(self).cursor() + 1, Seq::empty()),
            ),
        decreases left(old(self).stream(), old(self).cursor()), 0nat,
    {
        self.next_token();
        let mut statements: Vec<Statement> = Vec::new();
        assert(stmt_views(statements@) =~= Seq::empty());
        while !self.is_current_token(TokenKind::RBRACE) && !self.is_current_token(TokenKind::EOF)
            invariant
                self.stream() == old(self).stream(),
                self.cursor() > old(self).cursor(),
                old(self).cursor() < old(self).stream().len(),
                block_items(old(self).stream(), old(self).cursor() + 1, Seq::empty())
                    == block_items(self.stream(), self.cursor(), stmt_views(statements@)),
            decreases left(self.stream(), self.cursor()),
        {
            let ghost acc = stmt_views(statements@);
            match self.parse_statement() {
                Ok(statement) => {
                    assert(stmt_views(statements@.push(statement)) =~= acc.push(statement@));
                    statements.push(statement);
                    self.next_token();
                },
                Err(err) => {
                    return Err(err);
                },
            }
        }
        let block = Statement::Block(statements);
        proof {
            crate::ast::lemma_block_view(block);
        }
        Ok(block)
    }

    /// Reads the `else` branch of a conditional, if there is one.
    #[verifier::rlimit(50)]
    #[verifier::spinoff_prover]
    fn alternative(&mut self) -> (res: Result<Option<Box<Statement>>, Errors>)
        ensures
            final(self).stream() == old(self).stream(),
            final(self).cursor() >= old(self).cursor(),
            branch_outcome(res, final(self).cursor()) == alternative(
                old(self).stream(),
                old(self).cursor(),
            ),
        decreases left(old(self).stream(), old(self).cursor()), 0nat,
    {
        if self.is_next_token(TokenKind::ELSE) {
            self.next_token();
            if self.expect_next_token(TokenKind::LBRACE) {
                match self.parse_block_statements() {
                    Ok(b) => Ok(Some(Box::new(b))),
                    Err(err) => Err(err),
                }
            } else {
                Err(self.reject_next())
            }
        } else {
            Ok(None)
        }
    }

    /// Reads a function literal whose `fn` is the current token.
    #[verifier::rlimit(50)]
    #[verifier::spinoff_prover]
    fn parse_function_expression(&mut self) -> (res: Result<Expression, Errors>)
        requires
            old(self).current().kind == TokenKind::FUNCTION,
        ensures
            final(self).stream() == old(self).stream(),
            final(self).cursor() >= old(self).cursor(),
            expr_outcome(res, final(self).cursor()) == function_literal(
                old(self).stream(),
                old(self).cursor(),
            ),
        decreases left(old(self).stream(), old(self).cursor()), 0nat,
    {
        if !self.expect_next_token(TokenKind::LPAREN) {
            return Err(self.reject_next());
        }
        let parameters = match self.parse_function_parameters() {
            Ok(p) => p,
            Err(err) => {
                return Err(err);
            },
        };
        if !self.expect_next_token(TokenKind::LBRACE) {
            return Err(self.reject_next());
        }
        match self.parse_block_statements() {
            Ok(body) => {
                let e = Expression::FunctionLiteral { parameters, body: Box::new(body) };
                proof {
                    lemma_views_unfold(e);
                }
                Ok(e)
            },
            Err(err) => Err(err),
        }
    }

    /// Reads the parameter names of a function literal whose `(` is the
    /// current token.
    #[verifier::rlimit(50)]
    #[verifier::spinoff_prover]
    fn parse_function_parameters(&mut self) -> (res: Result<Vec<Expression>, Errors>)
        requires
            old(self).current().kind == TokenKind::LPAREN,
        ensures
            final(self).stream() == old(self).stream(),
            final(self).cursor() >= old(self).cursor(),
            exprs_outcome(res, final(self).cursor()) == parameters(
                old(self).stream(),
                old(self).cursor(),
            ),
    {
        let mut identifiers: Vec<Expression> = Vec::new();
        assert(expr_views(identifiers@) =~= Seq::empty());
        if self.is_next_token(TokenKind::RPAREN) {
            self.next_token();
            return Ok(identifiers);
        }
        if !self.expect_next_token(TokenKind::IDENT) {
            return Err(self.reject_next());
        }
        let first = Expression::Identifier(self.parse_identifier());
        assert(expr_views(identifiers@.push(first)) =~= seq![first@]);
        identifiers.push(first);
        while self.is_next_token(TokenKind::COMMA)
            invariant
                self.stream() == old(self).stream(),
                self.cursor() > old(self).cursor(),
                parameters(old(self).stream(), old(self).cursor()) == parameters_tail(
                    self.stream(),
                    self.cursor(),
                    expr_views(identifiers@),
                ),
            decreases left(self.stream(), self.cursor()),
        {
            self.next_token();
            if !self.expect_next_token(TokenKind::IDENT) {
                return Err(self.reject_next());
            }
            let ghost acc = expr_views(identifiers@);
            let name = Expression::Identifier(self.parse_identifier());
            assert(expr_views(identifiers@.push(name)) =~= acc.push(name@));
            identifiers.push(name);
        }
        if self.expect_next_token(TokenKind::RPAREN) {
            Ok(identifiers)
        } else {
            Err(self.reject_next())
        }
    }

    /// Reads the arguments of a call of `func`, whose `(` is the current token.
    fn parse_call_arguments(&mut self, func: Expression) -> (res: Result<Expression, Errors>)
        requires
            old(self).current().kind == TokenKind::LPAREN,
        ensures
            final(self).stream() == old(self).stream(),
            final(self).cursor() > old(self).cursor(),
            expr_outcome(res, final(self).cursor()) == called(
                func@,
                list_items(old(self).stream(), old(self).cursor() + 1, TokenKind::RPAREN),
            ),
        decreases left(old(self).stream(), old(self).cursor()), 1nat,
    {
        match self.parse_expression_list(TokenKind::RPAREN) {
            Ok(arguments) => {
                let e = Expression::CallExpression { function: Box::new(func), body: arguments };
                proof {
                    lemma_views_unfold(e);
                }
                Ok(e)
            },
            Err(err) => Err(err),
        }
    }

    /// Reads a prefix operation whose operator is the current token.
    #[verifier::rlimit(50)]
    #[verifier::spinoff_prover]
    fn parse_prefix_expression(&mut self) -> (res: Result<Expression, Errors>)
        requires
            old(self).current().kind == TokenKind::BANG || old(self).current().kind
                == TokenKind::MINUS,
        ensures
            final(self).stream() == old(self).stream(),
            final(self).cursor() >= old(self).cursor(),
            expr_outcome(res, final(self).cursor()) == prefixed(
                operator_text(old(self).current().kind),
                expression(old(self).stream(), old(self).cursor() + 1, Precedence::PREFIX),
            ),
        decreases left(old(self).stream(), old(self).cursor()), 0nat,
    {
        let operator = match self.current_kind() {
            TokenKind::BANG => String::from_str("!"),
            _ => String::from_str("-"),
        };
        self.next_token();
        match self.parse_expression(Precedence::PREFIX) {
            Ok(right) => Ok(
                Expression::PrefixExpression { operator, right_expression: Box::new(right) },
            ),
            Err(err) => Err(err),
        }
    }

    /// Reads the right operand of the binary operator that is the current
    /// token, and joins it to `left_side`.
    #[verifier::rlimit(50)]
    #[verifier::spinoff_prover]
    fn parse_infix_expression(&mut self, left_side: Expression) -> (res: Result<
        Expression,
        Errors,
    >)
        requires
            old(self).current().kind.is_binary_operator(),
        ensures
            final(self).stream() == old(self).stream(),
            final(self).cursor() > old(self).cursor(),
            expr_outcome(res, final(self).cursor()) == infixed(
                left_side@,
                operator_text(old(self).current().kind),
                expression(
                    old(self).stream(),
                    old(self).cursor() + 1,
                    old(self).current().kind.precedence(),
                ),
            ),
        decreases left(old(self).stream(), old(self).cursor()), 0nat,
    {
        let operator = match self.current_kind() {
            TokenKind::PLUS => String::from_str("+"),
            TokenKind::MINUS => String::from_str("-"),
            TokenKind::ASTERISK => String::from_str("*"),
            TokenKind::SLASH => String::from_str("/"),
            TokenKind::EQ => String::from_str("=="),
            TokenKind::NotEq => String::from_str("!="),
            TokenKind::LT => String::from_str("<"),
            _ => String::from_str(">"),
        };
        let precedence = self.current_precedence();
        self.next_token();
        match self.parse_expression(precedence) {
            Ok(right) => Ok(
                Expression::InfixExpression {
                    left_expression: Box::new(left_side),
                    operator,
                    right_expression: Box::new(right),
                },
            ),
            Err(err) => Err(err),
        }
    }
}

} // verus!
