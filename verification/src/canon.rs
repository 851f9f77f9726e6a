//! The canonical tokens of a tree: the token sequence that writes it with
//! every operation in parentheses and every statement closed by `;`.
use vstd::prelude::*;
use crate::ast::{
    expr_view, expr_views, lemma_block_view, lemma_views_unfold, pair_views, stmt_view, stmt_views,
    ExprView, Expression, Program, Statement, StmtView,
};
use crate::grammar::{alternative, done, left, operator_text, parameters};
use crate::text::{compare_text, int_text, render_int, TextOrder};
use crate::token::{token_views, Token, TokenKind, TokenView};

verus! {

/// The text of a token whose kind fixes it; empty for the other kinds.
pub open spec fn kind_text(k: TokenKind) -> Seq<char> {
    match k {
        TokenKind::ASSIGN => "="@,
        TokenKind::PLUS => "+"@,
        TokenKind::MINUS => "-"@,
        TokenKind::BANG => "!"@,
        TokenKind::ASTERISK => "*"@,
        TokenKind::SLASH => "/"@,
        TokenKind::LT => "<"@,
        TokenKind::GT => ">"@,
        TokenKind::EQ => "=="@,
        TokenKind::NotEq => "!="@,
        TokenKind::COMMA => ","@,
        TokenKind::SEMICOLON => ";"@,
        TokenKind::COLON => ":"@,
        TokenKind::LPAREN => "("@,
        TokenKind::RPAREN => ")"@,
        TokenKind::LBRACE => "{"@,
        TokenKind::RBRACE => "}"@,
        TokenKind::LBRACKET => "["@,
        TokenKind::RBRACKET => "]"@,
        TokenKind::FUNCTION => "fn"@,
        TokenKind::LET => "let"@,
        TokenKind::TRUE => "true"@,
        TokenKind::FALSE => "false"@,
        TokenKind::IF => "if"@,
        TokenKind::ELSE => "else"@,
        TokenKind::RETURN => "return"@,
        _ => Seq::empty(),
    }
}

/// The token of a kind that fixes its text.
pub open spec fn mark(k: TokenKind) -> TokenView {
    TokenView { kind: k, literal: kind_text(k) }
}

/// The one-token sequence of a kind that fixes its text.
pub open spec fn one(k: TokenKind) -> Seq<TokenView> {
    seq![mark(k)]
}

/// The kind of the prefix operator with text `op`.
pub open spec fn prefix_kind(op: Seq<char>) -> TokenKind {
    if op == operator_text(TokenKind::BANG) {
        TokenKind::BANG
    } else {
        TokenKind::MINUS
    }
}

/// The kind of the binary operator with text `op`.
pub open spec fn infix_kind(op: Seq<char>) -> TokenKind {
    if op == operator_text(TokenKind::PLUS) {
        TokenKind::PLUS
    } else if op == operator_text(TokenKind::MINUS) {
        TokenKind::MINUS
    } else if op == operator_text(TokenKind::ASTERISK) {
        TokenKind::ASTERISK
    } else if op == operator_text(TokenKind::SLASH) {
        TokenKind::SLASH
    } else if op == operator_text(TokenKind::EQ) {
        TokenKind::EQ
    } else if op == operator_text(TokenKind::NotEq) {
        TokenKind::NotEq
    } else if op == operator_text(TokenKind::LT) {
        TokenKind::LT
    } else {
        TokenKind::GT
    }
}

/// The canonical tokens of an expression.
///
/// A literal or an identifier is one token. A prefix operation is
/// `( op x )`, a binary operation `( x op y )`, a call `( f ( a , b ) )`, a
/// subscript `( x [ i ] )`. The condition of `if` stands in parentheses of
/// its own. The absent value has no tokens.
pub open spec fn expr_tokens(e: ExprView) -> Seq<TokenView>
    decreases e,
{
    match e {
        ExprView::Identifier(s) => seq![TokenView { kind: TokenKind::IDENT, literal: s }],
        ExprView::Integer(i) => seq![TokenView { kind: TokenKind::INT, literal: int_text(i) }],
        ExprView::String(s) => seq![TokenView { kind: TokenKind::STRING, literal: s }],
        ExprView::Bool(b) => if b {
            one(TokenKind::TRUE)
        } else {
            one(TokenKind::FALSE)
        },
        ExprView::Prefix { operator, right } => one(TokenKind::LPAREN) + (one(
            prefix_kind(operator),
        ) + (expr_tokens(*right) + one(TokenKind::RPAREN))),
        ExprView::Infix { left, operator, right } => one(TokenKind::LPAREN) + (expr_tokens(*left)
            + (one(infix_kind(operator)) + (expr_tokens(*right) + one(TokenKind::RPAREN)))),
        ExprView::If { condition, consequence, alternative } => one(TokenKind::IF) + (one(
            TokenKind::LPAREN,
        ) + (expr_tokens(*condition) + (one(TokenKind::RPAREN) + (block_tokens(*consequence)
            + match alternative {
            Some(b) => one(TokenKind::ELSE) + block_tokens(*b),
            None => Seq::empty(),
        })))),
        ExprView::Function { parameters, body } => one(TokenKind::FUNCTION) + (one(
            TokenKind::LPAREN,
        ) + (list_tokens(parameters) + (one(TokenKind::RPAREN) + block_tokens(*body)))),
        ExprView::Call { function, arguments } => one(TokenKind::LPAREN) + (expr_tokens(*function)
            + (one(TokenKind::LPAREN) + (list_tokens(arguments) + (one(TokenKind::RPAREN) + one(
            TokenKind::RPAREN,
        ))))),
        ExprView::Array(items) => one(TokenKind::LBRACKET) + (list_tokens(items) + one(
            TokenKind::RBRACKET,
        )),
        ExprView::Hashmap(pairs) => one(TokenKind::LBRACE) + (pairs_tokens(pairs) + one(
            TokenKind::RBRACE,
        )),
        ExprView::Index { array, subscript } => one(TokenKind::LPAREN) + (expr_tokens(*array) + (
        one(TokenKind::LBRACKET) + (expr_tokens(*subscript) + (one(TokenKind::RBRACKET) + one(
            TokenKind::RPAREN,
        ))))),
        ExprView::Null => Seq::empty(),
    }
}

/// The canonical tokens of a list of expressions, separated by `,`.
pub open spec fn list_tokens(es: Seq<ExprView>) -> Seq<TokenView>
    decreases es,
{
    if es.len() == 0 {
        Seq::empty()
    } else {
        expr_tokens(es[0]) + tail_tokens(es.drop_first())
    }
}

/// The canonical tokens of the expressions of a list after the first, each
/// behind a `,`.
pub open spec fn tail_tokens(es: Seq<ExprView>) -> Seq<TokenView>
    decreases es,
{
    if es.len() == 0 {
        Seq::empty()
    } else {
        one(TokenKind::COMMA) + (expr_tokens(es[0]) + tail_tokens(es.drop_first()))
    }
}

/// The canonical tokens of the pairs of a hash literal: `key : value`,
/// separated by `,`.
pub open spec fn pairs_tokens(ps: Seq<(ExprView, ExprView)>) -> Seq<TokenView>
    decreases ps,
{
    if ps.len() == 0 {
        Seq::empty()
    } else {
        expr_tokens(ps[0].0) + (one(TokenKind::COLON) + (expr_tokens(ps[0].1) + if ps.len() == 1 {
            Seq::empty()
        } else {
            one(TokenKind::COMMA) + pairs_tokens(ps.drop_first())
        }))
    }
}

/// The canonical tokens of a block: its statements between `{` and `}`.
pub open spec fn block_tokens(s: StmtView) -> Seq<TokenView>
    decreases s,
{
    match s {
        StmtView::Block(items) => one(TokenKind::LBRACE) + (stmts_tokens(items) + one(
            TokenKind::RBRACE,
        )),
        _ => Seq::empty(),
    }
}

/// The canonical tokens of a statement, closed by `;`.
pub open spec fn stmt_tokens(s: StmtView) -> Seq<TokenView>
    decreases s,
{
    match s {
        StmtView::Let { identifier, value } => one(TokenKind::LET) + (expr_tokens(identifier) + (
        one(TokenKind::ASSIGN) + (expr_tokens(value) + one(TokenKind::SEMICOLON)))),
        StmtView::Return(e) => one(TokenKind::RETURN) + (expr_tokens(e) + one(
            TokenKind::SEMICOLON,
        )),
        StmtView::Expression(e) => expr_tokens(e) + one(TokenKind::SEMICOLON),
        StmtView::Block(items) => one(TokenKind::LBRACE) + (stmts_tokens(items) + one(
            TokenKind::RBRACE,
        )),
    }
}

/// The canonical tokens of a list of statements.
pub open spec fn stmts_tokens(ss: Seq<StmtView>) -> Seq<TokenView>
    decreases ss,
{
    if ss.len() == 0 {
        Seq::empty()
    } else {
        stmt_tokens(ss[0]) + stmts_tokens(ss.drop_first())
    }
}

/// The canonical tokens of a list that grows by one expression at its end.
pub proof fn lemma_tail_tokens_push(es: Seq<ExprView>, x: ExprView)
    ensures
        tail_tokens(es.push(x)) == tail_tokens(es) + (one(TokenKind::COMMA) + expr_tokens(x)),
    decreases es.len(),
{
    let all = es.push(x);
    if es.len() == 0 {
        assert(all.drop_first() =~= Seq::<ExprView>::empty());
        assert(all[0] == x);
        assert(tail_tokens(all.drop_first()) =~= Seq::<TokenView>::empty());
        assert(tail_tokens(all) =~= one(TokenKind::COMMA) + expr_tokens(x));
        assert(tail_tokens(es) + (one(TokenKind::COMMA) + expr_tokens(x)) =~= one(
            TokenKind::COMMA,
        ) + expr_tokens(x));
    } else {
        assert(all.drop_first() =~= es.drop_first().push(x));
        lemma_tail_tokens_push(es.drop_first(), x);
        assert(tail_tokens(all) =~= tail_tokens(es) + (one(TokenKind::COMMA) + expr_tokens(x)));
    }
}

/// The canonical tokens of a list that grows by one expression at its end.
pub proof fn lemma_list_tokens_push(es: Seq<ExprView>, x: ExprView)
    ensures
        list_tokens(es.push(x)) == if es.len() == 0 {
            expr_tokens(x)
        } else {
            list_tokens(es) + (one(TokenKind::COMMA) + expr_tokens(x))
        },
{
    let all = es.push(x);
    if es.len() == 0 {
        assert(all.drop_first() =~= Seq::<ExprView>::empty());
        assert(all[0] == x);
        assert(tail_tokens(all.drop_first()) =~= Seq::<TokenView>::empty());
        assert(list_tokens(all) =~= expr_tokens(x));
    } else {
        assert(all.drop_first() =~= es.drop_first().push(x));
        lemma_tail_tokens_push(es.drop_first(), x);
        assert(list_tokens(all) =~= list_tokens(es) + (one(TokenKind::COMMA) + expr_tokens(x)));
    }
}

/// The canonical tokens of one pair of a hash literal.
pub open spec fn pair_tokens(pair: (ExprView, ExprView)) -> Seq<TokenView> {
    expr_tokens(pair.0) + (one(TokenKind::COLON) + expr_tokens(pair.1))
}

/// The canonical tokens of the pairs of a hash literal that grows by one
/// pair at its end.
pub proof fn lemma_pairs_tokens_push(ps: Seq<(ExprView, ExprView)>, x: (ExprView, ExprView))
    ensures
        pairs_tokens(ps.push(x)) == if ps.len() == 0 {
            pair_tokens(x)
        } else {
            pairs_tokens(ps) + (one(TokenKind::COMMA) + pair_tokens(x))
        },
    decreases ps.len(),
{
    let all = ps.push(x);
    if ps.len() == 0 {
        assert(pairs_tokens(all) =~= pair_tokens(x));
    } else {
        let rest = ps.drop_first();
        assert(all.drop_first() =~= rest.push(x));
        lemma_pairs_tokens_push(rest, x);
        if ps.len() == 1 {
            assert(rest =~= Seq::<(ExprView, ExprView)>::empty());
        }
        assert(pairs_tokens(all) =~= pairs_tokens(ps) + (one(TokenKind::COMMA) + pair_tokens(x)));
    }
}

/// The canonical tokens of a list of statements that grows by one statement
/// at its end.
pub proof fn lemma_stmts_tokens_push(ss: Seq<StmtView>, x: StmtView)
    ensures
        stmts_tokens(ss.push(x)) == stmts_tokens(ss) + stmt_tokens(x),
    decreases ss.len(),
{
    let all = ss.push(x);
    if ss.len() == 0 {
        assert(all.drop_first() =~= Seq::<StmtView>::empty());
        assert(all[0] == x);
        assert(stmts_tokens(all.drop_first()) =~= Seq::<TokenView>::empty());
        assert(stmts_tokens(all) =~= stmt_tokens(x));
        assert(stmts_tokens(ss) + stmt_tokens(x) =~= stmt_tokens(x));
    } else {
        assert(all.drop_first() =~= ss.drop_first().push(x));
        lemma_stmts_tokens_push(ss.drop_first(), x);
        assert(stmts_tokens(all) =~= stmts_tokens(ss) + stmt_tokens(x));
    }
}

/// The text of a token whose kind fixes it.
pub fn kind_str(k: TokenKind) -> (s: &'static str)
    ensures
        s@ == kind_text(k),
{
    proof {
        reveal_strlit("");
    }
    let s = match k {
        TokenKind::ASSIGN => "=",
        TokenKind::PLUS => "+",
        TokenKind::MINUS => "-",
        TokenKind::BANG => "!",
        TokenKind::ASTERISK => "*",
        TokenKind::SLASH => "/",
        TokenKind::LT => "<",
        TokenKind::GT => ">",
        TokenKind::EQ => "==",
        TokenKind::NotEq => "!=",
        TokenKind::COMMA => ",",
        TokenKind::SEMICOLON => ";",
        TokenKind::COLON => ":",
        TokenKind::LPAREN => "(",
        TokenKind::RPAREN => ")",
        TokenKind::LBRACE => "{",
        TokenKind::RBRACE => "}",
        TokenKind::LBRACKET => "[",
        TokenKind::RBRACKET => "]",
        TokenKind::FUNCTION => "fn",
        TokenKind::LET => "let",
        TokenKind::TRUE => "true",
        TokenKind::FALSE => "false",
        TokenKind::IF => "if",
        TokenKind::ELSE => "else",
        TokenKind::RETURN => "return",
        _ => "",
    };
    assert(s@ =~= kind_text(k));
    s
}

/// Adds the token of a kind that fixes its text.
fn push_mark(out: &mut Vec<Token>, k: TokenKind)
    ensures
        token_views(final(out)@) == token_views(old(out)@) + one(k),
{
    let t = Token::new(k, kind_str(k));
    out.push(t);
    assert(token_views(out@) =~= token_views(old(out)@) + one(k));
}

/// Adds a token of the given kind and text.
fn push_text(out: &mut Vec<Token>, k: TokenKind, literal: String)
    ensures
        token_views(final(out)@) == token_views(old(out)@) + seq![
            TokenView { kind: k, literal: literal@ },
        ],
{
    let t = Token { token_type: k, literal };
    out.push(t);
    assert(token_views(out@) =~= token_views(old(out)@) + seq![
        TokenView { kind: k, literal: literal@ },
    ]);
}

/// The kind of the prefix operator with the given text.
fn prefix_kind_of(op: &str) -> (k: TokenKind)
    ensures
        k == prefix_kind(op@),
{
    match compare_text(op, "!") {
        TextOrder::Same => TokenKind::BANG,
        _ => TokenKind::MINUS,
    }
}

/// Whether two texts are the same.
fn same_text(a: &str, b: &str) -> (r: bool)
    ensures
        r == (a@ == b@),
{
    match compare_text(a, b) {
        TextOrder::Same => true,
        _ => false,
    }
}

/// The kind of the binary operator with the given text.
fn infix_kind_of(op: &str) -> (k: TokenKind)
    ensures
        k == infix_kind(op@),
{
    if same_text(op, "+") {
        TokenKind::PLUS
    } else if same_text(op, "-") {
        TokenKind::MINUS
    } else if same_text(op, "*") {
        TokenKind::ASTERISK
    } else if same_text(op, "/") {
        TokenKind::SLASH
    } else if same_text(op, "==") {
        TokenKind::EQ
    } else if same_text(op, "!=") {
        TokenKind::NotEq
    } else if same_text(op, "<") {
        TokenKind::LT
    } else {
        TokenKind::GT
    }
}

/// Adds the canonical tokens of a list of expressions.
#[verifier::rlimit(50)]
fn emit_list(v: &Vec<Expression>, out: &mut Vec<Token>)
    ensures
        token_views(final(out)@) == token_views(old(out)@) + list_tokens(expr_views(v@)),
    decreases v,
{
    broadcast use vstd::std_specs::vec::axiom_vec_index_decreases;

    let ghost base = token_views(out@);
    let mut i: usize = 0;
    assert(expr_views(v@).subrange(0, 0) =~= Seq::empty());
    assert(base + list_tokens(Seq::empty()) =~= base);
    while i < v.len()
        invariant
            i <= v.len(),
            token_views(out@) == base + list_tokens(expr_views(v@).subrange(0, i as int)),
        decreases v.len() - i,
    {
        let ghost done = expr_views(v@).subrange(0, i as int);
        let ghost here = token_views(out@);
        proof {
            assert(expr_views(v@).subrange(0, i + 1) =~= done.push(expr_view(v@[i as int])));
            lemma_list_tokens_push(done, expr_view(v@[i as int]));
        }
        if i > 0 {
            push_mark(out, TokenKind::COMMA);
        }
        v[i].emit(out);
        proof {
            let x = expr_tokens(expr_view(v@[i as int]));
            if i > 0 {
                assert((here + one(TokenKind::COMMA)) + x =~= base + (list_tokens(done) + (one(
                    TokenKind::COMMA,
                ) + x)));
            } else {
                assert(done =~= Seq::empty());
                assert(here + x =~= base + x);
            }
        }
        i += 1;
    }
    assert(expr_views(v@).subrange(0, i as int) =~= expr_views(v@));
}

/// Adds the canonical tokens of the pairs of a hash literal.
#[verifier::rlimit(50)]
fn emit_pairs(v: &Vec<(Expression, Expression)>, out: &mut Vec<Token>)
    ensures
        token_views(final(out)@) == token_views(old(out)@) + pairs_tokens(pair_views(v@)),
    decreases v,
{
    broadcast use vstd::std_specs::vec::axiom_vec_index_decreases;

    let ghost base = token_views(out@);
    let mut i: usize = 0;
    assert(pair_views(v@).subrange(0, 0) =~= Seq::empty());
    assert(base + pairs_tokens(Seq::empty()) =~= base);
    while i < v.len()
        invariant
            i <= v.len(),
            token_views(out@) == base + pairs_tokens(pair_views(v@).subrange(0, i as int)),
        decreases v.len() - i,
    {
        let ghost done = pair_views(v@).subrange(0, i as int);
        let ghost here = token_views(out@);
        let ghost pair = (expr_view(v@[i as int].0), expr_view(v@[i as int].1));
        proof {
            assert(pair_views(v@).subrange(0, i + 1) =~= done.push(pair));
            lemma_pairs_tokens_push(done, pair);
        }
        if i > 0 {
            push_mark(out, TokenKind::COMMA);
        }
        let ghost mid = token_views(out@);
        v[i].0.emit(out);
        push_mark(out, TokenKind::COLON);
        v[i].1.emit(out);
        proof {
            let k = expr_tokens(pair.0);
            let val = expr_tokens(pair.1);
            assert(((mid + k) + one(TokenKind::COLON)) + val =~= mid + pair_tokens(pair));
            if i > 0 {
                assert((here + one(TokenKind::COMMA)) + pair_tokens(pair) =~= base + (pairs_tokens(
                    done,
                ) + (one(TokenKind::COMMA) + pair_tokens(pair))));
            } else {
                assert(done =~= Seq::empty());
                assert(here + pair_tokens(pair) =~= base + pair_tokens(pair));
            }
        }
        i += 1;
    }
    assert(pair_views(v@).subrange(0, i as int) =~= pair_views(v@));
}

/// Adds the canonical tokens of a list of statements.
#[verifier::rlimit(50)]
fn emit_statements(v: &Vec<Statement>, out: &mut Vec<Token>)
    ensures
        token_views(final(out)@) == token_views(old(out)@) + stmts_tokens(stmt_views(v@)),
    decreases v,
{
    broadcast use vstd::std_specs::vec::axiom_vec_index_decreases;

    let ghost base = token_views(out@);
    let mut i: usize = 0;
    assert(stmt_views(v@).subrange(0, 0) =~= Seq::empty());
    assert(base + stmts_tokens(Seq::empty()) =~= base);
    while i < v.len()
        invariant
            i <= v.len(),
            token_views(out@) == base + stmts_tokens(stmt_views(v@).subrange(0, i as int)),
        decreases v.len() - i,
    {
        let ghost done = stmt_views(v@).subrange(0, i as int);
        let ghost here = token_views(out@);
        proof {
            assert(stmt_views(v@).subrange(0, i + 1) =~= done.push(stmt_view(v@[i as int])));
            lemma_stmts_tokens_push(done, stmt_view(v@[i as int]));
        }
        v[i].emit(out);
        proof {
            let x = stmt_tokens(stmt_view(v@[i as int]));
            assert(here + x =~= base + (stmts_tokens(done) + x));
        }
        i += 1;
    }
    assert(stmt_views(v@).subrange(0, i as int) =~= stmt_views(v@));
}

impl Expression {
    /// Adds the canonical tokens of this expression to `out`.
    #[verifier::rlimit(80)]
    #[verifier::spinoff_prover]
    pub fn emit(&self, out: &mut Vec<Token>)
        ensures
            token_views(final(out)@) == token_views(old(out)@) + expr_tokens(self@),
        decreases self,
    {
        proof {
            lemma_views_unfold(*self);
        }
        let ghost base = token_views(out@);
        match self {
            Expression::Identifier(s) => {
                push_text(out, TokenKind::IDENT, s.clone());
            },
            Expression::Integer(i) => {
                push_text(out, TokenKind::INT, render_int(*i));
            },
            Expression::String(s) => {
                push_text(out, TokenKind::STRING, s.clone());
            },
            Expression::Bool(b) => {
                if *b {
                    push_mark(out, TokenKind::TRUE);
                } else {
                    push_mark(out, TokenKind::FALSE);
                }
            },
            Expression::PrefixExpression { operator, right_expression } => {
                let k = prefix_kind_of(operator.as_str());
                push_mark(out, TokenKind::LPAREN);
                push_mark(out, k);
                right_expression.emit(out);
                push_mark(out, TokenKind::RPAREN);
                assert(token_views(out@) =~= base + expr_tokens(self@));
            },
            Expression::InfixExpression { left_expression, operator, right_expression } => {
                let k = infix_kind_of(operator.as_str());
                push_mark(out, TokenKind::LPAREN);
                left_expression.emit(out);
                push_mark(out, k);
                right_expression.emit(out);
                push_mark(out, TokenKind::RPAREN);
                assert(token_views(out@) =~= base + expr_tokens(self@));
            },
            Expression::IfExpression { condition, consequence, alternative } => {
                push_mark(out, TokenKind::IF);
                push_mark(out, TokenKind::LPAREN);
                condition.emit(out);
                push_mark(out, TokenKind::RPAREN);
                consequence.emit_block(out);
                match alternative {
                    Some(b) => {
                        push_mark(out, TokenKind::ELSE);
                        b.emit_block(out);
                    },
                    None => {},
                }
                assert(token_views(out@) =~= base + expr_tokens(self@));
            },
            Expression::FunctionLiteral { parameters, body } => {
                push_mark(out, TokenKind::FUNCTION);
                push_mark(out, TokenKind::LPAREN);
                emit_list(parameters, out);
                push_mark(out, TokenKind::RPAREN);
                body.emit_block(out);
                assert(token_views(out@) =~= base + expr_tokens(self@));
            },
            Expression::CallExpression { function, body } => {
                push_mark(out, TokenKind::LPAREN);
                function.emit(out);
                push_mark(out, TokenKind::LPAREN);
                emit_list(body, out);
                push_mark(out, TokenKind::RPAREN);
                push_mark(out, TokenKind::RPAREN);
                assert(token_views(out@) =~= base + expr_tokens(self@));
            },
            Expression::Array(items) => {
                push_mark(out, TokenKind::LBRACKET);
                emit_list(items, out);
                push_mark(out, TokenKind::RBRACKET);
                assert(token_views(out@) =~= base + expr_tokens(self@));
            },
            Expression::Hashmap(pairs) => {
                push_mark(out, TokenKind::LBRACE);
                emit_pairs(pairs, out);
                push_mark(out, TokenKind::RBRACE);
                assert(token_views(out@) =~= base + expr_tokens(self@));
            },
            Expression::IndexExpression { array, subscript } => {
                push_mark(out, TokenKind::LPAREN);
                array.emit(out);
                push_mark(out, TokenKind::LBRACKET);
                subscript.emit(out);
                push_mark(out, TokenKind::RBRACKET);
                push_mark(out, TokenKind::RPAREN);
                assert(token_views(out@) =~= base + expr_tokens(self@));
            },
            Expression::Null => {
                assert(token_views(out@) =~= base + expr_tokens(self@));
            },
        }
    }
}

impl Statement {
    /// Adds the canonical tokens of this statement to `out`.
    #[verifier::rlimit(50)]
    pub fn emit(&self, out: &mut Vec<Token>)
        ensures
            token_views(final(out)@) == token_views(old(out)@) + stmt_tokens(self@),
        decreases self,
    {
        proof {
            lemma_block_view(*self);
        }
        let ghost base = token_views(out@);
        match self {
            Statement::LetStatement { identifier, value } => {
                push_mark(out, TokenKind::LET);
                identifier.emit(out);
                push_mark(out, TokenKind::ASSIGN);
                value.emit(out);
                push_mark(out, TokenKind::SEMICOLON);
                assert(token_views(out@) =~= base + stmt_tokens(self@));
            },
            Statement::Return(e) => {
                push_mark(out, TokenKind::RETURN);
                e.emit(out);
                push_mark(out, TokenKind::SEMICOLON);
                assert(token_views(out@) =~= base + stmt_tokens(self@));
            },
            Statement::ExpressionStatement(e) => {
                e.emit(out);
                push_mark(out, TokenKind::SEMICOLON);
                assert(token_views(out@) =~= base + stmt_tokens(self@));
            },
            Statement::Block(v) => {
                push_mark(out, TokenKind::LBRACE);
                emit_statements(v, out);
                push_mark(out, TokenKind::RBRACE);
                assert(token_views(out@) =~= base + stmt_tokens(self@));
            },
        }
    }

    /// Adds the canonical tokens of this statement as a block to `out`:
    /// nothing unless it is a block.
    #[verifier::rlimit(50)]
    pub fn emit_block(&self, out: &mut Vec<Token>)
        ensures
            token_views(final(out)@) == token_views(old(out)@) + block_tokens(self@),
        decreases self,
    {
        proof {
            lemma_block_view(*self);
        }
        let ghost base = token_views(out@);
        match self {
            Statement::Block(v) => {
                push_mark(out, TokenKind::LBRACE);
                emit_statements(v, out);
                push_mark(out, TokenKind::RBRACE);
                assert(token_views(out@) =~= base + block_tokens(self@));
            },
            _ => {
                assert(token_views(out@) =~= base + block_tokens(self@));
            },
        }
    }
}

impl Program {
    /// The canonical tokens of the program.
    pub fn to_tokens(&self) -> (out: Vec<Token>)
        ensures
            token_views(out@) == stmts_tokens(self@),
    {
        let mut out: Vec<Token> = Vec::new();
        assert(token_views(out@) =~= Seq::empty());
        emit_statements(&self.statements, &mut out);
        assert(Seq::<TokenView>::empty() + stmts_tokens(self@) =~= stmts_tokens(self@));
        out
    }
}

} // verus!
