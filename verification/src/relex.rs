//! Lexing the canonical text of tokens gives the tokens again.
use vstd::prelude::*;
use crate::ast::{ExprView, StmtView};
use crate::canon::{
    block_tokens, expr_tokens, infix_kind, kind_text, list_tokens, one, pairs_tokens, prefix_kind,
    stmt_tokens, stmts_tokens, tail_tokens,
};
use crate::grammar::{alternative, left, parameters};
use crate::lexer::{
    digits_end, is_letter, is_space, letters_end, quote_at, scan, skip_spaces, token_at,
    tokens_from, tokens_of, word_kind, Scanned,
};
use crate::shape::{
    block_wf, expr_lexical, expr_wf, exprs_lexical, exprs_wf, name_ok, pairs_lexical, quoteless,
    source_ok, stmt_lexical, stmt_wf, stmts_lexical, stmts_wf,
};
use crate::source::{spaced, token_text, tokens_text};
use crate::text::is_digit;
use crate::token::{TokenKind, TokenView};

verus! {

/// Whether `k` is the kind of a keyword.
pub open spec fn is_keyword(k: TokenKind) -> bool {
    matches!(
        k,
        TokenKind::FUNCTION | TokenKind::LET | TokenKind::TRUE | TokenKind::FALSE | TokenKind::IF
            | TokenKind::ELSE | TokenKind::RETURN
    )
}

/// Whether `k` is the kind of a token made of one or two signs.
pub open spec fn is_symbol(k: TokenKind) -> bool {
    matches!(
        k,
        TokenKind::ASSIGN | TokenKind::PLUS | TokenKind::MINUS | TokenKind::BANG
            | TokenKind::ASTERISK | TokenKind::SLASH | TokenKind::LT | TokenKind::GT
            | TokenKind::EQ | TokenKind::NotEq | TokenKind::COMMA | TokenKind::SEMICOLON
            | TokenKind::COLON | TokenKind::LPAREN | TokenKind::RPAREN | TokenKind::LBRACE
            | TokenKind::RBRACE | TokenKind::LBRACKET | TokenKind::RBRACKET
    )
}

/// Whether `s` is a numeral: digits only, at least one.
pub open spec fn digits_ok(s: Seq<char>) -> bool {
    &&& s.len() > 0
    &&& forall|i: int| 0 <= i < s.len() ==> is_digit(#[trigger] s[i])
}

/// Whether a token can be written and read again: a name that is letters and
/// no keyword, a numeral, a string without a `"`, or a keyword or sign with
/// its own text.
pub open spec fn writable(t: TokenView) -> bool {
    if t.kind == TokenKind::IDENT {
        name_ok(t.literal)
    } else if t.kind == TokenKind::INT {
        digits_ok(t.literal)
    } else if t.kind == TokenKind::STRING {
        quoteless(t.literal)
    } else {
        (is_keyword(t.kind) || is_symbol(t.kind)) && t.literal == kind_text(t.kind)
    }
}

/// Whether every token of `ts` can be written and read again.
pub open spec fn all_writable(ts: Seq<TokenView>) -> bool {
    forall|i: int| 0 <= i < ts.len() ==> writable(#[trigger] ts[i])
}

/// Whether the text `w` stands in `cs` from position `s` on, before a blank
/// or the end of `cs`.
pub open spec fn written(cs: Seq<char>, s: nat, w: Seq<char>) -> bool {
    &&& s + w.len() <= cs.len()
    &&& forall|i: int| 0 <= i < w.len() ==> cs[s + i] == #[trigger] w[i]
    &&& (s + w.len() == cs.len() || cs[(s + w.len()) as int] == ' ')
}

/// A run of letters that ends before a character that is none ends there.
pub proof fn lemma_letters_run(cs: Seq<char>, s: nat, e: nat)
    requires
        s <= e <= cs.len(),
        forall|i: int| s <= i < e ==> is_letter(#[trigger] cs[i]),
        e == cs.len() || !is_letter(cs[e as int]),
    ensures
        letters_end(cs, s) == e,
    decreases e - s,
{
    if s < e {
        lemma_letters_run(cs, s + 1, e);
    }
}

/// A run of digits that ends before a character that is none ends there.
pub proof fn lemma_digits_run(cs: Seq<char>, s: nat, e: nat)
    requires
        s <= e <= cs.len(),
        forall|i: int| s <= i < e ==> is_digit(#[trigger] cs[i]),
        e == cs.len() || !is_digit(cs[e as int]),
    ensures
        digits_end(cs, s) == e,
    decreases e - s,
{
    if s < e {
        lemma_digits_run(cs, s + 1, e);
    }
}

/// The search for a `"` over characters that are none ends at the first one.
pub proof fn lemma_quote_run(cs: Seq<char>, s: nat, e: nat)
    requires
        s <= e <= cs.len(),
        forall|i: int| s <= i < e ==> #[trigger] cs[i] != '"',
        e == cs.len() || cs[e as int] == '"',
    ensures
        quote_at(cs, s) == e,
    decreases e - s,
{
    if s < e {
        lemma_quote_run(cs, s + 1, e);
    }
}

/// The lexer reads a written name or keyword as its token.
pub proof fn lemma_read_word(cs: Seq<char>, s: nat, t: TokenView)
    requires
        writable(t),
        t.kind == TokenKind::IDENT || is_keyword(t.kind),
        written(cs, s, token_text(t)),
    ensures
        !is_space(cs[s as int]),
        token_at(cs, s) == (Scanned { token: t, end: s + token_text(t).len() }),
{
    let si = s as int;
    reveal_strlit("fn");
    reveal_strlit("let");
    reveal_strlit("true");
    reveal_strlit("false");
    reveal_strlit("if");
    reveal_strlit("else");
    reveal_strlit("return");
    let w = t.literal;
    let e = s + w.len();
    assert(w.len() > 0);
    assert forall|i: int| 0 <= i < w.len() implies is_letter(#[trigger] w[i]) by {}
    assert forall|i: int| s <= i < e implies is_letter(#[trigger] cs[i]) by {
        assert(cs[si + (i - s)] == w[i - s]);
    }
    assert(cs[si + 0] == w[0]);
    lemma_letters_run(cs, s, e as nat);
    assert(cs.subrange(s as int, e as int) =~= w);
    assert(word_kind(w) == t.kind) by {
        if t.kind == TokenKind::FUNCTION {
            assert(w =~= seq!['f', 'n']);
        } else if t.kind == TokenKind::LET {
            assert(w =~= seq!['l', 'e', 't']);
        } else if t.kind == TokenKind::TRUE {
            assert(w =~= seq!['t', 'r', 'u', 'e']);
        } else if t.kind == TokenKind::FALSE {
            assert(w =~= seq!['f', 'a', 'l', 's', 'e']);
        } else if t.kind == TokenKind::IF {
            assert(w =~= seq!['i', 'f']);
        } else if t.kind == TokenKind::ELSE {
            assert(w =~= seq!['e', 'l', 's', 'e']);
        } else if t.kind == TokenKind::RETURN {
            assert(w =~= seq!['r', 'e', 't', 'u', 'r', 'n']);
        }
    }
}

/// The lexer reads a written numeral as its token.
pub proof fn lemma_read_number(cs: Seq<char>, s: nat, t: TokenView)
    requires
        writable(t),
        t.kind == TokenKind::INT,
        written(cs, s, token_text(t)),
    ensures
        !is_space(cs[s as int]),
        token_at(cs, s) == (Scanned { token: t, end: s + token_text(t).len() }),
{
    let si = s as int;
    let w = t.literal;
    let e = s + w.len();
    assert forall|i: int| s <= i < e implies is_digit(#[trigger] cs[i]) by {
        assert(cs[si + (i - s)] == w[i - s]);
    }
    assert(cs[si + 0] == w[0]);
    lemma_digits_run(cs, s, e as nat);
    assert(cs.subrange(s as int, e as int) =~= w);
}

/// The lexer reads a written string as its token.
pub proof fn lemma_read_string(cs: Seq<char>, s: nat, t: TokenView)
    requires
        writable(t),
        t.kind == TokenKind::STRING,
        written(cs, s, token_text(t)),
    ensures
        !is_space(cs[s as int]),
        token_at(cs, s) == (Scanned { token: t, end: s + token_text(t).len() }),
{
    let si = s as int;
    let w = t.literal;
    let x = token_text(t);
    let e = s + 1 + w.len();
    assert(x.len() == w.len() + 2);
    assert(cs[si + 0] == x[0]);
    assert(x[0] == '"');
    assert(cs[si + (w.len() as int + 1)] == x[w.len() as int + 1]);
    assert(x[w.len() as int + 1] == '"');
    assert forall|i: int| s + 1 <= i < e implies #[trigger] cs[i] != '"' by {
        assert(cs[si + (i - s)] == x[i - s]);
        assert(x[i - s] == w[i - s - 1]);
    }
    lemma_quote_run(cs, s + 1, e as nat);
    assert(cs.subrange(si + 1, e as int) =~= w) by {
        assert forall|i: int| 0 <= i < w.len() implies cs[si + 1 + i] == w[i] by {
            assert(cs[si + (i + 1)] == x[i + 1]);
        }
    }
}

/// The lexer reads a written sign as its token.
pub proof fn lemma_read_symbol(cs: Seq<char>, s: nat, t: TokenView)
    requires
        writable(t),
        is_symbol(t.kind),
        written(cs, s, token_text(t)),
    ensures
        !is_space(cs[s as int]),
        token_at(cs, s) == (Scanned { token: t, end: s + token_text(t).len() }),
{
    let si = s as int;
    reveal_strlit("=");
    reveal_strlit("+");
    reveal_strlit("-");
    reveal_strlit("!");
    reveal_strlit("*");
    reveal_strlit("/");
    reveal_strlit("<");
    reveal_strlit(">");
    reveal_strlit("==");
    reveal_strlit("!=");
    reveal_strlit(",");
    reveal_strlit(";");
    reveal_strlit(":");
    reveal_strlit("(");
    reveal_strlit(")");
    reveal_strlit("{");
    reveal_strlit("}");
    reveal_strlit("[");
    reveal_strlit("]");
    let w = t.literal;
    assert(w.len() > 0);
    assert(cs[si + 0] == w[0]);
    if t.kind == TokenKind::EQ || t.kind == TokenKind::NotEq {
        assert(cs[si + 1] == w[1]);
        assert(cs.subrange(si, si + 2) =~= w);
    } else {
        assert(w.len() == 1);
        assert(cs.subrange(si, si + 1) =~= w);
    }
}

/// The lexer reads a written token as that token.
pub proof fn lemma_read_token(cs: Seq<char>, s: nat, t: TokenView)
    requires
        writable(t),
        written(cs, s, token_text(t)),
    ensures
        !is_space(cs[s as int]),
        t.kind != TokenKind::EOF,
        token_at(cs, s) == (Scanned { token: t, end: s + token_text(t).len() }),
{
    if t.kind == TokenKind::IDENT || is_keyword(t.kind) {
        lemma_read_word(cs, s, t);
    } else if t.kind == TokenKind::INT {
        lemma_read_number(cs, s, t);
    } else if t.kind == TokenKind::STRING {
        lemma_read_string(cs, s, t);
    } else {
        lemma_read_symbol(cs, s, t);
    }
}

/// The text of tokens that each stand behind a blank starts with a blank,
/// unless there is no token.
pub proof fn lemma_spaced_head(ts: Seq<TokenView>)
    ensures
        ts.len() == 0 ==> spaced(ts).len() == 0,
        ts.len() > 0 ==> spaced(ts).len() > 0 && spaced(ts)[0] == ' ',
{
}

/// Lexing a text from a position where writable tokens stand, each behind a
/// blank, up to the end of the text, gives those tokens.
#[verifier::rlimit(50)]
pub proof fn lemma_read_spaced(cs: Seq<char>, p: nat, ts: Seq<TokenView>)
    requires
        all_writable(ts),
        p <= cs.len(),
        cs.subrange(p as int, cs.len() as int) == spaced(ts),
    ensures
        tokens_from(cs, p) == ts,
    decreases ts.len(),
{
    let tail = cs.subrange(p as int, cs.len() as int);
    let pi = p as int;
    if ts.len() == 0 {
        assert(tail.len() == 0);
        assert(tokens_from(cs, p) =~= ts);
    } else {
        let t = ts[0];
        let rest = ts.drop_first();
        let x = token_text(t);
        let n = x.len() as int;
        let more = spaced(rest);
        assert(tail =~= seq![' '] + x + more);
        assert(tail.len() == 1 + n + more.len());
        assert(cs[pi] == tail[0]);
        assert forall|i: int| 0 <= i < n implies cs[pi + 1 + i] == #[trigger] x[i] by {
            assert(cs[pi + 1 + i] == tail[1 + i]);
        }
        assert(cs.subrange(pi + 1 + n, cs.len() as int) =~= more) by {
            assert forall|i: int| 0 <= i < more.len() implies cs[pi + 1 + n + i] == more[i] by {
                assert(cs[pi + 1 + n + i] == tail[1 + n + i]);
            }
        }
        lemma_spaced_head(rest);
        if rest.len() > 0 {
            assert(cs[pi + 1 + n] == tail[1 + n]);
        }
        assert(written(cs, (p + 1) as nat, x));
        assert(writable(t));
        lemma_read_token(cs, (p + 1) as nat, t);
        assert(skip_spaces(cs, (p + 1) as nat) == p + 1);
        assert(skip_spaces(cs, p) == p + 1);
        assert(all_writable(rest)) by {
            assert forall|i: int| 0 <= i < rest.len() implies writable(#[trigger] rest[i]) by {
                assert(rest[i] == ts[i + 1]);
            }
        }
        lemma_read_spaced(cs, (p + 1 + n) as nat, rest);
        assert(tokens_from(cs, p) =~= ts);
    }
}

/// Lexing the canonical text of writable tokens gives those tokens.
#[verifier::rlimit(50)]
pub proof fn theorem_lex_written_tokens(ts: Seq<TokenView>)
    requires
        all_writable(ts),
    ensures
        tokens_of(tokens_text(ts)) == ts,
{
    let cs = tokens_text(ts);
    if ts.len() == 0 {
        assert(tokens_from(cs, 0) =~= ts);
    } else {
        let t = ts[0];
        let rest = ts.drop_first();
        let x = token_text(t);
        let n = x.len() as int;
        let more = spaced(rest);
        assert(cs =~= x + more);
        assert forall|i: int| 0 <= i < n implies cs[0 + i] == #[trigger] x[i] by {}
        assert(cs.subrange(n, cs.len() as int) =~= more);
        lemma_spaced_head(rest);
        if rest.len() > 0 {
            assert(cs[n] == more[0]);
        }
        assert(written(cs, 0, x));
        assert(writable(t));
        lemma_read_token(cs, 0, t);
        assert(skip_spaces(cs, 0) == 0);
        assert(all_writable(rest)) by {
            assert forall|i: int| 0 <= i < rest.len() implies writable(#[trigger] rest[i]) by {
                assert(rest[i] == ts[i + 1]);
            }
        }
        lemma_read_spaced(cs, n as nat, rest);
        assert(tokens_from(cs, 0) =~= ts);
    }
}

/// Every character of a run of letters is a letter.
pub proof fn lemma_letters_all(cs: Seq<char>, s: nat)
    ensures
        s <= letters_end(cs, s),
        s <= cs.len() ==> letters_end(cs, s) <= cs.len(),
        forall|i: int| s <= i < letters_end(cs, s) ==> is_letter(#[trigger] cs[i]),
    decreases cs.len() - s,
{
    if s < cs.len() && is_letter(cs[s as int]) {
        lemma_letters_all(cs, s + 1);
    }
}

/// No character before the first `"` is a `"`.
pub proof fn lemma_quote_none(cs: Seq<char>, s: nat)
    ensures
        s <= quote_at(cs, s),
        s <= cs.len() ==> quote_at(cs, s) <= cs.len(),
        forall|i: int| s <= i < quote_at(cs, s) ==> #[trigger] cs[i] != '"',
    decreases cs.len() - s,
{
    if s < cs.len() && cs[s as int] != '"' {
        lemma_quote_none(cs, s + 1);
    }
}

/// A name that the lexer reads can be written as a name, and a string that
/// it reads holds no `"`.
pub proof fn lemma_scan_source_ok(cs: Seq<char>, p: nat)
    requires
        p <= cs.len(),
    ensures
        scan(cs, p).token.kind == TokenKind::IDENT ==> name_ok(scan(cs, p).token.literal),
        scan(cs, p).token.kind == TokenKind::STRING ==> quoteless(scan(cs, p).token.literal),
{
    crate::lexer::lemma_skip_spaces(cs, p);
    let s = skip_spaces(cs, p);
    if s < cs.len() {
        let c = cs[s as int];
        if is_letter(c) {
            lemma_letters_all(cs, s);
            crate::lexer::lemma_letters_end(cs, s);
            let e = letters_end(cs, s);
            let w = cs.subrange(s as int, e as int);
            assert(e > s);
            assert forall|i: int| 0 <= i < w.len() implies is_letter(#[trigger] w[i]) by {
                assert(w[i] == cs[s + i]);
            }
        } else if is_digit(c) {
        } else if c == '"' {
            lemma_quote_none(cs, s + 1);
            let e = quote_at(cs, s + 1);
            let w = cs.subrange((s + 1) as int, e as int);
            assert forall|i: int| 0 <= i < w.len() implies #[trigger] w[i] != '"' by {
                assert(w[i] == cs[s + 1 + i]);
            }
        } else {
        }
    }
}

/// The names among the tokens of a text can be written as names, and the
/// strings hold no `"`.
pub proof fn lemma_tokens_source_ok(cs: Seq<char>, p: nat)
    ensures
        source_ok(tokens_from(cs, p)),
    decreases cs.len() - p,
{
    if p <= cs.len() {
        let next = scan(cs, p);
        if next.token.kind != TokenKind::EOF {
            crate::lexer::lemma_scan_advances(cs, p);
            lemma_scan_source_ok(cs, p);
            lemma_tokens_source_ok(cs, next.end);
            let rest = tokens_from(cs, next.end);
            let all = tokens_from(cs, p);
            assert(all =~= seq![next.token] + rest);
            assert forall|i: int| 0 <= i < all.len() implies {
                &&& (#[trigger] all[i]).kind == TokenKind::IDENT ==> name_ok(all[i].literal)
                &&& all[i].kind == TokenKind::STRING ==> quoteless(all[i].literal)
            } by {
                if i > 0 {
                    assert(all[i] == rest[i - 1]);
                }
            }
        }
    }
}

/// Two sequences of writable tokens, one after the other, are one.
pub proof fn lemma_writable_concat(a: Seq<TokenView>, b: Seq<TokenView>)
    requires
        all_writable(a),
        all_writable(b),
    ensures
        all_writable(a + b),
{
    let ab = a + b;
    assert forall|i: int| 0 <= i < ab.len() implies writable(#[trigger] ab[i]) by {
        if i < a.len() {
            assert(ab[i] == a[i]);
        } else {
            assert(ab[i] == b[i - a.len()]);
        }
    }
}

/// The token of a keyword or a sign is writable.
pub proof fn lemma_writable_one(k: TokenKind)
    requires
        is_keyword(k) || is_symbol(k),
    ensures
        all_writable(one(k)),
{
}

/// The canonical tokens of a parsed expression whose names and strings can
/// be written are writable.
#[verifier::rlimit(50)]
pub proof fn lemma_expr_tokens_writable(e: ExprView)
    requires
        expr_wf(e),
        expr_lexical(e),
    ensures
        all_writable(expr_tokens(e)),
    decreases e, 0nat,
{
    match e {
        ExprView::Identifier(_) => {},
        ExprView::Integer(i) => {
            crate::text::lemma_nat_text(i as nat);
        },
        ExprView::String(_) => {},
        ExprView::Bool(_) => {},
        ExprView::Prefix { operator, right } => {
            lemma_expr_tokens_writable(*right);
            lemma_writable_one(TokenKind::LPAREN);
            lemma_writable_one(TokenKind::RPAREN);
            lemma_writable_one(prefix_kind(operator));
            let t2 = expr_tokens(*right) + one(TokenKind::RPAREN);
            lemma_writable_concat(expr_tokens(*right), one(TokenKind::RPAREN));
            lemma_writable_concat(one(prefix_kind(operator)), t2);
            lemma_writable_concat(one(TokenKind::LPAREN), one(prefix_kind(operator)) + t2);
        },
        ExprView::Infix { left, operator, right } => {
            lemma_expr_tokens_writable(*left);
            lemma_expr_tokens_writable(*right);
            lemma_writable_one(TokenKind::LPAREN);
            lemma_writable_one(TokenKind::RPAREN);
            lemma_writable_one(infix_kind(operator));
            let t3 = expr_tokens(*right) + one(TokenKind::RPAREN);
            lemma_writable_concat(expr_tokens(*right), one(TokenKind::RPAREN));
            let t2 = one(infix_kind(operator)) + t3;
            lemma_writable_concat(one(infix_kind(operator)), t3);
            let t1 = expr_tokens(*left) + t2;
            lemma_writable_concat(expr_tokens(*left), t2);
            lemma_writable_concat(one(TokenKind::LPAREN), t1);
        },
        ExprView::If { condition, consequence, alternative } => {
            lemma_expr_tokens_writable(*condition);
            assert(block_wf(*consequence));
            lemma_block_tokens_writable(*consequence);
            lemma_writable_one(TokenKind::IF);
            lemma_writable_one(TokenKind::LPAREN);
            lemma_writable_one(TokenKind::RPAREN);
            lemma_writable_one(TokenKind::ELSE);
            let tail = match alternative {
                Some(b) => one(TokenKind::ELSE) + block_tokens(*b),
                None => Seq::empty(),
            };
            match alternative {
                Some(b) => {
                    assert(block_wf(*b));
                    lemma_block_tokens_writable(*b);
                    lemma_writable_concat(one(TokenKind::ELSE), block_tokens(*b));
                },
                None => {},
            }
            let t4 = block_tokens(*consequence) + tail;
            lemma_writable_concat(block_tokens(*consequence), tail);
            let t3 = one(TokenKind::RPAREN) + t4;
            lemma_writable_concat(one(TokenKind::RPAREN), t4);
            let t2 = expr_tokens(*condition) + t3;
            lemma_writable_concat(expr_tokens(*condition), t3);
            let t1 = one(TokenKind::LPAREN) + t2;
            lemma_writable_concat(one(TokenKind::LPAREN), t2);
            lemma_writable_concat(one(TokenKind::IF), t1);
        },
        ExprView::Function { parameters, body } => {
            assert(exprs_wf(parameters)) by {
                assert forall|i: int| 0 <= i < parameters.len() implies expr_wf(
                    #[trigger] parameters[i],
                ) by {
                    assert(parameters[i] is Identifier);
                }
            }
            lemma_list_tokens_writable(parameters);
            assert(block_wf(*body));
            lemma_block_tokens_writable(*body);
            lemma_writable_one(TokenKind::FUNCTION);
            lemma_writable_one(TokenKind::LPAREN);
            lemma_writable_one(TokenKind::RPAREN);
            let t3 = one(TokenKind::RPAREN) + block_tokens(*body);
            lemma_writable_concat(one(TokenKind::RPAREN), block_tokens(*body));
            let t2 = list_tokens(parameters) + t3;
            lemma_writable_concat(list_tokens(parameters), t3);
            let t1 = one(TokenKind::LPAREN) + t2;
            lemma_writable_concat(one(TokenKind::LPAREN), t2);
            lemma_writable_concat(one(TokenKind::FUNCTION), t1);
        },
        ExprView::Call { function, arguments } => {
            lemma_expr_tokens_writable(*function);
            lemma_list_tokens_writable(arguments);
            lemma_writable_one(TokenKind::LPAREN);
            lemma_writable_one(TokenKind::RPAREN);
            let t4 = one(TokenKind::RPAREN) + one(TokenKind::RPAREN);
            lemma_writable_concat(one(TokenKind::RPAREN), one(TokenKind::RPAREN));
            let t3 = list_tokens(arguments) + t4;
            lemma_writable_concat(list_tokens(arguments), t4);
            let t2 = one(TokenKind::LPAREN) + t3;
            lemma_writable_concat(one(TokenKind::LPAREN), t3);
            let t1 = expr_tokens(*function) + t2;
            lemma_writable_concat(expr_tokens(*function), t2);
            lemma_writable_concat(one(TokenKind::LPAREN), t1);
        },
        ExprView::Array(items) => {
            lemma_list_tokens_writable(items);
            lemma_writable_one(TokenKind::LBRACKET);
            lemma_writable_one(TokenKind::RBRACKET);
            lemma_writable_concat(list_tokens(items), one(TokenKind::RBRACKET));
            lemma_writable_concat(
                one(TokenKind::LBRACKET),
                list_tokens(items) + one(TokenKind::RBRACKET),
            );
        },
        ExprView::Hashmap(pairs) => {
            lemma_pairs_tokens_writable(pairs);
            lemma_writable_one(TokenKind::LBRACE);
            lemma_writable_one(TokenKind::RBRACE);
            lemma_writable_concat(pairs_tokens(pairs), one(TokenKind::RBRACE));
            lemma_writable_concat(
                one(TokenKind::LBRACE),
                pairs_tokens(pairs) + one(TokenKind::RBRACE),
            );
        },
        ExprView::Index { array, subscript } => {
            lemma_expr_tokens_writable(*array);
            lemma_expr_tokens_writable(*subscript);
            lemma_writable_one(TokenKind::LPAREN);
            lemma_writable_one(TokenKind::RPAREN);
            lemma_writable_one(TokenKind::LBRACKET);
            lemma_writable_one(TokenKind::RBRACKET);
            let t4 = one(TokenKind::RBRACKET) + one(TokenKind::RPAREN);
            lemma_writable_concat(one(TokenKind::RBRACKET), one(TokenKind::RPAREN));
            let t3 = expr_tokens(*subscript) + t4;
            lemma_writable_concat(expr_tokens(*subscript), t4);
            let t2 = one(TokenKind::LBRACKET) + t3;
            lemma_writable_concat(one(TokenKind::LBRACKET), t3);
            let t1 = expr_tokens(*array) + t2;
            lemma_writable_concat(expr_tokens(*array), t2);
            lemma_writable_concat(one(TokenKind::LPAREN), t1);
        },
        ExprView::Null => {},
    }
}

/// The canonical tokens of a list of such expressions are writable.
#[verifier::rlimit(50)]
pub proof fn lemma_list_tokens_writable(es: Seq<ExprView>)
    requires
        exprs_wf(es),
        exprs_lexical(es),
    ensures
        all_writable(list_tokens(es)),
        all_writable(tail_tokens(es)),
    decreases es, 1nat,
{
    if es.len() > 0 {
        let rest = es.drop_first();
        assert(exprs_wf(rest) && exprs_lexical(rest)) by {
            assert forall|i: int| 0 <= i < rest.len() implies expr_wf(#[trigger] rest[i])
                && expr_lexical(rest[i]) by {
                assert(rest[i] == es[i + 1]);
            }
        }
        lemma_expr_tokens_writable(es[0]);
        lemma_list_tokens_writable(rest);
        lemma_writable_one(TokenKind::COMMA);
        lemma_writable_concat(expr_tokens(es[0]), tail_tokens(rest));
        lemma_writable_concat(one(TokenKind::COMMA), expr_tokens(es[0]) + tail_tokens(rest));
    }
}

/// The canonical tokens of the pairs of such a hash literal are writable.
#[verifier::rlimit(50)]
pub proof fn lemma_pairs_tokens_writable(ps: Seq<(ExprView, ExprView)>)
    requires
        forall|i: int| 0 <= i < ps.len() ==> expr_wf((#[trigger] ps[i]).0) && expr_wf(ps[i].1),
        pairs_lexical(ps),
    ensures
        all_writable(pairs_tokens(ps)),
    decreases ps, 1nat,
{
    if ps.len() > 0 {
        let rest = ps.drop_first();
        assert forall|i: int| 0 <= i < rest.len() implies expr_wf((#[trigger] rest[i]).0)
            && expr_wf(rest[i].1) && expr_lexical(rest[i].0) && expr_lexical(rest[i].1) by {
            assert(rest[i] == ps[i + 1]);
        }
        lemma_expr_tokens_writable(ps[0].0);
        lemma_expr_tokens_writable(ps[0].1);
        lemma_pairs_tokens_writable(rest);
        lemma_writable_one(TokenKind::COMMA);
        lemma_writable_one(TokenKind::COLON);
        let more = if ps.len() == 1 {
            Seq::empty()
        } else {
            one(TokenKind::COMMA) + pairs_tokens(rest)
        };
        if ps.len() > 1 {
            lemma_writable_concat(one(TokenKind::COMMA), pairs_tokens(rest));
        }
        let t2 = expr_tokens(ps[0].1) + more;
        lemma_writable_concat(expr_tokens(ps[0].1), more);
        let t1 = one(TokenKind::COLON) + t2;
        lemma_writable_concat(one(TokenKind::COLON), t2);
        lemma_writable_concat(expr_tokens(ps[0].0), t1);
    }
}

/// The canonical tokens of such a block are writable.
pub proof fn lemma_block_tokens_writable(b: StmtView)
    requires
        block_wf(b),
        stmt_lexical(b),
    ensures
        all_writable(block_tokens(b)),
    decreases b, 2nat,
{
    let items = b->Block_0;
    lemma_stmts_tokens_writable(items);
    lemma_writable_one(TokenKind::LBRACE);
    lemma_writable_one(TokenKind::RBRACE);
    lemma_writable_concat(stmts_tokens(items), one(TokenKind::RBRACE));
    lemma_writable_concat(one(TokenKind::LBRACE), stmts_tokens(items) + one(TokenKind::RBRACE));
}

/// The canonical tokens of such statements are writable.
pub proof fn lemma_stmts_tokens_writable(ss: Seq<StmtView>)
    requires
        stmts_wf(ss),
        stmts_lexical(ss),
    ensures
        all_writable(stmts_tokens(ss)),
    decreases ss, 1nat,
{
    if ss.len() > 0 {
        let rest = ss.drop_first();
        assert(stmts_wf(rest) && stmts_lexical(rest)) by {
            assert forall|i: int| 0 <= i < rest.len() implies stmt_wf(#[trigger] rest[i])
                && stmt_lexical(rest[i]) by {
                assert(rest[i] == ss[i + 1]);
            }
        }
        lemma_stmt_tokens_writable(ss[0]);
        lemma_stmts_tokens_writable(rest);
        lemma_writable_concat(stmt_tokens(ss[0]), stmts_tokens(rest));
    }
}

/// The canonical tokens of such a statement are writable.
#[verifier::rlimit(50)]
pub proof fn lemma_stmt_tokens_writable(s: StmtView)
    requires
        stmt_wf(s),
        stmt_lexical(s),
    ensures
        all_writable(stmt_tokens(s)),
    decreases s, 0nat,
{
    lemma_writable_one(TokenKind::SEMICOLON);
    match s {
        StmtView::Let { identifier, value } => {
            lemma_expr_tokens_writable(identifier);
            lemma_expr_tokens_writable(value);
            lemma_writable_one(TokenKind::LET);
            lemma_writable_one(TokenKind::ASSIGN);
            let t3 = expr_tokens(value) + one(TokenKind::SEMICOLON);
            lemma_writable_concat(expr_tokens(value), one(TokenKind::SEMICOLON));
            let t2 = one(TokenKind::ASSIGN) + t3;
            lemma_writable_concat(one(TokenKind::ASSIGN), t3);
            let t1 = expr_tokens(identifier) + t2;
            lemma_writable_concat(expr_tokens(identifier), t2);
            lemma_writable_concat(one(TokenKind::LET), t1);
        },
        StmtView::Return(e) => {
            lemma_expr_tokens_writable(e);
            lemma_writable_one(TokenKind::RETURN);
            lemma_writable_concat(expr_tokens(e), one(TokenKind::SEMICOLON));
            lemma_writable_concat(
                one(TokenKind::RETURN),
                expr_tokens(e) + one(TokenKind::SEMICOLON),
            );
        },
        StmtView::Expression(e) => {
            lemma_expr_tokens_writable(e);
            lemma_writable_concat(expr_tokens(e), one(TokenKind::SEMICOLON));
        },
        StmtView::Block(_) => {},
    }
}

} // verus!
