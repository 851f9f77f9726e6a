//! The shape of the trees that the parser yields.
use vstd::prelude::*;
use crate::ast::{ExprView, StmtView};
use crate::grammar::{alternative, left, operator_text, parameters};
use crate::lexer::{is_letter, word_kind};
use crate::pairs::{insert_pair, slot};
use crate::render::expr_text;
use crate::text::{lemma_text_lt_total, lemma_text_lt_transitive, text_lt, text_order, TextOrder};
use crate::token::{TokenKind, TokenView};

verus! {

/// Whether `op` is the text of a prefix operator.
pub open spec fn is_prefix_operator(op: Seq<char>) -> bool {
    op == operator_text(TokenKind::BANG) || op == operator_text(TokenKind::MINUS)
}

/// Whether `op` is the text of a binary operator.
pub open spec fn is_infix_operator(op: Seq<char>) -> bool {
    exists|k: TokenKind| k.is_binary_operator() && op == #[trigger] operator_text(k)
}

/// Whether the keys of `ps` stand in strictly rising order of their text.
pub open spec fn keys_sorted(ps: Seq<(ExprView, ExprView)>) -> bool {
    forall|i: int, j: int|
        0 <= i < j < ps.len() ==> text_lt(
            expr_text(#[trigger] ps[i].0),
            expr_text(#[trigger] ps[j].0),
        )
}

/// Whether `e` has the shape of a parsed expression: no absent value in it,
/// integers within `0..=i32::MAX`, operators of the language, identifiers as
/// parameters, blocks as bodies, and hash keys in strictly rising order of
/// their text.
pub open spec fn expr_wf(e: ExprView) -> bool
    decreases e,
{
    match e {
        ExprView::Identifier(_) => true,
        ExprView::Integer(i) => 0 <= i <= i32::MAX,
        ExprView::String(_) => true,
        ExprView::Bool(_) => true,
        ExprView::Prefix { operator, right } => is_prefix_operator(operator) && expr_wf(*right),
        ExprView::Infix { left, operator, right } => is_infix_operator(operator) && expr_wf(*left)
            && expr_wf(*right),
        ExprView::If { condition, consequence, alternative } => {
            &&& expr_wf(*condition)
            &&& block_wf(*consequence)
            &&& match alternative {
                Some(b) => block_wf(*b),
                None => true,
            }
        },
        ExprView::Function { parameters, body } => {
            &&& forall|i: int| 0 <= i < parameters.len() ==> #[trigger] parameters[i] is Identifier
            &&& block_wf(*body)
        },
        ExprView::Call { function, arguments } => {
            &&& expr_wf(*function)
            &&& forall|i: int| 0 <= i < arguments.len() ==> expr_wf(#[trigger] arguments[i])
        },
        ExprView::Array(items) => forall|i: int|
            0 <= i < items.len() ==> expr_wf(#[trigger] items[i]),
        ExprView::Hashmap(pairs) => {
            &&& forall|i: int|
                0 <= i < pairs.len() ==> expr_wf((#[trigger] pairs[i]).0) && expr_wf(pairs[i].1)
            &&& keys_sorted(pairs)
        },
        ExprView::Index { array, subscript } => expr_wf(*array) && expr_wf(*subscript),
        ExprView::Null => false,
    }
}

/// Whether `s` has the shape of a parsed block: a block of parsed statements.
pub open spec fn block_wf(s: StmtView) -> bool
    decreases s,
{
    match s {
        StmtView::Block(items) => forall|i: int|
            0 <= i < items.len() ==> stmt_wf(#[trigger] items[i]),
        _ => false,
    }
}

/// Whether `s` has the shape of a parsed statement: a let statement that
/// binds an identifier, a return statement or an expression statement, over
/// expressions of parsed shape.
pub open spec fn stmt_wf(s: StmtView) -> bool
    decreases s,
{
    match s {
        StmtView::Let { identifier, value } => identifier is Identifier && expr_wf(value),
        StmtView::Return(e) => expr_wf(e),
        StmtView::Expression(e) => expr_wf(e),
        StmtView::Block(_) => false,
    }
}

/// Whether every statement of `ss` has the shape of a parsed statement.
pub open spec fn stmts_wf(ss: Seq<StmtView>) -> bool {
    forall|i: int| 0 <= i < ss.len() ==> stmt_wf(#[trigger] ss[i])
}

/// Whether every expression of `es` has the shape of a parsed expression.
pub open spec fn exprs_wf(es: Seq<ExprView>) -> bool {
    forall|i: int| 0 <= i < es.len() ==> expr_wf(#[trigger] es[i])
}

/// Whether `ps` has the shape of the pairs of a parsed hash literal.
pub open spec fn pairs_wf(ps: Seq<(ExprView, ExprView)>) -> bool {
    &&& forall|i: int| 0 <= i < ps.len() ==> expr_wf((#[trigger] ps[i]).0) && expr_wf(ps[i].1)
    &&& keys_sorted(ps)
}

/// The pairs before the slot of a text have keys before it; the pair at the
/// slot, if there is one, has not.
pub proof fn lemma_slot(ps: Seq<(ExprView, ExprView)>, text: Seq<char>)
    ensures
        slot(ps, text) <= ps.len(),
        forall|j: int|
            0 <= j < slot(ps, text) ==> text_lt(expr_text((#[trigger] ps[j]).0), text),
        slot(ps, text) < ps.len() ==> text_order(expr_text(ps[slot(ps, text) as int].0), text)
            != TextOrder::Before,
    decreases ps.len(),
{
    if ps.len() > 0 && text_order(expr_text(ps[0].0), text) == TextOrder::Before {
        let rest = ps.drop_first();
        lemma_slot(rest, text);
        assert forall|j: int| 0 <= j < slot(ps, text) implies text_lt(
            expr_text((#[trigger] ps[j]).0),
            text,
        ) by {
            if j > 0 {
                assert(ps[j] == rest[j - 1]);
            }
        }
        if slot(ps, text) < ps.len() {
            assert(ps[slot(ps, text) as int] == rest[slot(rest, text) as int]);
        }
    }
}

/// Adding a pair to the pairs of a parsed hash literal keeps their shape:
/// the keys stay in strictly rising order of their text.
pub proof fn lemma_insert_pair_wf(ps: Seq<(ExprView, ExprView)>, key: ExprView, value: ExprView)
    requires
        pairs_wf(ps),
        expr_wf(key),
        expr_wf(value),
    ensures
        pairs_wf(insert_pair(ps, key, value)),
{
    let text = expr_text(key);
    let i = slot(ps, text) as int;
    let out = insert_pair(ps, key, value);
    lemma_slot(ps, text);
    if i < ps.len() && expr_text(ps[i].0) == text {
        assert forall|a: int, b: int| 0 <= a < b < out.len() implies text_lt(
            expr_text(#[trigger] out[a].0),
            expr_text(#[trigger] out[b].0),
        ) by {
            assert(out[a].0 == ps[a].0);
            assert(out[b].0 == ps[b].0);
        }
        assert forall|a: int| 0 <= a < out.len() implies expr_wf((#[trigger] out[a]).0)
            && expr_wf(out[a].1) by {
            assert(expr_wf(ps[a].0) && expr_wf(ps[a].1));
        }
    } else {
        assert forall|a: int| 0 <= a < out.len() implies expr_wf((#[trigger] out[a]).0)
            && expr_wf(out[a].1) by {
            if a < i {
                assert(out[a] == ps[a]);
            } else if a > i {
                assert(out[a] == ps[a - 1]);
            }
        }
        assert forall|a: int, b: int| 0 <= a < b < out.len() implies text_lt(
            expr_text(#[trigger] out[a].0),
            expr_text(#[trigger] out[b].0),
        ) by {
            if i < ps.len() {
                lemma_text_lt_total(expr_text(ps[i].0), text);
            }
            if b < i {
                assert(out[a] == ps[a] && out[b] == ps[b]);
            } else if b == i {
                assert(out[a] == ps[a]);
            } else if a < i {
                assert(out[a] == ps[a] && out[b] == ps[b - 1]);
            } else if a == i {
                assert(out[b] == ps[b - 1]);
                if b - 1 > i {
                    assert(text_lt(expr_text(ps[i].0), expr_text(ps[b - 1].0)));
                    lemma_text_lt_transitive(text, expr_text(ps[i].0), expr_text(ps[b - 1].0));
                }
            } else {
                assert(out[a] == ps[a - 1] && out[b] == ps[b - 1]);
            }
        }
    }
}

/// Whether `s` can be written as a name: letters only, at least one, and
/// no keyword.
pub open spec fn name_ok(s: Seq<char>) -> bool {
    &&& s.len() > 0
    &&& forall|i: int| 0 <= i < s.len() ==> is_letter(#[trigger] s[i])
    &&& word_kind(s) == TokenKind::IDENT
}

/// Whether `s` can be written between quotes: it holds no `"`.
pub open spec fn quoteless(s: Seq<char>) -> bool {
    forall|i: int| 0 <= i < s.len() ==> #[trigger] s[i] != '"'
}

/// Whether the names and strings among the tokens `ts` are such as a lexer
/// gives: names that can be written as names, strings without a `"`.
pub open spec fn source_ok(ts: Seq<TokenView>) -> bool {
    forall|i: int|
        0 <= i < ts.len() ==> {
            &&& (#[trigger] ts[i]).kind == TokenKind::IDENT ==> name_ok(ts[i].literal)
            &&& ts[i].kind == TokenKind::STRING ==> quoteless(ts[i].literal)
        }
}

/// Whether the names and strings in `e` can be written.
pub open spec fn expr_lexical(e: ExprView) -> bool
    decreases e,
{
    match e {
        ExprView::Identifier(s) => name_ok(s),
        ExprView::Integer(_) => true,
        ExprView::String(s) => quoteless(s),
        ExprView::Bool(_) => true,
        ExprView::Prefix { operator, right } => expr_lexical(*right),
        ExprView::Infix { left, operator, right } => expr_lexical(*left) && expr_lexical(*right),
        ExprView::If { condition, consequence, alternative } => {
            &&& expr_lexical(*condition)
            &&& stmt_lexical(*consequence)
            &&& match alternative {
                Some(b) => stmt_lexical(*b),
                None => true,
            }
        },
        ExprView::Function { parameters, body } => {
            &&& forall|i: int| 0 <= i < parameters.len() ==> expr_lexical(#[trigger] parameters[i])
            &&& stmt_lexical(*body)
        },
        ExprView::Call { function, arguments } => {
            &&& expr_lexical(*function)
            &&& forall|i: int| 0 <= i < arguments.len() ==> expr_lexical(#[trigger] arguments[i])
        },
        ExprView::Array(items) => forall|i: int|
            0 <= i < items.len() ==> expr_lexical(#[trigger] items[i]),
        ExprView::Hashmap(pairs) => forall|i: int|
            0 <= i < pairs.len() ==> expr_lexical((#[trigger] pairs[i]).0) && expr_lexical(
                pairs[i].1,
            ),
        ExprView::Index { array, subscript } => expr_lexical(*array) && expr_lexical(*subscript),
        ExprView::Null => true,
    }
}

/// Whether the names and strings in `s` can be written.
pub open spec fn stmt_lexical(s: StmtView) -> bool
    decreases s,
{
    match s {
        StmtView::Let { identifier, value } => expr_lexical(identifier) && expr_lexical(value),
        StmtView::Return(e) => expr_lexical(e),
        StmtView::Expression(e) => expr_lexical(e),
        StmtView::Block(items) => forall|i: int|
            0 <= i < items.len() ==> stmt_lexical(#[trigger] items[i]),
    }
}

/// Whether the names and strings in the expressions `es` can be written.
pub open spec fn exprs_lexical(es: Seq<ExprView>) -> bool {
    forall|i: int| 0 <= i < es.len() ==> expr_lexical(#[trigger] es[i])
}

/// Whether the names and strings in the pairs `ps` can be written.
pub open spec fn pairs_lexical(ps: Seq<(ExprView, ExprView)>) -> bool {
    forall|i: int| 0 <= i < ps.len() ==> expr_lexical((#[trigger] ps[i]).0) && expr_lexical(ps[i].1)
}

/// Whether the names and strings in the statements `ss` can be written.
pub open spec fn stmts_lexical(ss: Seq<StmtView>) -> bool {
    forall|i: int| 0 <= i < ss.len() ==> stmt_lexical(#[trigger] ss[i])
}

/// Whether `e` has parsed shape and, if the tokens `ts` are such as a lexer
/// gives, names and strings that can be written.
pub open spec fn good_expr(ts: Seq<TokenView>, e: ExprView) -> bool {
    expr_wf(e) && (source_ok(ts) ==> expr_lexical(e))
}

/// `good_expr` of every expression of a list.
pub open spec fn good_exprs(ts: Seq<TokenView>, es: Seq<ExprView>) -> bool {
    exprs_wf(es) && (source_ok(ts) ==> exprs_lexical(es))
}

/// `good_expr` of the keys and values of the pairs of a hash literal, which
/// stand in strictly rising order of their key text.
pub open spec fn good_pairs(ts: Seq<TokenView>, ps: Seq<(ExprView, ExprView)>) -> bool {
    pairs_wf(ps) && (source_ok(ts) ==> pairs_lexical(ps))
}

/// Whether `s` has parsed shape and, if the tokens `ts` are such as a lexer
/// gives, names and strings that can be written.
pub open spec fn good_stmt(ts: Seq<TokenView>, s: StmtView) -> bool {
    stmt_wf(s) && (source_ok(ts) ==> stmt_lexical(s))
}

/// `good_stmt` of every statement of a list.
pub open spec fn good_stmts(ts: Seq<TokenView>, ss: Seq<StmtView>) -> bool {
    stmts_wf(ss) && (source_ok(ts) ==> stmts_lexical(ss))
}

/// Whether `b` is a block of statements of which `good_stmt` holds.
pub open spec fn good_block(ts: Seq<TokenView>, b: StmtView) -> bool {
    block_wf(b) && (source_ok(ts) ==> stmt_lexical(b))
}

/// Adding a pair whose names and strings can be written to such pairs gives
/// such pairs.
pub proof fn lemma_insert_pair_lexical(
    ps: Seq<(ExprView, ExprView)>,
    key: ExprView,
    value: ExprView,
)
    requires
        pairs_lexical(ps),
        expr_lexical(key),
        expr_lexical(value),
    ensures
        pairs_lexical(insert_pair(ps, key, value)),
{
    let text = expr_text(key);
    let i = slot(ps, text) as int;
    let out = insert_pair(ps, key, value);
    lemma_slot(ps, text);
    assert forall|a: int| 0 <= a < out.len() implies expr_lexical((#[trigger] out[a]).0)
        && expr_lexical(out[a].1) by {
        if i < ps.len() && expr_text(ps[i].0) == text {
            assert(expr_lexical(ps[a].0) && expr_lexical(ps[a].1));
        } else {
            if a < i {
                assert(out[a] == ps[a]);
            } else if a > i {
                assert(out[a] == ps[a - 1]);
            }
        }
    }
}

/// The slot of `text` among `ps` is `i` if the keys before `i` come before
/// `text` and the key at `i`, if there is one, does not.
pub proof fn lemma_slot_is(ps: Seq<(ExprView, ExprView)>, text: Seq<char>, i: int)
    requires
        0 <= i <= ps.len(),
        forall|j: int| 0 <= j < i ==> text_lt(expr_text((#[trigger] ps[j]).0), text),
        i < ps.len() ==> !text_lt(expr_text(ps[i].0), text),
    ensures
        slot(ps, text) == i,
    decreases i,
{
    if ps.len() > 0 {
        lemma_text_lt_total(expr_text(ps[0].0), text);
    }
    if i > 0 {
        let rest = ps.drop_first();
        assert(text_lt(expr_text(ps[0].0), text));
        assert forall|j: int| 0 <= j < i - 1 implies text_lt(
            expr_text((#[trigger] rest[j]).0),
            text,
        ) by {
            assert(rest[j] == ps[j + 1]);
        }
        if i - 1 < rest.len() {
            assert(rest[i - 1] == ps[i]);
        }
        lemma_slot_is(rest, text, i - 1);
    }
}

/// Adding two pairs to sorted pairs, the one with the lesser key text first
/// or last, gives the same pairs.
pub proof fn lemma_insert_pair_ordered(
    ps: Seq<(ExprView, ExprView)>,
    k1: ExprView,
    v1: ExprView,
    k2: ExprView,
    v2: ExprView,
)
    requires
        keys_sorted(ps),
        text_lt(expr_text(k1), expr_text(k2)),
    ensures
        insert_pair(insert_pair(ps, k1, v1), k2, v2) == insert_pair(
            insert_pair(ps, k2, v2),
            k1,
            v1,
        ),
{
    let t1 = expr_text(k1);
    let t2 = expr_text(k2);
    let i1 = slot(ps, t1) as int;
    let i2 = slot(ps, t2) as int;
    lemma_slot(ps, t1);
    lemma_slot(ps, t2);
    lemma_text_lt_total(t1, t2);
    let same1 = i1 < ps.len() && expr_text(ps[i1].0) == t1;
    let same2 = i2 < ps.len() && expr_text(ps[i2].0) == t2;
    if i1 < ps.len() {
        lemma_text_lt_total(expr_text(ps[i1].0), t1);
    }
    if i2 < ps.len() {
        lemma_text_lt_total(expr_text(ps[i2].0), t2);
    }
    // The slot of the lesser text is not behind the slot of the greater.
    assert(i1 <= i2) by {
        if i2 < i1 {
            assert(text_lt(expr_text(ps[i2].0), t1));
            lemma_text_lt_transitive(expr_text(ps[i2].0), t1, t2);
        }
    }
    assert(same1 ==> i1 < i2) by {
        if same1 && i1 == i2 {
            assert(text_lt(expr_text(ps[i2].0), t2));
        }
    }
    let a = insert_pair(ps, k1, v1);
    let b = insert_pair(ps, k2, v2);
    // Where the second pair goes after the first is in.
    let j2 = if same1 {
        i2
    } else {
        i2 + 1
    };
    assert forall|j: int| 0 <= j < j2 implies text_lt(expr_text((#[trigger] a[j]).0), t2) by {
        if same1 {
            assert(a[j].0 == ps[j].0);
        } else if j < i1 {
            assert(a[j] == ps[j]);
        } else if j == i1 {
            assert(a[j].0 == k1);
        } else {
            assert(a[j] == ps[j - 1]);
        }
    }
    if j2 < a.len() {
        if same1 {
            assert(a[j2].0 == ps[i2].0);
        } else {
            assert(a[j2] == ps[i2]);
        }
    }
    lemma_slot_is(a, t2, j2);
    // Where the first pair goes after the second is in.
    assert forall|j: int| 0 <= j < i1 implies text_lt(expr_text((#[trigger] b[j]).0), t1) by {
        if same2 {
            assert(b[j].0 == ps[j].0);
        } else {
            assert(b[j] == ps[j]);
        }
    }
    if i1 < b.len() {
        if same2 {
            assert(b[i1].0 == ps[i1].0);
        } else if i1 < i2 {
            assert(b[i1] == ps[i1]);
        } else {
            assert(b[i1].0 == k2);
        }
    }
    lemma_slot_is(b, t1, i1);
    let left = insert_pair(a, k2, v2);
    let right = insert_pair(b, k1, v1);
    if same1 {
        if same2 {
            assert(left =~= right);
        } else {
            assert(left =~= right);
        }
    } else {
        if same2 {
            assert(a[i2 + 1] == ps[i2]);
            assert(left =~= right);
        } else {
            assert(left =~= right);
        }
    }
}

} // verus!
