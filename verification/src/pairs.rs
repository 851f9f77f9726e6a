//! The pairs of a hash literal, kept sorted by the display text of their keys.
use vstd::prelude::*;
use crate::ast::{pair_views, ExprView, Expression};
use crate::render::expr_text;
use crate::text::{compare_text, text_order, TextOrder};

verus! {

/// The number of leading pairs whose key text comes strictly before `text`.
pub open spec fn slot(ps: Seq<(ExprView, ExprView)>, text: Seq<char>) -> nat
    decreases ps.len(),
{
    if ps.len() == 0 {
        0
    } else if text_order(expr_text(ps[0].0), text) == TextOrder::Before {
        1 + slot(ps.drop_first(), text)
    } else {
        0
    }
}

/// The pairs of a hash literal after `key: value` is added: the pair goes
/// before the first pair whose key text does not come before its own, unless
/// that pair has the same key text; then that pair keeps its key and takes
/// the new value.
pub open spec fn insert_pair(ps: Seq<(ExprView, ExprView)>, key: ExprView, value: ExprView) -> Seq<
    (ExprView, ExprView),
> {
    let i = slot(ps, expr_text(key)) as int;
    if i < ps.len() && expr_text(ps[i].0) == expr_text(key) {
        ps.update(i, (ps[i].0, value))
    } else {
        ps.insert(i, (key, value))
    }
}

/// The slot of `text` among `ps` is `i` if the first `i` keys come before
/// `text` and the key at `i`, if there is one, does not.
pub proof fn lemma_slot_found(ps: Seq<(ExprView, ExprView)>, text: Seq<char>, i: nat)
    requires
        i <= ps.len(),
        forall|j: int|
            0 <= j < i ==> text_order(expr_text(#[trigger] ps[j].0), text) == TextOrder::Before,
        i < ps.len() ==> text_order(expr_text(ps[i as int].0), text) != TextOrder::Before,
    ensures
        slot(ps, text) == i,
    decreases i,
{
    if i > 0 {
        let rest = ps.drop_first();
        assert forall|j: int| 0 <= j < i - 1 implies text_order(
            expr_text(#[trigger] rest[j].0),
            text,
        ) == TextOrder::Before by {
            assert(rest[j] == ps[j + 1]);
        }
        if (i - 1) < rest.len() {
            assert(rest[i - 1] == ps[i as int]);
        }
        lemma_slot_found(rest, text, (i - 1) as nat);
    }
}

/// Adds `key: value` to the sorted pairs of a hash literal. A pair with the
/// same key text keeps its key and takes the new value.
pub fn add_pair(pairs: &mut Vec<(Expression, Expression)>, key: Expression, value: Expression)
    ensures
        pair_views(final(pairs)@) == insert_pair(pair_views(old(pairs)@), key@, value@),
{
    let text = key.render();
    let ghost before = pair_views(pairs@);
    let mut i: usize = 0;
    let mut same = false;
    while i < pairs.len()
        invariant_except_break
            !same,
        invariant
            i <= pairs.len(),
            pairs@ == old(pairs)@,
            text@ == expr_text(key@),
            forall|j: int|
                0 <= j < i ==> text_order(expr_text(#[trigger] before[j].0), text@)
                    == TextOrder::Before,
            before == pair_views(pairs@),
        ensures
            i < pairs.len() ==> text_order(expr_text(before[i as int].0), text@)
                != TextOrder::Before,
            same == (i < pairs.len() && expr_text(before[i as int].0) == text@),
        decreases pairs.len() - i,
    {
        let here = pairs[i].0.render();
        assert(here@ == expr_text(before[i as int].0));
        match compare_text(here.as_str(), text.as_str()) {
            TextOrder::Before => {
                i += 1;
            },
            TextOrder::Same => {
                same = true;
                break;
            },
            TextOrder::After => {
                break;
            },
        }
    }
    proof {
        lemma_slot_found(before, text@, i as nat);
    }
    if same {
        let (old_key, _) = pairs.remove(i);
        pairs.insert(i, (old_key, value));
        assert(pair_views(pairs@) =~= before.update(i as int, (before[i as int].0, value@)));
    } else {
        pairs.insert(i, (key, value));
        assert(pair_views(pairs@) =~= before.insert(i as int, (key@, value@)));
    }
}

} // verus!
