//! The canonical text of a token sequence: the text of each token, with one
//! blank between neighbours.
use vstd::prelude::*;
use crate::ast::Program;
use crate::canon::stmts_tokens;
use crate::grammar::done;
use crate::token::{token_views, Token, TokenKind, TokenView};

verus! {

/// The text that writes a token: a string stands between quotes, any other
/// token is written as its literal.
pub open spec fn token_text(t: TokenView) -> Seq<char> {
    if t.kind == TokenKind::STRING {
        seq!['"'] + t.literal + seq!['"']
    } else {
        t.literal
    }
}

/// The text that writes a sequence of tokens, each behind a blank.
pub open spec fn spaced(ts: Seq<TokenView>) -> Seq<char>
    decreases ts.len(),
{
    if ts.len() == 0 {
        Seq::empty()
    } else {
        seq![' '] + token_text(ts[0]) + spaced(ts.drop_first())
    }
}

/// The text that writes a sequence of tokens with one blank between
/// neighbours.
pub open spec fn tokens_text(ts: Seq<TokenView>) -> Seq<char> {
    if ts.len() == 0 {
        Seq::empty()
    } else {
        token_text(ts[0]) + spaced(ts.drop_first())
    }
}

/// The text of a sequence that grows by one token at its end.
pub proof fn lemma_spaced_push(ts: Seq<TokenView>, t: TokenView)
    ensures
        spaced(ts.push(t)) == spaced(ts) + (seq![' '] + token_text(t)),
    decreases ts.len(),
{
    let all = ts.push(t);
    if ts.len() == 0 {
        assert(all[0] == t);
        assert(all.drop_first() =~= Seq::<TokenView>::empty());
        assert(spaced(all.drop_first()) =~= Seq::<char>::empty());
        assert(spaced(all) =~= seq![' '] + token_text(t));
        assert(spaced(ts) + (seq![' '] + token_text(t)) =~= seq![' '] + token_text(t));
    } else {
        assert(all.drop_first() =~= ts.drop_first().push(t));
        lemma_spaced_push(ts.drop_first(), t);
        assert(spaced(all) =~= spaced(ts) + (seq![' '] + token_text(t)));
    }
}

/// Writes a sequence of tokens with one blank between neighbours.
pub fn write_tokens(tokens: &Vec<Token>) -> (out: String)
    ensures
        out@ == tokens_text(token_views(tokens@)),
{
    let mut out = String::new();
    let ghost ts = token_views(tokens@);
    proof {
        reveal_strlit(" ");
        reveal_strlit("\"");
    }
    assert(" "@ =~= seq![' ']);
    assert("\""@ =~= seq!['"']);
    let mut i: usize = 0;
    while i < tokens.len()
        invariant
            i <= tokens.len(),
            ts == token_views(tokens@),
            " "@ == seq![' '],
            "\""@ == seq!['"'],
            out@ == tokens_text(ts.subrange(0, i as int)),
        decreases tokens.len() - i,
    {
        let ghost done = ts.subrange(0, i as int);
        let ghost before = out@;
        let token = &tokens[i];
        proof {
            assert(ts.subrange(0, i + 1) =~= done.push(token@));
            if i > 0 {
                assert(done.push(token@).drop_first() =~= done.drop_first().push(token@));
                lemma_spaced_push(done.drop_first(), token@);
                assert(done.push(token@)[0] == done[0]);
            } else {
                assert(done.push(token@).drop_first() =~= Seq::<TokenView>::empty());
                assert(done.push(token@)[0] == token@);
            }
        }
        if i > 0 {
            out.append(" ");
        }
        match token.token_type {
            TokenKind::STRING => {
                out.append("\"");
                out.append(token.literal.as_str());
                out.append("\"");
            },
            _ => {
                out.append(token.literal.as_str());
            },
        }
        proof {
            let x = token_text(token@);
            if i > 0 {
                assert(out@ =~= before + (seq![' '] + x));
                assert(out@ =~= tokens_text(done.push(token@)));
            } else {
                assert(before =~= Seq::<char>::empty());
                assert(out@ =~= x);
                assert(spaced(Seq::<TokenView>::empty()) =~= Seq::<char>::empty());
                assert(out@ =~= tokens_text(done.push(token@)));
            }
        }
        i += 1;
    }
    assert(ts.subrange(0, i as int) =~= ts);
    out
}

impl Program {
    /// The canonical text of the program: its canonical tokens with one
    /// blank between neighbours. Every operation stands in parentheses and
    /// every statement ends with `;`.
    pub fn canonical(&self) -> (out: String)
        ensures
            out@ == tokens_text(stmts_tokens(self@)),
    {
        let tokens = self.to_tokens();
        write_tokens(&tokens)
    }
}

} // verus!
