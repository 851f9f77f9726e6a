//! The lexer: from the characters of a source text to its tokens.
use vstd::prelude::*;
use vstd::string::StrSliceExecFns;
use crate::text::{chars_of, is_digit};
use crate::token::{Token, TokenKind, TokenView};

verus! {

/// Whether `c` separates tokens without being one: blank, tab, line feed or
/// carriage return.
pub open spec fn is_space(c: char) -> bool {
    c == ' ' || c == '\t' || c == '\n' || c == '\r'
}

/// Whether `c` may stand in a name: an ASCII letter or `_`.
pub open spec fn is_letter(c: char) -> bool {
    ('a' <= c && c <= 'z') || ('A' <= c && c <= 'Z') || c == '_'
}

/// The first position from `p` on that does not hold a space.
pub open spec fn skip_spaces(cs: Seq<char>, p: nat) -> nat
    decreases cs.len() - p,
{
    if p < cs.len() && is_space(cs[p as int]) {
        skip_spaces(cs, p + 1)
    } else {
        p
    }
}

/// The first position from `p` on that does not hold a letter.
pub open spec fn letters_end(cs: Seq<char>, p: nat) -> nat
    decreases cs.len() - p,
{
    if p < cs.len() && is_letter(cs[p as int]) {
        letters_end(cs, p + 1)
    } else {
        p
    }
}

/// The first position from `p` on that does not hold a digit.
pub open spec fn digits_end(cs: Seq<char>, p: nat) -> nat
    decreases cs.len() - p,
{
    if p < cs.len() && is_digit(cs[p as int]) {
        digits_end(cs, p + 1)
    } else {
        p
    }
}

/// The first position from `p` on that holds a `"`, or the length of the
/// text if there is none.
pub open spec fn quote_at(cs: Seq<char>, p: nat) -> nat
    decreases cs.len() - p,
{
    if p < cs.len() && cs[p as int] != '"' {
        quote_at(cs, p + 1)
    } else {
        p
    }
}

/// The kind of a word: that of the keyword it spells, or `IDENT`.
pub open spec fn word_kind(w: Seq<char>) -> TokenKind {
    if w == seq!['f', 'n'] {
        TokenKind::FUNCTION
    } else if w == seq!['l', 'e', 't'] {
        TokenKind::LET
    } else if w == seq!['t', 'r', 'u', 'e'] {
        TokenKind::TRUE
    } else if w == seq!['f', 'a', 'l', 's', 'e'] {
        TokenKind::FALSE
    } else if w == seq!['i', 'f'] {
        TokenKind::IF
    } else if w == seq!['e', 'l', 's', 'e'] {
        TokenKind::ELSE
    } else if w == seq!['r', 'e', 't', 'u', 'r', 'n'] {
        TokenKind::RETURN
    } else {
        TokenKind::IDENT
    }
}

/// The kind of the token that the single character `c` spells.
pub open spec fn symbol_kind(c: char) -> TokenKind {
    if c == '=' {
        TokenKind::ASSIGN
    } else if c == '+' {
        TokenKind::PLUS
    } else if c == '-' {
        TokenKind::MINUS
    } else if c == '!' {
        TokenKind::BANG
    } else if c == '*' {
        TokenKind::ASTERISK
    } else if c == '/' {
        TokenKind::SLASH
    } else if c == '<' {
        TokenKind::LT
    } else if c == '>' {
        TokenKind::GT
    } else if c == ',' {
        TokenKind::COMMA
    } else if c == ';' {
        TokenKind::SEMICOLON
    } else if c == ':' {
        TokenKind::COLON
    } else if c == '(' {
        TokenKind::LPAREN
    } else if c == ')' {
        TokenKind::RPAREN
    } else if c == '{' {
        TokenKind::LBRACE
    } else if c == '}' {
        TokenKind::RBRACE
    } else if c == '[' {
        TokenKind::LBRACKET
    } else if c == ']' {
        TokenKind::RBRACKET
    } else {
        TokenKind::ILLEGAL
    }
}

/// A token and the position after it.
pub ghost struct Scanned {
    pub token: TokenView,
    pub end: nat,
}

/// The token of kind `kind` whose text is `cs` from `from` to `to`.
pub open spec fn cut(cs: Seq<char>, kind: TokenKind, from: nat, to: nat) -> TokenView {
    TokenView { kind, literal: cs.subrange(from as int, to as int) }
}

/// The token that starts at position `s`, which holds no space.
///
/// At the end of the text it is the end-of-input marker. A word is a
/// maximal run of letters, a number a maximal run of digits. A string runs
/// from a `"` to the next `"`, or to the end of the text; its token holds
/// what stands between them. `==` and `!=` are one token each. Any other
/// character is a token by itself, `ILLEGAL` if the language has no use for
/// it.
pub open spec fn token_at(cs: Seq<char>, s: nat) -> Scanned {
    if s >= cs.len() {
        Scanned { token: cut(cs, TokenKind::EOF, s, s), end: s }
    } else {
        let c = cs[s as int];
        if is_letter(c) {
            let e = letters_end(cs, s);
            Scanned { token: cut(cs, word_kind(cs.subrange(s as int, e as int)), s, e), end: e }
        } else if is_digit(c) {
            let e = digits_end(cs, s);
            Scanned { token: cut(cs, TokenKind::INT, s, e), end: e }
        } else if c == '"' {
            let e = quote_at(cs, s + 1);
            Scanned {
                token: cut(cs, TokenKind::STRING, s + 1, e),
                end: if e < cs.len() {
                    e + 1
                } else {
                    e
                },
            }
        } else if c == '=' && s + 1 < cs.len() && cs[(s + 1) as int] == '=' {
            Scanned { token: cut(cs, TokenKind::EQ, s, s + 2), end: s + 2 }
        } else if c == '!' && s + 1 < cs.len() && cs[(s + 1) as int] == '=' {
            Scanned { token: cut(cs, TokenKind::NotEq, s, s + 2), end: s + 2 }
        } else {
            Scanned { token: cut(cs, symbol_kind(c), s, s + 1), end: s + 1 }
        }
    }
}

/// The next token from position `p` on, after the spaces that stand there.
pub open spec fn scan(cs: Seq<char>, p: nat) -> Scanned {
    token_at(cs, skip_spaces(cs, p))
}

/// Skipping spaces does not go back, and does not leave the text.
pub proof fn lemma_skip_spaces(cs: Seq<char>, p: nat)
    ensures
        skip_spaces(cs, p) >= p,
        p <= cs.len() ==> skip_spaces(cs, p) <= cs.len(),
        skip_spaces(cs, p) < cs.len() ==> !is_space(cs[skip_spaces(cs, p) as int]),
    decreases cs.len() - p,
{
    if p < cs.len() && is_space(cs[p as int]) {
        lemma_skip_spaces(cs, p + 1);
    }
}

/// A run of letters from `p` ends at or after `p`, inside the text.
pub proof fn lemma_letters_end(cs: Seq<char>, p: nat)
    ensures
        letters_end(cs, p) >= p,
        p <= cs.len() ==> letters_end(cs, p) <= cs.len(),
        p < cs.len() && is_letter(cs[p as int]) ==> letters_end(cs, p) > p,
    decreases cs.len() - p,
{
    if p < cs.len() && is_letter(cs[p as int]) {
        lemma_letters_end(cs, p + 1);
    }
}

/// A run of digits from `p` ends at or after `p`, inside the text.
pub proof fn lemma_digits_end(cs: Seq<char>, p: nat)
    ensures
        digits_end(cs, p) >= p,
        p <= cs.len() ==> digits_end(cs, p) <= cs.len(),
        p < cs.len() && is_digit(cs[p as int]) ==> digits_end(cs, p) > p,
    decreases cs.len() - p,
{
    if p < cs.len() && is_digit(cs[p as int]) {
        lemma_digits_end(cs, p + 1);
    }
}

/// The search for a `"` from `p` ends at or after `p`, inside the text.
pub proof fn lemma_quote_at(cs: Seq<char>, p: nat)
    ensures
        quote_at(cs, p) >= p,
        p <= cs.len() ==> quote_at(cs, p) <= cs.len(),
    decreases cs.len() - p,
{
    if p < cs.len() && cs[p as int] != '"' {
        lemma_quote_at(cs, p + 1);
    }
}

/// A token other than the end-of-input marker ends after the position it was
/// scanned from, and every token ends inside the text.
pub proof fn lemma_scan_advances(cs: Seq<char>, p: nat)
    requires
        p <= cs.len(),
    ensures
        scan(cs, p).end <= cs.len(),
        scan(cs, p).end >= p,
        scan(cs, p).token.kind != TokenKind::EOF ==> scan(cs, p).end > p,
        scan(cs, p).token.kind == TokenKind::EOF ==> scan(cs, p).token.literal =~= Seq::empty(),
{
    lemma_skip_spaces(cs, p);
    let s = skip_spaces(cs, p);
    lemma_letters_end(cs, s);
    lemma_digits_end(cs, s);
    lemma_quote_at(cs, s + 1);
    if s < cs.len() {
        let c = cs[s as int];
        if is_letter(c) {
            let w = cs.subrange(s as int, letters_end(cs, s) as int);
            assert(w.len() > 0);
        }
    }
}

/// Once the end-of-input marker is read, it is read again from where it was
/// read, and no token is left.
pub proof fn lemma_scan_end_again(cs: Seq<char>, p: nat)
    requires
        p <= cs.len(),
        scan(cs, p).token.kind == TokenKind::EOF,
    ensures
        scan(cs, scan(cs, p).end) == scan(cs, p),
        tokens_from(cs, p) == Seq::<TokenView>::empty(),
        tokens_from(cs, scan(cs, p).end) == Seq::<TokenView>::empty(),
{
    lemma_skip_spaces(cs, p);
    let s = skip_spaces(cs, p);
    lemma_letters_end(cs, s);
    lemma_digits_end(cs, s);
    lemma_quote_at(cs, s + 1);
    assert(s >= cs.len());
    assert(skip_spaces(cs, s) == s);
}

/// The tokens of the text from position `p` on, without the end-of-input
/// marker.
pub open spec fn tokens_from(cs: Seq<char>, p: nat) -> Seq<TokenView>
    decreases cs.len() - p,
{
    if p > cs.len() {
        Seq::empty()
    } else {
        let next = scan(cs, p);
        if next.token.kind == TokenKind::EOF {
            Seq::empty()
        } else {
            proof {
                lemma_scan_advances(cs, p);
            }
            seq![next.token] + tokens_from(cs, next.end)
        }
    }
}

/// The tokens of a source text, without the end-of-input marker.
pub open spec fn tokens_of(cs: Seq<char>) -> Seq<TokenView> {
    tokens_from(cs, 0)
}

/// A lexer over a source text. It hands out the tokens of the text one by
/// one, and the end-of-input marker from then on.
#[derive(Debug)]
pub struct Lexer<'a> {
    input: &'a str,
    chars: Vec<char>,
    position: usize,
}

impl<'a> Clone for Lexer<'a> {
    /// A lexer over the same text, at the same position.
    fn clone(&self) -> (l: Lexer<'a>)
        ensures
            l.text() == self.text(),
            l.offset() == self.offset(),
    {
        proof {
            use_type_invariant(self);
        }
        Lexer { input: self.input, chars: chars_of(self.input), position: self.position }
    }
}

impl<'a> Lexer<'a> {
    /// The characters of the source text.
    pub closed spec fn text(&self) -> Seq<char> {
        self.chars@
    }

    /// The position in the text from which the next token is read.
    pub closed spec fn offset(&self) -> nat {
        self.position as nat
    }

    /// The lexer holds the characters of its text, and a position inside it.
    #[verifier::type_invariant]
    spec fn wf(&self) -> bool {
        &&& self.input@ == self.chars@
        &&& self.position <= self.chars@.len()
    }

    /// The tokens that are still to come, without the end-of-input marker.
    pub open spec fn remaining(&self) -> Seq<TokenView> {
        tokens_from(self.text(), self.offset())
    }

    /// A lexer at the start of `input`.
    pub fn new(input: &'a str) -> (l: Lexer<'a>)
        ensures
            l.text() == input@,
            l.offset() == 0,
    {
        Lexer { input, chars: chars_of(input), position: 0 }
    }

    fn skip_whitespace(&mut self)
        ensures
            final(self).text() == old(self).text(),
            final(self).offset() == skip_spaces(old(self).text(), old(self).offset()),
    {
        proof {
            use_type_invariant(&*self);
        }
        while self.position < self.chars.len() && (self.chars[self.position] == ' '
            || self.chars[self.position] == '\t' || self.chars[self.position] == '\n'
            || self.chars[self.position] == '\r')
            invariant
                self.input@ == self.chars@,
                self.position <= self.chars@.len(),
                self.chars == old(self).chars,
                self.input == old(self).input,
                self.position >= old(self).position,
                skip_spaces(old(self).text(), old(self).offset()) == skip_spaces(
                    self.chars@,
                    self.position as nat,
                ),
            decreases self.chars.len() - self.position,
        {
            self.position += 1;
        }
    }

    fn read_letters(&self, from: usize) -> (end: usize)
        requires
            from <= self.chars@.len(),
        ensures
            end == letters_end(self.chars@, from as nat),
            from <= end <= self.chars@.len(),
    {
        let mut end = from;
        while end < self.chars.len() && ((self.chars[end] >= 'a' && self.chars[end] <= 'z') || (
        self.chars[end] >= 'A' && self.chars[end] <= 'Z') || self.chars[end] == '_')
            invariant
                from <= end <= self.chars@.len(),
                letters_end(self.chars@, from as nat) == letters_end(self.chars@, end as nat),
            decreases self.chars.len() - end,
        {
            end += 1;
        }
        end
    }

    fn read_digits(&self, from: usize) -> (end: usize)
        requires
            from <= self.chars@.len(),
        ensures
            end == digits_end(self.chars@, from as nat),
            from <= end <= self.chars@.len(),
    {
        let mut end = from;
        while end < self.chars.len() && self.chars[end] >= '0' && self.chars[end] <= '9'
            invariant
                from <= end <= self.chars@.len(),
                digits_end(self.chars@, from as nat) == digits_end(self.chars@, end as nat),
            decreases self.chars.len() - end,
        {
            end += 1;
        }
        end
    }

    fn find_quote(&self, from: usize) -> (end: usize)
        requires
            from <= self.chars@.len(),
        ensures
            end == quote_at(self.chars@, from as nat),
            from <= end <= self.chars@.len(),
    {
        let mut end = from;
        while end < self.chars.len() && self.chars[end] != '"'
            invariant
                from <= end <= self.chars@.len(),
                quote_at(self.chars@, from as nat) == quote_at(self.chars@, end as nat),
            decreases self.chars.len() - end,
        {
            end += 1;
        }
        end
    }

    /// The kind of the word that stands from `from` to `to`.
    fn lookup_word(&self, from: usize, to: usize) -> (k: TokenKind)
        requires
            from <= to <= self.chars@.len(),
        ensures
            k == word_kind(self.chars@.subrange(from as int, to as int)),
    {
        let ghost w = self.chars@.subrange(from as int, to as int);
        let n = to - from;
        let c = &self.chars;
        assert(forall|i: int| 0 <= i < n ==> w[i] == c@[from + i]);
        if n == 2 && c[from] == 'f' && c[from + 1] == 'n' {
            assert(w =~= seq!['f', 'n']);
            TokenKind::FUNCTION
        } else if n == 3 && c[from] == 'l' && c[from + 1] == 'e' && c[from + 2] == 't' {
            assert(w =~= seq!['l', 'e', 't']);
            TokenKind::LET
        } else if n == 4 && c[from] == 't' && c[from + 1] == 'r' && c[from + 2] == 'u' && c[from
            + 3] == 'e' {
            assert(w =~= seq!['t', 'r', 'u', 'e']);
            TokenKind::TRUE
        } else if n == 5 && c[from] == 'f' && c[from + 1] == 'a' && c[from + 2] == 'l' && c[from
            + 3] == 's' && c[from + 4] == 'e' {
            assert(w =~= seq!['f', 'a', 'l', 's', 'e']);
            TokenKind::FALSE
        } else if n == 2 && c[from] == 'i' && c[from + 1] == 'f' {
            assert(w =~= seq!['i', 'f']);
            TokenKind::IF
        } else if n == 4 && c[from] == 'e' && c[from + 1] == 'l' && c[from + 2] == 's' && c[from
            + 3] == 'e' {
            assert(w =~= seq!['e', 'l', 's', 'e']);
            TokenKind::ELSE
        } else if n == 6 && c[from] == 'r' && c[from + 1] == 'e' && c[from + 2] == 't' && c[from
            + 3] == 'u' && c[from + 4] == 'r' && c[from + 5] == 'n' {
            assert(w =~= seq!['r', 'e', 't', 'u', 'r', 'n']);
            TokenKind::RETURN
        } else {
            assert(w != seq!['f', 'n']) by {
                if w == seq!['f', 'n'] {
                    assert(w.len() == 2 && w[0] == 'f' && w[1] == 'n');
                }
            }
            assert(w != seq!['l', 'e', 't']) by {
                if w == seq!['l', 'e', 't'] {
                    assert(w.len() == 3 && w[0] == 'l' && w[1] == 'e' && w[2] == 't');
                }
            }
            assert(w != seq!['t', 'r', 'u', 'e']) by {
                if w == seq!['t', 'r', 'u', 'e'] {
                    assert(w.len() == 4 && w[0] == 't' && w[1] == 'r' && w[2] == 'u' && w[3]
                        == 'e');
                }
            }
            assert(w != seq!['f', 'a', 'l', 's', 'e']) by {
                if w == seq!['f', 'a', 'l', 's', 'e'] {
                    assert(w.len() == 5 && w[0] == 'f' && w[1] == 'a' && w[2] == 'l' && w[3]
                        == 's' && w[4] == 'e');
                }
            }
            assert(w != seq!['i', 'f']) by {
                if w == seq!['i', 'f'] {
                    assert(w.len() == 2 && w[0] == 'i' && w[1] == 'f');
                }
            }
            assert(w != seq!['e', 'l', 's', 'e']) by {
                if w == seq!['e', 'l', 's', 'e'] {
                    assert(w.len() == 4 && w[0] == 'e' && w[1] == 'l' && w[2] == 's' && w[3]
                        == 'e');
                }
            }
            assert(w != seq!['r', 'e', 't', 'u', 'r', 'n']) by {
                if w == seq!['r', 'e', 't', 'u', 'r', 'n'] {
                    assert(w.len() == 6 && w[0] == 'r' && w[1] == 'e' && w[2] == 't' && w[3]
                        == 'u' && w[4] == 'r' && w[5] == 'n');
                }
            }
            TokenKind::IDENT
        }
    }

    /// The kind of the token that a single character spells.
    fn lookup_symbol(c: char) -> (k: TokenKind)
        ensures
            k == symbol_kind(c),
    {
        if c == '=' {
            TokenKind::ASSIGN
        } else if c == '+' {
            TokenKind::PLUS
        } else if c == '-' {
            TokenKind::MINUS
        } else if c == '!' {
            TokenKind::BANG
        } else if c == '*' {
            TokenKind::ASTERISK
        } else if c == '/' {
            TokenKind::SLASH
        } else if c == '<' {
            TokenKind::LT
        } else if c == '>' {
            TokenKind::GT
        } else if c == ',' {
            TokenKind::COMMA
        } else if c == ';' {
            TokenKind::SEMICOLON
        } else if c == ':' {
            TokenKind::COLON
        } else if c == '(' {
            TokenKind::LPAREN
        } else if c == ')' {
            TokenKind::RPAREN
        } else if c == '{' {
            TokenKind::LBRACE
        } else if c == '}' {
            TokenKind::RBRACE
        } else if c == '[' {
            TokenKind::LBRACKET
        } else if c == ']' {
            TokenKind::RBRACKET
        } else {
            TokenKind::ILLEGAL
        }
    }

    /// The token of the given kind whose text stands from `from` to `to`.
    fn cut_token(&self, kind: TokenKind, from: usize, to: usize) -> (t: Token)
        requires
            from <= to <= self.chars@.len(),
        ensures
            t@ == cut(self.chars@, kind, from as nat, to as nat),
    {
        proof {
            use_type_invariant(self);
        }
        Token::new(kind, self.input.substring_char(from, to))
    }

    /// Reads the next token. At the end of the text it is the end-of-input
    /// marker, again and again.
    pub fn next_token(&mut self) -> (t: Token)
        ensures
            final(self).text() == old(self).text(),
            t@ == scan(old(self).text(), old(self).offset()).token,
            final(self).offset() == scan(old(self).text(), old(self).offset()).end,
            old(self).offset() <= final(self).offset() <= final(self).text().len(),
    {
        proof {
            use_type_invariant(&*self);
            lemma_scan_advances(self.chars@, self.position as nat);
        }
        self.skip_whitespace();
        proof {
            use_type_invariant(&*self);
        }
        let start = self.position;
        if start >= self.chars.len() {
            return self.cut_token(TokenKind::EOF, start, start);
        }
        let c = self.chars[start];
        if (c >= 'a' && c <= 'z') || (c >= 'A' && c <= 'Z') || c == '_' {
            let end = self.read_letters(start);
            let kind = self.lookup_word(start, end);
            self.position = end;
            self.cut_token(kind, start, end)
        } else if c >= '0' && c <= '9' {
            let end = self.read_digits(start);
            self.position = end;
            self.cut_token(TokenKind::INT, start, end)
        } else if c == '"' {
            let end = self.find_quote(start + 1);
            self.position = if end < self.chars.len() {
                end + 1
            } else {
                end
            };
            self.cut_token(TokenKind::STRING, start + 1, end)
        } else if c == '=' && start + 1 < self.chars.len() && self.chars[start + 1] == '=' {
            self.position = start + 2;
            self.cut_token(TokenKind::EQ, start, start + 2)
        } else if c == '!' && start + 1 < self.chars.len() && self.chars[start + 1] == '=' {
            self.position = start + 2;
            self.cut_token(TokenKind::NotEq, start, start + 2)
        } else {
            self.position = start + 1;
            self.cut_token(Self::lookup_symbol(c), start, start + 1)
        }
    }
}

} // verus!
