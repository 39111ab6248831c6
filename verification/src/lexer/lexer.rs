//! The tokenizer: turns source text into tokens, skipping what it does not
//! know.

use vstd::prelude::*;

use crate::lexer::token::{tokens_of, Token, TokenS};
use crate::text::{chars_of, string_from_chars};

verus! {

/// What `char::is_alphanumeric` returns for a character: a function of the
/// character alone, defined by Unicode's alphabetic and numeric categories.
pub uninterp spec fn is_alphanumeric_char(c: char) -> bool;

/// Relies on `char::is_alphanumeric`: whether the character is alphabetic or
/// numeric under Unicode; a function of the character alone.
#[verifier::external_body]
fn char_is_alphanumeric(c: char) -> (r: bool)
    ensures
        r == is_alphanumeric_char(c),
{
    c.is_alphanumeric()
}

/// True iff `c` may stand in an identifier: alphanumeric or an underscore.
pub open spec fn is_ident_char(c: char) -> bool {
    is_alphanumeric_char(c) || c == '_'
}

/// The end of the identifier starting at `pos`: the first position at or
/// after it whose character no identifier may hold.
pub open spec fn ident_end(s: Seq<char>, pos: nat) -> nat
    decreases s.len() - pos,
{
    if pos >= s.len() || !is_ident_char(s[pos as int]) {
        pos
    } else {
        ident_end(s, pos + 1)
    }
}

/// The identifier's end lies between its start and the end of the input,
/// everything before it is identifier material, and what follows it is not.
pub proof fn lemma_ident_end(s: Seq<char>, pos: nat)
    requires
        pos <= s.len(),
    ensures
        pos <= ident_end(s, pos) <= s.len(),
        forall|j: int| pos <= j < ident_end(s, pos) ==> is_ident_char(s[j]),
        ident_end(s, pos) < s.len() ==> !is_ident_char(s[ident_end(s, pos) as int]),
        pos < s.len() && is_ident_char(s[pos as int]) ==> ident_end(s, pos) > pos,
    decreases s.len() - pos,
{
    if pos < s.len() && is_ident_char(s[pos as int]) {
        lemma_ident_end(s, pos + 1);
    }
}

/// The next token of `s` at or after `pos`, and the position just past it.
/// Newlines and characters that start no token are skipped; `λ` and `\` give
/// the binder token; an alphanumeric character or an underscore starts an
/// identifier, greedily extended. Nothing is left at or after `pos` exactly
/// when no token comes back.
pub open spec fn spec_next_token(s: Seq<char>, pos: nat) -> (Option<TokenS>, nat)
    decreases s.len() - pos,
{
    if pos >= s.len() {
        (None, pos)
    } else {
        let c = s[pos as int];
        if c == '\n' {
            spec_next_token(s, pos + 1)
        } else if c == 'λ' || c == '\\' {
            (Some(TokenS::Lambda), pos + 1)
        } else if c == '.' {
            (Some(TokenS::Dot), pos + 1)
        } else if c == ',' {
            (Some(TokenS::Comma), pos + 1)
        } else if c == '(' {
            (Some(TokenS::LeftParen), pos + 1)
        } else if c == ')' {
            (Some(TokenS::RightParen), pos + 1)
        } else if is_ident_char(c) {
            let end = ident_end(s, pos);
            (Some(TokenS::Identifier(s.subrange(pos as int, end as int))), end)
        } else {
            spec_next_token(s, pos + 1)
        }
    }
}

/// All tokens of `s` from `pos` on, in order.
pub open spec fn spec_tokenize(s: Seq<char>, pos: nat) -> Seq<TokenS>
    decreases s.len() - pos,
{
    let next = spec_next_token(s, pos);
    match next.0 {
        None => Seq::empty(),
        Some(t) => seq![t] + spec_tokenize(
            s,
            if pos < next.1 <= s.len() {
                next.1
            } else {
                (pos + 1) as nat
            },
        ),
    }
}

/// A token comes from within the input and ends past where it starts.
pub proof fn lemma_next_token_bounds(s: Seq<char>, pos: nat)
    requires
        pos <= s.len(),
    ensures
        spec_next_token(s, pos).0 is Some ==> pos < spec_next_token(s, pos).1 <= s.len(),
        spec_next_token(s, pos).0 is None ==> spec_next_token(s, pos).1 == s.len(),
    decreases s.len() - pos,
{
    if pos < s.len() {
        let c = s[pos as int];
        if c == '\n' || !(c == 'λ' || c == '\\' || c == '.' || c == ',' || c == '(' || c == ')'
            || is_ident_char(c)) {
            lemma_next_token_bounds(s, pos + 1);
        } else if is_ident_char(c) && !(c == 'λ' || c == '\\' || c == '.' || c == ',' || c == '('
            || c == ')') {
            lemma_ident_end(s, pos);
        }
    }
}

/// The tokenizer. It holds the loaded characters and how far they have been
/// consumed.
pub struct Lexer {
    input: Vec<char>,
    position: usize,
}

impl Lexer {
    /// The characters the tokenizer holds.
    pub closed spec fn text(&self) -> Seq<char> {
        self.input@
    }

    /// How many characters have been consumed.
    pub closed spec fn at(&self) -> nat {
        self.position as nat
    }

    /// The consumed prefix never outruns the text.
    pub closed spec fn wf(&self) -> bool {
        self.position <= self.input@.len()
    }

    /// An empty tokenizer.
    pub fn new() -> (l: Lexer)
        ensures
            l.text() == Seq::<char>::empty(),
            l.at() == 0,
            l.wf(),
    {
        Lexer { input: Vec::new(), position: 0 }
    }

    /// Loads new text, forgetting any prior state.
    pub fn load(&mut self, input: &str)
        ensures
            final(self).text() == input@,
            final(self).at() == 0,
            final(self).wf(),
    {
        self.input = chars_of(input);
        self.position = 0;
    }

    /// Drops the text and starts over.
    pub fn clear(&mut self)
        ensures
            final(self).text() == Seq::<char>::empty(),
            final(self).at() == 0,
            final(self).wf(),
    {
        self.input = Vec::new();
        self.position = 0;
    }

    /// Loads new text, forgetting any prior state.
    pub fn reload(&mut self, input: &str)
        ensures
            final(self).text() == input@,
            final(self).at() == 0,
            final(self).wf(),
    {
        self.clear();
        self.load(input);
    }

    /// The character at the current position, if any is left.
    fn peek(&self) -> (r: Option<char>)
        ensures
            r == if self.at() < self.text().len() {
                Some(self.text()[self.at() as int])
            } else {
                None::<char>
            },
    {
        if self.position < self.input.len() {
            Some(self.input[self.position])
        } else {
            None
        }
    }

    /// Moves past the current character.
    fn advance(&mut self)
        requires
            old(self).at() < old(self).text().len(),
        ensures
            final(self).text() == old(self).text(),
            final(self).at() == old(self).at() + 1,
    {
        let n = self.input.len();
        proof {
            assert(self.position < n);
        }
        self.position = self.position + 1;
    }

    /// The next token of the text, moving past it; nothing when only
    /// skippable characters are left.
    fn next_token(&mut self) -> (r: Option<Token>)
        requires
            old(self).wf(),
        ensures
            final(self).text() == old(self).text(),
            final(self).wf(),
            match r {
                Some(t) => Some(t@) == spec_next_token(old(self).text(), old(self).at()).0,
                None => spec_next_token(old(self).text(), old(self).at()).0 is None,
            },
            final(self).at() == spec_next_token(old(self).text(), old(self).at()).1,
    {
        let ghost s = self.text();
        let ghost pos0 = self.at();
        loop
            invariant
                self.wf(),
                s == old(self).text(),
                pos0 == old(self).at(),
                self.text() == s,
                self.at() <= s.len(),
                spec_next_token(s, pos0) == spec_next_token(s, self.at()),
            decreases s.len() - self.at(),
        {
            let current = match self.peek() {
                None => {
                    return None;
                },
                Some(c) => c,
            };
            if current == '\n' {
                self.advance();
            } else if current == 'λ' || current == '\\' {
                self.advance();
                return Some(Token::Lambda);
            } else if current == '.' {
                self.advance();
                return Some(Token::Dot);
            } else if current == ',' {
                self.advance();
                return Some(Token::Comma);
            } else if current == '(' {
                self.advance();
                return Some(Token::LeftParen);
            } else if current == ')' {
                self.advance();
                return Some(Token::RightParen);
            } else if char_is_alphanumeric(current) || current == '_' {
                let start = self.position;
                let ghost from = self.at();
                proof {
                    lemma_ident_end(s, from);
                }
                loop
                    invariant
                        self.text() == s,
                        self.wf(),
                        start as nat == from,
                        from <= self.at() <= ident_end(s, from),
                        forall|j: int| from <= j < self.at() ==> is_ident_char(s[j]),
                    ensures
                        self.text() == s,
                        self.wf(),
                        start as nat == from,
                        self.at() == ident_end(s, from),
                    decreases s.len() - self.at(),
                {
                    proof {
                        lemma_ident_end(s, from);
                    }
                    match self.peek() {
                        Some(c) => {
                            if char_is_alphanumeric(c) || c == '_' {
                                proof {
                                    if self.at() == ident_end(s, from) {
                                        assert(!is_ident_char(s[ident_end(s, from) as int]));
                                    }
                                    lemma_ident_end(s, self.at());
                                }
                                self.advance();
                            } else {
                                proof {
                                    if self.at() < ident_end(s, from) {
                                        assert(is_ident_char(s[self.at() as int]));
                                    }
                                }
                                break;
                            }
                        },
                        None => {
                            proof {
                                if self.at() < ident_end(s, from) {
                                    assert(is_ident_char(s[self.at() as int]));
                                }
                            }
                            break;
                        },
                    }
                }
                let name = string_from_chars(&self.input, start, self.position);
                return Some(Token::Identifier(name));
            } else {
                self.advance();
            }
        }
    }

    /// All remaining tokens of the text, in order, consuming it.
    pub fn tokenize(&mut self) -> (r: Vec<Token>)
        requires
            old(self).wf(),
        ensures
            final(self).text() == old(self).text(),
            final(self).wf(),
            tokens_of(r@) == spec_tokenize(old(self).text(), old(self).at()),
    {
        let ghost s = self.text();
        let ghost pos0 = self.at();
        let mut tokens: Vec<Token> = Vec::new();
        loop
            invariant
                self.wf(),
                self.text() == s,
                spec_tokenize(s, pos0) =~= tokens_of(tokens@) + spec_tokenize(s, self.at()),
            ensures
                self.text() == s,
                self.wf(),
                tokens_of(tokens@) =~= spec_tokenize(s, pos0),
            decreases s.len() - self.at(),
        {
            let ghost here = self.at();
            proof {
                lemma_next_token_bounds(s, here);
            }
            match self.next_token() {
                Some(t) => {
                    let ghost prev = tokens@;
                    tokens.push(t);
                    proof {
                        assert(tokens@ =~= prev.push(tokens@[tokens@.len() - 1]));
                        assert(tokens_of(tokens@) =~= tokens_of(prev) + seq![
                            spec_next_token(s, here).0->Some_0,
                        ]);
                        assert(spec_tokenize(s, here) =~= seq![
                            spec_next_token(s, here).0->Some_0,
                        ] + spec_tokenize(s, self.at()));
                        assert(tokens_of(prev) + spec_tokenize(s, here) =~= tokens_of(tokens@)
                            + spec_tokenize(s, self.at()));
                    }
                },
                None => {
                    proof {
                        assert(spec_tokenize(s, here) =~= Seq::<TokenS>::empty());
                        assert(tokens_of(tokens@) + Seq::<TokenS>::empty() =~= tokens_of(
                            tokens@,
                        ));
                    }
                    break;
                },
            }
        }
        tokens
    }
}

} // verus!
