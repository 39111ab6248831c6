//! The parser: recursive descent over the four-token grammar, with
//! multi-parameter abstractions and left-associative application.

use vstd::prelude::*;

use crate::ast::model::TermS;
use crate::ast::expr::{abs, apl, var, Expr};
use crate::lexer::token::{Token, TokenS};

verus! {

/// The comma-separated parameter names after a binder token, and the
/// position just past the dot that ends them. A name must be followed by a
/// comma (more names) or a dot (the body comes); anything else fails. No
/// name at all is accepted with nothing consumed: the grammar then reads a
/// body directly, as the engine has always done.
pub open spec fn parse_params_at(toks: Seq<TokenS>, pos: nat) -> Option<(Seq<Seq<char>>, nat)>
    decreases toks.len() - pos, 0int,
{
    if pos < toks.len() && (toks[pos as int] is Identifier) {
        let name = toks[pos as int]->Identifier_0;
        if pos + 1 < toks.len() && (toks[pos + 1 as int] is Comma) {
            match parse_params_at(toks, pos + 2) {
                None => None,
                Some((rest, after)) => Some((seq![name] + rest, after)),
            }
        } else if pos + 1 < toks.len() && (toks[pos + 1 as int] is Dot) {
            Some((seq![name], pos + 2))
        } else {
            None
        }
    } else {
        Some((Seq::empty(), pos))
    }
}

/// The parameters wrapped around a body, the first one outermost.
pub open spec fn wrap_params(params: Seq<Seq<char>>, body: TermS) -> TermS
    decreases params.len(),
{
    if params.len() == 0 {
        body
    } else {
        TermS::Abs(params[0], Box::new(wrap_params(params.drop_first(), body)))
    }
}

/// A primary expression at `pos`: a binder with its parameters and body, a
/// lone identifier, or a parenthesized expression.
pub open spec fn parse_primary_at(toks: Seq<TokenS>, pos: nat) -> Option<(TermS, nat)>
    decreases toks.len() - pos, 1int,
{
    if pos >= toks.len() {
        None
    } else {
        match toks[pos as int] {
            TokenS::Lambda => match parse_params_at(toks, pos + 1) {
                None => None,
                Some((params, after)) => {
                    let body_at = if pos < after <= toks.len() {
                        after
                    } else {
                        pos + 1
                    };
                    match parse_expr_at(toks, body_at) {
                        None => None,
                        Some((body, end)) => Some((wrap_params(params, body), end)),
                    }
                },
            },
            TokenS::Identifier(name) => Some((TermS::Var(name), pos + 1)),
            TokenS::LeftParen => match parse_expr_at(toks, pos + 1) {
                None => None,
                Some((inner, after)) => {
                    if after < toks.len() && (toks[after as int] is RightParen) {
                        Some((inner, after + 1))
                    } else {
                        None
                    }
                },
            },
            _ => None,
        }
    }
}

/// The applications following a parsed function part: as long as the next
/// token could start an argument (an identifier or an opening parenthesis),
/// one more primary expression is read and applied, left-associatively.
pub open spec fn parse_arguments_at(toks: Seq<TokenS>, pos: nat, acc: TermS) -> Option<
    (TermS, nat),
>
    decreases toks.len() - pos, 2int,
{
    if pos < toks.len() && ((toks[pos as int] is LeftParen) || (toks[pos as int]
        is Identifier)) {
        match parse_primary_at(toks, pos) {
            None => None,
            Some((arg, after)) => {
                let next = if pos < after <= toks.len() {
                    after
                } else {
                    (pos + 1) as nat
                };
                parse_arguments_at(toks, next, TermS::Apl(Box::new(acc), Box::new(arg)))
            },
        }
    } else {
        Some((acc, pos))
    }
}

/// An application at `pos`: a primary expression and its arguments.
pub open spec fn parse_application_at(toks: Seq<TokenS>, pos: nat) -> Option<(TermS, nat)>
    decreases toks.len() - pos, 3int,
{
    if pos >= toks.len() {
        None
    } else {
        match parse_primary_at(toks, pos) {
        None => None,
        Some((func, after)) => {
            let next = if pos < after <= toks.len() {
                after
            } else {
                (pos + 1) as nat
            };
            parse_arguments_at(toks, next, func)
        },
        }
    }
}

/// An expression at `pos`: an application.
pub open spec fn parse_expr_at(toks: Seq<TokenS>, pos: nat) -> Option<(TermS, nat)>
    decreases toks.len() - pos, 4int,
{
    parse_application_at(toks, pos)
}

/// The whole token sequence as one expression; trailing tokens fail it.
pub open spec fn spec_parse(toks: Seq<TokenS>) -> Option<TermS> {
    match parse_expr_at(toks, 0) {
        None => None,
        Some((e, after)) => if after == toks.len() {
            Some(e)
        } else {
            None
        },
    }
}

/// The parser. It holds the tokens and how far they have been consumed.
pub struct Parser {
    tokens: Vec<Token>,
    position: usize,
}

impl Parser {
    /// The tokens the parser holds.
    pub closed spec fn toks(&self) -> Seq<TokenS> {
        self.tokens@.map_values(|t: Token| t@)
    }

    /// How many tokens have been consumed.
    pub closed spec fn at(&self) -> nat {
        self.position as nat
    }

    /// The consumed prefix never outruns the tokens.
    pub closed spec fn wf(&self) -> bool {
        self.position <= self.tokens@.len()
    }

    /// A parser over the given tokens, none consumed yet.
    pub fn new(tokens: Vec<Token>) -> (p: Parser)
        ensures
            p.toks() == tokens@.map_values(|t: Token| t@),
            p.at() == 0,
            p.wf(),
    {
        Parser { tokens, position: 0 }
    }

    /// The token at the current position, if any is left.
    fn peek(&self) -> (r: Option<&Token>)
        ensures
            r is Some <==> self.at() < self.toks().len(),
            r is Some ==> r->Some_0@ == self.toks()[self.at() as int],
    {
        if self.position < self.tokens.len() {
            Some(&self.tokens[self.position])
        } else {
            None
        }
    }

    /// Moves past the current token.
    fn advance(&mut self)
        requires
            old(self).at() < old(self).toks().len(),
        ensures
            final(self).toks() == old(self).toks(),
            final(self).at() == old(self).at() + 1,
    {
        let n = self.tokens.len();
        proof {
            assert(self.position < n);
        }
        self.position = self.position + 1;
    }

    /// A primary expression: a binder with its parameters and body, a lone
    /// identifier, or a parenthesized expression. Nothing on failure.
    pub fn parse_primary(&mut self) -> (r: Option<Expr>)
        requires
            old(self).wf(),
        ensures
            final(self).toks() == old(self).toks(),
            final(self).wf(),
            match r {
                Some(e) => parse_primary_at(old(self).toks(), old(self).at()) == Some(
                    (e@, final(self).at()),
                ) && final(self).at() > old(self).at(),
                None => parse_primary_at(old(self).toks(), old(self).at()) is None,
            },
        decreases old(self).toks().len() - old(self).at(), 1int,
    {
        let ghost toks = self.toks();
        let ghost pos = self.at();
        let current = match self.peek() {
            None => {
                return None;
            },
            Some(t) => t,
        };
        match current {
            Token::Lambda => {
                self.advance();
                let mut params: Vec<String> = Vec::new();
                let ghost goal = parse_params_at(toks, pos + 1);
                loop
                    invariant_except_break
                        (match parse_params_at(toks, self.at()) {
                            None => goal is None,
                            Some((rest, after)) => goal == Some(
                                (params@.map_values(|s: String| s@) + rest, after),
                            ),
                        }),
                    invariant
                        self.wf(),
                        self.toks() == toks,
                        toks == old(self).toks(),
                        pos == old(self).at(),
                        pos < self.at() <= toks.len(),
                        pos < toks.len() && toks[pos as int] is Lambda,
                        goal == parse_params_at(toks, pos + 1),
                    ensures
                        self.wf(),
                        self.toks() == toks,
                        pos < self.at() <= toks.len(),
                        goal == Some((params@.map_values(|s: String| s@), self.at())),
                    decreases toks.len() - self.at(),
                {
                    let ghost entry = self.at();
                    let keep_going = match self.peek() {
                        Some(Token::Identifier(name)) => {
                            let ghost pname = name@;
                            let param = name.clone();
                            let ghost prev = params@;
                            self.advance();
                            params.push(param);
                            proof {
                                assert(params@ =~= prev.push(params@[params@.len() - 1]));
                                assert(params@.map_values(|s: String| s@) =~= prev.map_values(
                                    |s: String| s@,
                                ).push(pname));
                            }
                            match self.peek() {
                                Some(Token::Comma) => {
                                    self.advance();
                                    proof {
                                        if parse_params_at(toks, self.at()) is Some {
                                            let rest = parse_params_at(
                                                toks,
                                                self.at(),
                                            )->Some_0.0;
                                            assert(parse_params_at(toks, entry) == Some(
                                                (
                                                    seq![pname] + rest,
                                                    parse_params_at(toks, self.at())->Some_0.1,
                                                ),
                                            ));
                                            assert(prev.map_values(|s: String| s@) + (seq![pname]
                                                + rest) =~= params@.map_values(|s: String| s@)
                                                + rest);
                                        } else {
                                            assert(parse_params_at(toks, entry) is None);
                                        }
                                    }
                                    true
                                },
                                Some(Token::Dot) => {
                                    self.advance();
                                    proof {
                                        assert(parse_params_at(toks, entry) == Some(
                                            (seq![pname], entry + 2),
                                        ));
                                        assert(prev.map_values(|s: String| s@) + seq![pname]
                                            =~= params@.map_values(|s: String| s@));
                                        assert(goal == Some(
                                            (params@.map_values(|s: String| s@), self.at()),
                                        ));
                                    }
                                    false
                                },
                                _ => {
                                    proof {
                                        assert(parse_params_at(toks, entry) is None);
                                        assert(parse_primary_at(toks, pos) is None);
                                    }
                                    return None;
                                },
                            }
                        },
                        _ => {
                            proof {
                                assert(parse_params_at(toks, entry) == Some(
                                    (Seq::<Seq<char>>::empty(), entry),
                                ));
                                assert(params@.map_values(|s: String| s@)
                                    + Seq::<Seq<char>>::empty() =~= params@.map_values(
                                    |s: String| s@,
                                ));
                                assert(goal == Some(
                                    (params@.map_values(|s: String| s@), self.at()),
                                ));
                            }
                            false
                        },
                    };
                    if !keep_going {
                        break;
                    }
                }
                let body = match self.parse_expr() {
                    None => {
                        return None;
                    },
                    Some(b) => b,
                };
                let mut lambda_expr = body;
                let ghost all = params@.map_values(|s: String| s@);
                let ghost inner = lambda_expr@;
                let mut i: usize = params.len();
                while i > 0
                    invariant
                        i <= params@.len(),
                        all == params@.map_values(|s: String| s@),
                        lambda_expr@ == wrap_params(all.subrange(i as int, all.len() as int), inner),
                    decreases i,
                {
                    i = i - 1;
                    lambda_expr = abs(params[i].as_str(), lambda_expr);
                    proof {
                        assert(all.subrange(i as int, all.len() as int).drop_first()
                            =~= all.subrange(i + 1, all.len() as int));
                    }
                }
                proof {
                    assert(all.subrange(0, all.len() as int) =~= all);
                }
                Some(lambda_expr)
            },
            Token::Identifier(name) => {
                let result = var(name.as_str());
                self.advance();
                Some(result)
            },
            Token::LeftParen => {
                self.advance();
                let expr = match self.parse_expr() {
                    None => {
                        return None;
                    },
                    Some(e) => e,
                };
                match self.peek() {
                    Some(Token::RightParen) => {
                        self.advance();
                        Some(expr)
                    },
                    _ => None,
                }
            },
            _ => None,
        }
    }

    /// An application: a primary expression, then as long as an identifier
    /// or an opening parenthesis follows, one more primary expression
    /// applied left-associatively. Nothing on failure.
    pub fn parse_application(&mut self) -> (r: Option<Expr>)
        requires
            old(self).wf(),
        ensures
            final(self).toks() == old(self).toks(),
            final(self).wf(),
            match r {
                Some(e) => parse_application_at(old(self).toks(), old(self).at()) == Some(
                    (e@, final(self).at()),
                ) && final(self).at() > old(self).at(),
                None => parse_application_at(old(self).toks(), old(self).at()) is None,
            },
        decreases old(self).toks().len() - old(self).at(), 3int,
    {
        let ghost toks = self.toks();
        let ghost pos = self.at();
        let mut expr = match self.parse_primary() {
            None => {
                return None;
            },
            Some(e) => e,
        };
        let ghost goal = parse_application_at(toks, pos);
        proof {
            assert(goal == parse_arguments_at(toks, self.at(), expr@));
        }
        loop
            invariant
                self.wf(),
                toks == old(self).toks(),
                pos == old(self).at(),
                self.toks() == toks,
                pos < self.at() <= toks.len(),
                goal == parse_application_at(toks, pos),
                goal == parse_arguments_at(toks, self.at(), expr@),
            ensures
                self.wf(),
                self.toks() == toks,
                pos < self.at() <= toks.len(),
                goal == Some((expr@, self.at())),
            decreases toks.len() - self.at(), 2int,
        {
            let starts_argument = match self.peek() {
                Some(Token::LeftParen) => true,
                Some(Token::Identifier(_)) => true,
                _ => false,
            };
            if !starts_argument {
                break;
            }
            let arg = match self.parse_primary() {
                None => {
                    return None;
                },
                Some(a) => a,
            };
            expr = apl(expr, arg);
        }
        Some(expr)
    }

    /// An expression: an application. Nothing on failure.
    pub fn parse_expr(&mut self) -> (r: Option<Expr>)
        requires
            old(self).wf(),
        ensures
            final(self).toks() == old(self).toks(),
            final(self).wf(),
            match r {
                Some(e) => parse_expr_at(old(self).toks(), old(self).at()) == Some(
                    (e@, final(self).at()),
                ) && final(self).at() > old(self).at(),
                None => parse_expr_at(old(self).toks(), old(self).at()) is None,
            },
        decreases old(self).toks().len() - old(self).at(), 4int,
    {
        self.parse_application()
    }

    /// The rest of the tokens as one expression; tokens left over after it
    /// fail the parse. On a fresh parser this is [`spec_parse`] of the whole
    /// sequence.
    pub fn parse(&mut self) -> (r: Option<Expr>)
        requires
            old(self).wf(),
        ensures
            final(self).toks() == old(self).toks(),
            final(self).wf(),
            match r {
                Some(e) => parse_expr_at(old(self).toks(), old(self).at()) == Some(
                    (e@, old(self).toks().len() as nat),
                ),
                None => match parse_expr_at(old(self).toks(), old(self).at()) {
                    Some(p) => p.1 != old(self).toks().len(),
                    None => true,
                },
            },
            old(self).at() == 0 ==> (r is Some <==> spec_parse(old(self).toks()) is Some),
            old(self).at() == 0 && r is Some ==> spec_parse(old(self).toks()) == Some(
                r->Some_0@,
            ),
    {
        let expr = self.parse_expr();
        match expr {
            Some(e) => {
                if self.position == self.tokens.len() {
                    Some(e)
                } else {
                    None
                }
            },
            None => None,
        }
    }
}

} // verus!
