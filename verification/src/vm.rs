//! The evaluation session: holds the current term, parses new ones, and
//! reduces to normal form with a trace of every rewrite.

use vstd::prelude::*;

use crate::ast::expr::Expr;
use crate::ast::model::{
    is_normal_form, lemma_simplify_events_alpha, lemma_step_fixed_point, lemma_step_no_marker,
    spec_eval, spec_simplify, spec_step, RedS, TermS,
};
use crate::ast::red_type::RedType;
use crate::lexer::lexer::{spec_tokenize, Lexer};
use crate::lexer::parser::{spec_parse, Parser};
use crate::lexer::token::tokens_of;

verus! {

/// Why a session operation failed.
#[derive(Debug, PartialEq, Eq, Structural)]
pub enum EvalError {
    /// Evaluation was asked for before any term was loaded.
    NoExpressionLoaded,
    /// The input text is not a lambda term.
    ParseFailure,
    /// The step budget ran out before a normal form was reached.
    StepLimitReached,
}

impl EvalError {
    /// The failure in words.
    pub fn message(&self) -> (r: &'static str)
        ensures
            r@ == match self {
                EvalError::NoExpressionLoaded => "No expression to evaluate"@,
                EvalError::ParseFailure => "Failed to parse expression"@,
                EvalError::StepLimitReached => "Step limit reached before normal form"@,
            },
    {
        match self {
            EvalError::NoExpressionLoaded => "No expression to evaluate",
            EvalError::ParseFailure => "Failed to parse expression",
            EvalError::StepLimitReached => "Step limit reached before normal form",
        }
    }
}

/// The trace entries of one step: each event paired with the term the step
/// produced.
pub open spec fn pair_events(events: Seq<RedS>, t: TermS) -> Seq<(RedS, TermS)> {
    events.map_values(|e: RedS| (e, t))
}

/// The full trace of an evaluation: the events of every step, each paired
/// with the term that step produced, for at most `fuel` steps.
pub open spec fn spec_eval_trace(t: TermS, fuel: nat) -> Seq<(RedS, TermS)>
    decreases fuel,
{
    if fuel == 0 || is_normal_form(t) {
        Seq::empty()
    } else {
        let stepped = spec_step(t);
        pair_events(stepped.1, stepped.0) + spec_eval_trace(stepped.0, (fuel - 1) as nat)
    }
}

/// The trace entries held by a vector of event/term pairs, as model values.
pub open spec fn pairs_of(v: Seq<(RedType, Expr)>) -> Seq<(RedS, TermS)> {
    v.map_values(|p: (RedType, Expr)| (p.0@, p.1@))
}

/// An evaluation session: the current term, if one is loaded, and the
/// tokenizer it parses input with.
pub struct Vm {
    current_expr: Option<Expr>,
    lexer: Lexer,
}

impl Vm {
    /// The model of the loaded term, if one is loaded.
    pub closed spec fn loaded(&self) -> Option<TermS> {
        match self.current_expr {
            None => None,
            Some(e) => Some(e@),
        }
    }

    /// A session with nothing loaded.
    pub fn new() -> (vm: Vm)
        ensures
            vm.loaded() is None,
    {
        Vm { current_expr: None, lexer: Lexer::new() }
    }

    /// Parses `input` and loads the term it denotes, which is also returned.
    /// Exactly the inputs that the grammar rejects give the parse failure,
    /// and leave the loaded term as it was.
    pub fn parse_expr(&mut self, input: &str) -> (r: Result<Expr, EvalError>)
        ensures
            match r {
                Ok(e) => spec_parse(spec_tokenize(input@, 0)) == Some(e@) && final(self).loaded()
                    == Some(e@),
                Err(err) => err == EvalError::ParseFailure && spec_parse(spec_tokenize(input@, 0))
                    is None && final(self).loaded() == old(self).loaded(),
            },
    {
        self.lexer.reload(input);
        let tokens = self.lexer.tokenize();
        proof {
            assert(tokens_of(tokens@) == spec_tokenize(input@, 0));
        }
        let mut parser = Parser::new(tokens);
        let parsed = match parser.parse() {
            Some(e) => e,
            None => {
                return Err(EvalError::ParseFailure);
            },
        };
        self.current_expr = Some(parsed.clone());
        Ok(parsed)
    }

    /// The loaded term, if one is loaded.
    pub fn get_expr(&self) -> (r: Option<&Expr>)
        ensures
            r is Some <==> self.loaded() is Some,
            r is Some ==> Some(r->Some_0@) == self.loaded(),
    {
        self.current_expr.as_ref()
    }

    /// Reduces the loaded term to normal form, within `max_steps` steps, and
    /// canonicalizes the result, which replaces the loaded term. The trace
    /// pairs every rewrite event with the term its step produced, the
    /// canonicalizer's renamings last, paired with the final term; no entry
    /// is the terminal marker. With nothing loaded the call fails and
    /// changes nothing; a term that reaches no normal form within the budget
    /// fails explicitly and stays loaded, partially reduced.
    pub fn eval(&mut self, max_steps: usize) -> (r: Result<(Expr, Vec<(RedType, Expr)>), EvalError>)
        ensures
            ({
                let t = old(self).loaded()->Some_0;
                let reduced = spec_eval(t, max_steps as nat);
                let sim = spec_simplify(reduced.0);
                match r {
                    Ok(p) => {
                        &&& old(self).loaded() is Some
                        &&& is_normal_form(reduced.0)
                        &&& p.0@ == sim.0
                        &&& final(self).loaded() == Some(sim.0)
                        &&& pairs_of(p.1@) == spec_eval_trace(t, max_steps as nat) + pair_events(
                            sim.1,
                            sim.0,
                        )
                        &&& forall|i: int| 0 <= i < p.1@.len() ==> !(#[trigger] p.1@[i].0@
                            is NoReduction)
                    },
                    Err(err) => match err {
                        EvalError::NoExpressionLoaded => old(self).loaded() is None && *final(self)
                            == *old(self),
                        EvalError::StepLimitReached => old(self).loaded() is Some
                            && !is_normal_form(reduced.0) && final(self).loaded() == Some(
                            reduced.0,
                        ),
                        EvalError::ParseFailure => false,
                    },
                }
            }),
    {
        let ghost t = old(self).loaded()->Some_0;
        let mut expr = match &self.current_expr {
            Some(e) => e.clone(),
            None => {
                return Err(EvalError::NoExpressionLoaded);
            },
        };
        let mut steps: Vec<(RedType, Expr)> = Vec::new();
        let mut used: usize = 0;
        loop
            invariant
                used <= max_steps,
                t == old(self).loaded()->Some_0,
                spec_eval(t, max_steps as nat).0 == spec_eval(
                    expr@,
                    (max_steps - used) as nat,
                ).0,
                spec_eval_trace(t, max_steps as nat) =~= pairs_of(steps@) + spec_eval_trace(
                    expr@,
                    (max_steps - used) as nat,
                ),
                forall|i: int| 0 <= i < steps@.len() ==> !(#[trigger] steps@[i].0@
                    is NoReduction),
            ensures
                used <= max_steps,
                expr@ == spec_eval(t, max_steps as nat).0,
                pairs_of(steps@) =~= spec_eval_trace(t, max_steps as nat),
                is_normal_form(expr@) || used == max_steps,
                forall|i: int| 0 <= i < steps@.len() ==> !(#[trigger] steps@[i].0@
                    is NoReduction),
            decreases max_steps - used,
        {
            let ghost n = (max_steps - used) as nat;
            if expr.is_normal_form() || used >= max_steps {
                proof {
                    assert(spec_eval_trace(expr@, n) =~= Seq::<(RedS, TermS)>::empty());
                    assert(pairs_of(steps@) + Seq::<(RedS, TermS)>::empty() =~= pairs_of(
                        steps@,
                    ));
                }
                break;
            }
            let ghost before = expr@;
            let (next_expr, reds) = expr.eval_step();
            proof {
                lemma_step_fixed_point(before);
                lemma_step_no_marker(before);
            }
            let ghost prior = steps@;
            let mut j: usize = 0;
            let reds_len = reds.len();
            while j < reds_len
                invariant
                    j <= reds_len,
                    reds_len == reds@.len(),
                    next_expr@ == spec_step(before).0,
                    crate::ast::red_type::reds_of(reds@) == spec_step(before).1,
                    pairs_of(steps@) =~= pairs_of(prior) + pair_events(
                        spec_step(before).1.subrange(0, j as int),
                        spec_step(before).0,
                    ),
                    forall|i: int| 0 <= i < spec_step(before).1.len() ==> !(
                    #[trigger] spec_step(before).1[i] is NoReduction),
                    forall|i: int| 0 <= i < steps@.len() ==> !(#[trigger] steps@[i].0@
                        is NoReduction),
                decreases reds_len - j,
            {
                let ghost sofar = steps@;
                steps.push((reds[j].clone(), next_expr.clone()));
                proof {
                    assert(steps@ =~= sofar.push(steps@[steps@.len() - 1]));
                    assert(pairs_of(steps@) =~= pairs_of(sofar).push(
                        (reds@[j as int]@, next_expr@),
                    ));
                    assert(reds@[j as int]@ == crate::ast::red_type::reds_of(
                        reds@,
                    )[j as int]);
                    assert(reds@[j as int]@ == spec_step(before).1[j as int]);
                    assert(spec_step(before).1.subrange(0, j + 1 as int) =~= spec_step(
                        before,
                    ).1.subrange(0, j as int).push(spec_step(before).1[j as int]));
                    assert(pair_events(
                        spec_step(before).1.subrange(0, j + 1 as int),
                        spec_step(before).0,
                    ) =~= pair_events(
                        spec_step(before).1.subrange(0, j as int),
                        spec_step(before).0,
                    ).push((spec_step(before).1[j as int], spec_step(before).0)));
                }
                j = j + 1;
            }
            proof {
                assert(spec_step(before).1.subrange(0, reds_len as int) =~= spec_step(
                    before,
                ).1);
                assert(spec_eval_trace(before, n) =~= pair_events(
                    spec_step(before).1,
                    spec_step(before).0,
                ) + spec_eval_trace(spec_step(before).0, (n - 1) as nat));
                assert(pairs_of(prior) + spec_eval_trace(before, n) =~= pairs_of(steps@)
                    + spec_eval_trace(spec_step(before).0, (n - 1) as nat));
            }
            expr = next_expr;
            used = used + 1;
        }
        if !expr.is_normal_form() {
            self.current_expr = Some(expr);
            return Err(EvalError::StepLimitReached);
        }
        let ghost nf_term = expr@;
        let (simplified, reductions) = expr.simplify_numbered_vars();
        proof {
            lemma_simplify_events_alpha(nf_term);
        }
        let ghost after_eval = steps@;
        let mut k: usize = 0;
        let red_count = reductions.len();
        while k < red_count
            invariant
                k <= red_count,
                red_count == reductions@.len(),
                simplified@ == spec_simplify(nf_term).0,
                crate::ast::red_type::reds_of(reductions@) == spec_simplify(nf_term).1,
                forall|i: int| 0 <= i < spec_simplify(nf_term).1.len()
                    ==> #[trigger] spec_simplify(nf_term).1[i] is Alpha,
                pairs_of(steps@) =~= pairs_of(after_eval) + pair_events(
                    spec_simplify(nf_term).1.subrange(0, k as int),
                    spec_simplify(nf_term).0,
                ),
                forall|i: int| 0 <= i < after_eval.len() ==> !(#[trigger] after_eval[i].0@
                    is NoReduction),
                forall|i: int| 0 <= i < steps@.len() ==> !(#[trigger] steps@[i].0@
                    is NoReduction),
            decreases red_count - k,
        {
            let ghost sofar = steps@;
            proof {
                assert(reductions@[k as int]@ == spec_simplify(nf_term).1[k as int]);
            }
            match &reductions[k] {
                RedType::AlphaConversion(from, to) => {
                    steps.push(
                        (
                            RedType::AlphaConversion(from.clone(), to.clone()),
                            simplified.clone(),
                        ),
                    );
                },
                _ => {
                    proof {
                        assert(false);
                    }
                },
            }
            proof {
                assert(steps@ =~= sofar.push(steps@[steps@.len() - 1]));
                assert(pairs_of(steps@) =~= pairs_of(sofar).push(
                    (reductions@[k as int]@, simplified@),
                ));
                assert(spec_simplify(nf_term).1.subrange(0, k + 1 as int) =~= spec_simplify(
                    nf_term,
                ).1.subrange(0, k as int).push(spec_simplify(nf_term).1[k as int]));
                assert(pair_events(
                    spec_simplify(nf_term).1.subrange(0, k + 1 as int),
                    spec_simplify(nf_term).0,
                ) =~= pair_events(
                    spec_simplify(nf_term).1.subrange(0, k as int),
                    spec_simplify(nf_term).0,
                ).push((spec_simplify(nf_term).1[k as int], spec_simplify(nf_term).0)));
            }
            k = k + 1;
        }
        proof {
            assert(spec_simplify(nf_term).1.subrange(0, red_count as int) =~= spec_simplify(
                nf_term,
            ).1);
        }
        self.current_expr = Some(simplified.clone());
        Ok((simplified, steps))
    }
}

} // verus!
