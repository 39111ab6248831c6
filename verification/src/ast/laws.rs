//! Laws of the reduction engine, stated over the model and proved once and
//! for all.

use vstd::prelude::*;

use crate::ast::model::{
    free_in, is_normal_form, lemma_step_fixed_point, lemma_step_no_marker, lemma_subst_keeps_free,
    spec_eval, spec_simplify, spec_step, spec_subst, subst_r, term_size, RedS, TermS,
};
use crate::ast::names::split_suffix;

verus! {

/// Substituting for a name at an abstraction that binds that very name
/// leaves the term unchanged and reports nothing: the binder shadows the
/// name, so no free occurrence below it can be captured.
pub proof fn lemma_substitute_shadowed(p: Seq<char>, body: TermS, replacement: TermS)
    ensures
        spec_subst(TermS::Abs(p, Box::new(body)), p, replacement) == (
            TermS::Abs(p, Box::new(body)),
            Seq::<RedS>::empty(),
        ),
{
    let t = TermS::Abs(p, Box::new(body));
    assert(term_size(t) >= 1);
    assert(subst_r(t, p, replacement, term_size(t)) == Some((t, Seq::<RedS>::empty())));
}

/// Substitution never captures a name that is free in the term itself: any
/// name other than the substituted one that occurs free beforehand still
/// occurs free afterward, because an endangered binder is renamed to a name
/// that is not free in its body. (A free name of the replacement enjoys no
/// such guarantee: the freshness check consults the binder's body alone, so
/// a binder may end up named like a name that is free in the replacement.)
pub proof fn lemma_substitute_keeps_free_names(t: TermS, x: Seq<char>, replacement: TermS, y: Seq<char>)
    requires
        free_in(t, y),
        y != x,
    ensures
        free_in(spec_subst(t, x, replacement).0, y),
{
    lemma_subst_keeps_free(t, x, replacement, y, term_size(t));
}

/// The stepper is a fixed point exactly on normal forms: it reports no event
/// if and only if the term is in normal form, and then returns the term
/// unchanged.
pub proof fn lemma_normal_form_fixed_point(t: TermS)
    ensures
        spec_step(t).1.len() == 0 <==> is_normal_form(t),
        is_normal_form(t) ==> spec_step(t).0 == t,
{
    lemma_step_fixed_point(t);
}

/// The stepper is deterministic: it is a function of the term alone, so any
/// two runs on the same term return the same reduct and the same events —
/// the leftmost-outermost redex it contracts is unique.
pub proof fn lemma_step_deterministic(
    t: TermS,
    first: (TermS, Seq<RedS>),
    second: (TermS, Seq<RedS>),
)
    requires
        first == spec_step(t),
        second == spec_step(t),
    ensures
        first == second,
{
}

/// Every event of an evaluation trace is a productive rewrite: the terminal
/// marker never appears in it.
pub proof fn lemma_trace_productive(t: TermS, fuel: nat)
    ensures
        forall|i: int| 0 <= i < spec_eval(t, fuel).1.len() ==> !(#[trigger] spec_eval(
            t,
            fuel,
        ).1[i] is NoReduction),
    decreases fuel,
{
    if fuel > 0 && !is_normal_form(t) {
        let stepped = spec_step(t);
        lemma_step_no_marker(t);
        lemma_trace_productive(stepped.0, (fuel - 1) as nat);
    }
}

/// A lambda term with names forgotten: a bound variable is the number of
/// binders between it and its own, a free variable keeps its name. Two terms
/// are alpha-equivalent exactly when they forget to the same value.
pub enum NamelessTerm {
    FreeVar(Seq<char>),
    BoundVar(nat),
    Abs(Box<NamelessTerm>),
    Apl(Box<NamelessTerm>, Box<NamelessTerm>),
}

/// How many binders up the stack `env` (innermost last) binds `x`, if any.
pub open spec fn bind_depth(env: Seq<Seq<char>>, x: Seq<char>) -> Option<nat>
    decreases env.len(),
{
    if env.len() == 0 {
        None
    } else if env.last() == x {
        Some(0nat)
    } else {
        match bind_depth(env.drop_last(), x) {
            None => None,
            Some(d) => Some((d + 1) as nat),
        }
    }
}

/// The term with every bound name replaced by its binder distance, under the
/// enclosing binders `env`.
pub open spec fn forget_names(t: TermS, env: Seq<Seq<char>>) -> NamelessTerm
    decreases t,
{
    match t {
        TermS::Var(name) => match bind_depth(env, name) {
            Some(d) => NamelessTerm::BoundVar(d),
            None => NamelessTerm::FreeVar(name),
        },
        TermS::Abs(param, body) => NamelessTerm::Abs(
            Box::new(forget_names(*body, env.push(param))),
        ),
        TermS::Apl(func, arg) => NamelessTerm::Apl(
            Box::new(forget_names(*func, env)),
            Box::new(forget_names(*arg, env)),
        ),
    }
}

/// Alpha-equivalence: equality of terms up to a renaming of bound names.
pub open spec fn alpha_eq(a: TermS, b: TermS) -> bool {
    forget_names(a, Seq::empty()) == forget_names(b, Seq::empty())
}

/// No name anywhere in the term ends in a decimal digit.
pub open spec fn plain_named(t: TermS) -> bool
    decreases t,
{
    match t {
        TermS::Var(name) => split_suffix(name).len() == 0,
        TermS::Abs(param, body) => split_suffix(param).len() == 0 && plain_named(*body),
        TermS::Apl(func, arg) => plain_named(*func) && plain_named(*arg),
    }
}

/// On a term without numeric name suffixes the canonicalizer changes nothing
/// and reports nothing.
pub proof fn lemma_simplify_plain_identity(t: TermS)
    requires
        plain_named(t),
    ensures
        spec_simplify(t) == (t, Seq::<RedS>::empty()),
    decreases term_size(t),
{
    match t {
        TermS::Var(_) => {},
        TermS::Abs(_, body) => {
            lemma_simplify_plain_identity(*body);
        },
        TermS::Apl(func, arg) => {
            lemma_simplify_plain_identity(*func);
            lemma_simplify_plain_identity(*arg);
            assert(spec_simplify(*func).1 + spec_simplify(*arg).1 =~= Seq::<RedS>::empty());
        },
    }
}

/// A silent canonicalizer run changed nothing: whenever it reports no
/// renaming, the term comes back as it was.
pub proof fn lemma_simplify_silent_identity(t: TermS)
    requires
        spec_simplify(t).1.len() == 0,
    ensures
        spec_simplify(t).0 == t,
    decreases term_size(t),
{
    match t {
        TermS::Var(_) => {},
        TermS::Abs(param, body) => {
            assert(spec_simplify(*body).1.len() == 0);
            lemma_simplify_silent_identity(*body);
        },
        TermS::Apl(func, arg) => {
            lemma_simplify_silent_identity(*func);
            lemma_simplify_silent_identity(*arg);
        },
    }
}

/// The canonicalizer preserves alpha-equivalence on terms without numeric
/// name suffixes, where it is the identity, and on any run that reports no
/// renaming. On other terms it need not: it renames a variable named with
/// suffix one without regard to its binder.
pub proof fn lemma_simplify_plain_alpha(t: TermS)
    requires
        plain_named(t) || spec_simplify(t).1.len() == 0,
    ensures
        alpha_eq(spec_simplify(t).0, t),
{
    if plain_named(t) {
        lemma_simplify_plain_identity(t);
    } else {
        lemma_simplify_silent_identity(t);
    }
}

} // verus!
