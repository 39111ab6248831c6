//! The mathematical model of lambda terms and rewrite events.
//!
//! `TermS` is the ghost counterpart of [`crate::ast::expr::Expr`]: names are
//! character sequences and the tree is fully spelled out. All contracts of
//! the executable engine are stated over this model.

use vstd::prelude::*;

use crate::ast::names::{
    cand, digits_of, lemma_cand_injective, split_base, split_suffix, trim_underscores, val_of,
};

verus! {

/// A lambda term: a variable, an abstraction binding one name, or an
/// application of one term to another.
pub enum TermS {
    Var(Seq<char>),
    Abs(Seq<char>, Box<TermS>),
    Apl(Box<TermS>, Box<TermS>),
}

/// A rewrite event, mirroring [`crate::ast::red_type::RedType`].
pub enum RedS {
    Beta(Seq<char>),
    Alpha(Seq<char>, Seq<char>),
    Contextual(Seq<char>),
    Simplification(Seq<char>),
    NoReduction,
}

/// Number of nodes of a term; every term has at least one.
pub open spec fn term_size(t: TermS) -> nat
    decreases t,
{
    match t {
        TermS::Var(_) => 1,
        TermS::Abs(_, body) => 1 + term_size(*body),
        TermS::Apl(func, arg) => 1 + term_size(*func) + term_size(*arg),
    }
}

/// A name occurs free in a term iff it names a leaf that no enclosing
/// abstraction of the same name binds.
pub open spec fn free_in(t: TermS, x: Seq<char>) -> bool
    decreases t,
{
    match t {
        TermS::Var(name) => name == x,
        TermS::Abs(param, body) => param != x && free_in(*body, x),
        TermS::Apl(func, arg) => free_in(*func, x) || free_in(*arg, x),
    }
}

/// The set of names that occur free in a term.
pub open spec fn free_names(t: TermS) -> Set<Seq<char>>
    decreases t,
{
    match t {
        TermS::Var(name) => Set::empty().insert(name),
        TermS::Abs(param, body) => free_names(*body).remove(param),
        TermS::Apl(func, arg) => free_names(*func).union(free_names(*arg)),
    }
}

/// The set of names that some abstraction of the term binds.
pub open spec fn bound_names(t: TermS) -> Set<Seq<char>>
    decreases t,
{
    match t {
        TermS::Var(_) => Set::empty(),
        TermS::Abs(param, body) => bound_names(*body).insert(param),
        TermS::Apl(func, arg) => bound_names(*func).union(bound_names(*arg)),
    }
}

/// A redex is an application whose function position is an abstraction.
pub open spec fn is_redex(t: TermS) -> bool {
    match t {
        TermS::Apl(func, _) => *func is Abs,
        _ => false,
    }
}

/// Normal form: no redex anywhere in the tree.
pub open spec fn is_normal_form(t: TermS) -> bool
    decreases t,
{
    match t {
        TermS::Var(_) => true,
        TermS::Abs(_, body) => is_normal_form(*body),
        TermS::Apl(func, arg) => !is_redex(t) && is_normal_form(*func) && is_normal_form(*arg),
    }
}

/// Membership in `free_names` coincides with `free_in`.
pub proof fn lemma_free_names_iff(t: TermS, x: Seq<char>)
    ensures
        free_names(t).contains(x) <==> free_in(t, x),
    decreases t,
{
    match t {
        TermS::Var(_) => {},
        TermS::Abs(_, body) => {
            lemma_free_names_iff(*body, x);
        },
        TermS::Apl(func, arg) => {
            lemma_free_names_iff(*func, x);
            lemma_free_names_iff(*arg, x);
        },
    }
}

/// The set of free names is finite and no larger than the term.
pub proof fn lemma_free_names_finite(t: TermS)
    ensures
        free_names(t).finite(),
        free_names(t).len() <= term_size(t),
    decreases t,
{
    match t {
        TermS::Var(_) => {},
        TermS::Abs(param, body) => {
            lemma_free_names_finite(*body);
        },
        TermS::Apl(func, arg) => {
            lemma_free_names_finite(*func);
            lemma_free_names_finite(*arg);
            vstd::set_lib::lemma_len_union(free_names(*func), free_names(*arg));
        },
    }
}

/// Capture-avoiding substitution with a fuel bound on the recursion depth.
///
/// Replaces every free occurrence of `x` in `t` by `r`. At an abstraction a
/// binder equal to `x` shadows it and stops the substitution; a binder that
/// occurs free in `r` is first renamed to the first candidate name not free
/// in the body, by substituting a variable for it throughout the body, and
/// the renaming is reported as an alpha event ahead of the events of the
/// substitution that then proceeds. `None` only when the fuel runs out;
/// [`lemma_subst_defined`] shows that the term's size is always fuel enough.
pub open spec fn subst_r(t: TermS, x: Seq<char>, r: TermS, fuel: nat) -> Option<
    (TermS, Seq<RedS>),
>
    decreases fuel,
{
    if fuel == 0 {
        None
    } else {
        let less = (fuel - 1) as nat;
        match t {
            TermS::Var(name) => Some(
                (
                    if name == x {
                        r
                    } else {
                        t
                    },
                    Seq::empty(),
                ),
            ),
            TermS::Abs(param, body) => {
                if param == x {
                    Some((t, Seq::empty()))
                } else if free_in(r, param) {
                    let fresh = spec_fresh(*body, param);
                    match subst_r(*body, param, TermS::Var(fresh), less) {
                        None => None,
                        Some(renamed) => match subst_r(renamed.0, x, r, less) {
                            None => None,
                            Some(sub) => Some(
                                (
                                    TermS::Abs(fresh, Box::new(sub.0)),
                                    seq![RedS::Alpha(param, fresh)] + sub.1,
                                ),
                            ),
                        },
                    }
                } else {
                    match subst_r(*body, x, r, less) {
                        None => None,
                        Some(sub) => Some((TermS::Abs(param, Box::new(sub.0)), sub.1)),
                    }
                }
            },
            TermS::Apl(func, arg) => match subst_r(*func, x, r, less) {
                None => None,
                Some(sf) => match subst_r(*arg, x, r, less) {
                    None => None,
                    Some(sa) => Some((TermS::Apl(Box::new(sf.0), Box::new(sa.0)), sf.1 + sa.1)),
                },
            },
        }
    }
}

/// Substituting a variable for a variable does not change the term's size.
pub proof fn lemma_subst_var_size(t: TermS, x: Seq<char>, n: Seq<char>, fuel: nat)
    requires
        subst_r(t, x, TermS::Var(n), fuel) is Some,
    ensures
        term_size(subst_r(t, x, TermS::Var(n), fuel)->Some_0.0) == term_size(t),
    decreases fuel,
{
    if fuel > 0 {
        let less = (fuel - 1) as nat;
        match t {
            TermS::Var(_) => {},
            TermS::Abs(param, body) => {
                if param == x {
                } else if free_in(TermS::Var(n), param) {
                    let fresh = spec_fresh(*body, param);
                    lemma_subst_var_size(*body, param, fresh, less);
                    let renamed = subst_r(*body, param, TermS::Var(fresh), less)->Some_0;
                    lemma_subst_var_size(renamed.0, x, n, less);
                } else {
                    lemma_subst_var_size(*body, x, n, less);
                }
            },
            TermS::Apl(func, arg) => {
                lemma_subst_var_size(*func, x, n, less);
                lemma_subst_var_size(*arg, x, n, less);
            },
        }
    }
}

/// Any fuel of at least the term's size is enough for `subst_r`.
pub proof fn lemma_subst_defined(t: TermS, x: Seq<char>, r: TermS, fuel: nat)
    requires
        fuel >= term_size(t),
    ensures
        subst_r(t, x, r, fuel) is Some,
    decreases fuel,
{
    let less = (fuel - 1) as nat;
    match t {
        TermS::Var(_) => {},
        TermS::Abs(param, body) => {
            if param == x {
            } else if free_in(r, param) {
                let fresh = spec_fresh(*body, param);
                lemma_subst_defined(*body, param, TermS::Var(fresh), less);
                lemma_subst_var_size(*body, param, fresh, less);
                let renamed = subst_r(*body, param, TermS::Var(fresh), less)->Some_0;
                lemma_subst_defined(renamed.0, x, r, less);
            } else {
                lemma_subst_defined(*body, x, r, less);
            }
        },
        TermS::Apl(func, arg) => {
            lemma_subst_defined(*func, x, r, less);
            lemma_subst_defined(*arg, x, r, less);
        },
    }
}

/// Two sufficient fuels give the same substitution result.
pub proof fn lemma_subst_fuel(t: TermS, x: Seq<char>, r: TermS, f1: nat, f2: nat)
    requires
        f1 >= term_size(t),
        f2 >= term_size(t),
    ensures
        subst_r(t, x, r, f1) == subst_r(t, x, r, f2),
    decreases f1 + f2,
{
    let l1 = (f1 - 1) as nat;
    let l2 = (f2 - 1) as nat;
    match t {
        TermS::Var(_) => {},
        TermS::Abs(param, body) => {
            if param == x {
            } else if free_in(r, param) {
                let fresh = spec_fresh(*body, param);
                lemma_subst_defined(*body, param, TermS::Var(fresh), l1);
                lemma_subst_var_size(*body, param, fresh, l1);
                lemma_subst_fuel(*body, param, TermS::Var(fresh), l1, l2);
                let renamed = subst_r(*body, param, TermS::Var(fresh), l1)->Some_0;
                lemma_subst_fuel(renamed.0, x, r, l1, l2);
            } else {
                lemma_subst_fuel(*body, x, r, l1, l2);
            }
        },
        TermS::Apl(func, arg) => {
            lemma_subst_fuel(*func, x, r, l1, l2);
            lemma_subst_fuel(*arg, x, r, l1, l2);
        },
    }
}

/// Capture-avoiding substitution: every free occurrence of `x` in `t`
/// replaced by `r`, with the alpha events the renaming of endangered binders
/// produced, in traversal order.
pub open spec fn spec_subst(t: TermS, x: Seq<char>, r: TermS) -> (TermS, Seq<RedS>) {
    match subst_r(t, x, r, term_size(t)) {
        Some(v) => v,
        None => (t, Seq::empty()),
    }
}

/// One step of normal-order (leftmost-outermost) reduction.
///
/// An application whose function position is an abstraction is contracted at
/// once, whether or not the argument could be reduced; the substitution's
/// alpha events are followed by the beta event. Only a non-redex application
/// is searched: first the function side, and the argument side only when the
/// function side is already irreducible; the inner events are followed by a
/// contextual event naming the side. Reduction proceeds under binders. An
/// empty event sequence signals that the term is in normal form.
pub open spec fn spec_step(t: TermS) -> (TermS, Seq<RedS>)
    decreases t,
{
    match t {
        TermS::Var(_) => (t, Seq::empty()),
        TermS::Abs(param, body) => {
            let stepped = spec_step(*body);
            (TermS::Abs(param, Box::new(stepped.0)), stepped.1)
        },
        TermS::Apl(func, arg) => match *func {
            TermS::Abs(param, body) => {
                let sub = spec_subst(*body, param, *arg);
                (sub.0, sub.1.push(RedS::Beta(param)))
            },
            _ => {
                let left = spec_step(*func);
                if left.1.len() > 0 {
                    (
                        TermS::Apl(Box::new(left.0), arg),
                        left.1.push(RedS::Contextual("left"@)),
                    )
                } else {
                    let right = spec_step(*arg);
                    if right.1.len() > 0 {
                        (
                            TermS::Apl(func, Box::new(right.0)),
                            right.1.push(RedS::Contextual("right"@)),
                        )
                    } else {
                        (t, Seq::empty())
                    }
                }
            },
        },
    }
}

/// Iterated reduction: at most `fuel` steps of `spec_step`, stopping at
/// normal form, with the concatenated trace.
pub open spec fn spec_eval(t: TermS, fuel: nat) -> (TermS, Seq<RedS>)
    decreases fuel,
{
    if fuel == 0 || is_normal_form(t) {
        (t, Seq::empty())
    } else {
        let stepped = spec_step(t);
        let rest = spec_eval(stepped.0, (fuel - 1) as nat);
        (rest.0, stepped.1 + rest.1)
    }
}

/// The stepper reports no event exactly on terms in normal form, which it
/// returns unchanged.
pub proof fn lemma_step_fixed_point(t: TermS)
    ensures
        spec_step(t).1.len() == 0 <==> is_normal_form(t),
        is_normal_form(t) ==> spec_step(t).0 == t,
    decreases t,
{
    match t {
        TermS::Var(_) => {},
        TermS::Abs(_, body) => {
            lemma_step_fixed_point(*body);
        },
        TermS::Apl(func, arg) => {
            lemma_step_fixed_point(*func);
            lemma_step_fixed_point(*arg);
        },
    }
}

/// Substitution reports alpha events only.
pub proof fn lemma_subst_events_alpha(t: TermS, x: Seq<char>, r: TermS, fuel: nat)
    requires
        subst_r(t, x, r, fuel) is Some,
    ensures
        forall|i: int| 0 <= i < subst_r(t, x, r, fuel)->Some_0.1.len()
            ==> #[trigger] subst_r(t, x, r, fuel)->Some_0.1[i] is Alpha,
    decreases fuel,
{
    if fuel > 0 {
        let less = (fuel - 1) as nat;
        match t {
            TermS::Var(_) => {},
            TermS::Abs(param, body) => {
                if param == x {
                } else if free_in(r, param) {
                    let fresh = spec_fresh(*body, param);
                    let renamed = subst_r(*body, param, TermS::Var(fresh), less)->Some_0;
                    lemma_subst_events_alpha(renamed.0, x, r, less);
                } else {
                    lemma_subst_events_alpha(*body, x, r, less);
                }
            },
            TermS::Apl(func, arg) => {
                lemma_subst_events_alpha(*func, x, r, less);
                lemma_subst_events_alpha(*arg, x, r, less);
            },
        }
    }
}

/// The stepper never reports the terminal marker as an event.
pub proof fn lemma_step_no_marker(t: TermS)
    ensures
        forall|i: int| 0 <= i < spec_step(t).1.len() ==> !(#[trigger] spec_step(t).1[i]
            is NoReduction),
    decreases t,
{
    match t {
        TermS::Var(_) => {},
        TermS::Abs(_, body) => {
            lemma_step_no_marker(*body);
        },
        TermS::Apl(func, arg) => {
            match *func {
                TermS::Abs(param, body) => {
                    lemma_subst_defined(*body, param, *arg, term_size(*body));
                    lemma_subst_events_alpha(*body, param, *arg, term_size(*body));
                },
                _ => {
                    lemma_step_no_marker(*func);
                    lemma_step_no_marker(*arg);
                },
            }
        },
    }
}

/// A name other than the substituted one that is free in the term is still
/// free after substitution: renaming a binder picks a name that is not free
/// in its body, so no occurrence that was free beforehand is ever captured.
pub proof fn lemma_subst_keeps_free(t: TermS, x: Seq<char>, r: TermS, y: Seq<char>, fuel: nat)
    requires
        fuel >= term_size(t),
        free_in(t, y),
        y != x,
    ensures
        free_in(subst_r(t, x, r, fuel)->Some_0.0, y),
    decreases fuel,
{
    lemma_subst_defined(t, x, r, fuel);
    let less = (fuel - 1) as nat;
    match t {
        TermS::Var(_) => {},
        TermS::Abs(param, body) => {
            if param == x {
            } else if free_in(r, param) {
                let fresh = spec_fresh(*body, param);
                lemma_fresh_exists(*body, param);
                assert(y != fresh);
                lemma_subst_defined(*body, param, TermS::Var(fresh), less);
                lemma_subst_var_size(*body, param, fresh, less);
                lemma_subst_keeps_free(*body, param, TermS::Var(fresh), y, less);
                let renamed = subst_r(*body, param, TermS::Var(fresh), less)->Some_0;
                lemma_subst_keeps_free(renamed.0, x, r, y, less);
            } else {
                lemma_subst_keeps_free(*body, x, r, y, less);
            }
        },
        TermS::Apl(func, arg) => {
            if free_in(*func, y) {
                lemma_subst_keeps_free(*func, x, r, y, less);
            } else {
                lemma_subst_keeps_free(*arg, x, r, y, less);
            }
        },
    }
}

/// Plain renaming of the free occurrences of `from` to `to`, stopping at a
/// binder named `from`. It does not avoid capture by binders named `to`; the
/// canonicalizer guards its one use by a freeness check instead.
pub open spec fn spec_rename(t: TermS, from: Seq<char>, to: Seq<char>) -> TermS
    decreases t,
{
    match t {
        TermS::Var(name) => if name == from {
            TermS::Var(to)
        } else {
            t
        },
        TermS::Abs(param, body) => if param == from {
            t
        } else {
            TermS::Abs(param, Box::new(spec_rename(*body, from, to)))
        },
        TermS::Apl(func, arg) => TermS::Apl(
            Box::new(spec_rename(*func, from, to)),
            Box::new(spec_rename(*arg, from, to)),
        ),
    }
}

/// Renaming does not change the term's size.
pub proof fn lemma_rename_size(t: TermS, from: Seq<char>, to: Seq<char>)
    ensures
        term_size(spec_rename(t, from, to)) == term_size(t),
    decreases t,
{
    match t {
        TermS::Var(_) => {},
        TermS::Abs(param, body) => {
            if param != from {
                lemma_rename_size(*body, from, to);
            }
        },
        TermS::Apl(func, arg) => {
            lemma_rename_size(*func, from, to);
            lemma_rename_size(*arg, from, to);
        },
    }
}

/// The canonicalizer: strips mechanically generated numeric name suffixes
/// where its (deliberately literal) heuristics allow.
///
/// A variable named `base` + digits becomes `base` without trailing
/// underscores when the number is one; with a larger number it would step
/// down to `base_`(number less one), but only when that name is free in the
/// variable itself, which a digit-free underscore makes impossible — the
/// heuristic is kept as the engine has always behaved. A binder whose name
/// carries suffix one is renamed together with its bound occurrences when
/// the stripped base is not free in the body. Every renaming is reported as
/// an alpha event, in traversal order.
pub open spec fn spec_simplify(t: TermS) -> (TermS, Seq<RedS>)
    decreases term_size(t),
    via spec_simplify_dec
{
    match t {
        TermS::Var(name) => {
            let sfx = split_suffix(name);
            let k = val_of(sfx);
            if sfx.len() > 0 && k <= u32::MAX {
                if k == 1 {
                    let base = trim_underscores(split_base(name));
                    (TermS::Var(base), seq![RedS::Alpha(name, base)])
                } else if k > 1 {
                    let lower = split_base(name) + seq!['_'] + digits_of((k - 1) as nat);
                    if free_in(t, lower) {
                        (TermS::Var(lower), seq![RedS::Alpha(name, lower)])
                    } else {
                        (t, Seq::empty())
                    }
                } else {
                    (t, Seq::empty())
                }
            } else {
                (t, Seq::empty())
            }
        },
        TermS::Abs(param, body) => {
            let sfx = split_suffix(param);
            let base = trim_underscores(split_base(param));
            if sfx.len() > 0 && val_of(sfx) == 1 && !free_in(*body, base) {
                let renamed = spec_rename(*body, param, base);
                let rest = spec_simplify(renamed);
                (TermS::Abs(base, Box::new(rest.0)), seq![RedS::Alpha(param, base)] + rest.1)
            } else {
                let rest = spec_simplify(*body);
                (TermS::Abs(param, Box::new(rest.0)), rest.1)
            }
        },
        TermS::Apl(func, arg) => {
            let lf = spec_simplify(*func);
            let rt = spec_simplify(*arg);
            (TermS::Apl(Box::new(lf.0), Box::new(rt.0)), lf.1 + rt.1)
        },
    }
}

#[via_fn]
proof fn spec_simplify_dec(t: TermS) {
    match t {
        TermS::Var(_) => {},
        TermS::Abs(param, body) => {
            let base = trim_underscores(split_base(param));
            lemma_rename_size(*body, param, base);
        },
        TermS::Apl(_, _) => {},
    }
}

/// The canonicalizer reports alpha events only.
pub proof fn lemma_simplify_events_alpha(t: TermS)
    ensures
        forall|i: int| 0 <= i < spec_simplify(t).1.len() ==> #[trigger] spec_simplify(t).1[i]
            is Alpha,
    decreases term_size(t),
{
    match t {
        TermS::Var(_) => {},
        TermS::Abs(param, body) => {
            let base = trim_underscores(split_base(param));
            lemma_rename_size(*body, param, base);
            lemma_simplify_events_alpha(*body);
            lemma_simplify_events_alpha(spec_rename(*body, param, base));
        },
        TermS::Apl(func, arg) => {
            lemma_simplify_events_alpha(*func);
            lemma_simplify_events_alpha(*arg);
        },
    }
}

/// The candidate index `k` answers the fresh-name search on `t` with hint
/// `hint`: its candidate is not free in `t`, all earlier ones are.
pub open spec fn fresh_ok(t: TermS, hint: Seq<char>, k: nat) -> bool {
    &&& !free_in(t, cand(hint, k))
    &&& forall|j: nat| j < k ==> free_in(t, cand(hint, j))
}

/// The index of the first candidate name that is not free in `t`.
pub open spec fn fresh_index(t: TermS, hint: Seq<char>) -> nat {
    choose|k: nat| fresh_ok(t, hint, k)
}

/// The first candidate name derived from `hint` that is not free in `t`:
/// `hint` itself, else `hint` with `_1`, `_2`, ... appended.
pub open spec fn spec_fresh(t: TermS, hint: Seq<char>) -> Seq<char> {
    cand(hint, fresh_index(t, hint))
}

/// The set of the first `k + 1` candidate names derived from `hint`.
pub open spec fn cand_set(hint: Seq<char>, k: nat) -> Set<Seq<char>> {
    Set::new(|x: Seq<char>| exists|j: nat| j <= k && x == cand(hint, j))
}

/// There are `k + 1` distinct candidates among the first `k + 1`.
pub proof fn lemma_cand_set_len(hint: Seq<char>, k: nat)
    ensures
        cand_set(hint, k).finite(),
        cand_set(hint, k).len() == k + 1,
    decreases k,
{
    assert forall|j: nat| j != k implies cand(hint, j) != cand(hint, k) by {
        lemma_cand_injective(hint, j, k);
    }
    if k == 0 {
        assert(cand_set(hint, 0) =~= Set::empty().insert(cand(hint, 0)));
    } else {
        lemma_cand_set_len(hint, (k - 1) as nat);
        assert(cand_set(hint, k) =~= cand_set(hint, (k - 1) as nat).insert(cand(hint, k)));
        assert(!cand_set(hint, (k - 1) as nat).contains(cand(hint, k)));
    }
}

/// If every candidate up to index `k` is free in `t`, the term has more than
/// `k` free names: the fresh-name search stops within the free-name count.
pub proof fn lemma_cand_free_bound(t: TermS, hint: Seq<char>, k: nat)
    requires
        forall|j: nat| j <= k ==> free_in(t, cand(hint, j)),
        free_names(t).finite(),
    ensures
        k < free_names(t).len(),
{
    lemma_cand_set_len(hint, k);
    assert forall|x: Seq<char>| cand_set(hint, k).contains(x) implies free_names(t).contains(
        x,
    ) by {
        let j = choose|j: nat| j <= k && x == cand(hint, j);
        lemma_free_names_iff(t, cand(hint, j));
    }
    vstd::set_lib::lemma_len_subset(cand_set(hint, k), free_names(t));
}

/// Below any candidate that is not free lies a least one.
pub proof fn lemma_least_not_free(t: TermS, hint: Seq<char>, k: nat)
    requires
        !free_in(t, cand(hint, k)),
    ensures
        exists|j: nat| fresh_ok(t, hint, j),
    decreases k,
{
    if forall|j: nat| j < k ==> free_in(t, cand(hint, j)) {
        assert(fresh_ok(t, hint, k));
    } else {
        let j = choose|j: nat| j < k && !free_in(t, cand(hint, j));
        lemma_least_not_free(t, hint, j);
    }
}

/// The fresh-name search always has an answer: the term has finitely many
/// free names and the candidates are pairwise distinct, so one of the first
/// `free_names(t).len() + 1` candidates is not free.
pub proof fn lemma_fresh_exists(t: TermS, hint: Seq<char>)
    ensures
        fresh_ok(t, hint, fresh_index(t, hint)),
        !free_in(t, spec_fresh(t, hint)),
{
    lemma_free_names_finite(t);
    let n = free_names(t).len();
    assert(exists|j: nat| j <= n && !free_in(t, cand(hint, j))) by {
        if forall|j: nat| j <= n ==> free_in(t, cand(hint, j)) {
            lemma_cand_free_bound(t, hint, n);
        }
    }
    let j = choose|j: nat| j <= n && !free_in(t, cand(hint, j));
    lemma_least_not_free(t, hint, j);
    let least = choose|j: nat| fresh_ok(t, hint, j);
    lemma_fresh_unique(t, hint, least);
}

/// The fresh-name search has at most one answer; any index that answers it
/// is the index the specification names.
pub proof fn lemma_fresh_unique(t: TermS, hint: Seq<char>, k: nat)
    requires
        fresh_ok(t, hint, k),
    ensures
        fresh_index(t, hint) == k,
        spec_fresh(t, hint) == cand(hint, k),
        !free_in(t, spec_fresh(t, hint)),
{
    let k0 = fresh_index(t, hint);
    assert(fresh_ok(t, hint, k0)) by {
        assert(exists|j: nat| fresh_ok(t, hint, j));
    }
    if k0 < k {
        assert(free_in(t, cand(hint, k0)));
    } else if k < k0 {
        assert(free_in(t, cand(hint, k)));
    }
}

} // verus!
