//! Structural queries, substitution, fresh names, and the canonicalizer on
//! hand-built terms.

use rambda::ast::expr::Expr;
use rambda::{abs, apl, var, RedType};

fn sorted(mut names: Vec<String>) -> Vec<String> {
    names.sort();
    names
}

#[test]
fn free_vars_stop_at_the_binder() {
    // λx.x y — x is bound, y is free
    let term = abs("x", apl(var("x"), var("y")));
    assert_eq!(sorted(term.free_vars()), vec!["y".to_string()]);
    assert_eq!(sorted(term.bound_vars()), vec!["x".to_string()]);
}

#[test]
fn free_vars_of_an_application_join_both_sides() {
    let term = apl(apl(var("a"), var("b")), var("a"));
    assert_eq!(
        sorted(term.free_vars()),
        vec!["a".to_string(), "b".to_string()]
    );
    assert!(term.bound_vars().is_empty());
}

#[test]
fn shadowed_names_still_count_as_bound() {
    // λx.λx.y — the inner binder shadows the outer one
    let term = abs("x", abs("x", var("y")));
    assert_eq!(sorted(term.bound_vars()), vec!["x".to_string()]);
    assert_eq!(sorted(term.free_vars()), vec!["y".to_string()]);
}

#[test]
fn redex_and_normal_form_queries() {
    let redex = apl(abs("x", var("x")), var("y"));
    assert!(redex.is_redex());
    assert!(!redex.is_normal_form());

    let variable = var("x");
    assert!(!variable.is_redex());
    assert!(variable.is_normal_form());

    // a redex under a binder: not itself a redex, not a normal form
    let under = abs("z", apl(abs("x", var("x")), var("y")));
    assert!(!under.is_redex());
    assert!(!under.is_normal_form());

    let application = apl(var("f"), var("y"));
    assert!(!application.is_redex());
    assert!(application.is_normal_form());
}

#[test]
fn substitution_replaces_free_occurrences_only() {
    // (x (λx.x)) [x := w]  —  the bound x stays
    let term = apl(var("x"), abs("x", var("x")));
    let (result, events) = term.substitute("x", &var("w"));
    assert_eq!(result, apl(var("w"), abs("x", var("x"))));
    assert!(events.is_empty());
}

#[test]
fn substitution_at_a_shadowing_binder_changes_nothing() {
    // (λx.x z) [x := w]  —  the binder shadows the name
    let term = abs("x", apl(var("x"), var("z")));
    let (result, events) = term.substitute("x", &var("w"));
    assert_eq!(result, term);
    assert!(events.is_empty());
}

#[test]
fn substitution_renames_an_endangered_binder() {
    // (λy.x y) [x := y]  —  the bound y must step aside first
    let term = abs("y", apl(var("x"), var("y")));
    let (result, events) = term.substitute("x", &var("y"));
    assert_eq!(result, abs("y_1", apl(var("y"), var("y_1"))));
    assert_eq!(
        events,
        vec![RedType::AlphaConversion("y".to_string(), "y_1".to_string())]
    );
}

#[test]
fn fresh_var_takes_the_first_unused_suffix() {
    let term = apl(var("x"), var("y"));
    assert_eq!(term.fresh_var("y"), "y_1");
    assert_eq!(term.fresh_var("z"), "z");
    let crowded = apl(apl(var("y"), var("y_1")), var("y_2"));
    assert_eq!(crowded.fresh_var("y"), "y_3");
}

#[test]
fn split_name_number_reads_the_digit_suffix() {
    assert_eq!(
        Expr::split_name_number("x_12"),
        Some(("x_".to_string(), 12))
    );
    assert_eq!(Expr::split_name_number("x"), None);
    assert_eq!(Expr::split_name_number("x01"), Some(("x".to_string(), 1)));
    assert_eq!(Expr::split_name_number("123"), Some(("".to_string(), 123)));
    // a suffix beyond u32 reads as no suffix at all
    assert_eq!(Expr::split_name_number("x99999999999"), None);
}

#[test]
fn rename_var_stops_at_a_shadowing_binder() {
    let term = abs("x", apl(var("x"), var("y")));
    assert_eq!(
        term.rename_var("y", "z"),
        abs("x", apl(var("x"), var("z")))
    );
    let shadowed = abs("y", var("y"));
    assert_eq!(shadowed.rename_var("y", "z"), shadowed);
}

#[test]
fn simplify_strips_a_suffix_one_variable() {
    let term = var("x_1");
    let (result, events) = term.simplify_numbered_vars();
    assert_eq!(result, var("x"));
    assert_eq!(
        events,
        vec![RedType::AlphaConversion("x_1".to_string(), "x".to_string())]
    );
}

#[test]
fn simplify_renames_a_suffix_one_binder_with_its_uses() {
    let term = abs("x_1", apl(var("x_1"), var("y")));
    let (result, events) = term.simplify_numbered_vars();
    assert_eq!(result, abs("x", apl(var("x"), var("y"))));
    assert_eq!(
        events,
        vec![RedType::AlphaConversion("x_1".to_string(), "x".to_string())]
    );
}

#[test]
fn simplify_keeps_a_binder_whose_base_name_is_taken() {
    // λy_1.y y_1 — the base name y is free in the body, so the binder
    // stays; the bound occurrence is still renamed by the variable rule,
    // the engine's preserved quirk
    let term = abs("y_1", apl(var("y"), var("y_1")));
    let (result, events) = term.simplify_numbered_vars();
    assert_eq!(result, abs("y_1", apl(var("y"), var("y"))));
    assert_eq!(
        events,
        vec![RedType::AlphaConversion("y_1".to_string(), "y".to_string())]
    );
}

#[test]
fn simplify_never_decrements_a_larger_suffix() {
    // the lower-numbered name would have to be free in the variable
    // itself, which a lone variable never satisfies
    let term = var("x_2");
    let (result, events) = term.simplify_numbered_vars();
    assert_eq!(result, var("x_2"));
    assert!(events.is_empty());
}

#[test]
fn simplify_is_identity_on_plain_names() {
    let term = abs("x", apl(var("x"), var("y")));
    let (result, events) = term.simplify_numbered_vars();
    assert_eq!(result, term);
    assert!(events.is_empty());
}

#[test]
fn collect_abstractions_peels_the_leading_binders() {
    let term = abs("x", abs("y", apl(var("x"), var("y"))));
    let (params, body) = term.collect_abstractions();
    assert_eq!(params, vec!["x".to_string(), "y".to_string()]);
    assert_eq!(body, apl(var("x"), var("y")));
}
