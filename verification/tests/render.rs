//! Exact renderings of terms and rewrite events.

use rambda::{abs, apl, var, RedType};

#[test]
fn plain_variable_renders_as_its_name() {
    assert_eq!(var("x").fmt_with_config(false, false, false), "x");
}

#[test]
fn abstraction_renders_with_lambda_and_dot() {
    let term = abs("x", apl(var("x"), var("y")));
    assert_eq!(term.fmt_with_config(false, false, false), "λx.x y");
}

#[test]
fn merged_abstractions_join_their_parameters() {
    let term = abs("x", abs("y", apl(var("x"), var("y"))));
    assert_eq!(term.fmt_with_config(false, false, true), "λx,y.x y");
    assert_eq!(term.fmt_with_config(false, false, false), "λx.λy.x y");
}

#[test]
fn application_parenthesizes_abstractions_and_applications() {
    let redex = apl(abs("x", var("x")), var("y"));
    assert_eq!(redex.fmt_with_config(false, false, false), "(λx.x) y");

    // a right-hand application keeps its parentheses
    let right = apl(var("x"), apl(var("y"), var("z")));
    assert_eq!(right.fmt_with_config(false, false, false), "x (y z)");

    // left-associated applications render flat on the left
    let left = apl(apl(var("x"), var("y")), var("z"));
    assert_eq!(left.fmt_with_config(false, false, false), "(x y) z");
}

#[test]
fn colored_abstraction_carries_the_escape_codes() {
    let term = abs("x", var("x"));
    assert_eq!(
        term.fmt_with_config(true, false, false),
        "\u{1b}[1m\u{1b}[38;5;2mλ\u{1b}[1m\u{1b}[38;5;4mx\u{1b}[0m\u{1b}[38;5;240m.\u{1b}[0mx"
    );
}

#[test]
fn beta_event_renders_with_its_bound_name() {
    let red = RedType::BetaReduction("x".to_string());
    assert_eq!(red.fmt_with_config(false, true), "->β(x)");
    assert_eq!(red.fmt_with_config(false, false), "->B(x)");
}

#[test]
fn alpha_event_renders_both_names() {
    let red = RedType::AlphaConversion("x".to_string(), "x_1".to_string());
    assert_eq!(red.fmt_with_config(false, true), "->α(x -> x_1)");
    assert_eq!(red.fmt_with_config(false, false), "->A(x -> x_1)");
}

#[test]
fn contextual_event_renders_its_side() {
    let red = RedType::ContextualReduction("left".to_string());
    assert_eq!(red.fmt_with_config(false, true), "->γ(left)");
    assert_eq!(red.fmt_with_config(false, false), "->C(left)");
}

#[test]
fn simplification_event_renders_like_a_contextual_one() {
    let red = RedType::Simplification("x".to_string());
    assert_eq!(red.fmt_with_config(false, true), "->γ(x)");
}

#[test]
fn the_terminal_marker_renders_as_words() {
    assert_eq!(
        RedType::NoReduction.fmt_with_config(false, true),
        "No reduction"
    );
    assert_eq!(
        RedType::NoReduction.fmt_with_config(true, false),
        "No reduction"
    );
}

#[test]
fn colored_beta_event_carries_the_escape_codes() {
    let red = RedType::BetaReduction("x".to_string());
    assert_eq!(
        red.fmt_with_config(true, true),
        "\u{1b}[0m\u{1b}[38;5;240m->\u{1b}[1m\u{1b}[38;5;3mβ\u{1b}[0m\u{1b}[38;5;240m(\u{1b}[0mx\u{1b}[0m\u{1b}[38;5;240m)\u{1b}[0m"
    );
}
