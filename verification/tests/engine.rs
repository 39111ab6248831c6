//! End-to-end reduction scenarios, from source text to normal form.

use rambda::{Expr, Lexer, Parser, RedType};

fn parse(input: &str) -> Expr {
    let mut lexer = Lexer::new();
    lexer.reload(input);
    let tokens = lexer.tokenize();
    let mut parser = Parser::new(tokens);
    parser.parse().expect("the input should parse")
}

fn plain(e: &Expr) -> String {
    e.fmt_with_config(false, false, false)
}

#[test]
fn identity_application_takes_one_beta_step() {
    let term = parse("(λx.x) y");
    let (result, trace) = term.eval_full(100);
    assert!(result.is_normal_form());
    assert_eq!(plain(&result), "y");
    assert_eq!(trace, vec![RedType::BetaReduction("x".to_string())]);
}

#[test]
fn identity_application_ascii_lambda() {
    let term = parse("(\\x.x) y");
    let (result, trace) = term.eval_full(100);
    assert_eq!(plain(&result), "y");
    assert_eq!(trace.len(), 1);
}

#[test]
fn two_argument_application_reaches_z() {
    let term = parse("(λf,x.f x) (λy.y) z");
    let (result, trace) = term.eval_full(100);
    assert!(result.is_normal_form());
    assert_eq!(plain(&result), "z");
    let betas = trace
        .iter()
        .filter(|r| matches!(r, RedType::BetaReduction(_)))
        .count();
    assert_eq!(betas, 3);
    assert_eq!(
        trace,
        vec![
            RedType::BetaReduction("f".to_string()),
            RedType::ContextualReduction("left".to_string()),
            RedType::BetaReduction("x".to_string()),
            RedType::BetaReduction("y".to_string()),
        ]
    );
}

#[test]
fn capture_risk_renames_bound_y_before_beta() {
    let term = parse("(λx,y.x y) y");
    let (result, trace) = term.eval_full(100);
    assert!(result.is_normal_form());
    // the bound y was renamed, the free y stayed: not `λy.y y`
    assert_eq!(plain(&result), "λy_1.y y_1");
    assert_eq!(
        trace,
        vec![
            RedType::AlphaConversion("y".to_string(), "y_1".to_string()),
            RedType::BetaReduction("x".to_string()),
        ]
    );
}

#[test]
fn shadowed_binder_is_not_renamed_effectively() {
    let term = parse("(λx.λy.λy. x y) y");
    let (result, trace) = term.eval_full(100);
    assert!(result.is_normal_form());
    assert_eq!(plain(&result), "λy.λy_1.y y_1");
    assert_eq!(
        trace,
        vec![
            RedType::AlphaConversion("y".to_string(), "y".to_string()),
            RedType::AlphaConversion("y".to_string(), "y_1".to_string()),
            RedType::BetaReduction("x".to_string()),
        ]
    );
}

#[test]
fn two_plain_arguments_substitute_in_turn() {
    let term = parse("(λx,y.x y) z w");
    let (result, trace) = term.eval_full(100);
    assert_eq!(plain(&result), "z w");
    assert_eq!(
        trace,
        vec![
            RedType::BetaReduction("x".to_string()),
            RedType::ContextualReduction("left".to_string()),
            RedType::BetaReduction("y".to_string()),
        ]
    );
}

#[test]
fn an_inner_shadowing_binder_stops_the_substitution() {
    let term = parse("(λx.λy.λx. x y) y");
    let (result, trace) = term.eval_full(100);
    assert_eq!(plain(&result), "λy_1.λx.x y_1");
    assert_eq!(
        trace,
        vec![
            RedType::AlphaConversion("y".to_string(), "y_1".to_string()),
            RedType::BetaReduction("x".to_string()),
        ]
    );
}

#[test]
fn omega_never_reaches_normal_form_within_the_cap() {
    let term = parse("(λx.x x) (λx.x x)");
    let (result, trace) = term.eval_full(50);
    assert!(!result.is_normal_form());
    assert_eq!(plain(&result), "(λx.x x) (λx.x x)");
    assert_eq!(trace.len(), 50);
    for red in &trace {
        assert!(matches!(red, RedType::BetaReduction(_)));
    }
}

#[test]
fn church_successor_of_one() {
    let term = parse("(λn,f,x.f (n f x)) (λf,x.f x)");
    let (result, _trace) = term.eval_full(100);
    assert!(result.is_normal_form());
    assert_eq!(plain(&result), "λf.λx.f (f x)");
}

#[test]
fn no_alpha_needed_when_binder_unused() {
    let term = parse("(λx.(λy.x) y) z");
    let (result, trace) = term.eval_full(100);
    assert_eq!(plain(&result), "z");
    assert!(trace
        .iter()
        .all(|r| !matches!(r, RedType::NoReduction)));
}

#[test]
fn normal_form_is_a_fixed_point_of_the_stepper() {
    // a term in normal form steps to itself with no events
    let term = parse("λx.x y");
    assert!(term.is_normal_form());
    let (same, events) = term.eval_step();
    assert!(events.is_empty());
    assert_eq!(same, term);
    // a reducible term reports at least one event
    let redex = parse("(λx.x) y");
    assert!(!redex.is_normal_form());
    let (_, events) = redex.eval_step();
    assert!(!events.is_empty());
}

#[test]
fn stepping_twice_gives_identical_results() {
    let term = parse("(λx,y.x y) y ((λz.z) w)");
    let (first_term, first_events) = term.eval_step();
    let (second_term, second_events) = term.eval_step();
    assert_eq!(first_term, second_term);
    assert_eq!(first_events, second_events);
}

#[test]
fn evaluation_trace_is_productive() {
    let term = parse("(λf,x.f x) (λy.y) ((λz.z) w)");
    let (_, trace) = term.eval_full(100);
    assert!(!trace.is_empty());
    for red in &trace {
        assert!(!matches!(red, RedType::NoReduction));
    }
}

#[test]
fn leftmost_outermost_contracts_before_the_argument() {
    // the argument is itself a redex, but the outer redex is contracted
    // first and discards it
    let term = parse("(λx.z) ((λy.y) w)");
    let (next, events) = term.eval_step();
    assert_eq!(plain(&next), "z");
    assert_eq!(events, vec![RedType::BetaReduction("x".to_string())]);
}
