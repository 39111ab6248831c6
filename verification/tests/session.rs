//! The evaluation session: parsing, evaluating, the trace, and the errors.

use rambda::vm::EvalError;
use rambda::{RedType, Vm};

#[test]
fn eval_without_a_loaded_term_fails() {
    let mut vm = Vm::new();
    assert_eq!(vm.eval(100).unwrap_err(), EvalError::NoExpressionLoaded);
}

#[test]
fn unparseable_input_is_a_parse_failure() {
    let mut vm = Vm::new();
    assert_eq!(vm.parse_expr("(x").unwrap_err(), EvalError::ParseFailure);
    assert_eq!(vm.parse_expr("").unwrap_err(), EvalError::ParseFailure);
    assert_eq!(vm.parse_expr("λ").unwrap_err(), EvalError::ParseFailure);
}

#[test]
fn a_parse_failure_keeps_the_loaded_term() {
    let mut vm = Vm::new();
    vm.parse_expr("x").expect("should parse");
    let _ = vm.parse_expr("(x");
    assert!(vm.get_expr().is_some());
    assert_eq!(
        vm.get_expr().unwrap().fmt_with_config(false, false, false),
        "x"
    );
}

#[test]
fn eval_pairs_each_event_with_the_stepped_term() {
    let mut vm = Vm::new();
    vm.parse_expr("(λx.x) y").expect("should parse");
    let (result, steps) = vm.eval(100).expect("should evaluate");
    assert_eq!(result.fmt_with_config(false, false, false), "y");
    assert_eq!(steps.len(), 1);
    assert_eq!(steps[0].0, RedType::BetaReduction("x".to_string()));
    assert_eq!(steps[0].1.fmt_with_config(false, false, false), "y");
}

#[test]
fn eval_appends_canonicalization_renamings_to_the_trace() {
    let mut vm = Vm::new();
    vm.parse_expr("(λx,y.x y) y").expect("should parse");
    let (result, steps) = vm.eval(100).expect("should evaluate");
    // reduction gives λy_1.y y_1; the canonicalizer then renames the
    // variable occurrence alone, its preserved quirk
    assert_eq!(result.fmt_with_config(false, false, false), "λy_1.y y");
    let kinds: Vec<&RedType> = steps.iter().map(|p| &p.0).collect();
    assert_eq!(
        kinds,
        vec![
            &RedType::AlphaConversion("y".to_string(), "y_1".to_string()),
            &RedType::BetaReduction("x".to_string()),
            &RedType::AlphaConversion("y_1".to_string(), "y".to_string()),
        ]
    );
    assert_eq!(
        steps[2].1.fmt_with_config(false, false, false),
        "λy_1.y y"
    );
}

#[test]
fn the_canonicalizer_undoes_a_needless_suffix() {
    let mut vm = Vm::new();
    vm.parse_expr("(λx.λy.λx. x y) y").expect("should parse");
    let (result, steps) = vm.eval(100).expect("should evaluate");
    // reduction renames the binder to y_1; with the base name unused in the
    // body, canonicalization renames it back
    assert_eq!(result.fmt_with_config(false, false, false), "λy.λx.x y");
    assert_eq!(
        steps.last().unwrap().0,
        RedType::AlphaConversion("y_1".to_string(), "y".to_string())
    );
}

#[test]
fn eval_leaves_the_result_loaded() {
    let mut vm = Vm::new();
    vm.parse_expr("(λx.x) y").expect("should parse");
    vm.eval(100).expect("should evaluate");
    assert_eq!(
        vm.get_expr().unwrap().fmt_with_config(false, false, false),
        "y"
    );
}

#[test]
fn a_runaway_term_fails_with_the_step_limit() {
    let mut vm = Vm::new();
    vm.parse_expr("(λx.x x) (λx.x x)").expect("should parse");
    assert_eq!(vm.eval(10).unwrap_err(), EvalError::StepLimitReached);
    // the partially reduced term stays loaded
    assert!(vm.get_expr().is_some());
}

#[test]
fn error_messages_are_stable() {
    assert_eq!(
        EvalError::NoExpressionLoaded.message(),
        "No expression to evaluate"
    );
    assert_eq!(
        EvalError::ParseFailure.message(),
        "Failed to parse expression"
    );
    assert_eq!(
        EvalError::StepLimitReached.message(),
        "Step limit reached before normal form"
    );
}

#[test]
fn get_expr_reflects_the_loaded_term() {
    let mut vm = Vm::new();
    assert!(vm.get_expr().is_none());
    vm.parse_expr("λx.x").expect("should parse");
    assert!(vm.get_expr().is_some());
}
