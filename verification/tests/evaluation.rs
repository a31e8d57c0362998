use lispers::eval::ExecutionEnvironment;
use lispers::parser::parse_line;
use lispers::types::{FloatModel, FloatOps, LispError, LispFunc, LispToken, MathOp, NativeOp};

/// Supplies the interpreter's float capability from the host's `f64`.
struct RealFloatOps;

impl FloatOps for RealFloatOps {
    // the mathematical model is ghost state; nothing calls it at run time
    fn model(&self) -> FloatModel {
        unreachable!()
    }

    fn compute(&self, op: MathOp, a: &str, b: &str) -> Option<String> {
        let x: f64 = a.parse().unwrap();
        let y: f64 = b.parse().unwrap();
        let r = match op {
            MathOp::Plus => x + y,
            MathOp::Minus => x - y,
            MathOp::Times => x * y,
            MathOp::Divide => x / y,
        };
        Some(r.to_string())
    }
}

fn env() -> ExecutionEnvironment<RealFloatOps> {
    ExecutionEnvironment::with_float_ops(RealFloatOps)
}

/// Evaluates one source line and yields the results of its top-level
/// call nodes (the outermost parse level is always a plain list).
fn run_line(ee: &ExecutionEnvironment<RealFloatOps>, src: &str) -> Result<LispToken, LispError> {
    let script = parse_line(src).to_lisp_token();
    let exprs = match script {
        LispToken::List(exprs) => exprs,
        other => vec![other],
    };
    let mut results = ee.exec(exprs);
    assert_eq!(results.len(), 1);
    results.remove(0)
}

#[test]
fn concat_of_two_strings() {
    let r = run_line(&env(), "$concat 'a' 'b'");
    assert_eq!(r, Ok(LispToken::String("ab".to_string())));
}

#[test]
fn nested_integer_arithmetic() {
    let r = run_line(&env(), "$+ ($- 10 4) 3");
    assert_eq!(r, Ok(LispToken::Integer(9)));
}

#[test]
fn unbound_variable_is_a_name_error() {
    let r = run_line(&env(), "&x");
    assert_eq!(r, Err(LispError::NameError("x".to_string())));
}

#[test]
fn concat_renders_numbers() {
    let r = run_line(&env(), "$concat ($+ 1 2) 'x'");
    assert_eq!(r, Ok(LispToken::String("3x".to_string())));
}

#[test]
fn integer_first_argument_truncates_later_floats() {
    let r = run_line(&env(), "$+ 1 2.5");
    assert_eq!(r, Ok(LispToken::Integer(3)));
}

#[test]
fn float_first_argument_widens_later_integers() {
    let r = run_line(&env(), "$+ 1.0 2");
    match r {
        Ok(LispToken::FloatingPoint(t)) => assert_eq!(t.parse::<f64>().unwrap(), 3.0),
        other => panic!("expected a float, got {:?}", other),
    }
}

#[test]
fn float_fold_really_computes() {
    let r = run_line(&env(), "$+ 0.5 0.25");
    match r {
        Ok(LispToken::FloatingPoint(t)) => assert_eq!(t.parse::<f64>().unwrap(), 0.75),
        other => panic!("expected a float, got {:?}", other),
    }
}

#[test]
fn float_division_by_zero_is_infinite() {
    let r = run_line(&env(), "$/ 1.0 0");
    match r {
        Ok(LispToken::FloatingPoint(t)) => assert!(t.parse::<f64>().unwrap().is_infinite()),
        other => panic!("expected a float, got {:?}", other),
    }
}

#[test]
fn integer_division_truncates_toward_zero() {
    assert_eq!(run_line(&env(), "$/ 7 2"), Ok(LispToken::Integer(3)));
    assert_eq!(run_line(&env(), "$/ -7 2"), Ok(LispToken::Integer(-3)));
}

#[test]
fn integer_division_by_zero_is_an_argument_error() {
    let r = run_line(&env(), "$/ 1 0");
    assert_eq!(r, Err(LispError::ArgumentError("/".to_string())));
}

#[test]
fn integer_addition_wraps() {
    let r = run_line(&env(), "$+ 9223372036854775807 1");
    assert_eq!(r, Ok(LispToken::Integer(i64::MIN)));
}

#[test]
fn non_numeric_argument_is_an_argument_error() {
    let r = run_line(&env(), "$+ 'a' 1");
    assert_eq!(r, Err(LispError::ArgumentError("+".to_string())));
}

#[test]
fn empty_argument_list_is_an_argument_error() {
    let r = run_line(&env(), "$+");
    assert_eq!(r, Err(LispError::ArgumentError("+".to_string())));
}

#[test]
fn unknown_function_is_a_name_error() {
    let r = run_line(&env(), "$nope 1");
    assert_eq!(r, Err(LispError::NameError("nope".to_string())));
}

#[test]
fn plain_values_evaluate_to_themselves() {
    let r = run_line(&env(), "(1 2 3)");
    assert_eq!(
        r,
        Ok(LispToken::List(vec![
            LispToken::Integer(1),
            LispToken::Integer(2),
            LispToken::Integer(3),
        ]))
    );
}

#[test]
fn bound_variables_substitute_before_evaluation() {
    let mut ee = env();
    ee.add_var("x", LispToken::Integer(5));
    let r = run_line(&ee, "$+ &x 2");
    assert_eq!(r, Ok(LispToken::Integer(7)));
}

#[test]
fn rebinding_a_variable_overwrites() {
    let mut ee = env();
    ee.add_var("x", LispToken::Integer(5));
    ee.add_var("x", LispToken::Integer(9));
    let got = ee.get_var("x");
    assert_eq!(got, Ok(LispToken::Integer(9)));
}

#[test]
fn get_var_distinguishes_names() {
    let mut ee = env();
    ee.add_var("x", LispToken::Integer(1));
    ee.add_var("xy", LispToken::Integer(2));
    assert_eq!(ee.get_var("x"), Ok(LispToken::Integer(1)));
    assert_eq!(ee.get_var("xy"), Ok(LispToken::Integer(2)));
    assert_eq!(
        ee.get_var("y"),
        Err(LispError::NameError("y".to_string()))
    );
}

#[test]
fn added_function_names_dispatch_to_their_fold() {
    let mut ee = env();
    ee.add_fn("plus", LispFunc::new(NativeOp::Arith(MathOp::Plus)));
    let r = run_line(&ee, "$plus 2 3");
    assert_eq!(r, Ok(LispToken::Integer(5)));
}

#[test]
fn get_fn_finds_builtins() {
    let ee = env();
    assert!(ee.get_fn("+").is_ok());
    assert!(ee.get_fn("concat").is_ok());
    assert_eq!(
        ee.get_fn("nope"),
        Err(LispError::NameError("nope".to_string()))
    );
}

#[test]
fn substitution_is_idempotent_once_no_references_remain() {
    let mut ee = env();
    ee.add_var("x", LispToken::Integer(5));
    let t = parse_line("$+ &x ($- 2 &x)").to_lisp_token();
    let once = ee.var_map(&t).unwrap();
    let twice = ee.var_map(&once).unwrap();
    assert_eq!(once, twice);
}

#[test]
fn arguments_run_before_their_call_left_to_right() {
    let ee = env();
    let t = parse_line("$concat ($+ 1 2) ($- 5 1)").to_lisp_token();
    let (r, trace) = ee.eval_traced(&t);
    assert_eq!(r, Ok(LispToken::String("34".to_string())));
    assert_eq!(trace, vec!["+".to_string(), "-".to_string(), "concat".to_string()]);
}

#[test]
fn failing_argument_cuts_evaluation_short() {
    let ee = env();
    let t = parse_line("$concat ($nope 1) ($- 5 1)").to_lisp_token();
    let (r, trace) = ee.eval_traced(&t);
    assert_eq!(r, Err(LispError::NameError("nope".to_string())));
    // the second argument never ran, nor did concat
    assert_eq!(trace, Vec::<String>::new());
}

#[test]
fn expressions_fail_independently() {
    let ee = env();
    let script = vec![
        parse_line("$+ 1 2").to_lisp_token(),
        parse_line("&missing").to_lisp_token(),
        parse_line("$concat 'o' 'k'").to_lisp_token(),
    ];
    let rs = ee.exec(script);
    assert_eq!(rs.len(), 3);
    assert!(rs[0].is_ok());
    assert_eq!(
        rs[1],
        Err(LispError::NameError("missing".to_string()))
    );
    assert_eq!(rs[2], Ok(LispToken::String("ok".to_string())));
}

fn run_line_default(src: &str) -> Result<LispToken, LispError> {
    let ee = ExecutionEnvironment::new();
    let mut results = ee.exec(vec![parse_line(src).to_lisp_token()]);
    results.remove(0)
}

#[test]
fn truncation_needs_no_float_capability() {
    // the integer-kinded fold truncates the float's text itself, in
    // every environment
    assert_eq!(run_line_default("$+ 1 2.5"), Ok(LispToken::Integer(3)));
}

#[test]
fn float_fold_without_capability_is_an_argument_error() {
    // no capability: refusing beats fabricating a value
    assert_eq!(
        run_line_default("$+ 1.0 2"),
        Err(LispError::ArgumentError("+".to_string()))
    );
}

#[test]
fn truncation_reads_the_text_exactly() {
    assert_eq!(run_line_default("$+ 0 2.5e3"), Ok(LispToken::Integer(2500)));
    assert_eq!(run_line_default("$+ 0 -2.75"), Ok(LispToken::Integer(-2)));
    assert_eq!(run_line_default("$+ 0 .5"), Ok(LispToken::Integer(0)));
    assert_eq!(run_line_default("$+ 0 5e-1"), Ok(LispToken::Integer(0)));
    assert_eq!(run_line_default("$+ 0 123.456e1"), Ok(LispToken::Integer(1234)));
    assert_eq!(run_line_default("$+ 0 12e2"), Ok(LispToken::Integer(1200)));
}

#[test]
fn truncation_saturates_and_maps_special_values() {
    assert_eq!(run_line_default("$+ 0 1e20"), Ok(LispToken::Integer(i64::MAX)));
    assert_eq!(run_line_default("$+ 0 -1e20"), Ok(LispToken::Integer(i64::MIN)));
    assert_eq!(run_line_default("$+ 0 1e99999999999999999999999"), Ok(LispToken::Integer(i64::MAX)));
    assert_eq!(run_line_default("$+ 0 NaN"), Ok(LispToken::Integer(0)));
    assert_eq!(run_line_default("$+ 0 inf"), Ok(LispToken::Integer(i64::MAX)));
    assert_eq!(run_line_default("$+ 0 -Infinity"), Ok(LispToken::Integer(i64::MIN)));
    assert_eq!(
        run_line_default("$+ 0 9223372036854775807.9"),
        Ok(LispToken::Integer(9223372036854775807))
    );
}

#[test]
fn environment_without_float_capability_handles_integers() {
    let ee = ExecutionEnvironment::new();
    let script = vec![parse_line("$* 6 7").to_lisp_token()];
    let mut rs = ee.exec(script);
    assert_eq!(rs.remove(0), Ok(LispToken::Integer(42)));
}
