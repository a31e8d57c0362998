use lispers::parser::parse_line;
use lispers::types::LispToken;

fn classify(s: &str) -> LispToken {
    LispToken::from_str(s)
}

#[test]
fn integers_signed_and_unsigned() {
    assert_eq!(classify("42"), LispToken::Integer(42));
    assert_eq!(classify("-7"), LispToken::Integer(-7));
    assert_eq!(classify("+13"), LispToken::Integer(13));
    assert_eq!(classify("0"), LispToken::Integer(0));
    assert_eq!(
        classify("9223372036854775807"),
        LispToken::Integer(9223372036854775807)
    );
}

#[test]
fn integer_wins_over_float() {
    // "123" would also read as a float; the integer form comes first
    assert!(matches!(classify("123"), LispToken::Integer(123)));
}

#[test]
fn floats_keep_their_literal_text() {
    assert_eq!(classify("2.5"), LispToken::FloatingPoint("2.5".to_string()));
    assert_eq!(classify("3."), LispToken::FloatingPoint("3.".to_string()));
    assert_eq!(classify(".5"), LispToken::FloatingPoint(".5".to_string()));
    assert_eq!(classify("1e3"), LispToken::FloatingPoint("1e3".to_string()));
    assert_eq!(
        classify("-2.5E-3"),
        LispToken::FloatingPoint("-2.5E-3".to_string())
    );
    assert_eq!(classify("inf"), LispToken::FloatingPoint("inf".to_string()));
    assert_eq!(classify("NaN"), LispToken::FloatingPoint("NaN".to_string()));
    assert_eq!(
        classify("Infinity"),
        LispToken::FloatingPoint("Infinity".to_string())
    );
}

#[test]
fn integer_overflow_falls_through_to_float() {
    assert_eq!(
        classify("9223372036854775808"),
        LispToken::FloatingPoint("9223372036854775808".to_string())
    );
}

#[test]
fn booleans() {
    assert_eq!(classify("true"), LispToken::Boolean(true));
    assert_eq!(classify("false"), LispToken::Boolean(false));
}

#[test]
fn quoted_strings_lose_their_quotes() {
    assert_eq!(classify("'hi'"), LispToken::String("hi".to_string()));
    assert_eq!(classify("''"), LispToken::String(String::new()));
    assert_eq!(classify("'a b'"), LispToken::String("a b".to_string()));
    assert_eq!(
        classify("'héllo wörld'"),
        LispToken::String("héllo wörld".to_string())
    );
}

#[test]
fn references_lose_their_markers() {
    assert_eq!(classify("&x"), LispToken::Variable("x".to_string()));
    assert_eq!(classify("&"), LispToken::Variable(String::new()));
    assert_eq!(classify("$f"), LispToken::Function("f".to_string()));
    assert_eq!(classify("$"), LispToken::Function(String::new()));
}

#[test]
fn everything_else_is_an_opaque_symbol() {
    assert_eq!(classify("foo"), LispToken::Symbol("foo".to_string()));
    assert_eq!(classify("'"), LispToken::Symbol("'".to_string()));
    assert_eq!(classify("12a"), LispToken::Symbol("12a".to_string()));
    assert_eq!(classify("1e"), LispToken::Symbol("1e".to_string()));
    assert_eq!(classify("."), LispToken::Symbol(".".to_string()));
    assert_eq!(classify("1.2.3"), LispToken::Symbol("1.2.3".to_string()));
    assert_eq!(classify("a))"), LispToken::Symbol("a))".to_string()));
}

#[test]
fn resolution_marks_calls() {
    // the whole line is a list whose head resolves to a function
    // reference, so the line itself becomes the call node
    let t = parse_line("$+ 1 2").to_lisp_token();
    assert_eq!(
        t,
        LispToken::Executable(
            "+".to_string(),
            vec![LispToken::Integer(1), LispToken::Integer(2)],
        )
    );
}

#[test]
fn resolution_marks_nested_calls() {
    let t = parse_line("$concat ($+ 1 2) 'x'").to_lisp_token();
    assert_eq!(
        t,
        LispToken::Executable(
            "concat".to_string(),
            vec![
                LispToken::Executable(
                    "+".to_string(),
                    vec![LispToken::Integer(1), LispToken::Integer(2)],
                ),
                LispToken::String("x".to_string()),
            ],
        )
    );
}

#[test]
fn list_without_function_head_stays_a_list() {
    let t = parse_line("(- 10 4)").to_lisp_token();
    assert_eq!(
        t,
        LispToken::List(vec![LispToken::List(vec![
            LispToken::Symbol("-".to_string()),
            LispToken::Integer(10),
            LispToken::Integer(4),
        ])])
    );
}

#[test]
fn find_executable_rewrites_function_headed_lists() {
    let plain = LispToken::List(vec![
        LispToken::Function("f".to_string()),
        LispToken::Integer(1),
    ]);
    assert_eq!(
        plain.find_executable(),
        LispToken::Executable("f".to_string(), vec![LispToken::Integer(1)])
    );
}

#[test]
fn find_executable_leaves_an_empty_list_alone() {
    let empty = LispToken::List(vec![]);
    assert_eq!(empty.find_executable(), LispToken::List(vec![]));
}

#[test]
fn display_texts() {
    assert_eq!(LispToken::Integer(3).as_str(), "3");
    assert_eq!(LispToken::Integer(-12).as_str(), "-12");
    assert_eq!(LispToken::Boolean(true).as_str(), "true");
    assert_eq!(LispToken::String("x y".to_string()).as_str(), "x y");
    assert_eq!(LispToken::FloatingPoint("2.5".to_string()).as_str(), "2.5");
    assert_eq!(LispToken::Variable("v".to_string()).as_str(), "&v");
    assert_eq!(LispToken::Function("f".to_string()).as_str(), "$f");
    assert_eq!(LispToken::Symbol("s".to_string()).as_str(), "s");
    assert_eq!(
        LispToken::List(vec![LispToken::Integer(1), LispToken::Integer(2)]).as_str(),
        "(1 2)"
    );
    assert_eq!(
        LispToken::Executable("f".to_string(), vec![LispToken::Integer(1)]).as_str(),
        "($f 1)"
    );
}

#[test]
fn clone_is_deep_and_equal() {
    let t = parse_line("$concat ($+ 1 2.5) 'x'").to_lisp_token();
    assert_eq!(t.clone(), t);
}

#[test]
fn pretty_form_of_a_typed_tree() {
    let t = parse_line("$+ 1 2").to_lisp_token();
    assert_eq!(
        t.pretty_string(""),
        "Function(+) -->\n.<---\n..|- 1\n..|- 2\n.--->\n"
    );
}
