use wiskie::ast::{BinaryOperator, CustomOperator, DecimalLiteral, Expr, MathConst, Number, Operator, UnaryOperator};
use wiskie::grammar::{ErrorKind, ParseError, MAX_NESTING};
use wiskie::parser::{
    parse_absolute, parse_base_expr, parse_expr, parse_negate, parse_num, parse_parentheses,
    parse_term,
};

fn lit(v: i64) -> Box<Expr> {
    Box::new(Expr::integer(v))
}

fn decimal(whole: &str, fraction: &str) -> Expr {
    Expr::decimal(DecimalLiteral { whole: whole.to_string(), fraction: fraction.to_string() })
}

fn as_f64(e: &Expr) -> f64 {
    match e {
        Expr::Num(Number::Decimal(d)) => format!("{}.{}", d.whole, d.fraction).parse::<f64>().unwrap(),
        _ => panic!("not a decimal: {:?}", e),
    }
}

#[test]
fn test_parse_num() {
    let expected = Expr::Num(Number::Integer(42));
    match parse_expr("42") {
        Ok((_, result)) => assert_eq!(result, expected),
        Err(error) => panic!("Failed to parse number: {:?}", error),
    }
}

#[test]
fn test_parse_add_int_and_int() {
    let expr1 = Expr::Num(Number::Integer(1));
    let expr2 = Expr::Num(Number::Integer(2));
    let expected = Expr::add(Box::new(expr1), Box::new(expr2));
    match parse_expr("1 + 2") {
        Ok((_, result)) => assert_eq!(result, expected),
        Err(error) => panic!("Failed to parse addition: {:?}", error),
    }
}

#[test]
fn test_parse_mul_int_and_int() {
    let expr1 = Expr::Num(Number::Integer(3));
    let expr2 = Expr::Num(Number::Integer(4));
    let expected = Expr::multiply(Box::new(expr1), Box::new(expr2));
    match parse_expr("3 * 4") {
        Ok((_, result)) => assert_eq!(result, expected),
        Err(error) => panic!("Failed to parse multiplication: {:?}", error),
    }
}

#[test]
fn test_parse_div_int_and_int() {
    let expr1 = Expr::Num(Number::Integer(10));
    let expr2 = Expr::Num(Number::Integer(2));
    let expected = Expr::divide(Box::new(expr1), Box::new(expr2));
    match parse_expr("10 / 2") {
        Ok((_, result)) => assert_eq!(result, expected),
        Err(error) => panic!("Failed to parse division: {:?}", error),
    }
}

#[test]
fn integer_literals_keep_their_value() {
    assert_eq!(parse_base_expr("0"), Ok(("", Expr::integer(0))));
    assert_eq!(parse_base_expr("007"), Ok(("", Expr::integer(7))));
    assert_eq!(
        parse_base_expr("9223372036854775807"),
        Ok(("", Expr::integer(i64::MAX)))
    );
}

#[test]
fn integer_overflow_is_a_conversion_error() {
    assert_eq!(
        parse_base_expr("9223372036854775808"),
        Err(ParseError { kind: ErrorKind::Conversion, at: 0 })
    );
    assert_eq!(
        parse_expr("1 + 99999999999999999999"),
        Err(ParseError { kind: ErrorKind::Conversion, at: 4 })
    );
}

#[test]
fn decimal_literals_keep_their_digits() {
    let (rest, e) = parse_base_expr("3.14").unwrap();
    assert_eq!(rest, "");
    assert_eq!(e, decimal("3", "14"));
    assert_eq!(as_f64(&e), 3.14);
    let (_, e) = parse_base_expr("0.5").unwrap();
    assert_eq!(as_f64(&e), 0.5);
    let (_, e) = parse_base_expr("12345678901234567890123.25").unwrap();
    assert_eq!(as_f64(&e), "12345678901234567890123.25".parse::<f64>().unwrap());
}

#[test]
fn a_bare_point_is_not_part_of_a_number() {
    assert_eq!(parse_num("1."), Ok((".", Expr::integer(1))));
    assert_eq!(parse_num(".5"), Err(ParseError { kind: ErrorKind::Lexical, at: 0 }));
    assert_eq!(parse_num("1.x"), Ok((".x", Expr::integer(1))));
}

#[test]
fn multiplication_binds_tighter_than_addition() {
    let expected = Expr::add(lit(3), Box::new(Expr::multiply(lit(2), lit(2))));
    assert_eq!(parse_expr("3 + 2 * 2"), Ok(("", expected)));
}

#[test]
fn division_is_left_associative() {
    let expected = Expr::divide(Box::new(Expr::divide(lit(8), lit(4))), lit(2));
    assert_eq!(parse_expr("8 / 4 / 2"), Ok(("", expected)));
}

#[test]
fn subtraction_is_left_associative() {
    let expected = Expr::subtract(Box::new(Expr::subtract(lit(1), lit(2))), lit(3));
    assert_eq!(parse_expr("1 - 2 - 3"), Ok(("", expected)));
}

#[test]
fn parentheses_override_precedence() {
    let expected = Expr::multiply(Box::new(Expr::add(lit(3), lit(2))), lit(2));
    assert_eq!(parse_expr("(3 + 2) * 2"), Ok(("", expected)));
    assert_eq!(parse_parentheses("( 4 )"), Ok(("", Expr::integer(4))));
}

#[test]
fn unclosed_bracket_is_a_structural_error() {
    assert_eq!(parse_expr("Abs[1"), Err(ParseError { kind: ErrorKind::Unclosed, at: 5 }));
    assert_eq!(parse_absolute("Abs[1"), Err(ParseError { kind: ErrorKind::Unclosed, at: 5 }));
    assert_eq!(parse_expr("(1 + 2"), Err(ParseError { kind: ErrorKind::Unclosed, at: 6 }));
    assert_eq!(parse_expr("f(1 2)"), Err(ParseError { kind: ErrorKind::Unclosed, at: 4 }));
}

#[test]
fn empty_input_is_a_lexical_error() {
    assert_eq!(parse_base_expr(""), Err(ParseError { kind: ErrorKind::Lexical, at: 0 }));
    assert_eq!(parse_expr(""), Err(ParseError { kind: ErrorKind::Lexical, at: 0 }));
    assert_eq!(parse_expr("   "), Err(ParseError { kind: ErrorKind::Lexical, at: 3 }));
}

#[test]
fn missing_operand_is_a_lexical_error() {
    assert_eq!(parse_expr("1 + )"), Err(ParseError { kind: ErrorKind::Lexical, at: 4 }));
    assert_eq!(parse_expr("x"), Err(ParseError { kind: ErrorKind::Lexical, at: 0 }));
}

#[test]
fn hundred_nested_parentheses_unnest() {
    let input = format!("{}7{}", "(".repeat(100), ")".repeat(100));
    assert_eq!(parse_expr(&input), Ok(("", Expr::integer(7))));
}

#[test]
fn nesting_beyond_the_limit_is_reported() {
    let input = format!("{}7{}", "(".repeat(200), ")".repeat(200));
    assert_eq!(
        parse_expr(&input),
        Err(ParseError { kind: ErrorKind::TooDeep, at: MAX_NESTING })
    );
}

#[test]
fn nesting_up_to_the_limit_is_accepted() {
    let input = format!("{}7{}", "(".repeat(MAX_NESTING), ")".repeat(MAX_NESTING));
    assert_eq!(parse_expr(&input), Ok(("", Expr::integer(7))));
    let input = format!("{}7{}", "(".repeat(MAX_NESTING + 1), ")".repeat(MAX_NESTING + 1));
    assert_eq!(
        parse_expr(&input),
        Err(ParseError { kind: ErrorKind::TooDeep, at: MAX_NESTING })
    );
}

#[test]
fn blanks_around_operators_do_not_matter() {
    let a = parse_expr("1+2");
    assert_eq!(a, parse_expr("1 + 2"));
    assert_eq!(a, parse_expr("1  +  2"));
    assert_eq!(a, parse_expr("1\t+\t2"));
    assert_eq!(a, Ok(("", Expr::add(lit(1), lit(2)))));
}

#[test]
fn remainder_is_returned() {
    assert_eq!(parse_expr("1 + 2 rest"), Ok((" rest", Expr::add(lit(1), lit(2)))));
    assert_eq!(parse_expr("1 + 2  "), Ok(("", Expr::add(lit(1), lit(2)))));
    assert_eq!(parse_absolute("Abs[1] x"), Ok((" x", Expr::absolute(lit(1)))));
    assert_eq!(parse_expr("1 + 2\t"), Ok(("", Expr::add(lit(1), lit(2)))));
    assert_eq!(parse_expr("1 + 2é"), Ok(("é", Expr::add(lit(1), lit(2)))));
    assert_eq!(parse_term("2 * 3 + 1"), Ok((" + 1", Expr::multiply(lit(2), lit(3)))));
}

#[test]
fn negation_applies_to_a_base_unit() {
    let expected = Expr::multiply(lit(2), Box::new(Expr::negate(lit(3))));
    assert_eq!(parse_expr("2 * -3"), Ok(("", expected)));
    assert_eq!(parse_negate("--1"), Ok(("", Expr::negate(Box::new(Expr::negate(lit(1)))))));
    assert_eq!(parse_negate("1"), Err(ParseError { kind: ErrorKind::Lexical, at: 0 }));
}

#[test]
fn constants_and_bracketed_functions() {
    assert_eq!(parse_base_expr("Pi"), Ok(("", Expr::math_constant(MathConst::Pi))));
    assert_eq!(parse_base_expr("E"), Ok(("", Expr::math_constant(MathConst::E))));
    assert_eq!(
        parse_expr("Sin[Pi]"),
        Ok(("", Expr::sin(Box::new(Expr::math_constant(MathConst::Pi)))))
    );
    assert_eq!(parse_expr("Cos[ 0 ]"), Ok(("", Expr::cos(lit(0)))));
    assert_eq!(parse_absolute("Abs[-2]"), Ok(("", Expr::absolute(Box::new(Expr::negate(lit(2)))))));
}

#[test]
fn custom_function_calls() {
    assert_eq!(
        parse_expr("f(1, 2 + 3)"),
        Ok(("", Expr::function("f", vec![lit(1), Box::new(Expr::add(lit(2), lit(3)))])))
    );
    assert_eq!(parse_expr("g()"), Ok(("", Expr::function("g", vec![]))));
    assert_eq!(parse_expr("Abs(1)"), Ok(("", Expr::function("Abs", vec![lit(1)]))));
    assert_eq!(parse_expr("h(1,)"), Err(ParseError { kind: ErrorKind::Lexical, at: 4 }));
    match parse_expr("max_2(x1(), 4)") {
        Ok((_, Expr::Op(Operator::CusOp(CustomOperator(name, args))))) => {
            assert_eq!(name, "max_2");
            assert_eq!(args.len(), 2);
        }
        other => panic!("unexpected: {:?}", other),
    }
}

#[test]
fn negate_builds_a_negation() {
    let e = Expr::negate(lit(5));
    assert!(matches!(e, Expr::Op(Operator::UnOp(UnaryOperator::Negation(_)))));
}

#[test]
fn builders_build_the_named_shape() {
    assert_eq!(Expr::number(Number::Integer(1)), Expr::Num(Number::Integer(1)));
    assert!(matches!(
        Expr::multiply(lit(1), lit(2)),
        Expr::Op(Operator::BinOp(BinaryOperator::Multiplication(_, _)))
    ));
    assert!(matches!(
        Expr::subtract(lit(1), lit(2)),
        Expr::Op(Operator::BinOp(BinaryOperator::Subtraction(_, _)))
    ));
    assert!(matches!(
        Expr::absolute(lit(1)),
        Expr::Op(Operator::UnOp(UnaryOperator::Absolute(_)))
    ));
    assert_eq!(
        Expr::binary_operator(BinaryOperator::Addition(lit(1), lit(2))),
        Expr::add(lit(1), lit(2))
    );
    assert_eq!(
        Expr::unary_operator(UnaryOperator::Cos(lit(1))),
        Expr::cos(lit(1))
    );
    assert_eq!(
        Expr::custom_operator(CustomOperator("f".to_string(), vec![])),
        Expr::function("f", vec![])
    );
    assert_eq!(
        Expr::operator(Operator::UnOp(UnaryOperator::Sin(lit(1)))),
        Expr::sin(lit(1))
    );
}
