use rpn_parser::{
    evaluate_expression, BinaryFunction, EvaluationError, Expr, NamedConstant, UnaryFunction,
};

fn value(e: &Expr) -> f64 {
    match e {
        Expr::Number(text) => text.parse::<f64>().unwrap(),
        Expr::Constant(NamedConstant::Pi) => std::f64::consts::PI,
        Expr::Constant(NamedConstant::E) => std::f64::consts::E,
        Expr::Unary(f, a) => {
            let v = value(a);
            match f {
                UnaryFunction::Sin => v.sin(),
                UnaryFunction::Ln => v.ln(),
                UnaryFunction::Log10 => v.log10(),
            }
        }
        Expr::Binary(f, a, b) => {
            let (x, y) = (value(a), value(b));
            match f {
                BinaryFunction::Add => x + y,
                BinaryFunction::Sub => x - y,
                BinaryFunction::Mul => x * y,
                BinaryFunction::Div => x / y,
                BinaryFunction::Rem => x % y,
                BinaryFunction::Pow => x.powf(y),
            }
        }
    }
}

fn evaluate(expr: &str) -> Result<f64, EvaluationError> {
    evaluate_expression(expr).map(|e| value(&e))
}

#[test]
fn eval_one_positive_number() {
    assert_eq!(evaluate("1").unwrap(), 1.0);
    assert_eq!(evaluate("543").unwrap(), 543.0);
}

#[test]
fn eval_one_negative_number() {
    assert_eq!(evaluate("-1").unwrap(), -1.0);
    assert_eq!(evaluate("-543").unwrap(), -543.0);
}

#[test]
fn eval_one_decimal_number() {
    assert_eq!(evaluate("0.5").unwrap(), 0.5);
    assert_eq!(evaluate("-0.5").unwrap(), -0.5);
}

#[test]
fn eval_err_not_enough_operands() {
    assert!(evaluate("1 +").is_err());
}

#[test]
fn eval_err_invalid_operator() {
    assert!(evaluate("1 2 foo").is_err());
}

#[test]
fn eval_add() {
    assert_eq!(evaluate("1 2 +").unwrap(), 3.0);
}

#[test]
fn eval_add_multiple() {
    assert_eq!(evaluate("1 2 + 3 +").unwrap(), 6.0);
}

#[test]
fn eval_subtract() {
    assert_eq!(evaluate("1 2 -").unwrap(), -1.0);
}

#[test]
fn eval_subtract_multiple() {
    assert_eq!(evaluate("1 2 - 3 -").unwrap(), -4.0);
}

#[test]
fn eval_multiply() {
    assert_eq!(evaluate("1 2 x").unwrap(), 2.0);
}

#[test]
fn eval_multiply_multiple() {
    assert_eq!(evaluate("1 2 x 3 x").unwrap(), 6.0);
}

#[test]
fn eval_divide() {
    assert_eq!(evaluate("1 2 /").unwrap(), 0.5);
}

#[test]
fn eval_divide_multiple() {
    assert_eq!(evaluate("1 2 / 2 /").unwrap(), 0.25);
}

#[test]
fn eval_mixed_operators() {
    assert_eq!(evaluate("1 2 + 3 x 4 -").unwrap(), 5.0);
}

#[test]
fn eval_text_operator() {
    assert_eq!(evaluate("pi 2 / sin").unwrap(), 1.0);
}

#[test]
fn eval_reversed_subtraction() {
    assert_eq!(evaluate("2 1 -").unwrap(), 1.0);
}

#[test]
fn eval_unicode_aliases() {
    assert_eq!(evaluate("3 2 \u{2212}").unwrap(), 1.0);
    assert_eq!(evaluate("3 2 \u{d7}").unwrap(), 6.0);
    assert_eq!(evaluate("3 2 *").unwrap(), 6.0);
}

#[test]
fn eval_remainder_power_and_logs() {
    assert_eq!(evaluate("7 4 %").unwrap(), 3.0);
    assert_eq!(evaluate("2 10 ^").unwrap(), 1024.0);
    assert_eq!(evaluate("1000 log10").unwrap(), 3.0);
    assert_eq!(evaluate("e ln").unwrap(), 1.0);
}

#[test]
fn eval_division_by_zero_is_a_value() {
    assert_eq!(evaluate("1 0 /").unwrap(), f64::INFINITY);
    assert!(evaluate("0 0 /").unwrap().is_nan());
}

#[test]
fn eval_exponent_notation() {
    assert_eq!(evaluate("1e3 2.5E-1 +").unwrap(), 1000.25);
    assert_eq!(evaluate(".5 5. +").unwrap(), 5.5);
}

#[test]
fn eval_twice_gives_the_same_value() {
    let first = evaluate("pi 2 / sin 3 x");
    let second = evaluate("pi 2 / sin 3 x");
    assert_eq!(first, second);
}
