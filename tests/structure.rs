use rpn_parser::{
    evaluate_expression, exec_index, execute, execute_recursive, get_operator, parse,
    BinaryFunction, EvaluationError, Expr, NamedConstant, Operator, Token, UnaryFunction,
};

fn num(text: &str) -> Expr {
    Expr::Number(text.to_string())
}

fn bin(f: BinaryFunction, a: Expr, b: Expr) -> Expr {
    Expr::Binary(f, Box::new(a), Box::new(b))
}

#[test]
fn registry_knows_every_name() {
    assert_eq!(get_operator("+"), Some(Operator::Binary(BinaryFunction::Add)));
    assert_eq!(get_operator("-"), Some(Operator::Binary(BinaryFunction::Sub)));
    assert_eq!(get_operator("\u{2212}"), Some(Operator::Binary(BinaryFunction::Sub)));
    assert_eq!(get_operator("*"), Some(Operator::Binary(BinaryFunction::Mul)));
    assert_eq!(get_operator("x"), Some(Operator::Binary(BinaryFunction::Mul)));
    assert_eq!(get_operator("\u{d7}"), Some(Operator::Binary(BinaryFunction::Mul)));
    assert_eq!(get_operator("/"), Some(Operator::Binary(BinaryFunction::Div)));
    assert_eq!(get_operator("%"), Some(Operator::Binary(BinaryFunction::Rem)));
    assert_eq!(get_operator("^"), Some(Operator::Binary(BinaryFunction::Pow)));
    assert_eq!(get_operator("sin"), Some(Operator::Unary(UnaryFunction::Sin)));
    assert_eq!(get_operator("ln"), Some(Operator::Unary(UnaryFunction::Ln)));
    assert_eq!(get_operator("log10"), Some(Operator::Unary(UnaryFunction::Log10)));
    assert_eq!(get_operator("pi"), Some(Operator::Constant(NamedConstant::Pi)));
    assert_eq!(get_operator("e"), Some(Operator::Constant(NamedConstant::E)));
}

#[test]
fn registry_is_exact_and_case_sensitive() {
    assert_eq!(get_operator("foo"), None);
    assert_eq!(get_operator("SIN"), None);
    assert_eq!(get_operator("Pi"), None);
    assert_eq!(get_operator(""), None);
    assert_eq!(get_operator("++"), None);
    assert_eq!(get_operator("log"), None);
}

#[test]
fn operator_arities() {
    assert_eq!(Operator::Constant(NamedConstant::Pi).arity(), 0);
    assert_eq!(Operator::Unary(UnaryFunction::Sin).arity(), 1);
    assert_eq!(Operator::Binary(BinaryFunction::Pow).arity(), 2);
}

#[test]
fn tokenizer_splits_on_runs_of_whitespace() {
    let tokens = parse("  1\t2.5 \n +\u{3000}sin ");
    assert_eq!(
        tokens,
        vec![
            Token::Number("1".to_string()),
            Token::Number("2.5".to_string()),
            Token::Identifier("+".to_string()),
            Token::Identifier("sin".to_string()),
        ]
    );
}

#[test]
fn tokenizer_on_empty_and_blank_text() {
    assert_eq!(parse(""), vec![]);
    assert_eq!(parse(" \t\n "), vec![]);
}

#[test]
fn tokenizer_accepts_float_literals() {
    for text in ["0", "-7", "+3", "1.", ".5", "1e10", "1E-3", "2.5e+4", "inf", "-Infinity", "NaN"] {
        assert_eq!(parse(text), vec![Token::Number(text.to_string())], "{}", text);
    }
}

#[test]
fn tokenizer_leaves_malformed_numbers_as_identifiers() {
    for text in ["1.2.3", ".", "e5", "1e", "1e+", "--1", "1_000", "infinit", "0x10", "-"] {
        assert_eq!(parse(text), vec![Token::Identifier(text.to_string())], "{}", text);
    }
}

#[test]
fn malformed_number_is_an_unknown_operator() {
    assert_eq!(
        evaluate_expression("1.2.3"),
        Err(EvaluationError::UnknownOperator { name: "1.2.3".to_string() })
    );
}

#[test]
fn single_number_is_its_literal() {
    assert_eq!(evaluate_expression("-0.5"), Ok(num("-0.5")));
    assert_eq!(evaluate_expression(" 543 "), Ok(num("543")));
}

#[test]
fn binary_expression_keeps_operand_order() {
    assert_eq!(evaluate_expression("1 2 -"), Ok(bin(BinaryFunction::Sub, num("1"), num("2"))));
    assert_eq!(evaluate_expression("2 1 -"), Ok(bin(BinaryFunction::Sub, num("2"), num("1"))));
    assert_eq!(evaluate_expression("1 2 /"), Ok(bin(BinaryFunction::Div, num("1"), num("2"))));
}

#[test]
fn constant_binary_and_unary_together() {
    let tree = Expr::Unary(
        UnaryFunction::Sin,
        Box::new(bin(BinaryFunction::Div, Expr::Constant(NamedConstant::Pi), num("2"))),
    );
    assert_eq!(evaluate_expression("pi 2 / sin"), Ok(tree));
}

#[test]
fn missing_operand_of_binary() {
    assert_eq!(
        evaluate_expression("1 +"),
        Err(EvaluationError::InsufficientOperands { expected: 2, found: 1 })
    );
    assert_eq!(
        evaluate_expression("+"),
        Err(EvaluationError::InsufficientOperands { expected: 2, found: 0 })
    );
}

#[test]
fn missing_operand_of_unary() {
    assert_eq!(
        evaluate_expression("sin"),
        Err(EvaluationError::InsufficientOperands { expected: 1, found: 0 })
    );
}

#[test]
fn leftover_values_are_too_many_operands() {
    assert_eq!(
        evaluate_expression("1 2 3 +"),
        Err(EvaluationError::TooManyOperands { count: 2 })
    );
    assert_eq!(evaluate_expression("1 2"), Err(EvaluationError::TooManyOperands { count: 2 }));
}

#[test]
fn unknown_operator_is_named() {
    assert_eq!(
        evaluate_expression("1 2 foo"),
        Err(EvaluationError::UnknownOperator { name: "foo".to_string() })
    );
}

#[test]
fn blank_input_is_empty() {
    assert_eq!(evaluate_expression(""), Err(EvaluationError::EmptyExpression));
    assert_eq!(evaluate_expression("   \t  "), Err(EvaluationError::EmptyExpression));
}

#[test]
fn first_error_wins() {
    assert_eq!(
        evaluate_expression("1 + foo"),
        Err(EvaluationError::InsufficientOperands { expected: 2, found: 1 })
    );
}

#[test]
fn same_text_same_outcome() {
    assert_eq!(evaluate_expression("1 2 + 3 x"), evaluate_expression("1 2 + 3 x"));
    assert_eq!(evaluate_expression("1 foo"), evaluate_expression("1 foo"));
}

#[test]
fn recursive_descent_reads_one_expression_back() {
    let tokens = parse("5 1 2 + 4 x");
    assert_eq!(
        exec_index(&tokens, tokens.len()),
        Ok((bin(BinaryFunction::Mul, bin(BinaryFunction::Add, num("1"), num("2")), num("4")), 1))
    );
}

#[test]
fn engines_agree_on_values() {
    for text in ["5 1 2 + 4 x + 3 -", "pi 2 / sin", "e ln 2 ^", "7"] {
        let stack = execute(parse(text));
        assert!(stack.is_ok());
        assert_eq!(stack, execute_recursive(parse(text)), "{}", text);
    }
}

#[test]
fn recursive_descent_errors() {
    assert_eq!(execute_recursive(parse("")), Err(EvaluationError::EmptyExpression));
    assert_eq!(
        execute_recursive(parse("1 2 3 +")),
        Err(EvaluationError::TooManyOperands { count: 2 })
    );
    assert_eq!(
        execute_recursive(parse("1 +")),
        Err(EvaluationError::InsufficientOperands { expected: 2, found: 1 })
    );
    assert_eq!(
        execute_recursive(parse("sin")),
        Err(EvaluationError::InsufficientOperands { expected: 1, found: 0 })
    );
    assert_eq!(
        execute_recursive(parse("1 2 foo")),
        Err(EvaluationError::UnknownOperator { name: "foo".to_string() })
    );
}

#[test]
fn recursive_descent_with_no_tokens_left() {
    let tokens = parse("");
    assert_eq!(
        exec_index(&tokens, 0),
        Err(EvaluationError::InsufficientOperands { expected: 1, found: 0 })
    );
    let tokens = parse("1 2 +");
    assert_eq!(
        exec_index(&tokens, 0),
        Err(EvaluationError::InsufficientOperands { expected: 1, found: 0 })
    );
}
