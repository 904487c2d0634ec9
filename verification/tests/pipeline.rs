use shunting_yard::token::{Token, Type};
use shunting_yard::tokenizer::{tokenize, TokenizeError};
use shunting_yard::transform::{shunting_yard, TransformError};
use shunting_yard::eval::{evaluate_rpn, EvalError, Expr};

fn lit_value(lit: &Vec<char>) -> f32 {
    let text: String = lit.iter().collect();
    text.parse::<f32>().unwrap()
}

/// Reduce an expression tree to a number, the reference way: `+ - * /` are
/// the usual arithmetic, `^` raises the left operand to the right one.
fn eval_expr(e: &Expr) -> f32 {
    match e {
        Expr::Num(lit) => lit_value(lit),
        Expr::BinOp(op, a, b) => {
            let x = eval_expr(a);
            let y = eval_expr(b);
            match op {
                '+' => x + y,
                '-' => x - y,
                '*' => x * y,
                '/' => x / y,
                '^' => x.powf(y),
                _ => panic!("unknown operator"),
            }
        },
    }
}

fn evaluate_text(input: &str) -> f32 {
    let tokens = tokenize(input).unwrap();
    let rpn = shunting_yard(&tokens).unwrap();
    let tree = evaluate_rpn(&rpn).unwrap();
    eval_expr(&tree)
}

fn same_tokens(a: &Token, b: &Token) -> bool {
    a.precedence == b.precedence
        && match (&a.typ, &b.typ) {
            (Type::Number(x), Type::Number(y)) => x == y,
            (Type::Operator(x), Type::Operator(y)) => x == y,
            (Type::LParen, Type::LParen) => true,
            (Type::RParen, Type::RParen) => true,
            _ => false,
        }
}

#[test]
fn test_simple_expression() {
    let tokens = tokenize("2 /3 ^ 4").unwrap();
    assert_eq!(tokens.len(), 5);

    match &tokens[0].typ {
        Type::Number(n) => assert_eq!(lit_value(n), 2.0),
        _ => panic!("Expected number"),
    }
}

#[test]
fn test_decimal_numbers() {
    let tokens = tokenize("3.14 + 2.5").unwrap();
    match &tokens[0].typ {
        Type::Number(n) => assert_eq!(lit_value(n), 3.14),
        _ => panic!("Expected number"),
    }
}

#[test]
fn test_complex_expression() {
    let tokens = tokenize("10- 4 / 3 + 4^(2 - 0.5)").unwrap();
    assert_eq!(tokens.len(), 13);
}

#[test]
fn test_evaluation() {
    let tokens = tokenize("3 + 4 * 2 / ( 1 - 5 ) ^ 2").unwrap();
    let rpn = shunting_yard(&tokens).unwrap();
    let tree = evaluate_rpn(&rpn).unwrap();
    let result = eval_expr(&tree);
    assert_eq!(result, 3.5);
}

#[test]
fn precedence_without_parentheses() {
    assert_eq!(evaluate_text("2 + 3 * 4"), 14.0);
    assert_eq!(evaluate_text("2 * 3 + 4"), 10.0);
    assert_eq!(evaluate_text("2 * 3 ^ 2"), 18.0);
}

#[test]
fn power_is_right_associative() {
    assert_eq!(evaluate_text("2 ^ 3 ^ 2"), 512.0);
    assert_eq!(evaluate_text("8 - 3 - 2"), 3.0);
}

#[test]
fn explicit_parentheses_round_trip() {
    assert_eq!(evaluate_text("( 1 + 2 ) * 3"), 9.0);
    assert_eq!(evaluate_text("( ( 2 + 1 ) ^ ( 5 - 3 ) )"), 9.0);
}

#[test]
fn division_by_zero_is_infinite() {
    assert_eq!(evaluate_text("1 / 0"), f32::INFINITY);
}

#[test]
fn retransform_postfix_is_identity() {
    // "3 4 +" is already postfix: transforming it changes nothing
    let tokens = tokenize("3 4 +").unwrap();
    let rpn = shunting_yard(&tokens).unwrap();
    assert_eq!(tokens.len(), rpn.len());
    for i in 0..tokens.len() {
        assert!(same_tokens(&tokens[i], &rpn[i]));
    }
}

#[test]
fn numbers_only_transform_is_identity() {
    let tokens = tokenize("3 4").unwrap();
    let rpn = shunting_yard(&tokens).unwrap();
    assert_eq!(rpn.len(), 2);
    for i in 0..tokens.len() {
        assert!(same_tokens(&tokens[i], &rpn[i]));
    }
}

#[test]
fn missing_operator_is_malformed() {
    let tokens = tokenize("3 4").unwrap();
    let rpn = shunting_yard(&tokens).unwrap();
    assert!(matches!(evaluate_rpn(&rpn), Err(EvalError::MalformedExpression)));
}

#[test]
fn empty_input_is_malformed() {
    let tokens = tokenize("").unwrap();
    assert_eq!(tokens.len(), 0);
    let rpn = shunting_yard(&tokens).unwrap();
    assert!(matches!(evaluate_rpn(&rpn), Err(EvalError::MalformedExpression)));
}

#[test]
fn unclosed_parenthesis_is_mismatched() {
    let tokens = tokenize("( 1 + 2").unwrap();
    assert!(matches!(
        shunting_yard(&tokens),
        Err(TransformError::MismatchedParentheses)
    ));
}

#[test]
fn stray_closing_parenthesis_is_mismatched() {
    let tokens = tokenize("1 + 2 )").unwrap();
    assert!(matches!(
        shunting_yard(&tokens),
        Err(TransformError::MismatchedParentheses)
    ));
}

#[test]
fn nested_balanced_parentheses_transform() {
    let tokens = tokenize("( ( 1 + 2 ) * ( 3 - 4 ) )").unwrap();
    assert!(shunting_yard(&tokens).is_ok());
}

#[test]
fn unknown_character_fails_tokenization() {
    match tokenize("2 $ 3") {
        Err(TokenizeError::UnknownCharacter(c)) => assert_eq!(c, '$'),
        _ => panic!("expected an unknown-character failure"),
    }
}

#[test]
fn two_dots_fail_tokenization() {
    match tokenize("1.2.3 + 4") {
        Err(TokenizeError::InvalidNumber(lit)) => {
            let text: String = lit.iter().collect();
            assert_eq!(text, "1.2.3");
        },
        _ => panic!("expected an invalid-number failure"),
    }
}

#[test]
fn lone_dot_fails_tokenization() {
    assert!(matches!(tokenize("."), Err(TokenizeError::InvalidNumber(_))));
}

#[test]
fn operator_short_of_operands() {
    let tokens = tokenize("3 +").unwrap();
    let rpn = shunting_yard(&tokens).unwrap();
    assert!(matches!(evaluate_rpn(&rpn), Err(EvalError::InsufficientOperands('+'))));
}

#[test]
fn lone_operator_short_of_operands() {
    let tokens = tokenize("*").unwrap();
    let rpn = shunting_yard(&tokens).unwrap();
    assert!(matches!(evaluate_rpn(&rpn), Err(EvalError::InsufficientOperands('*'))));
}

#[test]
fn unknown_operator_fails_evaluation() {
    let rpn = vec![
        Token::new(Type::Number(vec!['1'])),
        Token::new(Type::Number(vec!['2'])),
        Token::new(Type::Operator('%')),
    ];
    assert!(matches!(evaluate_rpn(&rpn), Err(EvalError::UnknownOperator('%'))));
}

#[test]
fn parenthesis_in_rpn_is_invalid() {
    let rpn = vec![Token::new(Type::LParen)];
    assert!(matches!(evaluate_rpn(&rpn), Err(EvalError::InvalidRpnToken)));
}

#[test]
fn precedence_is_fixed_at_construction() {
    assert_eq!(Token::new(Type::Operator('+')).precedence, 1);
    assert_eq!(Token::new(Type::Operator('-')).precedence, 1);
    assert_eq!(Token::new(Type::Operator('*')).precedence, 2);
    assert_eq!(Token::new(Type::Operator('/')).precedence, 2);
    assert_eq!(Token::new(Type::Operator('^')).precedence, 3);
    assert_eq!(Token::new(Type::Operator('%')).precedence, 0);
    assert_eq!(Token::new(Type::Number(vec!['7'])).precedence, 0);
    assert_eq!(Token::new(Type::LParen).precedence, 0);
    assert_eq!(Token::new(Type::RParen).precedence, 0);
}

#[test]
fn trailing_and_leading_dots_are_valid_literals() {
    // "1." and ".5" each hold a digit and at most one dot, as a float parse allows
    assert_eq!(evaluate_text("1. + .5"), 1.5);
}

#[test]
fn leading_minus_is_a_binary_operator() {
    // unary minus is not supported: a leading '-' still tokenizes as an
    // operator, and the pipeline then fails for want of a left operand
    let tokens = tokenize("-3 + 2").unwrap();
    assert_eq!(tokens.len(), 4);
    assert!(matches!(&tokens[0].typ, Type::Operator('-')));
    let rpn = shunting_yard(&tokens).unwrap();
    assert!(matches!(evaluate_rpn(&rpn), Err(EvalError::InsufficientOperands('-'))));
}

#[test]
fn numbers_need_no_surrounding_whitespace() {
    let tokens = tokenize("(1+2)3").unwrap();
    assert_eq!(tokens.len(), 6);
    match &tokens[5].typ {
        Type::Number(n) => assert_eq!(lit_value(n), 3.0),
        _ => panic!("expected a number after the closing parenthesis"),
    }
}
