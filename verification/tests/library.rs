use expr_fold::folding::reduce_binary_to_literal;
use expr_fold::folding::reduce_unary_to_literal;
use expr_fold::folding::repoint_binary;
use expr_fold::folding::ArithmeticError;
use expr_fold::parser::parse;
use expr_fold::parser::ExpressionHandle;
use expr_fold::parser::Literal;
use expr_fold::scanner::scan;
use expr_fold::scanner::ScanError;
use expr_fold::scanner::Token;
use expr_fold::store::get_expression;
use expr_fold::store::Ast;
use expr_fold::store::Expression;

fn parsed(source: &str) -> (Ast, ExpressionHandle) {
    let tokens = scan(source).expect("scan failed");
    let mut ast = Ast::new(tokens.len());
    let root = parse(&mut ast, &tokens).expect("parse failed");
    (ast, root)
}

fn resolve(ast: &Ast, h: &ExpressionHandle) -> Expression {
    get_expression(ast, h).expect("dangling handle")
}

#[test]
fn scan_simple_tokens() {
    let tokens = scan("1 + 2").unwrap();
    assert_eq!(tokens.len(), 3);
    assert!(matches!(tokens[0], Token::Integer { value: 1 }));
    assert!(matches!(&tokens[1], Token::Operator { operator } if operator == "+"));
    assert!(matches!(tokens[2], Token::Integer { value: 2 }));
}

#[test]
fn scan_rejects_unexpected_character() {
    let r = scan("1 @ 2");
    assert!(matches!(r, Err(ScanError::UnexpectedCharacter('@'))));
}

#[test]
fn scan_skips_underscore_separators() {
    let tokens = scan("1_000").unwrap();
    assert_eq!(tokens.len(), 1);
    assert!(matches!(tokens[0], Token::Integer { value: 1000 }));
}

#[test]
fn scan_float_numeral_keeps_text() {
    let tokens = scan("3.14").unwrap();
    assert_eq!(tokens.len(), 1);
    assert!(matches!(&tokens[0], Token::Float { text } if text == "3.14"));
}

#[test]
fn scan_huge_integer_falls_back_to_float() {
    let tokens = scan("9223372036854775808").unwrap();
    assert_eq!(tokens.len(), 1);
    assert!(matches!(&tokens[0], Token::Float { text } if text == "9223372036854775808"));
}

#[test]
fn scan_rejects_double_dot_numeral() {
    let r = scan("1.2.3");
    assert!(matches!(r, Err(ScanError::InvalidNumber(text)) if text == "1.2.3"));
}

#[test]
fn scan_identifier_token() {
    let tokens = scan("foo_1 + 2").unwrap();
    assert_eq!(tokens.len(), 3);
    assert!(matches!(&tokens[0], Token::Identifier { name } if name == "foo_1"));
}

#[test]
fn scan_operators_and_grouping() {
    let tokens = scan("(%^)").unwrap();
    assert_eq!(tokens.len(), 4);
    assert!(matches!(tokens[0], Token::Grouping { char_: '(' }));
    assert!(matches!(&tokens[1], Token::Operator { operator } if operator == "%"));
    assert!(matches!(&tokens[2], Token::Operator { operator } if operator == "^"));
    assert!(matches!(tokens[3], Token::Grouping { char_: ')' }));
}

#[test]
fn scan_trailing_whitespace_is_fine() {
    let tokens = scan("  7  ").unwrap();
    assert_eq!(tokens.len(), 1);
    assert!(matches!(tokens[0], Token::Integer { value: 7 }));
}

#[test]
fn parse_respects_precedence() {
    let (ast, root) = parsed("1 + 2 * 3");
    let top = resolve(&ast, &root);
    match top {
        Expression::Binary(b) => {
            assert_eq!(b.operator, "+");
            assert!(matches!(
                resolve(&ast, &b.left),
                Expression::Literal(Literal::Integer(1))
            ));
            match resolve(&ast, &b.right) {
                Expression::Binary(inner) => {
                    assert_eq!(inner.operator, "*");
                    assert!(matches!(
                        resolve(&ast, &inner.left),
                        Expression::Literal(Literal::Integer(2))
                    ));
                    assert!(matches!(
                        resolve(&ast, &inner.right),
                        Expression::Literal(Literal::Integer(3))
                    ));
                }
                other => panic!("expected inner binary, got {:?}", other),
            }
        }
        other => panic!("expected binary root, got {:?}", other),
    }
}

#[test]
fn parse_binary_is_left_associative() {
    let (ast, root) = parsed("1 - 2 - 3");
    match resolve(&ast, &root) {
        Expression::Binary(b) => {
            assert_eq!(b.operator, "-");
            assert!(matches!(
                resolve(&ast, &b.right),
                Expression::Literal(Literal::Integer(3))
            ));
            match resolve(&ast, &b.left) {
                Expression::Binary(inner) => {
                    assert_eq!(inner.operator, "-");
                    assert!(matches!(
                        resolve(&ast, &inner.left),
                        Expression::Literal(Literal::Integer(1))
                    ));
                    assert!(matches!(
                        resolve(&ast, &inner.right),
                        Expression::Literal(Literal::Integer(2))
                    ));
                }
                other => panic!("expected inner binary, got {:?}", other),
            }
        }
        other => panic!("expected binary root, got {:?}", other),
    }
}

#[test]
fn parse_unary_is_right_associative() {
    let (ast, root) = parsed("--5");
    match resolve(&ast, &root) {
        Expression::Unary(u) => {
            assert_eq!(u.operator, "-");
            match resolve(&ast, &u.operand) {
                Expression::Unary(inner) => {
                    assert_eq!(inner.operator, "-");
                    assert!(matches!(
                        resolve(&ast, &inner.operand),
                        Expression::Literal(Literal::Integer(5))
                    ));
                }
                other => panic!("expected inner unary, got {:?}", other),
            }
        }
        other => panic!("expected unary root, got {:?}", other),
    }
}

#[test]
fn parse_unmatched_paren_yields_nothing() {
    let tokens = scan("(1 + 2").unwrap();
    let mut ast = Ast::new(tokens.len());
    assert!(parse(&mut ast, &tokens).is_none());
}

#[test]
fn parse_empty_input_yields_nothing() {
    let tokens = scan("").unwrap();
    assert!(tokens.is_empty());
    let mut ast = Ast::new(tokens.len());
    assert!(parse(&mut ast, &tokens).is_none());
}

#[test]
fn unary_fold_reduces_double_negation() {
    let (mut ast, root) = parsed("--5");
    reduce_unary_to_literal(&mut ast).unwrap();
    reduce_unary_to_literal(&mut ast).unwrap();
    assert!(matches!(
        resolve(&ast, &root),
        Expression::Literal(Literal::Integer(5))
    ));
}

#[test]
fn unary_plus_is_a_passthrough() {
    let (mut ast, root) = parsed("+4");
    reduce_unary_to_literal(&mut ast).unwrap();
    assert!(matches!(
        resolve(&ast, &root),
        Expression::Literal(Literal::Integer(4))
    ));
}

#[test]
fn unary_fold_negates_float_text() {
    let (mut ast, root) = parsed("-2.5");
    reduce_unary_to_literal(&mut ast).unwrap();
    match resolve(&ast, &root) {
        Expression::Literal(Literal::Float(text)) => assert_eq!(text, "-2.5"),
        other => panic!("expected float literal, got {:?}", other),
    }
}

#[test]
fn binary_fold_repoints_shared_slot() {
    let (mut ast, root) = parsed("2 * 3");
    assert!(matches!(root, ExpressionHandle::Binary(_)));
    reduce_binary_to_literal(&mut ast).unwrap();
    assert!(matches!(
        resolve(&ast, &root),
        Expression::Literal(Literal::Integer(6))
    ));
}

#[test]
fn binary_fold_division_truncates_toward_zero() {
    let (mut ast, root) = parsed("7 / -2");
    reduce_unary_to_literal(&mut ast).unwrap();
    reduce_binary_to_literal(&mut ast).unwrap();
    assert!(matches!(
        resolve(&ast, &root),
        Expression::Literal(Literal::Integer(-3))
    ));
}

#[test]
fn division_by_zero_is_reported() {
    let (mut ast, _root) = parsed("1 / 0");
    let r = reduce_binary_to_literal(&mut ast);
    assert_eq!(r, Err(ArithmeticError::DivisionByZero));
}

#[test]
fn integer_overflow_is_reported() {
    let (mut ast, _root) = parsed("9223372036854775807 + 1");
    let r = reduce_binary_to_literal(&mut ast);
    assert_eq!(r, Err(ArithmeticError::Overflow));
}

#[test]
fn end_to_end_scenario_folds_to_minus_five() {
    let (mut ast, root) = parsed("1 + -2 * 3 / -(+4 - 5)");
    for _ in 0..4 {
        reduce_unary_to_literal(&mut ast).unwrap();
        reduce_binary_to_literal(&mut ast).unwrap();
    }
    assert!(matches!(
        resolve(&ast, &root),
        Expression::Literal(Literal::Integer(-5))
    ));
}

#[test]
fn folding_is_idempotent_after_fixpoint() {
    let (mut ast, root) = parsed("1 + -2 * 3 / -(+4 - 5)");
    for _ in 0..4 {
        reduce_unary_to_literal(&mut ast).unwrap();
        reduce_binary_to_literal(&mut ast).unwrap();
    }
    let before = format!("{:?}", resolve(&ast, &root));
    reduce_unary_to_literal(&mut ast).unwrap();
    reduce_binary_to_literal(&mut ast).unwrap();
    let after = format!("{:?}", resolve(&ast, &root));
    assert_eq!(before, after);
    assert!(matches!(
        resolve(&ast, &root),
        Expression::Literal(Literal::Integer(-5))
    ));
}

fn fold_float_pair(ast: &mut Ast, root: &ExpressionHandle) -> f64 {
    let b = match resolve(ast, root) {
        Expression::Binary(b) => b,
        other => panic!("expected binary root, got {:?}", other),
    };
    let to_f64 = |e: Expression| -> f64 {
        match e {
            Expression::Literal(Literal::Integer(v)) => v as f64,
            Expression::Literal(Literal::Float(t)) => t.parse::<f64>().unwrap(),
            other => panic!("expected literal, got {:?}", other),
        }
    };
    let x = to_f64(resolve(ast, &b.left));
    let y = to_f64(resolve(ast, &b.right));
    let v = match b.operator.as_str() {
        "+" => x + y,
        "-" => x - y,
        "*" => x * y,
        "/" => x / y,
        other => panic!("operator outside the grammar: {}", other),
    };
    assert!(repoint_binary(ast, root, Literal::Float(format!("{}", v))));
    v
}

#[test]
fn float_pair_is_left_for_the_caller_and_repoints() {
    let (mut ast, root) = parsed("2 + 3.5");
    reduce_unary_to_literal(&mut ast).unwrap();
    reduce_binary_to_literal(&mut ast).unwrap();
    // the pass leaves the mixed pair untouched
    assert!(matches!(resolve(&ast, &root), Expression::Binary(_)));
    let v = fold_float_pair(&mut ast, &root);
    assert_eq!(v, 5.5);
    match resolve(&ast, &root) {
        Expression::Literal(Literal::Float(text)) => assert_eq!(text, "5.5"),
        other => panic!("expected float literal, got {:?}", other),
    }
}

#[test]
fn mixed_pairs_promote_the_same_both_ways() {
    for (a, b) in [("2 + 3.5", "3.5 + 2"), ("2 * 3.5", "3.5 * 2")] {
        let (mut ast_a, root_a) = parsed(a);
        let (mut ast_b, root_b) = parsed(b);
        let va = fold_float_pair(&mut ast_a, &root_a);
        let vb = fold_float_pair(&mut ast_b, &root_b);
        assert_eq!(va, vb);
    }
}

#[test]
fn repoint_binary_refuses_other_kinds() {
    let (mut ast, root) = parsed("5");
    assert!(!repoint_binary(
        &mut ast,
        &root,
        Literal::Integer(9)
    ));
    assert!(matches!(
        resolve(&ast, &root),
        Expression::Literal(Literal::Integer(5))
    ));
}
