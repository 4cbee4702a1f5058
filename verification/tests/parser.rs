use jp2gmd::environment::{Environment, Identifier, Type};
use jp2gmd::error::Error;
use jp2gmd::lexer::{Token, Tokenizer};
use jp2gmd::matrices::Matrix;
use jp2gmd::parser::{binary_op, parse_expression, parse_instruction, unary_op};
use jp2gmd::rationals::Rational;

fn im(rows: Vec<Vec<i64>>) -> Matrix<i64> {
    Matrix::new_unsafe(rows)
}

fn name(text: &str) -> Identifier {
    Identifier::new(text.to_string()).unwrap()
}

#[test]
fn test_expression_simple() {
    let mut env = Environment::new();
    env.insert(Identifier::new("a".to_string()).unwrap(), Type::Scalar(2));
    env.insert(Identifier::new("b".to_string()).unwrap(), Type::Scalar(3));
    assert_eq!(parse_expression("a+b*b", &env).unwrap(), Type::Scalar(11));
    assert_eq!(parse_expression("(a+b)*b", &env).unwrap(), Type::Scalar(15));
}

#[test]
fn test_expression_numbers() {
    let env = Environment::new();

    let test_expr = |raw, a, b| {
        assert_eq!(
            parse_expression(raw, &env).unwrap(),
            Type::Scalar(Rational::new(a, b))
        )
    };

    test_expr("2+2", 4, 1);
    test_expr("(2-6*9)/5", -52, 5);
    test_expr("2-6*9/5", -44, 5);
    test_expr("(2-6)*9/5", -36, 5);
    test_expr("(2-6*9/5)", -44, 5);
    test_expr("1/2^8", 1, 256);
}

#[test]
fn test_expression_unary() {
    let mut env = Environment::new();
    env.insert(Identifier::new("x".to_string()).unwrap(), Type::Scalar(-5));
    let a = im(vec![vec![1, 2, 3], vec![4, 5, 6]]);
    env.insert(
        Identifier::new("A".to_string()).unwrap(),
        Type::Matrix(a.clone()),
    );

    let test_expr = |raw, expected| assert_eq!(parse_expression(raw, &env).unwrap(), expected);

    test_expr("-1", Type::Scalar(-1));
    test_expr("-x", Type::Scalar(5));
    test_expr("-1+3", Type::Scalar(2));
    test_expr("-(1+3)", Type::Scalar(-4));
    test_expr("2+(-2)", Type::Scalar(0));
    test_expr("1 - -1", Type::Scalar(2));
    test_expr("+1 + +1", Type::Scalar(2));
    test_expr("2 * -3", Type::Scalar(-6));
    test_expr("+2 * +3", Type::Scalar(6));

    test_expr("-A", Type::Matrix(a.checked_neg().unwrap()));
    test_expr("+A + -A - -A", Type::Matrix(a.clone()));
    test_expr("+A - +A + +A", Type::Matrix(a));
}

#[test]
fn test_expression_identifiers() {
    let mut env = Environment::new();
    env.insert(
        Identifier::new("_i_love_rust_69".to_string()).unwrap(),
        Type::Scalar(69),
    );
    env.insert(
        Identifier::new("_i_love_rust_42".to_string()).unwrap(),
        Type::Scalar(42),
    );
    assert_eq!(
        parse_expression("_i_love_rust_69-_i_love_rust_42", &env).unwrap(),
        Type::Scalar(27)
    );
}

#[test]
fn test_expression_whitespaces() {
    let mut env = Environment::new();
    env.insert(Identifier::new("a".to_string()).unwrap(), Type::Scalar(2));
    assert_eq!(
        parse_expression("a + 1+2\t*a", &env).unwrap(),
        Type::Scalar(7)
    );
}

#[test]
fn test_expression_matrices() {
    let mut env = Environment::new();
    let a = im(vec![vec![1, 2, 3], vec![4, 5, 6]]);
    let b = im(vec![vec![1, 2], vec![3, 4], vec![5, 6]]);
    let i2 = im(vec![vec![1, 0], vec![0, 1]]);

    env.insert(
        Identifier::new("A".to_string()).unwrap(),
        Type::Matrix(a.clone()),
    );
    env.insert(
        Identifier::new("B".to_string()).unwrap(),
        Type::Matrix(b.clone()),
    );
    env.insert(
        Identifier::new("Id_2".to_string()).unwrap(),
        Type::Matrix(i2.clone()),
    );

    let test_expr = |raw, expected| {
        assert_eq!(parse_expression(raw, &env).unwrap(), Type::Matrix(expected))
    };

    test_expr("A+A", a.clone() + a.clone());
    test_expr("A*B", a.clone() * b.clone());
    test_expr("A*B*Id_2", a * b * i2.clone());
    test_expr("Id_2-Id_2", i2.clone() - i2);
}

#[test]
fn test_expression_matrices_scalar() {
    let mut env = Environment::new();
    let a = im(vec![vec![1, 2, 3], vec![4, 5, 6]]);
    let b = im(vec![vec![1, 2], vec![3, 4], vec![5, 6]]);
    let c = im(vec![vec![2, 3], vec![0, -1]]);
    let i2 = im(vec![vec![1, 0], vec![0, 1]]);

    env.insert(
        Identifier::new("A".to_string()).unwrap(),
        Type::Matrix(a.clone()),
    );
    env.insert(
        Identifier::new("B".to_string()).unwrap(),
        Type::Matrix(b.clone()),
    );
    env.insert(
        Identifier::new("C".to_string()).unwrap(),
        Type::Matrix(c.clone()),
    );
    env.insert(
        Identifier::new("Id_2".to_string()).unwrap(),
        Type::Matrix(i2.clone()),
    );
    env.insert(Identifier::new("a".to_string()).unwrap(), Type::Scalar(2));

    let test_expr = |raw, expected| {
        assert_eq!(parse_expression(raw, &env).unwrap(), Type::Matrix(expected))
    };

    test_expr("A+a*A", a.clone() + a.clone() * 2);
    test_expr("A*2*B", a.clone() * b.clone() * 2);
    test_expr("A*B*a*Id_2", a * b * i2.clone() * 2);
    test_expr("2*Id_2-Id_2", i2.clone() * 2 - i2.clone());
    test_expr("C^0", i2);
    test_expr("C^1", c.clone());
    test_expr("C^2", c.clone() * c);
}

#[test]
fn test_nested_multiplication() {
    let mut env = Environment::new();
    let fib = im(vec![vec![0, 1], vec![1, 1]]);

    env.insert(Identifier::new("A".to_string()).unwrap(), Type::Matrix(fib));

    let test_expr = |raw, expected| {
        assert_eq!(parse_expression(raw, &env).unwrap(), Type::Matrix(expected))
    };

    test_expr("A^10", im(vec![vec![34, 55], vec![55, 89]]));
    test_expr("A*A*A*A*A*A*A*A*A*A", im(vec![vec![34, 55], vec![55, 89]]));
    test_expr("A*A*A*A*(A*A*A)*A*A*A", im(vec![vec![34, 55], vec![55, 89]]));
    test_expr("A*A*A*A*(A*(A*A))*A*A*A", im(vec![vec![34, 55], vec![55, 89]]));
    test_expr("A*A*(A*A)*(A*(A*A))*A*A*A", im(vec![vec![34, 55], vec![55, 89]]));
}

#[test]
fn test_invalid_expressions() {
    let env = Environment::<i64>::new();

    let test_invalid_expr = |raw| assert!(matches!(parse_expression(raw, &env), Err(_)));

    test_invalid_expr("2**3");
    test_invalid_expr("2*(3*)5");
    test_invalid_expr("3*()4");
    test_invalid_expr("(2+(3-)3)");
    test_invalid_expr("()");
}

#[test]
fn test_assignments_fibonacci() {
    let mut env = Environment::<i64>::new();

    let mut exec = |raw| parse_instruction(raw, &mut env).unwrap();

    exec("a = 0");
    exec("b = 1");
    for _ in 0..10 {
        exec("c = a + b");
        exec("a = b");
        exec("b = c");
    }

    assert_eq!(
        *env.get_value(&Identifier::new("b".to_string()).unwrap()).unwrap(),
        Type::<i64>::Scalar(89)
    );
}

#[test]
fn test_expression_as_instruction() {
    let mut env = Environment::<i64>::new();

    let mut exec = |raw| parse_instruction(raw, &mut env).unwrap();

    exec("2 + 2");
    exec("a = $ ^ $");

    assert_eq!(
        *env.get_value(&Identifier::new("a".to_string()).unwrap()).unwrap(),
        Type::<i64>::Scalar(256)
    );
}

#[test]
fn the_same_expression_always_has_the_same_value() {
    let mut env = Environment::<Rational>::new();
    env.insert(name("x"), Type::Scalar(Rational::new(3, 7)));
    for raw in ["x*x-1/x", "(x+2)^3", "x/0", "x+", "2 3"] {
        let first = parse_expression(raw, &env);
        let second = parse_expression(raw, &env);
        assert_eq!(first, second);
    }
}

#[test]
fn each_kind_of_syntax_error() {
    let env = Environment::<i64>::new();
    let fails = |raw: &str| assert_eq!(parse_expression(raw, &env).unwrap_err(), Error::Syntax, "{}", raw);
    fails("");
    fails("   ");
    fails("2 3");
    fails("2+");
    fails("*2");
    fails("(2");
    fails("2)");
    fails(")");
    fails("((2)");
    fails("--2");
    fails("2 = 3");
    fails("= 3");
    fails("(2)(3)");
    fails("2(3)");
    fails("2+*3");
}

#[test]
fn lexical_errors() {
    let env = Environment::<i64>::new();
    let fails = |raw: &str| assert_eq!(parse_expression(raw, &env).unwrap_err(), Error::Lex, "{}", raw);
    fails("2 # 3");
    fails("99999999999999999999999");
    fails("18446744073709551616");
    fails("9223372036854775808");
    fails("2 + ?");
    let small = Environment::<i8>::new();
    assert_eq!(parse_expression("128", &small).unwrap_err(), Error::Lex);
    assert_eq!(parse_expression("127", &small).unwrap(), Type::Scalar(127));
}

#[test]
fn the_first_error_wins() {
    let env = Environment::<i64>::new();
    assert_eq!(parse_expression("a + #", &env).unwrap_err(), Error::UndefinedIdentifier);
    assert_eq!(parse_expression("# + a", &env).unwrap_err(), Error::Lex);
    assert_eq!(parse_expression("2 2 + a", &env).unwrap_err(), Error::Syntax);
    assert_eq!(parse_expression("1/0 +", &env).unwrap_err(), Error::ArithmeticFailure);
    assert_eq!(parse_expression("(1/0", &env).unwrap_err(), Error::Syntax);
}

#[test]
fn undefined_identifiers() {
    let mut env = Environment::<i64>::new();
    assert_eq!(parse_expression("a", &env).unwrap_err(), Error::UndefinedIdentifier);
    assert_eq!(parse_expression("$", &env).unwrap_err(), Error::UndefinedIdentifier);
    env.insert(name("a"), Type::Scalar(1));
    assert_eq!(parse_expression("a", &env).unwrap(), Type::Scalar(1));
    assert_eq!(parse_expression("ab", &env).unwrap_err(), Error::UndefinedIdentifier);
}

#[test]
fn operators_on_mixed_operands() {
    let mut env = Environment::<i64>::new();
    env.insert(name("A"), Type::Matrix(im(vec![vec![1, 2], vec![3, 4]])));
    env.insert(name("R"), Type::Matrix(im(vec![vec![1, 2, 3]])));
    let error = |raw: &str| parse_expression(raw, &env).unwrap_err();
    assert_eq!(error("A + 1"), Error::TypeMismatch);
    assert_eq!(error("1 + A"), Error::TypeMismatch);
    assert_eq!(error("A - 1"), Error::TypeMismatch);
    assert_eq!(error("1 - A"), Error::TypeMismatch);
    assert_eq!(error("A / A"), Error::TypeMismatch);
    assert_eq!(error("A / 2"), Error::TypeMismatch);
    assert_eq!(error("2 / A"), Error::TypeMismatch);
    assert_eq!(error("2 ^ A"), Error::TypeMismatch);
    assert_eq!(error("A ^ A"), Error::TypeMismatch);
    assert_eq!(error("A + R"), Error::ShapeMismatch);
    assert_eq!(error("A * R"), Error::ShapeMismatch);
    assert_eq!(error("R ^ 2"), Error::NonSquare);
    assert_eq!(error("2 ^ (0 - 1)"), Error::ArithmeticFailure);
    assert_eq!(error("1 / 0"), Error::ArithmeticFailure);
    assert_eq!(error("9223372036854775807 + 1"), Error::ArithmeticFailure);
    assert_eq!(error("3 ^ 64"), Error::ArithmeticFailure);
    assert_eq!(
        parse_expression("2 * A", &env).unwrap(),
        Type::Matrix(im(vec![vec![2, 4], vec![6, 8]]))
    );
    assert_eq!(
        parse_expression("A * 2", &env).unwrap(),
        Type::Matrix(im(vec![vec![2, 4], vec![6, 8]]))
    );
}

#[test]
fn operators_of_one_level_group_from_the_left() {
    let env = Environment::<i64>::new();
    let value = |raw: &str| parse_expression(raw, &env).unwrap();
    assert_eq!(value("2+2*2"), Type::Scalar(6));
    assert_eq!(value("10-4-3"), Type::Scalar(3));
    assert_eq!(value("100/10/5"), Type::Scalar(2));
    assert_eq!(value("2^3^2"), Type::Scalar(64));
    assert_eq!(value("2^(3^2)"), Type::Scalar(512));
    assert_eq!(value("(2^3)^2"), Type::Scalar(64));
    assert_eq!(value("2*3^2"), Type::Scalar(18));
    assert_eq!(value("2^10"), Type::Scalar(1024));
}

#[test]
fn unary_signs_bind_tighter_than_any_binary_operator() {
    let env = Environment::<i64>::new();
    let value = |raw: &str| parse_expression(raw, &env).unwrap();
    assert_eq!(value("-2^2"), Type::Scalar(4));
    assert_eq!(value("-(2^2)"), Type::Scalar(-4));
    assert_eq!(value("2^-(0-2)"), Type::Scalar(4));
    assert_eq!(value("-(2+3)*2"), Type::Scalar(-10));
    assert_eq!(value("2--2"), Type::Scalar(4));
    assert_eq!(value("(-(-(2)))"), Type::Scalar(2));
}

#[test]
fn expressions_do_not_change_the_environment() {
    let mut env = Environment::<i64>::new();
    env.insert(name("a"), Type::Scalar(1));
    parse_expression("a + 41", &env).unwrap();
    assert_eq!(env.len(), 1);
    assert_eq!(env.get_value(&name("a")), Some(&Type::Scalar(1)));
}

#[test]
fn instructions_bind_names() {
    let mut env = Environment::<i64>::new();
    assert_eq!(parse_instruction("x = 2 * 21", &mut env).unwrap(), name("x"));
    assert_eq!(env.get_value(&name("x")), Some(&Type::Scalar(42)));
    let result = parse_instruction("x + 1", &mut env).unwrap();
    assert!(result.is_result());
    assert_eq!(env.get_value(&Identifier::result()), Some(&Type::Scalar(43)));
    assert_eq!(parse_instruction("$ = 5", &mut env).unwrap(), Identifier::result());
    assert_eq!(env.get_value(&Identifier::result()), Some(&Type::Scalar(5)));
}

#[test]
fn failed_instructions_leave_the_environment_alone() {
    let mut env = Environment::<i64>::new();
    env.insert(name("x"), Type::Scalar(1));
    assert_eq!(parse_instruction("x = y", &mut env).unwrap_err(), Error::UndefinedIdentifier);
    assert_eq!(parse_instruction("x = ", &mut env).unwrap_err(), Error::Syntax);
    assert_eq!(parse_instruction("x x", &mut env).unwrap_err(), Error::Syntax);
    assert_eq!(parse_instruction("2 = 3", &mut env).unwrap_err(), Error::Syntax);
    assert_eq!(parse_instruction("", &mut env).unwrap_err(), Error::Syntax);
    assert_eq!(parse_instruction("#", &mut env).unwrap_err(), Error::Lex);
    assert_eq!(parse_instruction("x #", &mut env).unwrap_err(), Error::Lex);
    assert_eq!(parse_instruction("x = 1/0", &mut env).unwrap_err(), Error::ArithmeticFailure);
    assert_eq!(env.len(), 1);
    assert_eq!(env.get_value(&name("x")), Some(&Type::Scalar(1)));
}

#[test]
fn tokens_one_by_one() {
    let mut tokenizer = Tokenizer::new("  foo_1=(12+ $)*ąę^7/ x-y");
    let mut tokens = Vec::new();
    while let Some(token) = tokenizer.next_token().unwrap() {
        tokens.push(token);
    }
    assert_eq!(
        tokens,
        vec![
            Token::Identifier(name("foo_1")),
            Token::Operator('='),
            Token::LeftBracket,
            Token::Integer(12),
            Token::Operator('+'),
            Token::Identifier(Identifier::result()),
            Token::RightBracket,
            Token::Operator('*'),
            Token::Identifier(name("ąę")),
            Token::Operator('^'),
            Token::Integer(7),
            Token::Operator('/'),
            Token::Identifier(name("x")),
            Token::Operator('-'),
            Token::Identifier(name("y")),
        ]
    );
    assert_eq!(tokenizer.next_token().unwrap(), None);
}

#[test]
fn tokens_at_the_limits() {
    let mut tokenizer = Tokenizer::new("18446744073709551615 007 12ab");
    assert_eq!(tokenizer.next_token().unwrap(), Some(Token::Integer(u64::MAX)));
    assert_eq!(tokenizer.next_token().unwrap(), Some(Token::Integer(7)));
    assert_eq!(tokenizer.next_token().unwrap(), Some(Token::Integer(12)));
    assert_eq!(tokenizer.next_token().unwrap(), Some(Token::Identifier(name("ab"))));
    assert_eq!(tokenizer.next_token().unwrap(), None);
    assert_eq!(Tokenizer::new("18446744073709551616").next_token().unwrap_err(), Error::Lex);
    assert_eq!(Tokenizer::new("@").next_token().unwrap_err(), Error::Lex);
    assert_eq!(Tokenizer::new(" \t\n ").next_token().unwrap(), None);
}

#[test]
fn operators_on_values() {
    let two = Type::<i64>::Scalar(2);
    let three = Type::<i64>::Scalar(3);
    assert_eq!(binary_op(two.clone(), three.clone(), '+').unwrap(), Type::Scalar(5));
    assert_eq!(binary_op(two.clone(), three.clone(), '-').unwrap(), Type::Scalar(-1));
    assert_eq!(binary_op(two.clone(), three.clone(), '*').unwrap(), Type::Scalar(6));
    assert_eq!(binary_op(three.clone(), two.clone(), '/').unwrap(), Type::Scalar(1));
    assert_eq!(binary_op(two.clone(), three.clone(), '^').unwrap(), Type::Scalar(8));
    assert_eq!(binary_op(two.clone(), three.clone(), '=').unwrap_err(), Error::Syntax);
    assert_eq!(unary_op(two.clone(), '-').unwrap(), Type::Scalar(-2));
    assert_eq!(unary_op(two.clone(), '+').unwrap(), Type::Scalar(2));
    assert_eq!(unary_op(two, '*').unwrap_err(), Error::Syntax);
    assert_eq!(
        unary_op(Type::<i64>::Scalar(i64::MIN), '-').unwrap_err(),
        Error::ArithmeticFailure
    );
}

#[test]
fn fractions_as_exponents_are_rounded_towards_zero() {
    let env = Environment::<Rational>::new();
    assert_eq!(
        parse_expression("2^(5/2)", &env).unwrap(),
        Type::Scalar(Rational::from_integer(4))
    );
    assert_eq!(
        parse_expression("2^(0-3/2)", &env).unwrap_err(),
        Error::ArithmeticFailure
    );
}

#[test]
fn whitespace_of_every_kind_separates_tokens() {
    let env = Environment::<i64>::new();
    assert_eq!(
        parse_expression("\u{a0}1\u{2003}+\n2\r\n*\t3 ", &env).unwrap(),
        Type::Scalar(7)
    );
    assert_eq!(parse_expression("1_000", &env).unwrap_err(), Error::Syntax);
    assert_eq!(parse_expression("x²", &env).unwrap_err(), Error::UndefinedIdentifier);
    assert_eq!(parse_expression("2 § 3", &env).unwrap_err(), Error::Lex);
    let mut named = Environment::<i64>::new();
    named.insert(name("żółw_2"), Type::Scalar(5));
    named.insert(name("Ünïcödé"), Type::Scalar(6));
    assert_eq!(parse_expression("żółw_2*Ünïcödé", &named).unwrap(), Type::Scalar(30));
}
