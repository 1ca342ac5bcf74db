use yoba::{parse_program, BigInt, Expected, Expression, Statement, SyntaxError};

fn b(s: &str) -> Vec<u8> {
    s.as_bytes().to_vec()
}

const FIBONACCI: &str = "чо люблю сэмки йоба
чо люблю пиво йоба
чо люблю яга йоба
чо люблю итерации йоба
чо пиво это 1 йоба
чо яга это 2 йоба

чо усеки результат это
чо покажь итерации йоба
чо покажь сэмки йоба
йоба

чо усеки фибоначчи это
чо сэмки это пиво и яга йоба
чо пиво это яга йоба
чо яга это сэмки йоба
чо итерации это итерации и 1 йоба
чо есть итерации 50 тада хуйни результат или хуйни фибоначчи йоба
йоба

чо хуйни фибоначчи йоба";

#[test]
fn test_simple_program_parser() {
    assert_eq!(
        parse_program(
            "чо есть 12 кококо тада есть семки 8 тада иди нахуй или покажь семки или усеки сиськи это чо иди нахуй йоба йоба"
                .as_bytes()
        ),
        Ok(vec![Statement::Condition(
            b("кококо"),
            BigInt::from_u64(12),
            Box::new(Statement::Condition(
                b("семки"),
                BigInt::from_u64(8),
                Box::new(Statement::Noop),
                Box::new(Statement::Print(b("семки")))
            )),
            Box::new(Statement::Function(b("сиськи"), vec![Statement::Noop]))
        )])
    );
}

#[test]
fn test_fibonacci_parser() {
    assert_eq!(
        parse_program(FIBONACCI.as_bytes()),
        Ok(vec![
            Statement::Define(b("сэмки")),
            Statement::Define(b("пиво")),
            Statement::Define(b("яга")),
            Statement::Define(b("итерации")),
            Statement::Assign(b("пиво"), Expression::Integer(BigInt::from_u64(1))),
            Statement::Assign(b("яга"), Expression::Integer(BigInt::from_u64(2))),
            Statement::Function(
                b("результат"),
                vec![
                    Statement::Print(b("итерации")),
                    Statement::Print(b("сэмки")),
                ]
            ),
            Statement::Function(
                b("фибоначчи"),
                vec![
                    Statement::Assign(
                        b("сэмки"),
                        Expression::Add(
                            Box::new(Expression::Literal(b("пиво"))),
                            Box::new(Expression::Literal(b("яга"))),
                        )
                    ),
                    Statement::Assign(b("пиво"), Expression::Literal(b("яга"))),
                    Statement::Assign(b("яга"), Expression::Literal(b("сэмки"))),
                    Statement::Assign(
                        b("итерации"),
                        Expression::Add(
                            Box::new(Expression::Literal(b("итерации"))),
                            Box::new(Expression::Integer(BigInt::from_u64(1))),
                        )
                    ),
                    Statement::Condition(
                        b("итерации"),
                        BigInt::from_u64(50),
                        Box::new(Statement::Call(b("результат"))),
                        Box::new(Statement::Call(b("фибоначчи")))
                    )
                ]
            ),
            Statement::Call(b("фибоначчи")),
        ])
    );
}

#[test]
fn parse_is_pure_round_trip() {
    let first = parse_program(FIBONACCI.as_bytes());
    let second = parse_program(FIBONACCI.as_bytes());
    assert!(first.is_ok());
    assert_eq!(first, second);
}

#[test]
fn parse_pair_orders_normalize() {
    // The integer and the identifier may come in either order; both
    // normalize to the same statement.
    let int_first = parse_program("чо накинь 5 хомяк йоба".as_bytes());
    let ident_first = parse_program("чо накинь хомяк 5 йоба".as_bytes());
    assert_eq!(int_first, ident_first);
    assert_eq!(
        int_first,
        Ok(vec![Statement::ModAssign(
            b("хомяк"),
            Expression::Integer(BigInt::from_u64(5))
        )])
    );
}

#[test]
fn parse_take_negates() {
    assert_eq!(
        parse_program("чо отсыпь хомяк 3 йоба".as_bytes()),
        Ok(vec![Statement::ModAssign(
            b("хомяк"),
            Expression::Integer(BigInt::from_u64(3).negated())
        )])
    );
}

#[test]
fn parse_stats_and_noop() {
    assert_eq!(
        parse_program("чо чокаво йоба чо иди нахуй йоба".as_bytes()),
        Ok(vec![Statement::Stats, Statement::Noop])
    );
}

#[test]
fn parse_right_nested_arithmetic() {
    assert_eq!(
        parse_program("чо x это a без b и 1 йоба".as_bytes()),
        Ok(vec![Statement::Assign(
            b("x"),
            Expression::Sub(
                Box::new(Expression::Literal(b("a"))),
                Box::new(Expression::Add(
                    Box::new(Expression::Literal(b("b"))),
                    Box::new(Expression::Integer(BigInt::from_u64(1))),
                )),
            )
        )])
    );
}

#[test]
fn parse_error_truncated_statement() {
    // The opening keyword is four bytes long; matching fails at the end of
    // the input.
    assert_eq!(
        parse_program("чо".as_bytes()),
        Err(SyntaxError { offset: 4, expected: Expected::Statement })
    );
}

#[test]
fn parse_error_stray_token() {
    assert_eq!(
        parse_program("лол".as_bytes()),
        Err(SyntaxError { offset: 0, expected: Expected::KeywordCho })
    );
}

#[test]
fn parse_error_missing_closer() {
    let r = parse_program("чо люблю хомяк".as_bytes());
    assert_eq!(
        r,
        Err(SyntaxError { offset: 26, expected: Expected::KeywordYoba })
    );
}
