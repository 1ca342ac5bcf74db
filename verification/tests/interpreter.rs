use yoba::{parse_program, BigInt, EvalError, Expression, State, Statement};

fn b(s: &str) -> Vec<u8> {
    s.as_bytes().to_vec()
}

const FIBONACCI: &str = "чо люблю сэмки йоба
чо люблю пиво йоба
чо люблю яга йоба
чо люблю итерации йоба
чо пиво это 1 йоба
чо яга это 2 йоба

чо усеки результат это
чо покажь итерации йоба
чо покажь сэмки йоба
йоба

чо усеки фибоначчи это
чо сэмки это пиво и яга йоба
чо пиво это яга йоба
чо яга это сэмки йоба
чо итерации это итерации и 1 йоба
чо есть итерации 50 тада хуйни результат или хуйни фибоначчи йоба
йоба

чо хуйни фибоначчи йоба";

fn run_src(src: &str) -> (State, Result<(), EvalError>) {
    let program = parse_program(src.as_bytes()).unwrap();
    let mut state = State::new();
    let r = state.eval(&program[..]);
    (state, r)
}

#[test]
fn test_fibonacci_program() {
    let program = parse_program(FIBONACCI.as_bytes()).unwrap();
    let mut state = State::new();
    state.eval(&program[..]).unwrap();
    assert_eq!(&state.out[..], "итерации: 50\nсэмки: 53316291173\n".as_bytes());
}

#[test]
fn fibonacci_final_state() {
    // After the run the iteration counter holds 50 and the accumulator
    // holds 53316291173.
    let program = parse_program(FIBONACCI.as_bytes()).unwrap();
    let mut state = State::new();
    state.eval(&program[..]).unwrap();
    let lookup = |name: &str| {
        state
            .variables
            .iter()
            .find(|p| p.0 == name.as_bytes())
            .map(|p| p.1.to_decimal())
    };
    assert_eq!(lookup("итерации"), Some(b("50")));
    assert_eq!(lookup("сэмки"), Some(b("53316291173")));
}

#[test]
fn print_undefined_fails() {
    let program = vec![Statement::Print(b("нету"))];
    let mut state = State::new();
    assert_eq!(
        state.eval(&program[..]),
        Err(EvalError::UndefinedVariable(b("нету")))
    );
}

#[test]
fn assign_undefined_fails() {
    let program = vec![Statement::Assign(
        b("нету"),
        Expression::Integer(BigInt::from_u64(1)),
    )];
    let mut state = State::new();
    assert_eq!(
        state.eval(&program[..]),
        Err(EvalError::UndefinedVariable(b("нету")))
    );
}

#[test]
fn mod_assign_undefined_fails() {
    let program = vec![Statement::ModAssign(
        b("нету"),
        Expression::Integer(BigInt::from_u64(1)),
    )];
    let mut state = State::new();
    assert_eq!(
        state.eval(&program[..]),
        Err(EvalError::UndefinedVariable(b("нету")))
    );
}

#[test]
fn condition_undefined_fails() {
    let program = vec![Statement::Condition(
        b("нету"),
        BigInt::from_u64(0),
        Box::new(Statement::Noop),
        Box::new(Statement::Noop),
    )];
    let mut state = State::new();
    assert_eq!(
        state.eval(&program[..]),
        Err(EvalError::UndefinedVariable(b("нету")))
    );
}

#[test]
fn expression_undefined_names_the_reference() {
    // The error carries the name missing from the expression, not the
    // assignment target.
    let program = vec![
        Statement::Define(b("цель")),
        Statement::Assign(b("цель"), Expression::Literal(b("нету"))),
    ];
    let mut state = State::new();
    assert_eq!(
        state.eval(&program[..]),
        Err(EvalError::UndefinedVariable(b("нету")))
    );
}

#[test]
fn duplicate_define_fails() {
    let program = vec![Statement::Define(b("раз")), Statement::Define(b("раз"))];
    let mut state = State::new();
    assert_eq!(
        state.eval(&program[..]),
        Err(EvalError::DuplicateVariableDefinition(b("раз")))
    );
}

#[test]
fn duplicate_function_fails() {
    let program = vec![
        Statement::Function(b("эф"), vec![Statement::Noop]),
        Statement::Function(b("эф"), vec![]),
    ];
    let mut state = State::new();
    assert_eq!(
        state.eval(&program[..]),
        Err(EvalError::DuplicateFunctionDefinition(b("эф")))
    );
}

#[test]
fn undefined_call_fails() {
    let program = vec![Statement::Call(b("же"))];
    let mut state = State::new();
    assert_eq!(
        state.eval(&program[..]),
        Err(EvalError::UndefinedFunctionCall(b("же")))
    );
}

#[test]
fn condition_boundary_is_inclusive() {
    // stored == threshold and stored > threshold take the first arm;
    // stored < threshold takes the second.
    let (state, r) = run_src(
        "чо люблю x йоба чо x это 5 йоба \
         чо есть x 5 тада покажь x или иди нахуй йоба \
         чо есть x 4 тада покажь x или иди нахуй йоба \
         чо есть x 6 тада покажь x или чокаво йоба",
    );
    r.unwrap();
    assert_eq!(&state.out[..], "x: 5\nx: 5\nx: 5".as_bytes());
}

#[test]
fn mod_assign_composes_beyond_machine_width() {
    // 2^64 plus one, minus three, exactly: no fixed-width overflow.
    let program = vec![
        Statement::Define(b("x")),
        Statement::ModAssign(
            b("x"),
            Expression::Integer(BigInt::from_decimal(&b("18446744073709551616"))),
        ),
        Statement::ModAssign(b("x"), Expression::Integer(BigInt::from_u64(1))),
        Statement::ModAssign(b("x"), Expression::Integer(BigInt::from_u64(3).negated())),
        Statement::Print(b("x")),
    ];
    let mut state = State::new();
    state.eval(&program[..]).unwrap();
    assert_eq!(&state.out[..], "x: 18446744073709551614\n".as_bytes());
}

#[test]
fn negative_delta_decrements() {
    let (state, r) = run_src("чо люблю x йоба чо накинь x 10 йоба чо отсыпь x 4 йоба чо покажь x йоба");
    r.unwrap();
    assert_eq!(&state.out[..], "x: 6\n".as_bytes());
}

#[test]
fn subtraction_chain_is_right_nested() {
    // a - (b + 1), never (a - b) + 1.
    let (state, r) = run_src(
        "чо люблю x йоба чо люблю a йоба чо люблю b йоба \
         чо a это 10 йоба чо b это 2 йоба \
         чо x это a без b и 1 йоба чо покажь x йоба",
    );
    r.unwrap();
    assert_eq!(&state.out[..], "x: 7\n".as_bytes());
}

#[test]
fn expression_association_add_sub() {
    // a + (b - 1) over constructed syntax.
    let program = vec![
        Statement::Define(b("a")),
        Statement::Define(b("b")),
        Statement::Define(b("x")),
        Statement::Assign(b("a"), Expression::Integer(BigInt::from_u64(10))),
        Statement::Assign(b("b"), Expression::Integer(BigInt::from_u64(7))),
        Statement::Assign(
            b("x"),
            Expression::Add(
                Box::new(Expression::Literal(b("a"))),
                Box::new(Expression::Sub(
                    Box::new(Expression::Literal(b("b"))),
                    Box::new(Expression::Integer(BigInt::from_u64(1))),
                )),
            ),
        ),
        Statement::Print(b("x")),
    ];
    let mut state = State::new();
    state.eval(&program[..]).unwrap();
    assert_eq!(&state.out[..], "x: 16\n".as_bytes());
}

#[test]
fn stats_dumps_without_separators() {
    let (state, r) = run_src(
        "чо люблю a йоба чо люблю b йоба чо a это 1 йоба чо b это 2 йоба чо чокаво йоба",
    );
    r.unwrap();
    assert_eq!(&state.out[..], "a: 1b: 2".as_bytes());
}

#[test]
fn output_survives_failure() {
    // Fail-fast: output written before the failing statement remains.
    let (state, r) = run_src("чо люблю a йоба чо a это 3 йоба чо покажь a йоба чо покажь z йоба");
    assert_eq!(r, Err(EvalError::UndefinedVariable(b("z"))));
    assert_eq!(&state.out[..], "a: 3\n".as_bytes());
}

#[test]
fn new_with_out_appends() {
    let program = parse_program("чо люблю a йоба чо покажь a йоба".as_bytes()).unwrap();
    let mut state = State::new_with_out(b("пролог "));
    state.eval(&program[..]).unwrap();
    assert_eq!(&state.out[..], "пролог a: 0\n".as_bytes());
}

#[test]
fn define_initializes_to_zero() {
    let (state, r) = run_src("чо люблю ноль йоба чо покажь ноль йоба");
    r.unwrap();
    assert_eq!(&state.out[..], "ноль: 0\n".as_bytes());
}

#[test]
fn forward_reference_call() {
    // Function lookup is late-bound: a body declared after another may still
    // be called from it at call time.
    let (state, r) = run_src(
        "чо люблю x йоба \
         чо усеки первая это чо хуйни вторая йоба йоба \
         чо усеки вторая это чо накинь x 2 йоба чо покажь x йоба йоба \
         чо хуйни первая йоба",
    );
    r.unwrap();
    assert_eq!(&state.out[..], "x: 2\n".as_bytes());
}

#[test]
fn bigint_decimal_round_trip() {
    let v = BigInt::from_decimal(&b("987654321098765432109876543210"));
    assert_eq!(v.to_decimal(), b("987654321098765432109876543210"));
    let z = BigInt::zero();
    assert_eq!(z.to_decimal(), b("0"));
    let n = BigInt::from_u64(15).negated();
    assert_eq!(n.to_decimal(), b("-15"));
}

#[test]
fn bigint_arithmetic_and_order() {
    let a = BigInt::from_decimal(&b("99999999999999999999"));
    let one = BigInt::from_u64(1);
    assert_eq!(a.add(&one).to_decimal(), b("100000000000000000000"));
    assert_eq!(a.sub(&a).to_decimal(), b("0"));
    assert!(a.ge(&one));
    assert!(!one.ge(&a));
    assert!(a.ge(&a.dup()));
    let neg = a.negated();
    assert!(one.ge(&neg));
    assert_eq!(neg.add(&a).to_decimal(), b("0"));
}
