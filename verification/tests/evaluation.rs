use chibi::{eval, EvalError, Expr};

fn num(v: i64) -> Box<Expr> {
    Box::new(Expr::Num(v))
}

fn run(e: &Expr) -> (Result<i64, EvalError>, Vec<i64>) {
    let mut out = Vec::new();
    let r = eval(e, &mut out);
    (r, out)
}

#[test]
fn a_number_is_its_value() {
    assert_eq!(run(&Expr::Num(5)), (Ok(5), vec![]));
    assert_eq!(run(&Expr::Num(i64::MIN)), (Ok(i64::MIN), vec![]));
}

#[test]
fn the_four_operations() {
    assert_eq!(run(&Expr::Add(num(2), num(3))), (Ok(5), vec![]));
    assert_eq!(run(&Expr::Sub(num(2), num(3))), (Ok(-1), vec![]));
    assert_eq!(run(&Expr::Mul(num(-4), num(3))), (Ok(-12), vec![]));
    assert_eq!(run(&Expr::Div(num(12), num(4))), (Ok(3), vec![]));
}

#[test]
fn division_rounds_toward_zero() {
    assert_eq!(run(&Expr::Div(num(7), num(2))), (Ok(3), vec![]));
    assert_eq!(run(&Expr::Div(num(-7), num(2))), (Ok(-3), vec![]));
    assert_eq!(run(&Expr::Div(num(7), num(-2))), (Ok(-3), vec![]));
    assert_eq!(run(&Expr::Div(num(-7), num(-2))), (Ok(3), vec![]));
    assert_eq!(run(&Expr::Div(num(0), num(-2))), (Ok(0), vec![]));
    assert_eq!(run(&Expr::Div(num(1), num(2))), (Ok(0), vec![]));
    assert_eq!(run(&Expr::Div(num(-1), num(2))), (Ok(0), vec![]));
    assert_eq!(run(&Expr::Div(num(i64::MIN), num(1))), (Ok(i64::MIN), vec![]));
    assert_eq!(run(&Expr::Div(num(i64::MIN), num(i64::MAX))), (Ok(-1), vec![]));
}

#[test]
fn division_by_zero() {
    assert_eq!(run(&Expr::Div(num(1), num(0))), (Err(EvalError::DivisionByZero), vec![]));
    assert_eq!(run(&Expr::Div(num(0), num(0))), (Err(EvalError::DivisionByZero), vec![]));
    let zero = Expr::Sub(num(2), num(2));
    assert_eq!(
        run(&Expr::Div(num(5), Box::new(zero))),
        (Err(EvalError::DivisionByZero), vec![])
    );
}

#[test]
fn results_out_of_range() {
    assert_eq!(run(&Expr::Add(num(i64::MAX), num(1))), (Err(EvalError::Overflow), vec![]));
    assert_eq!(run(&Expr::Sub(num(i64::MIN), num(1))), (Err(EvalError::Overflow), vec![]));
    assert_eq!(run(&Expr::Mul(num(i64::MAX), num(2))), (Err(EvalError::Overflow), vec![]));
    assert_eq!(run(&Expr::Mul(num(i64::MIN), num(-1))), (Err(EvalError::Overflow), vec![]));
    assert_eq!(run(&Expr::Div(num(i64::MIN), num(-1))), (Err(EvalError::Overflow), vec![]));
    assert_eq!(run(&Expr::Sub(num(0), num(i64::MIN))), (Err(EvalError::Overflow), vec![]));
}

#[test]
fn results_at_the_edge_of_the_range() {
    assert_eq!(run(&Expr::Add(num(i64::MAX - 1), num(1))), (Ok(i64::MAX), vec![]));
    assert_eq!(run(&Expr::Sub(num(i64::MIN + 1), num(1))), (Ok(i64::MIN), vec![]));
    assert_eq!(run(&Expr::Sub(num(-1), num(i64::MAX))), (Ok(i64::MIN), vec![]));
    assert_eq!(run(&Expr::Mul(num(i64::MIN), num(1))), (Ok(i64::MIN), vec![]));
}

#[test]
fn an_overflow_on_the_way_is_an_error_though_the_end_would_fit() {
    let e = Expr::Sub(Box::new(Expr::Add(num(i64::MAX), num(1))), num(1));
    assert_eq!(run(&e), (Err(EvalError::Overflow), vec![]));
}

#[test]
fn the_left_operand_fails_first() {
    let overflow = Expr::Add(num(i64::MAX), num(1));
    let by_zero = Expr::Div(num(1), num(0));
    assert_eq!(
        run(&Expr::Add(Box::new(overflow.clone()), Box::new(by_zero.clone()))),
        (Err(EvalError::Overflow), vec![])
    );
    assert_eq!(
        run(&Expr::Add(Box::new(by_zero.clone()), Box::new(overflow.clone()))),
        (Err(EvalError::DivisionByZero), vec![])
    );
    assert_eq!(
        run(&Expr::Div(Box::new(overflow), num(0))),
        (Err(EvalError::Overflow), vec![])
    );
    assert_eq!(
        run(&Expr::Div(num(1), Box::new(by_zero))),
        (Err(EvalError::DivisionByZero), vec![])
    );
}

#[test]
fn print_hands_its_value_on() {
    let e = Expr::Mul(Box::new(Expr::Print(Box::new(Expr::Add(num(2), num(3))))), num(4));
    assert_eq!(run(&e), (Ok(20), vec![5]));
    assert_eq!(run(&Expr::Print(num(-9))), (Ok(-9), vec![-9]));
}

#[test]
fn reports_come_left_to_right_and_inside_out() {
    let e = Expr::Add(Box::new(Expr::Print(num(1))), Box::new(Expr::Print(num(2))));
    assert_eq!(run(&e), (Ok(3), vec![1, 2]));
    let inner = Expr::Add(Box::new(Expr::Print(num(1))), num(1));
    let e = Expr::Print(Box::new(Expr::Mul(
        Box::new(Expr::Print(Box::new(inner))),
        Box::new(Expr::Print(num(10))),
    )));
    assert_eq!(run(&e), (Ok(20), vec![1, 2, 10, 20]));
}

#[test]
fn what_was_reported_before_an_error_stays() {
    let e = Expr::Add(Box::new(Expr::Print(num(1))), Box::new(Expr::Div(num(1), num(0))));
    assert_eq!(run(&e), (Err(EvalError::DivisionByZero), vec![1]));
    let e = Expr::Add(Box::new(Expr::Div(num(1), num(0))), Box::new(Expr::Print(num(1))));
    assert_eq!(run(&e), (Err(EvalError::DivisionByZero), vec![]));
    let e = Expr::Print(Box::new(Expr::Div(Box::new(Expr::Print(num(3))), num(0))));
    assert_eq!(run(&e), (Err(EvalError::DivisionByZero), vec![3]));
    let e = Expr::Div(Box::new(Expr::Print(num(3))), Box::new(Expr::Print(num(0))));
    assert_eq!(run(&e), (Err(EvalError::DivisionByZero), vec![3, 0]));
}

#[test]
fn reports_are_added_to_what_is_there() {
    let mut out = vec![100, 200];
    let e = Expr::Print(num(7));
    assert_eq!(eval(&e, &mut out), Ok(7));
    assert_eq!(out, vec![100, 200, 7]);
    assert_eq!(eval(&e, &mut out), Ok(7));
    assert_eq!(out, vec![100, 200, 7, 7]);
}

#[test]
fn print_changes_no_value() {
    let plain = Expr::Sub(Box::new(Expr::Mul(num(6), num(7))), num(2));
    let wrapped = Expr::Print(Box::new(plain.clone()));
    let (value, reports) = run(&plain);
    assert_eq!(run(&wrapped), (value, {
        let mut all = reports;
        all.push(40);
        all
    }));
}
