use letlang::fault::RuntimeFault;
use letlang::fib::fib_test;
use letlang::heap_value::HeapValue;
use letlang::ir_let::compiler::let_normalize;
use letlang::ir_let::interpreter::simple_eval::ProgramEvaluator;
use letlang::syntax::{BinOp, Constant, Expr};

fn lit(value: i32) -> Expr {
    Expr::Literal(Constant::Int { value })
}

fn var(name: &str) -> Expr {
    Expr::Var { var_name: name.to_owned() }
}

fn binop(op: BinOp, lhs: Expr, rhs: Expr) -> Expr {
    Expr::BinOp { op, lhs: Box::new(lhs), rhs: Box::new(rhs) }
}

fn let_in(name: &str, definition: Expr, body: Expr) -> Expr {
    Expr::Let { name: name.to_owned(), definition: Box::new(definition), body: Box::new(body) }
}

fn run_to_end(e: &Expr) -> (Result<Option<HeapValue>, RuntimeFault>, usize) {
    let program = let_normalize(e).expect("the expression is closed");
    let mut evaluator = ProgramEvaluator::new(program);
    let outcome = evaluator.run(1_000_000);
    let live = evaluator.heap().len();
    (outcome, live)
}

#[test]
fn literal_evaluates_to_itself_and_leaves_the_heap_empty() {
    let (outcome, live) = run_to_end(&lit(42));
    assert_eq!(outcome, Ok(Some(HeapValue::Int(42))));
    assert_eq!(live, 0);
}

#[test]
fn addition_of_two_literals() {
    let (outcome, live) = run_to_end(&binop(BinOp::Add, lit(2), lit(3)));
    assert_eq!(outcome, Ok(Some(HeapValue::Int(5))));
    assert_eq!(live, 0);
}

#[test]
fn conditional_takes_the_branch_that_the_condition_selects() {
    let pick = |left: i32, right: i32| Expr::If {
        condition: Box::new(binop(BinOp::Eq, lit(left), lit(right))),
        branch_success: Box::new(lit(10)),
        branch_failure: Box::new(lit(20)),
    };
    let (outcome, live) = run_to_end(&pick(1, 1));
    assert_eq!(outcome, Ok(Some(HeapValue::Int(10))));
    assert_eq!(live, 0);
    let (outcome, live) = run_to_end(&pick(1, 2));
    assert_eq!(outcome, Ok(Some(HeapValue::Int(20))));
    assert_eq!(live, 0);
}

#[test]
fn tuple_field_is_written_and_read_back() {
    let e = let_in(
        "t",
        Expr::Tuple { values: vec![lit(1), lit(2), lit(3)] },
        let_in(
            "ignored",
            Expr::SetField {
                tuple: Box::new(var("t")),
                index: 1,
                new_expr: Box::new(binop(
                    BinOp::Add,
                    binop(BinOp::Get, var("t"), lit(0)),
                    binop(BinOp::Get, var("t"), lit(2)),
                )),
            },
            binop(BinOp::Get, var("t"), lit(1)),
        ),
    );
    let (outcome, live) = run_to_end(&e);
    assert_eq!(outcome, Ok(Some(HeapValue::Int(4))));
    assert_eq!(live, 0);
}

#[test]
fn fibonacci_of_ten_by_the_tail_recursive_helper() {
    let (outcome, live) = run_to_end(&fib_test(10));
    assert_eq!(outcome, Ok(Some(HeapValue::Int(55))));
    assert_eq!(live, 0);
}

#[test]
fn closure_captures_the_variable_it_reads() {
    let e = let_in(
        "x",
        lit(7),
        let_in(
            "f",
            Expr::Fun {
                name: "f".to_owned(),
                arg_names: vec!["y".to_owned()],
                body: Box::new(binop(BinOp::Add, var("x"), var("y"))),
            },
            Expr::Call { func: Box::new(var("f")), args: vec![lit(35)] },
        ),
    );
    let program = let_normalize(&e).expect("the expression is closed");
    assert_eq!(program.functions.len(), 2);
    assert_eq!(program.functions[1].free_names, Some(vec!["x__0".to_owned()]));
    let (outcome, live) = run_to_end(&e);
    assert_eq!(outcome, Ok(Some(HeapValue::Int(42))));
    assert_eq!(live, 0);
}
