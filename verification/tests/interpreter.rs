use letlang::fault::{BuildError, RuntimeFault};
use letlang::heap_value::{HeapAddress, HeapValue};
use letlang::ir_let::compiler::let_normalize;
use letlang::ir_let::interpreter::simple_eval::ProgramEvaluator;
use letlang::syntax::{BinOp, Constant, Expr};

fn num(value: i32) -> Expr {
    Expr::Literal(Constant::Int { value })
}

fn truth(value: bool) -> Expr {
    Expr::Literal(Constant::Bool { value })
}

fn name(text: &str) -> Expr {
    Expr::Var { var_name: text.to_owned() }
}

fn op(op: BinOp, lhs: Expr, rhs: Expr) -> Expr {
    Expr::BinOp { op, lhs: Box::new(lhs), rhs: Box::new(rhs) }
}

fn bind(text: &str, definition: Expr, body: Expr) -> Expr {
    Expr::Let { name: text.to_owned(), definition: Box::new(definition), body: Box::new(body) }
}

fn tuple(values: Vec<Expr>) -> Expr {
    Expr::Tuple { values }
}

fn function(text: &str, params: &[&str], body: Expr) -> Expr {
    Expr::Fun {
        name: text.to_owned(),
        arg_names: params.iter().map(|p| (*p).to_owned()).collect(),
        body: Box::new(body),
    }
}

fn call(func: Expr, args: Vec<Expr>) -> Expr {
    Expr::Call { func: Box::new(func), args }
}

fn set_field(tuple: Expr, index: u32, new_expr: Expr) -> Expr {
    Expr::SetField { tuple: Box::new(tuple), index, new_expr: Box::new(new_expr) }
}

fn evaluate(e: &Expr) -> (Result<Option<HeapValue>, RuntimeFault>, usize) {
    let program = let_normalize(e).expect("the expression is closed");
    let mut evaluator = ProgramEvaluator::new(program);
    let outcome = evaluator.run(100_000);
    let live = evaluator.heap().len();
    (outcome, live)
}

#[test]
fn get_at_the_length_of_the_tuple_is_a_fault() {
    let e = bind("t", tuple(vec![num(1), num(2), num(3)]), op(BinOp::Get, name("t"), num(3)));
    assert_eq!(evaluate(&e).0, Err(RuntimeFault::IndexOutOfRange));
}

#[test]
fn get_at_the_last_field_is_valid() {
    let e = bind("t", tuple(vec![num(1), num(2), num(3)]), op(BinOp::Get, name("t"), num(2)));
    assert_eq!(evaluate(&e), (Ok(Some(HeapValue::Int(3))), 0));
}

#[test]
fn get_at_a_negative_index_is_a_fault() {
    let e = bind("t", tuple(vec![num(1)]), op(BinOp::Get, name("t"), num(-1)));
    assert_eq!(evaluate(&e).0, Err(RuntimeFault::IndexOutOfRange));
}

#[test]
fn get_from_an_empty_tuple_is_a_fault() {
    let e = bind("t", tuple(vec![]), op(BinOp::Get, name("t"), num(0)));
    assert_eq!(evaluate(&e).0, Err(RuntimeFault::IndexOutOfRange));
}

#[test]
fn get_from_an_integer_is_a_type_fault() {
    let e = op(BinOp::Get, num(5), num(0));
    assert_eq!(evaluate(&e).0, Err(RuntimeFault::TypeMismatch));
}

#[test]
fn eq_on_booleans_is_a_type_fault() {
    let e = op(BinOp::Eq, truth(true), truth(true));
    assert_eq!(evaluate(&e).0, Err(RuntimeFault::TypeMismatch));
    let e = op(BinOp::Eq, num(1), truth(true));
    assert_eq!(evaluate(&e).0, Err(RuntimeFault::TypeMismatch));
}

#[test]
fn eq_on_integers_is_a_boolean() {
    assert_eq!(evaluate(&op(BinOp::Eq, num(4), num(4))), (Ok(Some(HeapValue::Bool(true))), 0));
    assert_eq!(evaluate(&op(BinOp::Eq, num(4), num(5))), (Ok(Some(HeapValue::Bool(false))), 0));
}

#[test]
fn subtraction_of_two_literals() {
    assert_eq!(evaluate(&op(BinOp::Sub, num(2), num(5))), (Ok(Some(HeapValue::Int(-3))), 0));
}

#[test]
fn add_on_a_tuple_is_a_type_fault() {
    let e = op(BinOp::Add, tuple(vec![]), num(1));
    assert_eq!(evaluate(&e).0, Err(RuntimeFault::TypeMismatch));
}

#[test]
fn sum_beyond_32_bits_is_a_fault() {
    let e = op(BinOp::Add, num(i32::MAX), num(1));
    assert_eq!(evaluate(&e).0, Err(RuntimeFault::ArithmeticOverflow));
    let e = op(BinOp::Sub, num(i32::MIN), num(1));
    assert_eq!(evaluate(&e).0, Err(RuntimeFault::ArithmeticOverflow));
    let e = op(BinOp::Add, num(i32::MAX), num(0));
    assert_eq!(evaluate(&e), (Ok(Some(HeapValue::Int(i32::MAX))), 0));
}

#[test]
fn if_on_an_integer_is_a_type_fault() {
    let e = Expr::If {
        condition: Box::new(num(1)),
        branch_success: Box::new(num(10)),
        branch_failure: Box::new(num(20)),
    };
    assert_eq!(evaluate(&e).0, Err(RuntimeFault::TypeMismatch));
}

#[test]
fn call_of_an_integer_is_a_type_fault() {
    let e = call(num(1), vec![]);
    assert_eq!(evaluate(&e).0, Err(RuntimeFault::TypeMismatch));
}

#[test]
fn call_with_the_wrong_number_of_arguments_is_a_fault() {
    let e = bind("f", function("f", &["x"], name("x")), call(name("f"), vec![num(1), num(2)]));
    assert_eq!(evaluate(&e).0, Err(RuntimeFault::ArityMismatch));
    let e = bind("f", function("f", &["x"], name("x")), call(name("f"), vec![]));
    assert_eq!(evaluate(&e).0, Err(RuntimeFault::ArityMismatch));
}

#[test]
fn function_without_parameters_and_captures_is_callable() {
    let e = bind("f", function("f", &[], num(9)), call(name("f"), vec![]));
    let program = let_normalize(&e).expect("the expression is closed");
    assert_eq!(program.functions[1].arg_names, Vec::<String>::new());
    assert_eq!(program.functions[1].free_names, Some(Vec::<String>::new()));
    assert_eq!(evaluate(&e), (Ok(Some(HeapValue::Int(9))), 0));
}

#[test]
fn identity_function_returns_its_argument() {
    let e = bind("id", function("id", &["x"], name("x")), call(name("id"), vec![num(5)]));
    assert_eq!(evaluate(&e), (Ok(Some(HeapValue::Int(5))), 0));
}

#[test]
fn set_field_to_the_value_it_holds_keeps_the_value_alive() {
    let e = bind(
        "t",
        tuple(vec![num(1), num(2)]),
        bind(
            "a",
            op(BinOp::Get, name("t"), num(0)),
            bind("ignored", set_field(name("t"), 0, name("a")), op(BinOp::Get, name("t"), num(0))),
        ),
    );
    assert_eq!(evaluate(&e), (Ok(Some(HeapValue::Int(1))), 0));
}

#[test]
fn set_field_yields_an_empty_tuple() {
    let e = bind("t", tuple(vec![num(1)]), set_field(name("t"), 0, num(2)));
    let (outcome, live) = evaluate(&e);
    match outcome {
        Ok(Some(HeapValue::Tuple(result))) => assert!(result.field_values.is_empty()),
        other => panic!("not an empty tuple: {:?}", other),
    }
    assert_eq!(live, 0);
}

#[test]
fn set_field_beyond_the_tuple_is_a_fault() {
    let e = bind("t", tuple(vec![num(1), num(2)]), set_field(name("t"), 2, num(0)));
    assert_eq!(evaluate(&e).0, Err(RuntimeFault::IndexOutOfRange));
}

#[test]
fn set_field_of_an_integer_is_a_type_fault() {
    let e = set_field(num(1), 0, num(0));
    assert_eq!(evaluate(&e).0, Err(RuntimeFault::TypeMismatch));
}

#[test]
fn inner_binding_hides_the_outer_one() {
    let e = bind("x", num(1), bind("x", num(2), name("x")));
    assert_eq!(evaluate(&e), (Ok(Some(HeapValue::Int(2))), 0));
}

#[test]
fn binding_ends_with_its_body() {
    let e = op(BinOp::Add, bind("x", num(1), name("x")), name("x"));
    assert_eq!(let_normalize(&e), Err(BuildError::UnboundVariable { name: "x".to_owned() }));
}

#[test]
fn binding_does_not_scope_over_its_own_definition() {
    let e = bind("x", name("x"), num(0));
    assert_eq!(let_normalize(&e), Err(BuildError::UnboundVariable { name: "x".to_owned() }));
}

#[test]
fn unbound_variable_is_a_build_error() {
    assert_eq!(let_normalize(&name("y")), Err(BuildError::UnboundVariable { name: "y".to_owned() }));
}

#[test]
fn closure_of_a_closure_captures_through_both() {
    // let x = 40 in let f = fun f() = (let g = fun g(y) = x + y in g(2)) in f()
    let e = bind(
        "x",
        num(40),
        bind(
            "f",
            function(
                "f",
                &[],
                bind(
                    "g",
                    function("g", &["y"], op(BinOp::Add, name("x"), name("y"))),
                    call(name("g"), vec![num(2)]),
                ),
            ),
            call(name("f"), vec![]),
        ),
    );
    let program = let_normalize(&e).expect("the expression is closed");
    assert_eq!(program.functions.len(), 3);
    assert_eq!(program.functions[1].free_names, Some(vec!["x__0".to_owned()]));
    assert_eq!(program.functions[2].free_names, Some(vec!["x__0".to_owned()]));
    assert_eq!(evaluate(&e), (Ok(Some(HeapValue::Int(42))), 0));
}

#[test]
fn conditional_branch_may_return_a_variable_of_the_enclosing_block() {
    let e = bind(
        "x",
        num(3),
        Expr::If {
            condition: Box::new(op(BinOp::Eq, name("x"), num(3))),
            branch_success: Box::new(name("x")),
            branch_failure: Box::new(num(0)),
        },
    );
    assert_eq!(evaluate(&e), (Ok(Some(HeapValue::Int(3))), 0));
}

#[test]
fn tuple_result_is_copied_out_and_its_fields_are_released() {
    let e = tuple(vec![num(1), num(2)]);
    let (outcome, live) = evaluate(&e);
    match outcome {
        Ok(Some(HeapValue::Tuple(result))) => assert_eq!(result.field_values.len(), 2),
        other => panic!("not a tuple: {:?}", other),
    }
    assert_eq!(live, 0);
}

#[test]
fn tuple_that_holds_itself_is_not_reclaimed() {
    // let t = (0) in (t.0 = t; 5): the cycle keeps the cell alive.
    let e = bind(
        "t",
        tuple(vec![num(0)]),
        bind("ignored", set_field(name("t"), 0, name("t")), num(5)),
    );
    let (outcome, live) = evaluate(&e);
    assert_eq!(outcome, Ok(Some(HeapValue::Int(5))));
    assert_eq!(live, 1);
}

#[test]
fn run_without_budget_executes_nothing() {
    let program = let_normalize(&num(1)).expect("the expression is closed");
    let mut evaluator = ProgramEvaluator::new(program);
    assert_eq!(evaluator.run(0), Ok(None));
    assert_eq!(evaluator.heap().len(), 0);
}

#[test]
fn run_resumes_where_the_budget_ran_out() {
    let e = op(BinOp::Add, num(2), num(3));
    let program = let_normalize(&e).expect("the expression is closed");
    // EnterBlock, three assignments and ExitBlock: five instructions.
    let mut evaluator = ProgramEvaluator::new(program.clone());
    assert_eq!(evaluator.run(4), Ok(None));
    assert_eq!(evaluator.run(1), Ok(Some(HeapValue::Int(5))));
    let mut evaluator = ProgramEvaluator::new(program.clone());
    assert_eq!(evaluator.run(2), Ok(None));
    assert_eq!(evaluator.run(2), Ok(None));
    assert_eq!(evaluator.run(100), Ok(Some(HeapValue::Int(5))));
    let mut evaluator = ProgramEvaluator::new(program);
    assert_eq!(evaluator.run(5), Ok(Some(HeapValue::Int(5))));
}

#[test]
fn step_executes_one_instruction() {
    let program = let_normalize(&num(7)).expect("the expression is closed");
    let mut evaluator = ProgramEvaluator::new(program);
    assert_eq!(evaluator.step(), Ok(None));
    assert_eq!(evaluator.heap().len(), 0);
    assert_eq!(evaluator.step(), Ok(None));
    assert_eq!(evaluator.heap().len(), 1);
    assert_eq!(evaluator.step(), Ok(Some(HeapValue::Int(7))));
    assert_eq!(evaluator.heap().len(), 0);
    assert_eq!(evaluator.step(), Err(RuntimeFault::EmptyStack));
}

#[test]
fn interpreting_a_program_again_gives_the_same_result() {
    let e = bind(
        "t",
        tuple(vec![num(1), num(2), num(3)]),
        bind(
            "ignored",
            set_field(name("t"), 1, op(BinOp::Add, op(BinOp::Get, name("t"), num(0)), num(10))),
            op(BinOp::Sub, op(BinOp::Get, name("t"), num(1)), op(BinOp::Get, name("t"), num(2))),
        ),
    );
    let program = let_normalize(&e).expect("the expression is closed");
    let first = ProgramEvaluator::new(program.clone()).run(10_000);
    let second = ProgramEvaluator::new(program).run(20_000);
    assert_eq!(first, Ok(Some(HeapValue::Int(8))));
    assert_eq!(first, second);
}

#[test]
fn normalizing_an_expression_again_gives_the_same_program() {
    let e = bind("x", num(1), op(BinOp::Add, name("x"), num(2)));
    assert_eq!(let_normalize(&e), let_normalize(&e));
}

#[test]
fn empty_program_has_no_instruction_to_execute() {
    let program = letlang::ir_let::let_expr::Program { functions: Vec::new() };
    let mut evaluator = ProgramEvaluator::new(program);
    assert_eq!(evaluator.run(10), Err(RuntimeFault::InvalidTarget));
}

#[test]
fn counts_are_the_numbers_of_references() {
    // let a = 1 in let t = (a, a) in t
    let e = bind("a", num(1), bind("t", tuple(vec![name("a"), name("a")]), name("t")));
    let program = let_normalize(&e).expect("the expression is closed");
    let mut evaluator = ProgramEvaluator::new(program);
    assert_eq!(evaluator.step(), Ok(None));
    assert_eq!(evaluator.step(), Ok(None));
    // One local refers to the integer.
    assert_eq!(evaluator.heap().refcount(HeapAddress(0)), 1);
    assert_eq!(evaluator.step(), Ok(None));
    // One local and two fields refer to the integer, one local to the tuple.
    assert_eq!(evaluator.heap().len(), 2);
    assert_eq!(evaluator.heap().refcount(HeapAddress(0)), 3);
    assert_eq!(evaluator.heap().refcount(HeapAddress(1)), 1);
    match evaluator.step() {
        Ok(Some(HeapValue::Tuple(result))) => {
            assert_eq!(result.field_values, vec![HeapAddress(0), HeapAddress(0)])
        },
        other => panic!("not a tuple: {:?}", other),
    }
    assert_eq!(evaluator.heap().len(), 0);
}

#[test]
fn address_of_a_freed_cell_is_not_handed_out_again() {
    // let a = (let b = 1 in 2) in 3: b's cell is never freed before a's is
    // allocated, but the temporaries of a call are.
    let e = bind(
        "f",
        function("f", &[], num(1)),
        bind("x", call(name("f"), vec![]), bind("y", call(name("f"), vec![]), name("y"))),
    );
    let program = let_normalize(&e).expect("the expression is closed");
    let mut evaluator = ProgramEvaluator::new(program);
    let mut seen = 0;
    loop {
        match evaluator.step() {
            Ok(None) => {
                let live = evaluator.heap().len();
                if live > seen {
                    seen = live;
                }
            },
            Ok(Some(result)) => {
                assert_eq!(result, HeapValue::Int(1));
                break;
            },
            Err(fault) => panic!("fault: {:?}", fault),
        }
    }
    // The closure and the two results were live together at most; the
    // second call's integer got a new address all the same.
    assert!(seen <= 3);
    assert!(evaluator.heap().has_room());
    assert!(!evaluator.heap().contains(HeapAddress(0)));
    assert_eq!(evaluator.heap().len(), 0);
}

#[test]
fn reading_a_name_that_the_call_does_not_bind_is_a_fault() {
    use_unbound_name();
}

fn use_unbound_name() {
    let program = letlang::ir_let::let_expr::Program {
        functions: vec![letlang::ir_let::let_expr::Function {
            name: "toplevel".to_owned(),
            arg_names: vec![],
            free_names: Some(vec![]),
            blocks: vec![letlang::ir_let::let_expr::Block {
                instructions: vec![
                    letlang::ir_let::let_expr::Instruction::EnterBlock,
                    letlang::ir_let::let_expr::Instruction::ExitBlock(
                        letlang::ir_let::let_expr::VariableReference { var_name: "nowhere".to_owned() },
                    ),
                ],
                parent_block_index: None,
            }],
        }],
    };
    let mut evaluator = ProgramEvaluator::new(program);
    assert_eq!(evaluator.run(10), Err(RuntimeFault::UnboundVariable));
}
