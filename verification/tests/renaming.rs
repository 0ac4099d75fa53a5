use letlang::heap_value::HeapValue;
use letlang::ir_let::compiler::let_normalize;
use letlang::ir_let::free_vars::FreeVars;
use letlang::ir_let::interpreter::simple_eval::ProgramEvaluator;
use letlang::ir_let::let_expr::{
    AllocClosure, Assignment, Block, Control, Definition, Function, Instruction, Program, Simple,
    Step, VariableReference,
};
use letlang::fib::fib_test;
use letlang::syntax::{BinOp, Constant, Expr};

/// The source name of a generated name; a temporary keeps its name.
fn source_name(generated: &str) -> String {
    if generated.starts_with("__gen") {
        return generated.to_owned();
    }
    match generated.rfind("__") {
        Some(at) => generated[..at].to_owned(),
        None => generated.to_owned(),
    }
}

fn rename_var(var: &VariableReference) -> VariableReference {
    VariableReference { var_name: source_name(&var.var_name) }
}

fn rename_definition(definition: &Definition) -> Definition {
    match definition {
        Definition::Var(var) => Definition::Var(rename_var(var)),
        Definition::Step(Step::Simple(simple)) => Definition::Step(Step::Simple(match simple {
            Simple::Literal(c) => Simple::Literal(*c),
            Simple::Fun(closure) => Simple::Fun(AllocClosure {
                name: source_name(&closure.name),
                arg_names: closure.arg_names.iter().map(|n| source_name(n)).collect(),
                free_names: closure.free_names.iter().map(|n| source_name(n)).collect(),
                body: closure.body,
            }),
            Simple::BinOp { op, lhs, rhs } => {
                Simple::BinOp { op: *op, lhs: rename_var(lhs), rhs: rename_var(rhs) }
            },
            Simple::Tuple { args } => Simple::Tuple { args: args.iter().map(rename_var).collect() },
            Simple::SetField { tuple, index, new_value } => Simple::SetField {
                tuple: rename_var(tuple),
                index: *index,
                new_value: rename_var(new_value),
            },
        })),
        Definition::Step(Step::Control(control)) => Definition::Step(Step::Control(match control {
            Control::Call { func, args } => {
                Control::Call { func: rename_var(func), args: args.iter().map(rename_var).collect() }
            },
            Control::If { condition, branch_success, branch_failure } => Control::If {
                condition: rename_var(condition),
                branch_success: *branch_success,
                branch_failure: *branch_failure,
            },
        })),
    }
}

fn rename_back(program: &Program) -> Program {
    Program {
        functions: program
            .functions
            .iter()
            .map(|function| Function {
                name: source_name(&function.name),
                arg_names: function.arg_names.iter().map(|n| source_name(n)).collect(),
                free_names: function
                    .free_names
                    .as_ref()
                    .map(|names| names.iter().map(|n| source_name(n)).collect()),
                blocks: function
                    .blocks
                    .iter()
                    .map(|block| Block {
                        instructions: block
                            .instructions
                            .iter()
                            .map(|instruction| match instruction {
                                Instruction::EnterBlock => Instruction::EnterBlock,
                                Instruction::ExitBlock(var) => Instruction::ExitBlock(rename_var(var)),
                                Instruction::Assignment(assignment) => {
                                    Instruction::Assignment(Assignment {
                                        name: source_name(&assignment.name),
                                        definition: rename_definition(&assignment.definition),
                                    })
                                },
                            })
                            .collect(),
                        parent_block_index: block.parent_block_index,
                    })
                    .collect(),
            })
            .collect(),
    }
}

fn result_of(program: Program) -> Option<HeapValue> {
    ProgramEvaluator::new(program).run(1_000_000).expect("the program runs without a fault")
}

fn number(value: i32) -> Expr {
    Expr::Literal(Constant::Int { value })
}

fn read(name: &str) -> Expr {
    Expr::Var { var_name: name.to_owned() }
}

fn define(name: &str, definition: Expr, body: Expr) -> Expr {
    Expr::Let { name: name.to_owned(), definition: Box::new(definition), body: Box::new(body) }
}

fn plus(lhs: Expr, rhs: Expr) -> Expr {
    Expr::BinOp { op: BinOp::Add, lhs: Box::new(lhs), rhs: Box::new(rhs) }
}

#[test]
fn source_names_of_generated_names() {
    assert_eq!(source_name("x__12"), "x");
    assert_eq!(source_name("a__b__3"), "a__b");
    assert_eq!(source_name("__gen__4"), "__gen__4");
    assert_eq!(source_name("toplevel"), "toplevel");
}

#[test]
fn renaming_back_keeps_the_result_of_the_fibonacci_program() {
    let program = let_normalize(&fib_test(10)).expect("closed");
    let renamed = rename_back(&program);
    assert_eq!(renamed.functions[1].name, "fib_helper");
    assert_eq!(renamed.functions[1].arg_names, vec!["n", "a", "b"]);
    assert_eq!(result_of(program), Some(HeapValue::Int(55)));
    assert_eq!(result_of(renamed), Some(HeapValue::Int(55)));
}

#[test]
fn renaming_back_keeps_the_result_of_a_capturing_closure() {
    // let x = 7 in let f = fun f(y) = x + y in let x = 100 in f(35)
    let e = define(
        "x",
        number(7),
        define(
            "f",
            Expr::Fun {
                name: "f".to_owned(),
                arg_names: vec!["y".to_owned()],
                body: Box::new(plus(read("x"), read("y"))),
            },
            define("x", number(100), Expr::Call { func: Box::new(read("f")), args: vec![number(35)] }),
        ),
    );
    let program = let_normalize(&e).expect("closed");
    let renamed = rename_back(&program);
    assert_eq!(result_of(program), Some(HeapValue::Int(42)));
    assert_eq!(result_of(renamed), Some(HeapValue::Int(42)));
}

#[test]
fn renaming_back_keeps_the_result_where_no_function_binds_a_name_twice() {
    // let x = 7 in let g = fun f(y) = (if y == x then (let z = y + x in z) else f(y + 1)) in g(3)
    let e = define(
        "x",
        number(7),
        define(
            "g",
            Expr::Fun {
                name: "f".to_owned(),
                arg_names: vec!["y".to_owned()],
                body: Box::new(Expr::If {
                    condition: Box::new(Expr::BinOp {
                        op: BinOp::Eq,
                        lhs: Box::new(read("y")),
                        rhs: Box::new(read("x")),
                    }),
                    branch_success: Box::new(define("z", plus(read("y"), read("x")), read("z"))),
                    branch_failure: Box::new(Expr::Call {
                        func: Box::new(read("f")),
                        args: vec![plus(read("y"), number(1))],
                    }),
                }),
            },
            Expr::Call { func: Box::new(read("g")), args: vec![number(3)] },
        ),
    );
    let program = let_normalize(&e).expect("closed");
    let renamed = rename_back(&program);
    assert_eq!(renamed.functions[1].name, "f");
    assert_eq!(renamed.functions[1].arg_names, vec!["y"]);
    assert_eq!(renamed.functions[1].free_names, Some(vec!["x".to_owned()]));
    assert_ne!(renamed, program);
    assert_eq!(result_of(program), Some(HeapValue::Int(14)));
    assert_eq!(result_of(renamed), Some(HeapValue::Int(14)));
}

#[test]
fn renaming_back_keeps_the_result_with_names_that_end_in_digits() {
    // let x1 = 2 in let x2 = 3 in let f = fun f(x3) = x3 + x2 in f(x1)
    let e = define(
        "x1",
        number(2),
        define(
            "x2",
            number(3),
            define(
                "f",
                Expr::Fun {
                    name: "f".to_owned(),
                    arg_names: vec!["x3".to_owned()],
                    body: Box::new(plus(read("x3"), read("x2"))),
                },
                Expr::Call { func: Box::new(read("f")), args: vec![read("x1")] },
            ),
        ),
    );
    let program = let_normalize(&e).expect("closed");
    let renamed = rename_back(&program);
    assert_eq!(renamed.functions[1].arg_names, vec!["x3"]);
    assert_eq!(renamed.functions[1].free_names, Some(vec!["x2".to_owned()]));
    assert_eq!(result_of(program), Some(HeapValue::Int(5)));
    assert_eq!(result_of(renamed), Some(HeapValue::Int(5)));
}

#[test]
fn renaming_back_lets_an_inner_binding_hide_an_outer_one_in_the_same_block() {
    // let x = 1 in ((let x = 2 in x) + x): the inner binding ends before the
    // second operand, but both bindings live in one block. With the
    // generated names the operands are 2 and 1; with the source names the
    // later binding of the block hides the earlier one for both.
    let e = define("x", number(1), plus(define("x", number(2), read("x")), read("x")));
    let program = let_normalize(&e).expect("closed");
    let renamed = rename_back(&program);
    assert_eq!(result_of(program), Some(HeapValue::Int(3)));
    assert_eq!(result_of(renamed), Some(HeapValue::Int(4)));
}

#[test]
fn captured_names_are_those_that_the_analysis_finds() {
    let e = define(
        "x",
        number(7),
        define(
            "f",
            Expr::Fun {
                name: "f".to_owned(),
                arg_names: vec!["y".to_owned()],
                body: Box::new(Expr::If {
                    condition: Box::new(Expr::BinOp {
                        op: BinOp::Eq,
                        lhs: Box::new(read("y")),
                        rhs: Box::new(read("x")),
                    }),
                    branch_success: Box::new(read("x")),
                    branch_failure: Box::new(Expr::Call {
                        func: Box::new(read("f")),
                        args: vec![plus(read("y"), number(1))],
                    }),
                }),
            },
            Expr::Call { func: Box::new(read("f")), args: vec![number(0)] },
        ),
    );
    let program = let_normalize(&e).expect("closed");
    assert_eq!(program.functions.len(), 2);
    for function in &program.functions {
        let found = FreeVars::free_vars_function(&function.blocks, &function.name, &function.arg_names, 0);
        assert_eq!(function.free_names, Some(found));
    }
    assert_eq!(program.functions[0].free_names, Some(vec![]));
    assert_eq!(program.functions[1].free_names, Some(vec!["x__0".to_owned()]));
    assert_eq!(result_of(program), Some(HeapValue::Int(7)));
}
