use letlang::fib::fib_test;
use letlang::heap_value::HeapValue;
use letlang::ir_let::compiler::let_normalize;
use letlang::ir_let::free_vars::FreeVars;
use letlang::ir_let::interpreter::simple_eval::ProgramEvaluator;
use letlang::ir_let::let_expr::{
    Assignment, Block, Control, Definition, Instruction, Program, Simple, Step, TargetAddress,
    VariableReference,
};
use letlang::syntax::{BinOp, Constant, Expr};

fn word(name: &str) -> String {
    name.to_owned()
}

fn read(name: &str) -> VariableReference {
    VariableReference { var_name: name.to_owned() }
}

fn entry_of(block_index: usize) -> TargetAddress {
    TargetAddress { function_index: 0, block_index, instruction_index: 0 }
}

fn branch(name: &str, condition: &str, success: usize, failure: usize) -> Instruction {
    Instruction::Assignment(Assignment {
        name: name.to_owned(),
        definition: Definition::Step(Step::Control(Control::If {
            condition: read(condition),
            branch_success: entry_of(success),
            branch_failure: entry_of(failure),
        })),
    })
}

fn leaf(result: &str, parent: Option<usize>) -> Block {
    Block {
        instructions: vec![Instruction::EnterBlock, Instruction::ExitBlock(read(result))],
        parent_block_index: parent,
    }
}

fn number(value: i32) -> Expr {
    Expr::Literal(Constant::Int { value })
}

fn variable(name: &str) -> Expr {
    Expr::Var { var_name: name.to_owned() }
}

fn sum(lhs: Expr, rhs: Expr) -> Expr {
    Expr::BinOp { op: BinOp::Add, lhs: Box::new(lhs), rhs: Box::new(rhs) }
}

fn binding(name: &str, definition: Expr, body: Expr) -> Expr {
    Expr::Let { name: name.to_owned(), definition: Box::new(definition), body: Box::new(body) }
}

fn lambda(name: &str, params: &[&str], body: Expr) -> Expr {
    Expr::Fun {
        name: name.to_owned(),
        arg_names: params.iter().map(|p| (*p).to_owned()).collect(),
        body: Box::new(body),
    }
}

fn apply(func: Expr, args: Vec<Expr>) -> Expr {
    Expr::Call { func: Box::new(func), args }
}

fn choice(condition: Expr, success: Expr, failure: Expr) -> Expr {
    Expr::If {
        condition: Box::new(condition),
        branch_success: Box::new(success),
        branch_failure: Box::new(failure),
    }
}

/// Closed expressions of several shapes.
fn samples() -> Vec<Expr> {
    vec![
        number(42),
        sum(number(2), number(3)),
        binding("x", number(1), sum(binding("x", number(2), variable("x")), variable("x"))),
        binding(
            "x",
            number(7),
            binding(
                "f",
                lambda("f", &["y"], sum(variable("x"), variable("y"))),
                apply(variable("f"), vec![number(35)]),
            ),
        ),
        choice(
            Expr::BinOp { op: BinOp::Eq, lhs: Box::new(number(1)), rhs: Box::new(number(1)) },
            choice(
                Expr::BinOp { op: BinOp::Eq, lhs: Box::new(number(1)), rhs: Box::new(number(2)) },
                number(1),
                number(2),
            ),
            binding("y", number(3), variable("y")),
        ),
        binding(
            "x",
            number(40),
            binding(
                "f",
                lambda(
                    "f",
                    &["x"],
                    binding(
                        "g",
                        lambda("g", &["x", "y"], sum(variable("x"), variable("y"))),
                        apply(variable("g"), vec![variable("x"), number(2)]),
                    ),
                ),
                apply(variable("f"), vec![variable("x")]),
            ),
        ),
        fib_test(10),
    ]
}

/// Every name that the program binds: the names of its lifted functions,
/// their parameters, and the names that its blocks assign.
fn binders(program: &Program) -> Vec<String> {
    let mut names = Vec::new();
    for (g, function) in program.functions.iter().enumerate() {
        if g > 0 {
            names.push(function.name.clone());
        }
        names.extend(function.arg_names.iter().cloned());
        for block in &function.blocks {
            for instruction in &block.instructions {
                if let Instruction::Assignment(assignment) = instruction {
                    names.push(assignment.name.clone());
                }
            }
        }
    }
    names
}

#[test]
fn analysis_follows_a_branch_to_an_earlier_block() {
    // The entry is block 1, which branches back to block 0 and on to block
    // 2. Block 3 branches to itself, and nothing leads to it.
    let blocks = vec![
        leaf("x", Some(1)),
        Block {
            instructions: vec![
                Instruction::EnterBlock,
                branch("r", "c", 0, 2),
                Instruction::ExitBlock(read("r")),
            ],
            parent_block_index: None,
        },
        leaf("y", Some(1)),
        Block {
            instructions: vec![
                Instruction::EnterBlock,
                branch("s", "d", 3, 3),
                Instruction::ExitBlock(read("s")),
            ],
            parent_block_index: None,
        },
    ];
    let free = FreeVars::free_vars_function(&blocks, &word("f"), &vec![word("c")], 1);
    assert_eq!(free, vec![word("x"), word("y")]);
}

#[test]
fn analysis_walks_a_block_once_for_each_branch_that_leads_to_it() {
    // Both branches of block 0 lead to block 1, which binds what it reads
    // after the first walk has made it live.
    let blocks = vec![
        Block {
            instructions: vec![
                Instruction::EnterBlock,
                branch("r", "c", 1, 1),
                Instruction::ExitBlock(read("r")),
            ],
            parent_block_index: None,
        },
        Block {
            instructions: vec![
                Instruction::EnterBlock,
                Instruction::Assignment(Assignment {
                    name: word("u"),
                    definition: Definition::Step(Step::Simple(Simple::Tuple {
                        args: vec![read("v"), read("u")],
                    })),
                }),
                Instruction::ExitBlock(read("u")),
            ],
            parent_block_index: Some(0),
        },
    ];
    let free = FreeVars::free_vars_function(&blocks, &word("f"), &vec![], 0);
    assert_eq!(free, vec![word("c"), word("v"), word("u")]);
}

#[test]
fn program_begins_with_toplevel_without_parameters_or_captures() {
    for e in samples() {
        let program = let_normalize(&e).expect("the expression is closed");
        assert_eq!(program.functions[0].name, "toplevel");
        assert!(program.functions[0].arg_names.is_empty());
        assert_eq!(program.functions[0].free_names, Some(vec![]));
    }
}

#[test]
fn branches_of_a_conditional_are_different_blocks() {
    let mut conditionals = 0;
    for e in samples() {
        let program = let_normalize(&e).expect("the expression is closed");
        for (g, function) in program.functions.iter().enumerate() {
            for (j, block) in function.blocks.iter().enumerate() {
                for instruction in &block.instructions {
                    if let Instruction::Assignment(Assignment {
                        definition:
                            Definition::Step(Step::Control(Control::If {
                                branch_success,
                                branch_failure,
                                ..
                            })),
                        ..
                    }) = instruction
                    {
                        conditionals += 1;
                        assert!(branch_success.block_index < branch_failure.block_index);
                        assert!(j < branch_success.block_index);
                        assert!(branch_failure.block_index < function.blocks.len());
                        assert_eq!(branch_success.function_index, g);
                        assert_eq!(branch_failure.function_index, g);
                        assert_eq!(function.blocks[branch_success.block_index].parent_block_index, Some(j));
                        assert_eq!(function.blocks[branch_failure.block_index].parent_block_index, Some(j));
                    }
                }
            }
        }
    }
    assert_eq!(conditionals, 3);
}

#[test]
fn no_name_is_bound_twice_in_a_program() {
    for e in samples() {
        let program = let_normalize(&e).expect("the expression is closed");
        let names = binders(&program);
        for i in 0..names.len() {
            for k in i + 1..names.len() {
                assert_ne!(names[i], names[k]);
            }
        }
    }
}

#[test]
fn names_of_one_source_name_are_told_apart_across_functions() {
    // x is bound at the top, as the parameter of f and as a parameter of g.
    let program = let_normalize(&samples()[5]).expect("the expression is closed");
    assert_eq!(program.functions.len(), 3);
    assert_eq!(
        binders(&program),
        vec![
            word("x__0"),
            word("f__10"),
            word("__gen__11"),
            word("f__1"),
            word("x__2"),
            word("g__7"),
            word("__gen__8"),
            word("__gen__9"),
            word("g__3"),
            word("x__5"),
            word("y__4"),
            word("__gen__6"),
        ]
    );
}

#[test]
fn closure_holds_each_captured_name_once() {
    // let x = 1 in let y = 2 in fun f(z) = ((x + y) + x) + z
    let e = binding(
        "x",
        number(1),
        binding(
            "y",
            number(2),
            lambda(
                "f",
                &["z"],
                sum(sum(sum(variable("x"), variable("y")), variable("x")), variable("z")),
            ),
        ),
    );
    let program = let_normalize(&e).expect("the expression is closed");
    assert_eq!(program.functions[1].free_names, Some(vec![word("x__0"), word("y__1")]));
    let mut evaluator = ProgramEvaluator::new(program);
    match evaluator.run(1_000) {
        Ok(Some(HeapValue::Closure(closure))) => {
            let names: Vec<String> = closure.environment.iter().map(|pair| pair.0.clone()).collect();
            assert_eq!(names, vec![word("x__0"), word("y__1")]);
        },
        other => panic!("a closure was expected, not {:?}", other),
    }
}
