use letlang::fault::RuntimeFault;
use letlang::fib::fib_test;
use letlang::heap::Heap;
use letlang::heap_value::{Closure, HeapAddress, HeapValue, Tuple};
use letlang::ir_flat::frame_layout::{
    compute_program_frame_layout, function_layout_ready, program_layout_ready,
};
use letlang::ir_flat::syntax::{ArgumentReference, ClosureReference, LocalReference, Reference};
use letlang::ir_let::compiler::let_normalize;
use letlang::ir_let::free_vars::FreeVars;
use letlang::ir_let::let_expr::{
    AllocClosure, Assignment, Block, Control, Definition, Function, Instruction, Program, Simple,
    Step, TargetAddress, VariableReference,
};
use letlang::ir_let::names::{decimal_string, generate_name};
use letlang::stack::{ReturnInfo, Stack};
use letlang::syntax::{BinOp, Constant, Expr};

fn at(function_index: usize, block_index: usize, instruction_index: usize) -> TargetAddress {
    TargetAddress { function_index, block_index, instruction_index }
}

fn reference(text: &str) -> VariableReference {
    VariableReference { var_name: text.to_owned() }
}

fn assign(text: &str, definition: Definition) -> Instruction {
    Instruction::Assignment(Assignment { name: text.to_owned(), definition })
}

fn simple(step: Simple) -> Definition {
    Definition::Step(Step::Simple(step))
}

fn literal(value: i32) -> Definition {
    simple(Simple::Literal(Constant::Int { value }))
}

fn text(name: &str) -> String {
    name.to_owned()
}

#[test]
fn decimal_numerals() {
    assert_eq!(decimal_string(0), "0");
    assert_eq!(decimal_string(9), "9");
    assert_eq!(decimal_string(10), "10");
    assert_eq!(decimal_string(907), "907");
    assert_eq!(decimal_string(u64::MAX), "18446744073709551615");
}

#[test]
fn generated_names() {
    assert_eq!(generate_name("x", 0), "x__0");
    assert_eq!(generate_name("__gen", 12), "__gen__12");
    assert_eq!(generate_name("", 3), "__3");
    assert_eq!(generate_name("a__1", 2), "a__1__2");
}

#[test]
fn next_address_is_the_following_instruction() {
    assert_eq!(at(2, 3, 4).next(), at(2, 3, 5));
    assert_eq!(at(0, 0, 0).next(), at(0, 0, 1));
}

#[test]
fn instruction_by_address() {
    let program = let_normalize(&Expr::Literal(Constant::Int { value: 1 })).expect("closed");
    assert!(program.has_instruction(at(0, 0, 2)));
    assert!(!program.has_instruction(at(0, 0, 3)));
    assert!(!program.has_instruction(at(0, 1, 0)));
    assert!(!program.has_instruction(at(1, 0, 0)));
    assert_eq!(*program.get_instruction(at(0, 0, 0)), Instruction::EnterBlock);
    assert_eq!(*program.get_instruction(at(0, 0, 1)), assign("__gen__0", literal(1)));
    assert_eq!(*program.get_instruction(at(0, 0, 2)), Instruction::ExitBlock(reference("__gen__0")));
}

#[test]
fn sum_is_normalized_from_left_to_right() {
    let e = Expr::BinOp {
        op: BinOp::Add,
        lhs: Box::new(Expr::Literal(Constant::Int { value: 2 })),
        rhs: Box::new(Expr::Literal(Constant::Int { value: 3 })),
    };
    let expected = Program {
        functions: vec![Function {
            name: text("toplevel"),
            arg_names: vec![],
            free_names: Some(vec![]),
            blocks: vec![Block {
                instructions: vec![
                    Instruction::EnterBlock,
                    assign("__gen__0", literal(2)),
                    assign("__gen__1", literal(3)),
                    assign(
                        "__gen__2",
                        simple(Simple::BinOp {
                            op: BinOp::Add,
                            lhs: reference("__gen__0"),
                            rhs: reference("__gen__1"),
                        }),
                    ),
                    Instruction::ExitBlock(reference("__gen__2")),
                ],
                parent_block_index: None,
            }],
        }],
    };
    assert_eq!(let_normalize(&e), Ok(expected));
}

#[test]
fn function_is_lifted_with_fresh_names_for_itself_and_its_parameters() {
    // let f = fun f(a, b) = a in f
    let e = Expr::Let {
        name: text("f"),
        definition: Box::new(Expr::Fun {
            name: text("f"),
            arg_names: vec![text("a"), text("b")],
            body: Box::new(Expr::Var { var_name: text("a") }),
        }),
        body: Box::new(Expr::Var { var_name: text("f") }),
    };
    let lifted = AllocClosure {
        name: text("f__0"),
        arg_names: vec![text("a__2"), text("b__1")],
        free_names: vec![],
        body: at(1, 0, 0),
    };
    let expected = Program {
        functions: vec![
            Function {
                name: text("toplevel"),
                arg_names: vec![],
                free_names: Some(vec![]),
                blocks: vec![Block {
                    instructions: vec![
                        Instruction::EnterBlock,
                        assign("f__3", simple(Simple::Fun(lifted))),
                        Instruction::ExitBlock(reference("f__3")),
                    ],
                    parent_block_index: None,
                }],
            },
            Function {
                name: text("f__0"),
                arg_names: vec![text("a__2"), text("b__1")],
                free_names: Some(vec![]),
                blocks: vec![Block {
                    instructions: vec![Instruction::EnterBlock, Instruction::ExitBlock(reference("a__2"))],
                    parent_block_index: None,
                }],
            },
        ],
    };
    assert_eq!(let_normalize(&e), Ok(expected));
}

#[test]
fn conditional_gets_a_block_for_each_branch() {
    let e = Expr::If {
        condition: Box::new(Expr::Literal(Constant::Bool { value: true })),
        branch_success: Box::new(Expr::Literal(Constant::Int { value: 1 })),
        branch_failure: Box::new(Expr::Literal(Constant::Int { value: 2 })),
    };
    let program = let_normalize(&e).expect("closed");
    let blocks = &program.functions[0].blocks;
    assert_eq!(blocks.len(), 3);
    assert_eq!(blocks[0].parent_block_index, None);
    assert_eq!(blocks[1].parent_block_index, Some(0));
    assert_eq!(blocks[2].parent_block_index, Some(0));
    assert_eq!(
        blocks[0].instructions[2],
        assign(
            "__gen__3",
            Definition::Step(Step::Control(Control::If {
                condition: reference("__gen__0"),
                branch_success: at(0, 1, 0),
                branch_failure: at(0, 2, 0),
            })),
        )
    );
    for block in blocks {
        let last = block.instructions.len() - 1;
        assert_eq!(block.instructions[0], Instruction::EnterBlock);
        assert!(matches!(block.instructions[last], Instruction::ExitBlock(_)));
        for instruction in &block.instructions[1..last] {
            assert!(matches!(instruction, Instruction::Assignment(_)));
        }
    }
}

#[test]
fn free_names_of_a_block_with_a_conditional() {
    // block 0: c = (a == b); r = if c then block 1 else block 2; exit r
    // block 1: exit x      block 2: y = f(z); exit y
    let blocks = vec![
        Block {
            instructions: vec![
                Instruction::EnterBlock,
                assign(
                    "c",
                    simple(Simple::BinOp { op: BinOp::Eq, lhs: reference("a"), rhs: reference("b") }),
                ),
                assign(
                    "r",
                    Definition::Step(Step::Control(Control::If {
                        condition: reference("c"),
                        branch_success: at(0, 1, 0),
                        branch_failure: at(0, 2, 0),
                    })),
                ),
                Instruction::ExitBlock(reference("r")),
            ],
            parent_block_index: None,
        },
        Block {
            instructions: vec![Instruction::EnterBlock, Instruction::ExitBlock(reference("x"))],
            parent_block_index: Some(0),
        },
        Block {
            instructions: vec![
                Instruction::EnterBlock,
                assign(
                    "y",
                    Definition::Step(Step::Control(Control::Call {
                        func: reference("f"),
                        args: vec![reference("z")],
                    })),
                ),
                Instruction::ExitBlock(reference("y")),
            ],
            parent_block_index: Some(0),
        },
    ];
    let free = FreeVars::free_vars_function(&blocks, &text("f"), &vec![text("a")], 0);
    assert_eq!(free, vec![text("x"), text("z"), text("b")]);
}

#[test]
fn binding_is_not_free_but_its_definition_is() {
    // block 0: x = x; exit x   -- the x that is read is not the x that is bound
    let blocks = vec![Block {
        instructions: vec![
            Instruction::EnterBlock,
            assign("x", Definition::Var(reference("x"))),
            Instruction::ExitBlock(reference("x")),
        ],
        parent_block_index: None,
    }];
    let free = FreeVars::free_vars_function(&blocks, &text("f"), &vec![], 0);
    assert_eq!(free, vec![text("x")]);
}

#[test]
fn captured_names_of_a_nested_closure_are_free() {
    let nested = AllocClosure {
        name: text("g"),
        arg_names: vec![text("p")],
        free_names: vec![text("u"), text("v")],
        body: at(1, 0, 0),
    };
    let blocks = vec![Block {
        instructions: vec![
            Instruction::EnterBlock,
            assign("v", literal(1)),
            assign("k", simple(Simple::Fun(nested))),
            assign(
                "w",
                simple(Simple::SetField { tuple: reference("t"), index: 0, new_value: reference("k") }),
            ),
            assign("s", simple(Simple::Tuple { args: vec![reference("w"), reference("q")] })),
            Instruction::ExitBlock(reference("s")),
        ],
        parent_block_index: None,
    }];
    let free = FreeVars::free_vars_function(&blocks, &text("f"), &vec![text("q")], 0);
    assert_eq!(free, vec![text("t"), text("u")]);
}

#[test]
fn heap_counts_references() {
    let mut heap = Heap::new();
    assert_eq!(heap.len(), 0);
    assert!(heap.has_room());
    let a = heap.allocate(HeapValue::Int(7));
    assert_eq!(a, HeapAddress(0));
    assert!(heap.contains(a));
    assert_eq!(heap.refcount(a), 0);
    assert_eq!(*heap.deref(a), HeapValue::Int(7));
    heap.inc_refcount(a);
    heap.inc_refcount(a);
    assert_eq!(heap.refcount(a), 2);
    assert_eq!(heap.dec_refcount(a), Ok(()));
    assert_eq!(heap.refcount(a), 1);
    assert_eq!(heap.dec_refcount(a), Ok(()));
    assert!(!heap.contains(a));
    assert_eq!(heap.len(), 0);
    let b = heap.allocate(HeapValue::Bool(true));
    assert_eq!(b, HeapAddress(1));
}

#[test]
fn heap_faults() {
    let mut heap = Heap::new();
    assert_eq!(heap.dec_refcount(HeapAddress(5)), Err(RuntimeFault::InvalidAddress));
    let a = heap.allocate(HeapValue::Int(1));
    assert_eq!(heap.dec_refcount(a), Err(RuntimeFault::RefcountUnderflow));
    assert!(heap.contains(a));
}

#[test]
fn destroying_a_tuple_releases_its_fields() {
    let mut heap = Heap::new();
    let x = heap.allocate(HeapValue::Int(1));
    let y = heap.allocate(HeapValue::Int(2));
    heap.inc_refcount(x);
    heap.inc_refcount(x);
    heap.inc_refcount(y);
    let t = heap.allocate(HeapValue::Tuple(Tuple { field_values: vec![x, y] }));
    heap.inc_refcount(t);
    assert_eq!(heap.len(), 3);
    assert_eq!(heap.dec_refcount(t), Ok(()));
    assert!(!heap.contains(t));
    assert!(!heap.contains(y));
    assert!(heap.contains(x));
    assert_eq!(heap.refcount(x), 1);
}

#[test]
fn destroying_a_closure_releases_what_it_captured() {
    let mut heap = Heap::new();
    let x = heap.allocate(HeapValue::Int(1));
    heap.inc_refcount(x);
    let c = heap.allocate(HeapValue::Closure(Closure {
        name: text("f"),
        arg_names: vec![],
        environment: vec![(text("x"), x)],
        body: at(1, 0, 0),
    }));
    heap.inc_refcount(c);
    assert_eq!(heap.dec_refcount(c), Ok(()));
    assert_eq!(heap.len(), 0);
}

#[test]
fn destroying_a_tuple_with_a_dangling_field_is_a_fault() {
    let mut heap = Heap::new();
    let t = heap.allocate(HeapValue::Tuple(Tuple { field_values: vec![HeapAddress(9)] }));
    heap.inc_refcount(t);
    assert_eq!(heap.dec_refcount(t), Err(RuntimeFault::InvalidAddress));
}

#[test]
fn heap_value_can_be_changed_in_place() {
    let mut heap = Heap::new();
    let x = heap.allocate(HeapValue::Int(1));
    let t = heap.allocate(HeapValue::Tuple(Tuple { field_values: vec![x, x] }));
    heap.deref_mut(t).check_tuple_mut().field_values[1] = t;
    assert_eq!(heap.deref(t).check_tuple().field_values, vec![x, t]);
    *heap.deref_mut(x) = HeapValue::Bool(false);
    assert_eq!(heap.deref(x).check_bool(), false);
    assert_eq!(heap.refcount(t), 0);
}

#[test]
fn heap_value_checks() {
    assert_eq!(HeapValue::Int(3).check_int(), 3);
    assert_eq!(HeapValue::Bool(true).check_bool(), true);
    let tuple = HeapValue::Tuple(Tuple { field_values: vec![HeapAddress(1)] });
    assert_eq!(tuple.check_tuple().field_values, vec![HeapAddress(1)]);
    assert_eq!(tuple.held_addresses(), vec![HeapAddress(1)]);
    let closure = HeapValue::Closure(Closure {
        name: text("f"),
        arg_names: vec![text("a")],
        environment: vec![(text("x"), HeapAddress(4)), (text("y"), HeapAddress(2))],
        body: at(3, 0, 0),
    });
    assert_eq!(closure.check_closure().name, "f");
    assert_eq!(closure.held_addresses(), vec![HeapAddress(4), HeapAddress(2)]);
    assert_eq!(closure.clone(), closure);
    assert_eq!(HeapValue::Int(3).held_addresses(), vec![]);
}

#[test]
fn stack_looks_up_innermost_first_and_within_the_current_call() {
    let info = |name: &str| ReturnInfo { result_variable: text(name), return_address: at(0, 0, 1) };
    let mut stack = Stack::new();
    assert_eq!(stack.depth(), 1);
    stack.set_var_no_refcount(text("x"), HeapAddress(1));
    stack.set_var_no_refcount(text("y"), HeapAddress(2));
    assert_eq!(stack.find_var(&text("x")), Some(HeapAddress(1)));
    assert_eq!(stack.lookup_var(&text("y")), HeapAddress(2));
    assert_eq!(stack.find_var(&text("z")), None);
    stack.enter_block(info("r"));
    stack.set_var_no_refcount(text("x"), HeapAddress(3));
    assert_eq!(stack.find_var(&text("x")), Some(HeapAddress(3)));
    assert_eq!(stack.find_var(&text("y")), Some(HeapAddress(2)));
    stack.set_var_no_refcount(text("x"), HeapAddress(4));
    assert_eq!(stack.find_var(&text("x")), Some(HeapAddress(4)));
    stack.enter_function(info("s"));
    assert_eq!(stack.depth(), 2);
    assert_eq!(stack.find_var(&text("x")), None);
    stack.set_var_no_refcount(text("p"), HeapAddress(5));
    let frame = stack.exit_block();
    assert_eq!(frame.values, vec![HeapAddress(5)]);
    assert_eq!(frame.variable_names, vec![text("p")]);
    assert_eq!(frame.lookup_var(&text("p")), Some(HeapAddress(5)));
    assert_eq!(frame.lookup_var(&text("x")), None);
    assert_eq!(frame.return_info.expect("a call returns somewhere").result_variable, "s");
    assert_eq!(stack.depth(), 1);
    let frame = stack.exit_block();
    assert_eq!(frame.values, vec![HeapAddress(3), HeapAddress(4)]);
    assert_eq!(frame.lookup_var(&text("x")), Some(HeapAddress(4)));
    assert_eq!(stack.depth(), 1);
    assert_eq!(stack.find_var(&text("x")), Some(HeapAddress(1)));
    let root = stack.exit_block();
    assert!(root.return_info.is_none());
    assert_eq!(root.values, vec![HeapAddress(1), HeapAddress(2)]);
    assert_eq!(stack.depth(), 0);
}

#[test]
fn fibonacci_program_is_a_chain_of_two_bindings() {
    match fib_test(10) {
        Expr::Let { name, definition, body } => {
            assert_eq!(name, "fib_helper");
            assert!(matches!(*definition, Expr::Fun { .. }));
            match *body {
                Expr::Let { name, body, .. } => {
                    assert_eq!(name, "fib");
                    match *body {
                        Expr::Call { args, .. } => {
                            assert_eq!(args.len(), 1);
                            assert!(matches!(args[0], Expr::Literal(Constant::Int { value: 10 })));
                        },
                        other => panic!("not a call: {:?}", other),
                    }
                },
                other => panic!("not a binding: {:?}", other),
            }
        },
        other => panic!("not a binding: {:?}", other),
    }
}

#[test]
fn layout_of_the_fibonacci_program() {
    let program = let_normalize(&fib_test(10)).expect("closed");
    let layout = compute_program_frame_layout(&program);
    assert_eq!(layout.function_count(), 3);
    // toplevel: fib_helper, fib, the literal 10 and the call.
    assert_eq!(layout.block_count(0), 1);
    assert_eq!(layout.frame_size(0, 0), 4);
    // fib_helper: the entry block, and a block for each branch.
    assert_eq!(layout.block_count(1), 3);
    assert_eq!(layout.frame_size(1, 0), 3);
    assert_eq!(layout.frame_size(1, 1), 0);
    assert_eq!(layout.frame_size(1, 2), 4);
    let helper = &program.functions[1];
    assert_eq!(helper.arg_names, vec![text("n__3"), text("a__2"), text("b__1")]);
    assert_eq!(layout.lookup_var(1, 0, &text("n__3")), Reference::Argument(ArgumentReference(0)));
    assert_eq!(layout.lookup_var(1, 2, &text("b__1")), Reference::Argument(ArgumentReference(2)));
    assert_eq!(layout.lookup_var(1, 2, &helper.name), Reference::This);
    let first_local = &helper.blocks[0].instructions[1];
    let first_of_branch = &helper.blocks[2].instructions[1];
    match (first_local, first_of_branch) {
        (Instruction::Assignment(outer), Instruction::Assignment(inner)) => {
            assert_eq!(layout.lookup_var(1, 0, &outer.name), Reference::Local(LocalReference(0)));
            assert_eq!(layout.lookup_var(1, 2, &outer.name), Reference::Local(LocalReference(0)));
            assert_eq!(layout.lookup_var(1, 2, &inner.name), Reference::Local(LocalReference(3)));
            assert_eq!(layout.resolve_var(1, 0, &inner.name), None);
            assert_eq!(layout.resolve_var(1, 1, &inner.name), None);
        },
        other => panic!("not two assignments: {:?}", other),
    }
    // fib captures fib_helper.
    let fib = &program.functions[2];
    let captured = fib.free_names.clone().expect("known after normalization");
    assert_eq!(captured.len(), 1);
    assert_eq!(layout.lookup_var(2, 0, &captured[0]), Reference::Closure(ClosureReference(0)));
    assert_eq!(layout.resolve_var(2, 0, &text("nowhere")), None);
    assert_eq!(layout.block_count(2), fib.blocks.len());
    assert_eq!(
        layout.resolve_var(2, layout.block_count(2) - 1, &fib.arg_names[0]),
        Some(Reference::Argument(ArgumentReference(0)))
    );
}

#[test]
fn every_reference_of_a_normalized_program_resolves() {
    let program = let_normalize(&fib_test(3)).expect("closed");
    let layout = compute_program_frame_layout(&program);
    let mut checked = 0;
    for (g, function) in program.functions.iter().enumerate() {
        for (j, block) in function.blocks.iter().enumerate() {
            for instruction in &block.instructions {
                let mut names: Vec<String> = Vec::new();
                match instruction {
                    Instruction::EnterBlock => {},
                    Instruction::ExitBlock(var) => names.push(var.var_name.clone()),
                    Instruction::Assignment(assignment) => match &assignment.definition {
                        Definition::Var(var) => names.push(var.var_name.clone()),
                        Definition::Step(Step::Simple(Simple::Literal(_))) => {},
                        Definition::Step(Step::Simple(Simple::Fun(closure))) => {
                            names.extend(closure.free_names.iter().cloned())
                        },
                        Definition::Step(Step::Simple(Simple::BinOp { lhs, rhs, .. })) => {
                            names.push(lhs.var_name.clone());
                            names.push(rhs.var_name.clone());
                        },
                        Definition::Step(Step::Simple(Simple::Tuple { args })) => {
                            names.extend(args.iter().map(|a| a.var_name.clone()))
                        },
                        Definition::Step(Step::Simple(Simple::SetField { tuple, new_value, .. })) => {
                            names.push(tuple.var_name.clone());
                            names.push(new_value.var_name.clone());
                        },
                        Definition::Step(Step::Control(Control::Call { func, args })) => {
                            names.push(func.var_name.clone());
                            names.extend(args.iter().map(|a| a.var_name.clone()));
                        },
                        Definition::Step(Step::Control(Control::If { condition, .. })) => {
                            names.push(condition.var_name.clone())
                        },
                    },
                }
                for name in names {
                    assert!(layout.resolve_var(g, j, &name).is_some(), "{} in {} {}", name, g, j);
                    checked += 1;
                }
            }
        }
    }
    assert_eq!(checked, 23);
}

#[test]
fn normalized_programs_can_be_laid_out() {
    let program = let_normalize(&fib_test(4)).expect("closed");
    assert!(program_layout_ready(&program));
    for function in &program.functions {
        assert!(function_layout_ready(function));
    }
}

#[test]
fn programs_that_cannot_be_laid_out() {
    let block = |names: &[&str], parent: Option<usize>| Block {
        instructions: std::iter::once(Instruction::EnterBlock)
            .chain(names.iter().map(|n| assign(n, literal(0))))
            .chain(std::iter::once(Instruction::ExitBlock(reference("r"))))
            .collect(),
        parent_block_index: parent,
    };
    let function = |args: &[&str], free: Option<Vec<&str>>, blocks: Vec<Block>| Function {
        name: text("f"),
        arg_names: args.iter().map(|a| text(a)).collect(),
        free_names: free.map(|names| names.iter().map(|n| text(n)).collect()),
        blocks,
    };
    let good = function(&["a", "b"], Some(vec!["x"]), vec![block(&["p", "q"], None), block(&["p"], Some(0))]);
    assert!(function_layout_ready(&good));
    let unknown_captures = function(&[], None, vec![block(&[], None)]);
    assert!(!function_layout_ready(&unknown_captures));
    let repeated_parameter = function(&["a", "a"], Some(vec![]), vec![]);
    assert!(!function_layout_ready(&repeated_parameter));
    let repeated_capture = function(&[], Some(vec!["x", "y", "x"]), vec![]);
    assert!(!function_layout_ready(&repeated_capture));
    let repeated_local = function(&[], Some(vec![]), vec![block(&["p", "q", "p"], None)]);
    assert!(!function_layout_ready(&repeated_local));
    let parent_after_child = function(&[], Some(vec![]), vec![block(&[], Some(1)), block(&[], None)]);
    assert!(!function_layout_ready(&parent_after_child));
    let own_parent = function(&[], Some(vec![]), vec![block(&[], Some(0))]);
    assert!(!function_layout_ready(&own_parent));
    assert!(program_layout_ready(&Program { functions: vec![] }));
    assert!(!program_layout_ready(&Program { functions: vec![good, repeated_local] }));
}

#[test]
fn nested_blocks_start_where_their_parents_end() {
    let block = |names: &[&str], parent: Option<usize>| Block {
        instructions: std::iter::once(Instruction::EnterBlock)
            .chain(names.iter().map(|n| assign(n, literal(0))))
            .chain(std::iter::once(Instruction::ExitBlock(reference("r"))))
            .collect(),
        parent_block_index: parent,
    };
    let program = Program {
        functions: vec![Function {
            name: text("f"),
            arg_names: vec![text("a")],
            free_names: Some(vec![text("x"), text("y")]),
            blocks: vec![
                block(&["p", "q"], None),
                block(&["s"], Some(0)),
                block(&["t", "u"], Some(0)),
                block(&["v"], Some(2)),
            ],
        }],
    };
    let layout = compute_program_frame_layout(&program);
    assert_eq!(layout.frame_size(0, 0), 2);
    assert_eq!(layout.frame_size(0, 3), 1);
    assert_eq!(layout.lookup_var(0, 0, &text("q")), Reference::Local(LocalReference(1)));
    assert_eq!(layout.lookup_var(0, 1, &text("s")), Reference::Local(LocalReference(2)));
    assert_eq!(layout.lookup_var(0, 2, &text("t")), Reference::Local(LocalReference(2)));
    assert_eq!(layout.lookup_var(0, 3, &text("v")), Reference::Local(LocalReference(4)));
    assert_eq!(layout.lookup_var(0, 3, &text("u")), Reference::Local(LocalReference(3)));
    assert_eq!(layout.lookup_var(0, 3, &text("p")), Reference::Local(LocalReference(0)));
    assert_eq!(layout.resolve_var(0, 1, &text("t")), None);
    assert_eq!(layout.lookup_var(0, 3, &text("a")), Reference::Argument(ArgumentReference(0)));
    assert_eq!(layout.lookup_var(0, 3, &text("f")), Reference::This);
    assert_eq!(layout.lookup_var(0, 3, &text("y")), Reference::Closure(ClosureReference(1)));
}
