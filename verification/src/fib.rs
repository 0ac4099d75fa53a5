//! A sample program: Fibonacci numbers by a tail-recursive helper.

use vstd::prelude::*;
use crate::ir_let::closedness::{all_closed_in, closed, closed_in, listed};
use crate::ir_let::interpreter::source_laws::{
    all_bind_apart, binds_apart, local_names, local_names_from, plain, used_inside,
};
use crate::syntax::{BinOp, Constant, Expr, Name, views};

verus! {

/// Whether `e` reads the variable `name`.
pub open spec fn reads(e: Expr, name: Name) -> bool {
    e matches Expr::Var { var_name } && var_name@ == name
}

/// Whether `e` is the integer `value`.
pub open spec fn is_number(e: Expr, value: i32) -> bool {
    e == Expr::Literal(Constant::Int { value })
}

/// Whether `e` is `n == 0`.
pub open spec fn is_base_test(e: Expr) -> bool {
    e matches Expr::BinOp { op, lhs, rhs } && op == BinOp::Eq && reads(*lhs, "n"@) && is_number(*rhs, 0)
}

/// Whether `e` is `fib_helper(n - 1, a + b, a)`.
pub open spec fn is_helper_step(e: Expr) -> bool {
    &&& e matches Expr::Call { func, args }
    &&& reads(*func, "fib_helper"@)
    &&& args.len() == 3
    &&& args[0] matches Expr::BinOp { op, lhs, rhs }
    &&& op == BinOp::Sub && reads(*lhs, "n"@) && is_number(*rhs, 1)
    &&& args[1] matches Expr::BinOp { op: second_op, lhs: second_lhs, rhs: second_rhs }
    &&& second_op == BinOp::Add && reads(*second_lhs, "a"@) && reads(*second_rhs, "b"@)
    &&& reads(args[2], "a"@)
}

/// Whether `e` is
/// `fun fib_helper(n, a, b) = if n == 0 then b else fib_helper(n - 1, a + b, a)`.
pub open spec fn is_fib_helper(e: Expr) -> bool {
    &&& e matches Expr::Fun { name, arg_names, body }
    &&& name@ == "fib_helper"@
    &&& arg_names.len() == 3 && arg_names[0]@ == "n"@ && arg_names[1]@ == "a"@ && arg_names[2]@ == "b"@
    &&& *body matches Expr::If { condition, branch_success, branch_failure }
    &&& is_base_test(*condition)
    &&& reads(*branch_success, "b"@)
    &&& is_helper_step(*branch_failure)
}

/// Whether `e` is `fun fib(n) = fib_helper(n, 1, 0)`.
pub open spec fn is_fib(e: Expr) -> bool {
    &&& e matches Expr::Fun { name, arg_names, body }
    &&& name@ == "fib"@
    &&& arg_names.len() == 1 && arg_names[0]@ == "n"@
    &&& *body matches Expr::Call { func, args }
    &&& reads(*func, "fib_helper"@)
    &&& args.len() == 3 && reads(args[0], "n"@) && is_number(args[1], 1) && is_number(args[2], 0)
}

/// Whether `e` is `let fib_helper = .. in let fib = .. in fib(n)`.
pub open spec fn is_fib_program(e: Expr, n: i32) -> bool {
    &&& e matches Expr::Let { name, definition, body }
    &&& name@ == "fib_helper"@
    &&& is_fib_helper(*definition)
    &&& *body matches Expr::Let { name: inner_name, definition: inner_definition, body: inner_body }
    &&& inner_name@ == "fib"@
    &&& is_fib(*inner_definition)
    &&& *inner_body matches Expr::Call { func, args }
    &&& reads(*func, "fib"@)
    &&& args.len() == 1 && is_number(args[0], n)
}

/// The sample program reads no variable that nothing binds.
pub proof fn lemma_fib_program_closed(e: Expr, n: i32)
    requires
        is_fib_program(e, n),
    ensures
        closed(e),
{
    reveal_with_fuel(closed_in, 8);
    reveal_with_fuel(all_closed_in, 5);
    if let Expr::Let { name, definition, body } = e {
        if let Expr::Fun { name: helper_name, arg_names, body: helper_body } = *definition {
            let inner = Set::<Name>::empty().union(Set::new(|n: Name| listed(views(arg_names@), n))).insert(
                helper_name@,
            );
            assert(views(arg_names@)[0] == "n"@);
            assert(views(arg_names@)[1] == "a"@);
            assert(views(arg_names@)[2] == "b"@);
            assert(inner.contains("n"@) && inner.contains("a"@) && inner.contains("b"@) && inner.contains(
                "fib_helper"@,
            ));
            assert(closed_in(*helper_body, inner));
        }
        let outer = Set::<Name>::empty().insert(name@);
        if let Expr::Let { name: inner_name, definition: inner_definition, body: inner_body } = *body {
            if let Expr::Fun { name: fib_name, arg_names, body: fib_body } = *inner_definition {
                let inner = outer.union(Set::new(|n: Name| listed(views(arg_names@), n))).insert(fib_name@);
                assert(views(arg_names@)[0] == "n"@);
                assert(inner.contains("n"@) && inner.contains("fib_helper"@));
                assert(closed_in(*fib_body, inner));
            }
            assert(closed_in(*inner_body, outer.insert(inner_name@)));
        }
    }
}

/// The names of the sample program are plain.
pub proof fn lemma_fib_names_plain()
    ensures
        plain("fib_helper"@),
        plain("fib"@),
        plain("n"@),
        plain("a"@),
        plain("b"@),
{
    reveal_strlit("fib_helper");
    reveal_strlit("fib");
    reveal_strlit("n");
    reveal_strlit("a");
    reveal_strlit("b");
    assert("fib_helper"@.last() == 'r');
    assert("fib"@.last() == 'b');
    assert("n"@.last() == 'n');
    assert("a"@.last() == 'a');
    assert("b"@.last() == 'b');
    assert(crate::ir_let::names::without_numeral("fib_helper"@) == "fib_helper"@);
    assert(crate::ir_let::names::without_numeral("fib"@) == "fib"@);
    assert(crate::ir_let::names::without_numeral("n"@) == "n"@);
    assert(crate::ir_let::names::without_numeral("a"@) == "a"@);
    assert(crate::ir_let::names::without_numeral("b"@) == "b"@);
}

/// No function of the sample program binds a name twice: it computes the
/// same with the names written here in place of the generated ones.
pub proof fn lemma_fib_program_binds_apart(e: Expr, n: i32)
    requires
        is_fib_program(e, n),
    ensures
        binds_apart(e, Set::empty()),
{
    lemma_fib_names_plain();
    reveal_strlit("fib_helper");
    reveal_strlit("fib");
    reveal_strlit("n");
    reveal_strlit("a");
    reveal_strlit("b");
    reveal_with_fuel(binds_apart, 8);
    reveal_with_fuel(all_bind_apart, 5);
    reveal_with_fuel(local_names, 8);
    reveal_with_fuel(local_names_from, 5);
    let used = Set::<Name>::empty();
    if let Expr::Let { name, definition, body } = e {
        if let Expr::Fun { name: helper_name, arg_names, body: helper_body } = *definition {
            let names = views(arg_names@);
            assert(names[0] == "n"@ && names[1] == "a"@ && names[2] == "b"@);
            assert(names.no_duplicates());
            assert(!names.contains(helper_name@));
            assert(binds_apart(*helper_body, used_inside(used, helper_name@, names)));
            assert(binds_apart(*definition, used));
        }
        let outer = used.union(local_names(*definition)).insert(name@);
        if let Expr::Let { name: inner_name, definition: inner_definition, body: inner_body } = *body {
            if let Expr::Fun { name: fib_name, arg_names, body: fib_body } = *inner_definition {
                let names = views(arg_names@);
                assert(names[0] == "n"@);
                assert(names.no_duplicates());
                assert(!names.contains(fib_name@));
                assert(binds_apart(*fib_body, used_inside(outer, fib_name@, names)));
                assert(binds_apart(*inner_definition, outer));
            }
            assert(binds_apart(*inner_body, outer.union(local_names(*inner_definition)).insert(inner_name@)));
            assert(binds_apart(*body, outer));
        }
    }
}

fn variable(name: &str) -> (e: Expr)
    ensures
        reads(e, name@),
{
    Expr::Var { var_name: name.to_owned() }
}

fn literal(value: i32) -> (e: Expr)
    ensures
        is_number(e, value),
{
    Expr::Literal(Constant::Int { value })
}

fn binary(op: BinOp, lhs: Expr, rhs: Expr) -> (e: Expr)
    ensures
        e == (Expr::BinOp { op, lhs: Box::new(lhs), rhs: Box::new(rhs) }),
{
    Expr::BinOp { op, lhs: Box::new(lhs), rhs: Box::new(rhs) }
}

/// `fun fib_helper(n, a, b) = if n == 0 then b else fib_helper(n - 1, a + b, a)`
fn fib_helper_def() -> (e: Expr)
    ensures
        is_fib_helper(e),
{
    let arg_names = vec!["n".to_owned(), "a".to_owned(), "b".to_owned()];
    let args = vec![
        binary(BinOp::Sub, variable("n"), literal(1)),
        binary(BinOp::Add, variable("a"), variable("b")),
        variable("a"),
    ];
    let step = Expr::Call { func: Box::new(variable("fib_helper")), args };
    assert(is_helper_step(step));
    Expr::Fun {
        name: "fib_helper".to_owned(),
        arg_names,
        body: Box::new(
            Expr::If {
                condition: Box::new(binary(BinOp::Eq, variable("n"), literal(0))),
                branch_success: Box::new(variable("b")),
                branch_failure: Box::new(step),
            },
        ),
    }
}

/// `fun fib(n) = fib_helper(n, 1, 0)`
fn fib_def() -> (e: Expr)
    ensures
        is_fib(e),
{
    let arg_names = vec!["n".to_owned()];
    let args = vec![variable("n"), literal(1), literal(0)];
    Expr::Fun {
        name: "fib".to_owned(),
        arg_names,
        body: Box::new(Expr::Call { func: Box::new(variable("fib_helper")), args }),
    }
}

/// `let fib_helper = .. in let fib = .. in fib(n)`: the program that computes
/// the `n`th Fibonacci number. It reads no name that nothing binds, and none
/// of its functions binds a name twice.
pub fn fib_test(n: i32) -> (e: Expr)
    ensures
        is_fib_program(e, n),
        closed(e),
        binds_apart(e, Set::empty()),
{
    let args = vec![literal(n)];
    let program = Expr::Let {
        name: "fib_helper".to_owned(),
        definition: Box::new(fib_helper_def()),
        body: Box::new(
            Expr::Let {
                name: "fib".to_owned(),
                definition: Box::new(fib_def()),
                body: Box::new(Expr::Call { func: Box::new(variable("fib")), args }),
            },
        ),
    };
    proof {
        lemma_fib_program_closed(program, n);
        lemma_fib_program_binds_apart(program, n);
    }
    program
}

} // verus!
