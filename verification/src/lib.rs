//! A small functional language with integers, booleans, mutable tuples and
//! first-class recursive functions, executed in three stages: expressions are
//! flattened into named atomic steps, names are laid out in frames, and the
//! flat program is run by an iterative interpreter over a reference-counted
//! heap and an explicit stack.

pub mod syntax;
pub mod fault;
pub mod heap_value;
pub mod heap;
pub mod stack;
pub mod ir_let;
pub mod ir_flat;
pub mod fib;

