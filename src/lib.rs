//! An interpreter for a small s-expression language: values, environments,
//! the evaluator with its call dispatch, the builtin registry and a reader.
//!
//! Choices the contracts rest on:
//! - Frames live in one arena (`env::Env`) and are addressed by index; a
//!   parent always has a smaller index than its children.
//! - A function's body runs in a frame whose parent is the caller's frame:
//!   free names resolve where the function is called, not where it was
//!   written. `let`, `let*`, `for` and each call open a frame of their own,
//!   closed when they return.
//! - A symbol is looked up in its frame, then up the parent links, then in
//!   the import tables along the same chain, the nearest first. Every frame
//!   has its own import table, so looking in the nearest one alone would
//!   hide imports from every function body.
//! - An unbound symbol evaluates to nil. A list whose head is not callable
//!   is data and evaluates to itself.
//! - Too few arguments, or a `_` among them, give a partial application;
//!   too many are an arity error.
//! - Floats are held as IEEE-754 bit patterns; their arithmetic, and all
//!   input and output, are done by the `host::Host` that runs the
//!   interpreter.
//! - `sem::sem_eval` states what evaluation gives over the frames' model;
//!   `eval::run` and the evaluator's functions are proved to agree with it
//!   wherever it is not `Open` (float arithmetic, input and output, and the
//!   few forms it does not describe).
//! - Evaluation nests at most `eval::MAX_DEPTH` deep and fails with a
//!   limit error beyond that, instead of exhausting the stack.

pub mod bindings;
pub mod builtin;
pub mod call;
pub mod env;
pub mod error;
pub mod eval;
pub mod host;
pub mod laws;
pub mod ops;
pub mod parse;
pub mod sem;
pub mod text;
pub mod value;
