//! Effect bodies, expressed as data.
//!
//! A computation's re-run procedure is a small program over signals: it can
//! read a cell (registering a dependency), write a cell (triggering
//! propagation), branch on a cell's value, spawn a nested child effect, or
//! fail. Because bodies are data, the engine can interpret and re-run them,
//! and the interpretation itself is verified.

use vstd::prelude::*;

verus! {

/// A handle to a value cell. Handles are plain ids into the runtime that
/// created them; they are only meaningful together with that runtime.
#[derive(Clone, Copy, PartialEq, Eq, Structural, Debug)]
pub struct Signal {
    pub id: usize,
}

/// One step of an effect body.
#[derive(Debug)]
pub enum Op {
    /// Do nothing.
    Skip,
    /// Read a cell; the read is tracked and recorded in the runtime's log.
    Read(Signal),
    /// Write a cell; subscribers of the cell become pending.
    Write(Signal, u64),
    /// Run the first program, then (if it did not fail) the second.
    Then(Box<Op>, Box<Op>),
    /// Read a cell; if its value is non-zero run the first program,
    /// otherwise the second. The read of the scrutinee is tracked.
    Branch(Signal, Box<Op>, Box<Op>),
    /// Create a child effect with the given body and run it immediately.
    Child(Box<Op>),
    /// Abort this computation's current run with a failure.
    Fail,
}

/// Every signal mentioned by the program refers to one of the first
/// `n_cells` cells of the runtime.
pub open spec fn op_valid(op: Op, n_cells: int) -> bool
    decreases op,
{
    match op {
        Op::Skip => true,
        Op::Read(s) => s.id < n_cells,
        Op::Write(s, _) => s.id < n_cells,
        Op::Then(a, b) => op_valid(*a, n_cells) && op_valid(*b, n_cells),
        Op::Branch(s, a, b) => s.id < n_cells && op_valid(*a, n_cells) && op_valid(*b, n_cells),
        Op::Child(b) => op_valid(*b, n_cells),
        Op::Fail => true,
    }
}

/// The program neither writes a cell nor fails: running it can only read
/// cells and create children, so it never makes further work pending.
pub open spec fn op_calm(op: Op) -> bool
    decreases op,
{
    match op {
        Op::Skip => true,
        Op::Read(_) => true,
        Op::Write(_, _) => false,
        Op::Then(a, b) => op_calm(*a) && op_calm(*b),
        Op::Branch(_, a, b) => op_calm(*a) && op_calm(*b),
        Op::Child(b) => op_calm(*b),
        Op::Fail => false,
    }
}

/// The program never writes a cell: it may read, nest children, and fail,
/// but it cannot make further work pending, so a round over such programs
/// is a single deduplicated pass.
pub open spec fn op_quiet(op: Op) -> bool
    decreases op,
{
    match op {
        Op::Skip => true,
        Op::Read(_) => true,
        Op::Write(_, _) => false,
        Op::Then(a, b) => op_quiet(*a) && op_quiet(*b),
        Op::Branch(_, a, b) => op_quiet(*a) && op_quiet(*b),
        Op::Child(b) => op_quiet(*b),
        Op::Fail => true,
    }
}

/// The program fails on every path: whatever the cells hold, running it
/// reaches [`Op::Fail`] (and, until then, performs no write). This is a
/// conservative syntactic check — a program that writes before failing is
/// not covered — but where it holds, the engine promises a
/// failure result.
pub open spec fn op_must_fail(op: Op) -> bool
    decreases op,
{
    match op {
        Op::Skip => false,
        Op::Read(_) => false,
        Op::Write(_, _) => false,
        Op::Then(a, b) => op_must_fail(*a) || (op_calm(*a) && op_must_fail(*b)),
        Op::Branch(_, a, b) => op_must_fail(*a) && op_must_fail(*b),
        Op::Child(b) => op_must_fail(*b),
        Op::Fail => true,
    }
}

/// The program only reads: no write, no failure, no nested effect. For such
/// a program a run is a pure function of the cell values, and the engine's
/// contracts state exactly which log entries it appends.
pub open spec fn op_flat(op: Op) -> bool
    decreases op,
{
    match op {
        Op::Skip => true,
        Op::Read(_) => true,
        Op::Write(_, _) => false,
        Op::Then(a, b) => op_flat(*a) && op_flat(*b),
        Op::Branch(_, a, b) => op_flat(*a) && op_flat(*b),
        Op::Child(_) => false,
        Op::Fail => false,
    }
}

/// A program that only reads is in particular calm.
pub proof fn lemma_flat_is_calm(op: Op)
    requires
        op_flat(op),
    ensures
        op_calm(op),
    decreases op,
{
    match op {
        Op::Then(a, b) => {
            lemma_flat_is_calm(*a);
            lemma_flat_is_calm(*b);
        }
        Op::Branch(_, a, b) => {
            lemma_flat_is_calm(*a);
            lemma_flat_is_calm(*b);
        }
        _ => {}
    }
}

/// A validity bound only grows: a program valid for a runtime stays valid
/// when cells are added.
pub proof fn lemma_op_valid_mono(op: Op, n: int, m: int)
    requires
        op_valid(op, n),
        n <= m,
    ensures
        op_valid(op, m),
    decreases op,
{
    match op {
        Op::Then(a, b) => {
            lemma_op_valid_mono(*a, n, m);
            lemma_op_valid_mono(*b, n, m);
        }
        Op::Branch(_, a, b) => {
            lemma_op_valid_mono(*a, n, m);
            lemma_op_valid_mono(*b, n, m);
        }
        Op::Child(b) => {
            lemma_op_valid_mono(*b, n, m);
        }
        _ => {}
    }
}

/// Executable check of [`op_valid`]: callers that receive a program from
/// outside can test it against a runtime's cell count before installing it.
pub fn op_valid_check(op: &Op, n_cells: usize) -> (b: bool)
    ensures
        b == op_valid(*op, n_cells as int),
    decreases *op,
{
    match op {
        Op::Skip => true,
        Op::Read(s) => s.id < n_cells,
        Op::Write(s, _) => s.id < n_cells,
        Op::Then(a, b) => op_valid_check(a, n_cells) && op_valid_check(b, n_cells),
        Op::Branch(s, a, b) => s.id < n_cells && op_valid_check(a, n_cells) && op_valid_check(
            b,
            n_cells,
        ),
        Op::Child(b) => op_valid_check(b, n_cells),
        Op::Fail => true,
    }
}

/// Structural deep copy of a program.
///
/// Bodies are stored in the runtime and also passed around while the runtime
/// is mutably borrowed, so the engine copies them explicitly; the copy is
/// proved equal to the original, which `derive(Clone)` would not give.
pub fn copy_op(op: &Op) -> (r: Op)
    ensures
        r == *op,
    decreases *op,
{
    match op {
        Op::Skip => Op::Skip,
        Op::Read(s) => Op::Read(*s),
        Op::Write(s, v) => Op::Write(*s, *v),
        Op::Then(a, b) => Op::Then(Box::new(copy_op(a)), Box::new(copy_op(b))),
        Op::Branch(s, a, b) => Op::Branch(*s, Box::new(copy_op(a)), Box::new(copy_op(b))),
        Op::Child(b) => Op::Child(Box::new(copy_op(b))),
        Op::Fail => Op::Fail,
    }
}

} // verus!
