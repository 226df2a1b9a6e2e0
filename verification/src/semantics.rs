//! What a program means: the outcome of each instruction, modifier and
//! function on a stack of arrays.
//!
//! A stack is a sequence whose last value is its top. A function of the
//! table may only name functions that stand before it, so every call goes
//! down in the table and every run ends; a reference that breaks this rule
//! is an underflow, the failure of a malformed assembly.
use crate::arrayops::{last, stack};
use crate::assembly::{Fused, Instr, Modifier, Program};
use crate::error::Fault;
use crate::pervasive::pervade;
use crate::primitive::{peek, prim_step, settle, Primitive};
use crate::scalar::ScalarOp;
use crate::shape::{product, row_shape};

use crate::value::{Array, Cell};
use vstd::prelude::*;

verus! {

pub type Outcome = Result<Seq<Array>, Fault>;

/// The array `a` with its leading axis replaced by the axes `frame`.
pub open spec fn reframe(a: Array, frame: Seq<usize>) -> Array {
    Array { kind: a.kind, shape: frame + row_shape(a.shape), cells: a.cells }
}

/// The array of shape `shape` whose every cell is `cell`.
pub open spec fn filled(shape: Seq<usize>, cell: Cell) -> Array {
    Array { kind: cell.kind(), shape, cells: Seq::new(product(shape), |i: int| cell) }
}

/// The value that a reduction by `op` starts from when there are no rows.
pub open spec fn identity_of(op: ScalarOp) -> Option<Cell> {
    match op {
        ScalarOp::Add => Some(Cell::Num(0)),
        ScalarOp::Mul => Some(Cell::Num(1)),
        ScalarOp::Min => Some(Cell::Num(i64::MAX)),
        ScalarOp::Max => Some(Cell::Num(i64::MIN)),
        _ => None,
    }
}

/// The result of reducing an array without rows: rows of the identity
/// element where the operation has one and the row fits in memory.
pub open spec fn reduce_empty(op: Option<ScalarOp>, a: Array) -> Result<Array, Fault> {
    match op {
        Some(op) => match identity_of(op) {
            Some(cell) => if product(row_shape(a.shape)) <= usize::MAX {
                Ok(filled(row_shape(a.shape), cell))
            } else {
                Err(Fault::ShapeMismatch)
            },
            None => Err(Fault::DomainError),
        },
        None => Err(Fault::DomainError),
    }
}

/// The pervasive operation that a function body consists of, if it is one
/// primitive and nothing more.
pub open spec fn sole_of(body: Seq<Instr>) -> Option<ScalarOp> {
    if body.len() == 1 {
        match body[0] {
            Instr::Prim(q) => q.scalar_op(),
            _ => None,
        }
    } else {
        None
    }
}

/// The pervasive operation that function `f` consists of, if it is one
/// primitive and nothing more.
pub open spec fn sole_op(p: Program, f: nat) -> Option<ScalarOp> {
    if f < p.functions.len() {
        sole_of(p.functions[f as int].body)
    } else {
        None
    }
}

/// Folding the rows of `a` from row `i` on by `op`, with `acc` on top.
pub open spec fn fold_op(op: ScalarOp, a: Array, i: nat, acc: Array) -> Result<Array, Fault>
    decreases a.rows() - i,
{
    if i >= a.rows() {
        Ok(acc)
    } else {
        match pervade(op, acc, a.row(i as int)) {
            Ok(next) => fold_op(op, a, i + 1, next),
            Err(e) => Err(e),
        }
    }
}

/// Reduction by one pervasive operation.
pub open spec fn reduce_op(op: ScalarOp, a: Array) -> Result<Array, Fault> {
    if a.rows() == 0 {
        reduce_empty(Some(op), a)
    } else {
        fold_op(op, a, 1, a.row(0))
    }
}

/// Scanning the rows of `a` from row `i` on by `op`; `outs` holds the
/// accumulators so far.
pub open spec fn scan_op_from(op: ScalarOp, a: Array, i: nat, outs: Seq<Array>) -> Result<
    Array,
    Fault,
>
    decreases a.rows() - i,
{
    if i >= a.rows() || outs.len() == 0 {
        stack(outs)
    } else {
        match pervade(op, outs.last(), a.row(i as int)) {
            Ok(next) => scan_op_from(op, a, i + 1, outs.push(next)),
            Err(e) => Err(e),
        }
    }
}

/// Scan by one pervasive operation.
pub open spec fn scan_op(op: ScalarOp, a: Array) -> Result<Array, Fault> {
    if a.rows() == 0 {
        Ok(a)
    } else {
        scan_op_from(op, a, 1, seq![a.row(0)])
    }
}

/// `op` applied to the top two values of each of `items`, from item `i`
/// on; `outs` holds the results so far, each on a stack of its own.
pub open spec fn op_map_from(op: ScalarOp, items: Seq<Seq<Array>>, i: nat, outs: Seq<Seq<Array>>) -> Result<
    Seq<Seq<Array>>,
    Fault,
>
    decreases items.len() - i,
{
    if i >= items.len() {
        Ok(outs)
    } else if items[i as int].len() != 2 {
        Err(Fault::StackUnderflow)
    } else {
        match pervade(op, items[i as int][1], items[i as int][0]) {
            Ok(out) => op_map_from(op, items, i + 1, outs.push(seq![out])),
            Err(e) => Err(e),
        }
    }
}

/// Table by one pervasive operation: `op` on every cell of `a` with every
/// cell of `b`, gathered into one array with the shape of `a` followed by
/// the shape of `b`.
pub open spec fn table_op(op: ScalarOp, a: Array, b: Array) -> Result<Array, Fault> {
    if a.cells.len() * b.cells.len() > usize::MAX {
        Err(Fault::ShapeMismatch)
    } else {
        match op_map_from(op, pair_items(a, b), 0, Seq::empty()) {
            Ok(outs) => match collect(outs, a.shape + b.shape, 1, 0) {
                Ok(out) => Ok(out[0]),
                Err(e) => Err(e),
            },
            Err(e) => Err(e),
        }
    }
}

/// Two values made one: joined, or coupled where `couple` is set.
pub open spec fn paired(couple: bool, top: Array, below: Array) -> Result<Array, Fault> {
    if couple {
        crate::arrayops::couple(top, below)
    } else {
        crate::arrayops::join(top, below)
    }
}

/// The top two values of each of `items` made one, from item `i` on;
/// `outs` holds the results so far, each on a stack of its own.
pub open spec fn pair_map_from(couple: bool, items: Seq<Seq<Array>>, i: nat, outs: Seq<Seq<Array>>) -> Result<
    Seq<Seq<Array>>,
    Fault,
>
    decreases items.len() - i,
{
    if i >= items.len() {
        Ok(outs)
    } else if items[i as int].len() != 2 {
        Err(Fault::StackUnderflow)
    } else {
        match paired(couple, items[i as int][1], items[i as int][0]) {
            Ok(out) => pair_map_from(couple, items, i + 1, outs.push(seq![out])),
            Err(e) => Err(e),
        }
    }
}

/// Table by join or by couple: every cell of `a` made one with every cell
/// of `b`, gathered into one array.
pub open spec fn table_pairs(couple: bool, a: Array, b: Array) -> Result<Array, Fault> {
    if a.cells.len() * b.cells.len() > usize::MAX {
        Err(Fault::ShapeMismatch)
    } else {
        match pair_map_from(couple, pair_items(a, b), 0, Seq::empty()) {
            Ok(outs) => match collect(outs, a.shape + b.shape, 1, 0) {
                Ok(out) => Ok(out[0]),
                Err(e) => Err(e),
            },
            Err(e) => Err(e),
        }
    }
}

/// `first` and then `second` applied to the top two values of each of
/// `items`, from item `i` on; `outs` holds the pairs of results so far,
/// that of `second` below that of `first`.
pub open spec fn op_map2_from(
    first: ScalarOp,
    second: ScalarOp,
    items: Seq<Seq<Array>>,
    i: nat,
    outs: Seq<Seq<Array>>,
) -> Result<Seq<Seq<Array>>, Fault>
    decreases items.len() - i,
{
    if i >= items.len() {
        Ok(outs)
    } else if items[i as int].len() != 2 {
        Err(Fault::StackUnderflow)
    } else {
        match pervade(first, items[i as int][1], items[i as int][0]) {
            Ok(x) => match pervade(second, items[i as int][1], items[i as int][0]) {
                Ok(y) => op_map2_from(first, second, items, i + 1, outs.push(seq![y, x])),
                Err(e) => Err(e),
            },
            Err(e) => Err(e),
        }
    }
}

/// Table by a fork of two pervasive operations: for every cell of `a` with
/// every cell of `b`, what `first` makes of the pair and what `second`
/// makes of it, gathered into two arrays.
pub open spec fn table_fork(first: ScalarOp, second: ScalarOp, a: Array, b: Array) -> Outcome {
    if a.cells.len() * b.cells.len() > usize::MAX {
        Err(Fault::ShapeMismatch)
    } else {
        match op_map2_from(first, second, pair_items(a, b), 0, Seq::empty()) {
            Ok(outs) => collect(outs, a.shape + b.shape, 2, 0),
            Err(e) => Err(e),
        }
    }
}

/// Every row of `a` from row `i` on reduced by `op`; `outs` holds the
/// results so far, each on a stack of its own.
pub open spec fn rows_reduce_from(op: ScalarOp, a: Array, i: nat, outs: Seq<Seq<Array>>) -> Result<
    Seq<Seq<Array>>,
    Fault,
>
    decreases a.rows() - i,
{
    if i >= a.rows() {
        Ok(outs)
    } else {
        match reduce_op(op, a.row(i as int)) {
            Ok(v) => rows_reduce_from(op, a, i + 1, outs.push(seq![v])),
            Err(e) => Err(e),
        }
    }
}

/// Every row of `a` reduced by `op`, the results gathered as the rows of
/// one array.
pub open spec fn rows_reduce(op: ScalarOp, a: Array) -> Result<Array, Fault> {
    match rows_reduce_from(op, a, 0, Seq::empty()) {
        Ok(outs) => match collect(outs, seq![a.rows() as usize], 1, 0) {
            Ok(out) => Ok(out[0]),
            Err(e) => Err(e),
        },
        Err(e) => Err(e),
    }
}

/// The reduction by `reducer` of the table of `a` and `b` by `tabler`.
pub open spec fn reduce_table(reducer: ScalarOp, tabler: ScalarOp, a: Array, b: Array) -> Result<
    Array,
    Fault,
> {
    match table_op(tabler, a, b) {
        Ok(t) => reduce_op(reducer, t),
        Err(e) => Err(e),
    }
}

/// The array `c` once for each of `n` items, laid out along `frame`.
pub open spec fn repeat(c: Array, n: nat, frame: Seq<usize>) -> Result<Array, Fault> {
    match stack(Seq::new(n, |j: int| c)) {
        Ok(v) => Ok(reframe(v, frame)),
        Err(e) => Err(e),
    }
}

/// What `Repeat` makes of the array `a`: the constant once for every row
/// of `a`, or for every cell where `each` is set. With rows or cells to
/// repeat for, a constant that the pool lacks is an underflow.
pub open spec fn repeat_for(constants: Seq<Array>, k: usize, each: bool, a: Array) -> Result<
    Array,
    Fault,
> {
    let n = if each {
        a.cells.len()
    } else {
        a.rows()
    };
    let frame = if each {
        a.shape
    } else {
        seq![a.rows() as usize]
    };
    if n == 0 {
        repeat(a, 0, frame)
    } else if k < constants.len() {
        repeat(constants[k as int], n, frame)
    } else {
        Err(Fault::StackUnderflow)
    }
}

/// Column `k` of the outputs: from each output stack its value `k`.
pub open spec fn column(outs: Seq<Seq<Array>>, k: int) -> Seq<Array> {
    Seq::new(outs.len(), |i: int| outs[i][k])
}

/// The output stacks of one function over many items, gathered into one
/// array per output, each laid out along the axes `frame`.
pub open spec fn collect(outs: Seq<Seq<Array>>, frame: Seq<usize>, n: nat, k: nat) -> Outcome
    decreases n - k,
{
    if k >= n {
        Ok(Seq::empty())
    } else {
        match stack(column(outs, k as int)) {
            Ok(a) => match collect(outs, frame, n, k + 1) {
                Ok(rest) => Ok(seq![reframe(a, frame)] + rest),
                Err(e) => Err(e),
            },
            Err(e) => Err(e),
        }
    }
}

/// The stacks that `Rows` hands to its function: each row alone.
pub open spec fn row_items(a: Array) -> Seq<Seq<Array>> {
    Seq::new(a.rows(), |i: int| seq![a.row(i)])
}

/// The stacks that `Each` hands to its function: each cell alone, as a
/// scalar.
pub open spec fn cell_items(a: Array) -> Seq<Seq<Array>> {
    Seq::new(a.cells.len(), |i: int| seq![Array::scalar(a.cells[i])])
}

/// The stacks that `Table` hands to its function: every cell of `a` on top
/// of every cell of `b`, the cells of `b` varying fastest.
pub open spec fn pair_items(a: Array, b: Array) -> Seq<Seq<Array>> {
    Seq::new(
        a.cells.len() * b.cells.len(),
        |k: int|
            seq![
                Array::scalar(b.cells[k % (b.cells.len() as int)]),
                Array::scalar(a.cells[k / (b.cells.len() as int)]),
            ],
    )
}

/// The built-in functions that a fused instruction stands for, in the
/// order in which they run.
pub open spec fn idiom(x: Fused) -> Seq<Primitive> {
    match x {
        Fused::Last => seq![Primitive::Reverse, Primitive::First],
        Fused::GradeFirst { desc } => seq![grader(desc), Primitive::First],
        Fused::GradeLast { desc } => seq![grader(desc), Primitive::Reverse, Primitive::First],
        Fused::WhereFirst => seq![Primitive::Where, Primitive::First],
        Fused::WhereLast => seq![Primitive::Where, Primitive::Reverse, Primitive::First],
        Fused::Sort { desc } => seq![Primitive::Dup, grader(desc), Primitive::Select],
        Fused::Transposes(n) => Seq::new(n as nat, |j: int| Primitive::Transpose),
        _ => Seq::empty(),
    }
}

pub open spec fn grader(desc: bool) -> Primitive {
    if desc {
        Primitive::Fall
    } else {
        Primitive::Rise
    }
}

/// Runs built-in functions one after the other, from `ps[i]` on.
pub open spec fn run_prims(ps: Seq<Primitive>, i: nat, s: Seq<Array>) -> Outcome
    decreases ps.len() - i,
{
    if i >= ps.len() {
        Ok(s)
    } else {
        match prim_step(ps[i as int], s) {
            Ok(t) => run_prims(ps, i + 1, t),
            Err(e) => Err(e),
        }
    }
}

impl Program {
    pub open spec fn has(self, level: nat, f: nat) -> bool {
        f < level && f < self.functions.len()
    }

    /// Runs the instructions of `body` from `pc` on. `level` is the place
    /// of `body` in the function table, or the table's length for the
    /// top-level instructions.
    pub open spec fn run_from(self, level: nat, body: Seq<Instr>, pc: nat, s: Seq<Array>) -> Outcome
        decreases level, body.len() - pc + 2, 0nat,
    {
        if pc >= body.len() {
            Ok(s)
        } else {
            match self.step(level, body[pc as int], s) {
                Ok(t) => self.run_from(level, body, pc + 1, t),
                Err(e) => Err(e),
            }
        }
    }

    /// Calls function `f` on the stack `s`.
    pub open spec fn call(self, level: nat, f: nat, s: Seq<Array>) -> Outcome
        decreases level, 0nat, 0nat,
    {
        if self.has(level, f) {
            self.run_from(f, self.functions[f as int].body, 0, s)
        } else {
            Err(Fault::StackUnderflow)
        }
    }

    /// Calls function `f` on a stack of its own that holds `args` and
    /// nothing else, and expects exactly `outputs` values back.
    pub open spec fn apply(self, level: nat, f: nat, args: Seq<Array>, outputs: nat) -> Outcome
        decreases level, 0nat, 1nat,
    {
        match self.call(level, f, args) {
            Ok(out) => if out.len() == outputs {
                Ok(out)
            } else {
                Err(Fault::StackUnderflow)
            },
            Err(e) => Err(e),
        }
    }

    /// Folds the rows of `a` from row `i` on: each step calls `f` with the
    /// accumulator on top of the next row.
    pub open spec fn fold(self, level: nat, f: nat, a: Array, i: nat, acc: Array) -> Result<
        Array,
        Fault,
    >
        decreases level, 0nat, a.rows() - i + 2,
    {
        if i >= a.rows() {
            Ok(acc)
        } else {
            match self.apply(level, f, seq![a.row(i as int), acc], 1) {
                Ok(out) => self.fold(level, f, a, i + 1, out[0]),
                Err(e) => Err(e),
            }
        }
    }

    /// `Reduce`: the rows folded from the first on. A single row reduces to
    /// itself; no rows reduce to rows of the identity element where `f` is
    /// one pervasive primitive that has one, and to a domain error
    /// otherwise.
    pub open spec fn reduce(self, level: nat, f: nat, a: Array) -> Result<Array, Fault>
        decreases level, 0nat, a.rows() + 3,
    {
        if !self.has(level, f) {
            Err(Fault::StackUnderflow)
        } else if a.rows() == 0 {
            reduce_empty(sole_op(self, f), a)
        } else {
            self.fold(level, f, a, 1, a.row(0))
        }
    }

    /// Like `fold`, but keeps every accumulator: `outs` holds those so far.
    pub open spec fn scan_from(self, level: nat, f: nat, a: Array, i: nat, outs: Seq<Array>) -> Result<
        Array,
        Fault,
    >
        decreases level, 0nat, a.rows() - i + 2,
    {
        if i >= a.rows() || outs.len() == 0 {
            stack(outs)
        } else {
            match self.apply(level, f, seq![a.row(i as int), outs.last()], 1) {
                Ok(out) => self.scan_from(level, f, a, i + 1, outs.push(out[0])),
                Err(e) => Err(e),
            }
        }
    }

    /// `Scan`: every accumulator of the fold as a row of the result.
    pub open spec fn scan(self, level: nat, f: nat, a: Array) -> Result<Array, Fault>
        decreases level, 0nat, a.rows() + 3,
    {
        if !self.has(level, f) {
            Err(Fault::StackUnderflow)
        } else if a.rows() == 0 {
            Ok(a)
        } else {
            self.scan_from(level, f, a, 1, seq![a.row(0)])
        }
    }

    /// Applies `f` to each of `items` from item `i` on; `outs` holds the
    /// output stacks so far.
    pub open spec fn map_from(
        self,
        level: nat,
        f: nat,
        items: Seq<Seq<Array>>,
        i: nat,
        outs: Seq<Seq<Array>>,
    ) -> Result<Seq<Seq<Array>>, Fault>
        decreases level, 0nat, items.len() - i + 2,
    {
        if !self.has(level, f) {
            Err(Fault::StackUnderflow)
        } else if i >= items.len() {
            Ok(outs)
        } else {
            match self.apply(level, f, items[i as int], self.functions[f as int].outputs) {
                Ok(out) => self.map_from(level, f, items, i + 1, outs.push(out)),
                Err(e) => Err(e),
            }
        }
    }

    /// Applies `f` to each of `items` and gathers each of its outputs into
    /// one array laid out along `frame`.
    pub open spec fn map(self, level: nat, f: nat, items: Seq<Seq<Array>>, frame: Seq<usize>) -> Outcome
        decreases level, 0nat, items.len() + 3,
    {
        match self.map_from(level, f, items, 0, Seq::empty()) {
            Ok(outs) => collect(outs, frame, self.functions[f as int].outputs, 0),
            Err(e) => Err(e),
        }
    }

    /// `Fork` and `Bracket`: `f` runs on `fa` and `g` on `ga`, each on a
    /// stack of its own; the outputs of `g` go back first, those of `f` on
    /// top of them, so that the first function's result is the top of the
    /// stack.
    pub open spec fn both(self, level: nat, f: nat, g: nat, fa: Seq<Array>, ga: Seq<Array>) -> Outcome
        decreases level, 0nat, 2nat,
    {
        match self.call(level, f, fa) {
            Ok(fo) => match self.call(level, g, ga) {
                Ok(go) => Ok(go + fo),
                Err(e) => Err(e),
            },
            Err(e) => Err(e),
        }
    }

    /// What a function that is nothing but the fork of `f` and `g`, or
    /// their bracket where `bracket` is set, makes of one item, where
    /// exactly `outputs` values are expected back: the outputs of `g` and
    /// on top of them those of `f`, above what of the item neither takes.
    pub open spec fn fork_item(
        self,
        h: nat,
        bracket: bool,
        f: usize,
        g: usize,
        item: Seq<Array>,
        outputs: nat,
    ) -> Outcome {
        let n = item.len() as int;
        let fi = self.functions[f as int].inputs as int;
        let gi = self.functions[g as int].inputs as int;
        let k = if bracket {
            fi + gi
        } else if fi >= gi {
            fi
        } else {
            gi
        };
        let ga = if bracket {
            item.subrange(n - fi - gi, n - fi)
        } else {
            item.skip(n - gi)
        };
        if n < k {
            Err(Fault::StackUnderflow)
        } else {
            match self.call(h, f as nat, item.skip(n - fi)) {
                Ok(fo) => match self.call(h, g as nat, ga) {
                    Ok(go) => if (item.take(n - k) + (go + fo)).len() == outputs {
                        Ok(item.take(n - k) + (go + fo))
                    } else {
                        Err(Fault::StackUnderflow)
                    },
                    Err(e) => Err(e),
                },
                Err(e) => Err(e),
            }
        }
    }

    /// What a modifier makes of the stack.
    pub open spec fn modify(self, level: nat, m: Modifier, s: Seq<Array>) -> Outcome
        decreases level, 1nat, 0nat,
    {
        let n = s.len() as int;
        match m {
            Modifier::Dip(f) => if n < 1 {
                Err(Fault::StackUnderflow)
            } else {
                match self.call(level, f as nat, s.drop_last()) {
                    Ok(t) => Ok(t.push(s.last())),
                    Err(e) => Err(e),
                }
            },
            Modifier::Gap(f) => if n < 1 {
                Err(Fault::StackUnderflow)
            } else {
                self.call(level, f as nat, s.drop_last())
            },
            Modifier::Fork(f, g) => if !self.has(level, f as nat) || !self.has(level, g as nat) {
                Err(Fault::StackUnderflow)
            } else {
                let fi = self.functions[f as int].inputs as int;
                let gi = self.functions[g as int].inputs as int;
                let k = if fi >= gi {
                    fi
                } else {
                    gi
                };
                if n < k {
                    Err(Fault::StackUnderflow)
                } else {
                    match self.both(level, f as nat, g as nat, s.skip(n - fi), s.skip(n - gi)) {
                        Ok(out) => Ok(s.take(n - k) + out),
                        Err(e) => Err(e),
                    }
                }
            },
            Modifier::Bracket(f, g) => if !self.has(level, f as nat) || !self.has(level, g as nat) {
                Err(Fault::StackUnderflow)
            } else {
                let fi = self.functions[f as int].inputs as int;
                let gi = self.functions[g as int].inputs as int;
                if n < fi + gi {
                    Err(Fault::StackUnderflow)
                } else {
                    match self.both(
                        level,
                        f as nat,
                        g as nat,
                        s.skip(n - fi),
                        s.subrange(n - fi - gi, n - fi),
                    ) {
                        Ok(out) => Ok(s.take(n - fi - gi) + out),
                        Err(e) => Err(e),
                    }
                }
            },
            Modifier::Try(f, h) => match self.call(level, f as nat, s) {
                Ok(t) => Ok(t),
                Err(e) => if e.recoverable() {
                    self.call(level, h as nat, s)
                } else {
                    Err(e)
                },
            },
            Modifier::Reduce(f) => if n < 1 {
                Err(Fault::StackUnderflow)
            } else {
                settle(s, 1, self.reduce(level, f as nat, s.last()))
            },
            Modifier::Scan(f) => if n < 1 {
                Err(Fault::StackUnderflow)
            } else {
                settle(s, 1, self.scan(level, f as nat, s.last()))
            },
            Modifier::Rows(f) => if n < 1 {
                Err(Fault::StackUnderflow)
            } else {
                match self.map(level, f as nat, row_items(s.last()), seq![s.last().rows() as usize]) {
                    Ok(out) => Ok(s.drop_last() + out),
                    Err(e) => Err(e),
                }
            },
            Modifier::Each(f) => if n < 1 {
                Err(Fault::StackUnderflow)
            } else {
                match self.map(level, f as nat, cell_items(s.last()), s.last().shape) {
                    Ok(out) => Ok(s.drop_last() + out),
                    Err(e) => Err(e),
                }
            },
            Modifier::Table(f) => if n < 2 {
                Err(Fault::StackUnderflow)
            } else if peek(s, 0).cells.len() * peek(s, 1).cells.len() > usize::MAX {
                Err(Fault::ShapeMismatch)
            } else {
                match self.map(
                    level,
                    f as nat,
                    pair_items(peek(s, 0), peek(s, 1)),
                    peek(s, 0).shape + peek(s, 1).shape,
                ) {
                    Ok(out) => Ok(s.take(n - 2) + out),
                    Err(e) => Err(e),
                }
            },
        }
    }

    /// What rows, each and table make of the stack: their function applied
    /// to every item, and each of its outputs gathered into one array. Any
    /// other modifier is out of place here.
    pub open spec fn iterate(self, level: nat, m: Modifier, s: Seq<Array>) -> Outcome
        decreases level, 1nat, 0nat,
    {
        let n = s.len() as int;
        match m {
            Modifier::Rows(f) => if n < 1 {
                Err(Fault::StackUnderflow)
            } else {
                match self.map(level, f as nat, row_items(s.last()), seq![s.last().rows() as usize]) {
                    Ok(out) => Ok(s.drop_last() + out),
                    Err(e) => Err(e),
                }
            },
            Modifier::Each(f) => if n < 1 {
                Err(Fault::StackUnderflow)
            } else {
                match self.map(level, f as nat, cell_items(s.last()), s.last().shape) {
                    Ok(out) => Ok(s.drop_last() + out),
                    Err(e) => Err(e),
                }
            },
            Modifier::Table(f) => if n < 2 {
                Err(Fault::StackUnderflow)
            } else if peek(s, 0).cells.len() * peek(s, 1).cells.len() > usize::MAX {
                Err(Fault::ShapeMismatch)
            } else {
                match self.map(
                    level,
                    f as nat,
                    pair_items(peek(s, 0), peek(s, 1)),
                    peek(s, 0).shape + peek(s, 1).shape,
                ) {
                    Ok(out) => Ok(s.take(n - 2) + out),
                    Err(e) => Err(e),
                }
            },
            _ => Err(Fault::StackUnderflow),
        }
    }

    /// What a fused instruction makes of the stack.
    pub open spec fn fused(self, level: nat, x: Fused, s: Seq<Array>) -> Outcome
        decreases level, 1nat, 1nat,
    {
        let n = s.len() as int;
        match x {
            Fused::Dips { depth, function } => if n < depth {
                Err(Fault::StackUnderflow)
            } else {
                match self.call(level, function as nat, s.take(n - depth)) {
                    Ok(t) => Ok(t + s.skip(n - depth)),
                    Err(e) => Err(e),
                }
            },
            Fused::ReduceOp(op) => if n < 1 {
                Err(Fault::StackUnderflow)
            } else {
                settle(s, 1, reduce_op(op, s.last()))
            },
            Fused::ScanOp(op) => if n < 1 {
                Err(Fault::StackUnderflow)
            } else {
                settle(s, 1, scan_op(op, s.last()))
            },
            Fused::Repeat { constant, each } => if n < 1 {
                Err(Fault::StackUnderflow)
            } else {
                settle(s, 1, repeat_for(self.constants, constant, each, s.last()))
            },
            Fused::RowsTranspose => if n < 1 {
                Err(Fault::StackUnderflow)
            } else {
                settle(s, 1, crate::transpose::rows_transpose(s.last()))
            },
            Fused::RowsReduce(op) => if n < 1 {
                Err(Fault::StackUnderflow)
            } else {
                settle(s, 1, rows_reduce(op, s.last()))
            },
            Fused::WindowsReduce(op) => if n < 2 {
                Err(Fault::StackUnderflow)
            } else {
                settle(s, 2, crate::windows::windows_reduce(op, peek(s, 0), peek(s, 1)))
            },
            Fused::ReduceTable(reducer, tabler) => if n < 2 {
                Err(Fault::StackUnderflow)
            } else {
                settle(s, 2, reduce_table(reducer, tabler, peek(s, 0), peek(s, 1)))
            },
            Fused::TableFork(first, second) => if n < 2 {
                Err(Fault::StackUnderflow)
            } else {
                match table_fork(first, second, peek(s, 0), peek(s, 1)) {
                    Ok(out) => Ok(s.take(n - 2) + out),
                    Err(e) => Err(e),
                }
            },
            Fused::TableOp(op) => if n < 2 {
                Err(Fault::StackUnderflow)
            } else {
                settle(s, 2, table_op(op, peek(s, 0), peek(s, 1)))
            },
            Fused::Forked(m) => self.iterate(level, m, s),
            Fused::TablePairs { couple } => if n < 2 {
                Err(Fault::StackUnderflow)
            } else {
                settle(s, 2, table_pairs(couple, peek(s, 0), peek(s, 1)))
            },
            _ => run_prims(idiom(x), 0, s),
        }
    }

    /// The rows of a stack-to-array literal: the top `n` values of the
    /// stack, the top one first.
    pub open spec fn literal_rows(s: Seq<Array>, n: nat) -> Seq<Array> {
        Seq::new(n, |j: int| peek(s, j))
    }

    /// What one instruction makes of the stack.
    pub open spec fn step(self, level: nat, instr: Instr, s: Seq<Array>) -> Outcome
        decreases level, 1nat, 2nat,
    {
        match instr {
            Instr::Push(c) => if c < self.constants.len() {
                Ok(s.push(self.constants[c as int]))
            } else {
                Err(Fault::StackUnderflow)
            },
            Instr::Prim(p) => prim_step(p, s),
            Instr::Call(f) => self.call(level, f as nat, s),
            Instr::MakeArray(n) => if s.len() < n {
                Err(Fault::StackUnderflow)
            } else {
                settle(s, n as int, stack(Self::literal_rows(s, n as nat)))
            },
            Instr::Modifier(m) => self.modify(level, m, s),
            Instr::Fused(x) => self.fused(level, x, s),
        }
    }

    /// The outcome of a whole program: the top-level instructions `main`
    /// run on an empty stack.
    pub open spec fn run(self, main: Seq<Instr>) -> Outcome {
        self.run_from(self.functions.len(), main, 0, Seq::empty())
    }
}

} // verus!
