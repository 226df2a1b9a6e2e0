//! The reduction of a table without the table: each row of the table is
//! made when the fold comes to it, and dropped after.
use crate::error::{Fault, RuntimeError};
use crate::fusion::{lemma_pair_index, lemma_table_direct, pair_cell, table_direct};
use crate::pervasive::{pervade, pervade_values};
use crate::scalar::{result_kind, ScalarOp};
use crate::semantics::{fold_op, reduce_op, reduce_table, table_op};
use crate::shape::{lemma_product_concat, lemma_row_bounds, row_len, row_shape};
use crate::value::{lemma_row_valid, Array, Cell, Value};
use crate::vm::{reduce_op_value, table_op_value, yields};
use vstd::prelude::*;

verus! {

/// Place `k` of row `i` of a table, counted in the whole table, pairs the
/// cells that place `k` pairs in the table of row `i` alone.
proof fn lemma_row_pair(op: ScalarOp, a: Array, b: Array, i: int, k: int)
    requires
        a.valid(),
        b.valid(),
        a.shape.len() >= 1,
        0 <= i < a.rows(),
        0 <= k < row_len(a.shape) * b.cells.len(),
    ensures
        0 <= i * (row_len(a.shape) * b.cells.len()) + k < a.cells.len() * b.cells.len(),
        pair_cell(op, a, b, i * (row_len(a.shape) * b.cells.len()) + k) == pair_cell(
            op,
            a.row(i),
            b,
            k,
        ),
{
    let rl = row_len(a.shape) as int;
    let nb = b.cells.len() as int;
    let width = rl * nb;
    let row = a.row(i);
    lemma_row_valid(a, i);
    lemma_row_bounds(i as nat, a.rows(), rl as nat);
    lemma_pair_index(rl as nat, nb as nat, k);
    let q = k / nb;
    let r = k % nb;
    vstd::arithmetic::div_mod::lemma_fundamental_div_mod(k, nb);
    let x = i * width + k;
    assert(x == (i * rl + q) * nb + r) by (nonlinear_arith)
        requires
            x == i * (rl * nb) + k,
            k == nb * q + r,
    ;
    vstd::arithmetic::div_mod::lemma_fundamental_div_mod_converse(x, nb, i * rl + q, r);
    assert(0 <= i * rl) by (nonlinear_arith)
        requires
            0 <= i,
            0 <= rl,
    ;
    assert(row.cells[q] == a.cells[i * rl + q]);
    assert(0 <= x < a.cells.len() * nb) by (nonlinear_arith)
        requires
            x == (i * rl + q) * nb + r,
            0 <= r < nb,
            0 <= i * rl + q < a.cells.len(),
    ;
}

/// The table of valid arrays, where the first has rows, is made of the
/// tables of its rows: it succeeds exactly if they all do, and its rows are
/// their results.
pub proof fn lemma_table_rows(op: ScalarOp, a: Array, b: Array, i: int)
    requires
        a.valid(),
        b.valid(),
        a.shape.len() >= 1,
        0 <= i < a.rows(),
        a.cells.len() * b.cells.len() <= usize::MAX,
    ensures
        row_len(a.shape) * b.cells.len() <= usize::MAX,
        table_direct(op, a, b) matches Ok(t) ==> table_direct(op, a.row(i), b) == Ok::<
            Array,
            Fault,
        >(t.row(i)) && t.rows() == a.rows() && t.valid(),
        table_direct(op, a.row(i), b) is Err ==> table_direct(op, a, b) is Err,
{
    let rl = row_len(a.shape) as int;
    let nb = b.cells.len() as int;
    let width = rl * nb;
    let n = a.cells.len() * b.cells.len();
    let row = a.row(i);
    lemma_row_valid(a, i);
    lemma_table_direct(op, a, b);
    lemma_product_concat(row_shape(a.shape), b.shape);
    assert(row.cells.len() * nb == width);
    assert(n == a.rows() * width) by (nonlinear_arith)
        requires
            n == a.cells.len() * nb,
            a.cells.len() == a.rows() * rl,
            width == rl * nb,
    ;
    lemma_row_bounds(i as nat, a.rows(), width as nat);
    assert(0 <= i * width) by (nonlinear_arith)
        requires
            0 <= i,
            0 <= width,
    ;
    assert((a.shape + b.shape).drop_first() =~= row_shape(a.shape) + b.shape);
    assert forall|k: int| 0 <= k < width implies pair_cell(op, a, b, i * width + k)
        == #[trigger] pair_cell(op, row, b, k) by {
        lemma_row_pair(op, a, b, i, k);
    }
    if let Ok(t) = table_direct(op, a, b) {
        assert(row_shape(t.shape) =~= row_shape(a.shape) + b.shape);
        assert(row_len(t.shape) == width);
        if n > 0 {
            assert(width > 0) by (nonlinear_arith)
                requires
                    n == a.rows() * width,
                    n > 0,
                    width >= 0,
            ;
            assert forall|k: int| 0 <= k < width implies (#[trigger] pair_cell(op, row, b, k)) is Ok by {
                assert(pair_cell(op, a, b, i * width + k) is Ok);
            }
            let part = table_direct(op, row, b)->Ok_0;
            assert(part.cells =~= t.row(i).cells);
        } else {
            assert(width == 0) by (nonlinear_arith)
                requires
                    n == a.rows() * width,
                    n == 0,
                    a.rows() > 0,
                    width >= 0,
            ;
            assert(t.row(i).cells =~= Seq::<Cell>::empty());
        }
    } else {
        // The whole fails; nothing to show of this row.
    }
    if table_direct(op, row, b) is Err {
        if width > 0 && result_kind(op, a.kind, b.kind) is Some {
            let k = choose|k: int| 0 <= k < width && !((#[trigger] pair_cell(op, row, b, k)) is Ok);
            lemma_row_pair(op, a, b, i, k);
            assert(!(pair_cell(op, a, b, i * width + k) is Ok));
        }
        if width > 0 {
            assert(n > 0) by (nonlinear_arith)
                requires
                    n == a.rows() * width,
                    a.rows() > 0,
                    width > 0,
            ;
        }
    }
}

/// Where the table of every row succeeds, so does the table of the whole.
pub proof fn lemma_table_whole(op: ScalarOp, a: Array, b: Array)
    requires
        a.valid(),
        b.valid(),
        a.shape.len() >= 1,
        a.rows() >= 1,
        a.cells.len() * b.cells.len() <= usize::MAX,
        forall|i: int| 0 <= i < a.rows() ==> (#[trigger] table_direct(op, a.row(i), b)) is Ok,
    ensures
        table_direct(op, a, b) is Ok,
{
    let rl = row_len(a.shape) as int;
    let nb = b.cells.len() as int;
    let width = rl * nb;
    let n = a.cells.len() * b.cells.len();
    assert(n == a.rows() * width) by (nonlinear_arith)
        requires
            n == a.cells.len() * nb,
            a.cells.len() == a.rows() * rl,
            width == rl * nb,
    ;
    if table_direct(op, a, b) is Err {
        assert(n > 0);
        assert(width > 0) by (nonlinear_arith)
            requires
                n == a.rows() * width,
                n > 0,
                width >= 0,
        ;
        lemma_row_valid(a, 0);
        assert(table_direct(op, a.row(0), b) is Ok);
        assert(a.row(0).cells.len() * nb == width);
        assert(result_kind(op, a.kind, b.kind) is Some);
        let k = choose|k: int| 0 <= k < n && !((#[trigger] pair_cell(op, a, b, k)) is Ok);
        let i = k / width;
        let r = k % width;
        vstd::arithmetic::div_mod::lemma_fundamental_div_mod(k, width);
        assert(0 <= i < a.rows()) by (nonlinear_arith)
            requires
                0 <= k < a.rows() * width,
                width > 0,
                i == k / width,
                k == width * i + r,
                0 <= r < width,
        ;
        assert(width * i == i * width) by (nonlinear_arith);
        lemma_row_pair(op, a, b, i, r);
        lemma_row_valid(a, i);
        assert(table_direct(op, a.row(i), b) is Ok);
        assert(a.row(i).cells.len() * nb == width);
        assert(pair_cell(op, a.row(i), b, r) is Ok);
        assert(false);
    }
}

/// A pervasive operation on arrays of one shape fails with a domain error
/// or not at all.
pub proof fn lemma_same_shape(op: ScalarOp, x: Array, y: Array)
    requires
        x.shape == y.shape,
    ensures
        pervade(op, x, y) matches Err(e) ==> e == Fault::DomainError,
{
    assert(y.shape.skip(y.shape.len() - x.shape.len()) =~= x.shape);
}

/// The reduction by `reducer` of the table of `a` and `b` by `tabler`,
/// made row by row where `a` has rows.
pub fn reduce_table_value(reducer: ScalarOp, tabler: ScalarOp, a: &Value, b: &Value) -> (r: Result<
    Value,
    RuntimeError,
>)
    ensures
        yields(r, reduce_table(reducer, tabler, a@, b@)),
{
    if a.count().checked_mul(b.count()).is_none() {
        return Err(RuntimeError::ShapeMismatch);
    }
    let rows = a.row_count();
    if a.rank() == 0 || rows == 0 {
        return match table_op_value(tabler, a, b) {
            Ok(t) => reduce_op_value(reducer, &t),
            Err(e) => Err(e),
        };
    }
    let ghost whole = table_direct(tabler, a@, b@);
    proof {
        lemma_table_direct(tabler, a@, b@);
        lemma_table_rows(tabler, a@, b@, 0);
        lemma_row_valid(a@, 0);
        lemma_table_direct(tabler, a@.row(0), b@);
    }
    let first = a.row(0);
    let mut acc = match table_op_value(tabler, &first, b) {
        Ok(t) => t,
        Err(e) => {
            return Err(e);
        },
    };
    let mut i: usize = 1;
    while i < rows
        invariant
            1 <= i <= rows,
            rows == a@.rows(),
            a@.valid(),
            b@.valid(),
            a@.shape.len() >= 1,
            a@.cells.len() * b@.cells.len() <= usize::MAX,
            whole == table_direct(tabler, a@, b@),
            table_op(tabler, a@, b@) == whole,
            whole matches Err(e) ==> e == Fault::DomainError,
            acc@.valid(),
            acc@.shape == row_shape(a@.shape) + b@.shape,
            forall|j: int| 0 <= j < i ==> (#[trigger] table_direct(tabler, a@.row(j), b@)) is Ok,
            whole matches Ok(t) ==> reduce_op(reducer, t) == fold_op(reducer, t, i as nat, acc@),
        decreases rows - i,
    {
        let row = a.row(i);
        proof {
            lemma_table_rows(tabler, a@, b@, i as int);
            lemma_row_valid(a@, i as int);
            lemma_table_direct(tabler, a@.row(i as int), b@);
        }
        let t = match table_op_value(tabler, &row, b) {
            Ok(t) => t,
            Err(e) => {
                return Err(e);
            },
        };
        proof {
            lemma_same_shape(reducer, acc@, t@);
        }
        match pervade_values(reducer, &acc, &t) {
            Ok(next) => {
                acc = next;
            },
            Err(e) => {
                return Err(e);
            },
        }
        i += 1;
    }
    proof {
        lemma_table_whole(tabler, a@, b@);
    }
    Ok(acc)
}

} // verus!
