//! Reducing every row of an array at once: the fold goes over the columns,
//! and each step works on all rows together.
use crate::arrayops::{lemma_stack_valid, stack, stack_values};
use crate::error::{Fault, RuntimeError};
use crate::laws::lemma_stack_rows;
use crate::optimize::lemma_collect_one;
use crate::pervasive::{
    broadcast_shape, cell_at, lemma_pervade_valid, pervade, pervade_values,
};
use crate::primitive::push_value;
use crate::scalar::{result_kind, ScalarOp};
use crate::semantics::{
    collect, column, fold_op, reduce_op, reframe, rows_reduce, rows_reduce_from,
};
use crate::shape::{lemma_row_bounds, row_len, row_shape};
use crate::value::{lemma_row_valid, lemma_views_push, views, Array, Cell, Value};
use crate::vm::{reduce_op_value, yields};
use vstd::prelude::*;

verus! {

/// Cell `k` of row `i`, for arrays of one shape, pairs the cells that its
/// place pairs in the whole.
proof fn lemma_row_cell(op: ScalarOp, x: Array, y: Array, i: int, k: int)
    requires
        x.valid(),
        y.valid(),
        x.shape == y.shape,
        x.shape.len() >= 1,
        0 <= i < x.rows(),
        0 <= k < row_len(x.shape),
    ensures
        0 <= i * row_len(x.shape) + k < x.cells.len(),
        cell_at(op, x.row(i), y.row(i), k) == cell_at(op, x, y, i * row_len(x.shape) + k),
{
    let len = row_len(x.shape) as int;
    lemma_row_valid(x, i);
    lemma_row_valid(y, i);
    lemma_row_bounds(i as nat, x.rows(), len as nat);
    assert(0 <= i * len) by (nonlinear_arith)
        requires
            0 <= i,
            0 <= len,
    ;
    vstd::arithmetic::div_mod::lemma_small_mod(k as nat, len as nat);
    vstd::arithmetic::div_mod::lemma_small_mod((i * len + k) as nat, x.cells.len());
    assert(x.row(i).cells[k] == x.cells[i * len + k]);
    assert(y.row(i).cells[k] == y.cells[i * len + k]);
}

/// For arrays of one shape, a pervasive operation works row by row: the
/// rows of its result are its results on the rows, and it fails on the
/// whole where it fails on a row, always with a domain error.
pub proof fn lemma_rows_pervade(op: ScalarOp, x: Array, y: Array, i: int)
    requires
        x.valid(),
        y.valid(),
        x.shape == y.shape,
        x.shape.len() >= 1,
        0 <= i < x.rows(),
    ensures
        match pervade(op, x, y) {
            Ok(w) => pervade(op, x.row(i), y.row(i)) == Ok::<Array, Fault>(w.row(i)) && w.shape
                == x.shape && w.valid(),
            Err(e) => e == Fault::DomainError,
        },
        pervade(op, x.row(i), y.row(i)) is Err ==> pervade(op, x, y) is Err,
{
    let len = row_len(x.shape) as int;
    let (rx, ry) = (x.row(i), y.row(i));
    lemma_row_valid(x, i);
    lemma_row_valid(y, i);
    lemma_pervade_valid(op, x, y);
    assert(y.shape.skip(y.shape.len() - x.shape.len()) =~= x.shape);
    assert(ry.shape.skip(ry.shape.len() - rx.shape.len()) =~= rx.shape);
    assert(broadcast_shape(x.shape, y.shape) == Some(y.shape));
    assert(broadcast_shape(rx.shape, ry.shape) == Some(ry.shape));
    lemma_row_bounds(i as nat, x.rows(), len as nat);
    assert(0 <= i * len) by (nonlinear_arith)
        requires
            0 <= i,
            0 <= len,
    ;
    assert forall|k: int| 0 <= k < len implies #[trigger] cell_at(op, rx, ry, k) == cell_at(
        op,
        x,
        y,
        i * len + k,
    ) by {
        lemma_row_cell(op, x, y, i, k);
    }
    if result_kind(op, x.kind, y.kind) is Some {
        if let Ok(w) = pervade(op, x, y) {
            assert forall|k: int| 0 <= k < len implies (#[trigger] cell_at(op, rx, ry, k)) is Ok by {
                assert(cell_at(op, x, y, i * len + k) is Ok);
            }
            let part = pervade(op, rx, ry)->Ok_0;
            assert(part.cells =~= w.row(i).cells);
        }
        if let Err(e) = pervade(op, rx, ry) {
            let k = choose|k: int| 0 <= k < len && !((#[trigger] cell_at(op, rx, ry, k)) is Ok);
            assert(!(cell_at(op, x, y, i * len + k) is Ok));
        }
    }
}

/// For arrays of one shape that have rows, a pervasive operation that
/// fails on the whole fails on some row.
pub proof fn lemma_pervade_row_fails(op: ScalarOp, x: Array, y: Array) -> (i: int)
    requires
        x.valid(),
        y.valid(),
        x.shape == y.shape,
        x.shape.len() >= 1,
        x.rows() >= 1,
        pervade(op, x, y) is Err,
    ensures
        0 <= i < x.rows(),
        pervade(op, x.row(i), y.row(i)) is Err,
{
    let len = row_len(x.shape) as int;
    assert(y.shape.skip(y.shape.len() - x.shape.len()) =~= x.shape);
    assert(broadcast_shape(x.shape, y.shape) == Some(y.shape));
    if result_kind(op, x.kind, y.kind) is None {
        lemma_row_valid(x, 0);
        lemma_row_valid(y, 0);
        let (rx, ry) = (x.row(0), y.row(0));
        assert(ry.shape.skip(ry.shape.len() - rx.shape.len()) =~= rx.shape);
        0
    } else {
        let n = x.cells.len() as int;
        let k = choose|k: int| 0 <= k < n && !((#[trigger] cell_at(op, x, y, k)) is Ok);
        assert(len > 0) by {
            if len == 0 {
                assert(x.rows() * len == 0) by (nonlinear_arith)
                    requires
                        len == 0,
                ;
            }
        }
        let i = k / len;
        let r = k % len;
        vstd::arithmetic::div_mod::lemma_fundamental_div_mod(k, len);
        assert(0 <= i < x.rows()) by (nonlinear_arith)
            requires
                0 <= k < x.rows() * len,
                len > 0,
                k == len * i + r,
                0 <= r < len,
        ;
        assert(len * i == i * len) by (nonlinear_arith);
        lemma_row_cell(op, x, y, i, r);
        lemma_row_valid(x, i);
        lemma_row_valid(y, i);
        let (rx, ry) = (x.row(i), y.row(i));
        assert(ry.shape.skip(ry.shape.len() - rx.shape.len()) =~= rx.shape);
        assert(!(cell_at(op, rx, ry, r) is Ok));
        i
    }
}

/// A fold by a pervasive operation over the rows of a valid array, begun
/// with an accumulator shaped like a row, leaves a valid array shaped like
/// a row, or fails with a domain error.
pub proof fn lemma_fold_domain(op: ScalarOp, a: Array, i: nat, acc: Array)
    requires
        a.valid(),
        a.shape.len() >= 1,
        acc.valid(),
        acc.shape == row_shape(a.shape),
    ensures
        match fold_op(op, a, i, acc) {
            Ok(v) => v.valid() && v.shape == row_shape(a.shape),
            Err(e) => e == Fault::DomainError,
        },
    decreases a.rows() - i,
{
    if i < a.rows() {
        let row = a.row(i as int);
        lemma_row_valid(a, i as int);
        lemma_pervade_valid(op, acc, row);
        assert(row.shape.skip(row.shape.len() - acc.shape.len()) =~= acc.shape);
        if let Ok(next) = pervade(op, acc, row) {
            lemma_fold_domain(op, a, i + 1, next);
        }
    }
}

/// The results of reducing the first `i` rows of `a`, each on a stack of
/// its own.
pub open spec fn reduced_rows(op: ScalarOp, a: Array, i: nat) -> Seq<Seq<Array>> {
    Seq::new(i, |k: int| seq![reduce_op(op, a.row(k))->Ok_0])
}

/// Where every row reduces, the results are gathered row by row.
pub proof fn lemma_rows_reduce_all(op: ScalarOp, a: Array, i: nat)
    requires
        i <= a.rows(),
        forall|k: int| 0 <= k < a.rows() ==> (#[trigger] reduce_op(op, a.row(k))) is Ok,
    ensures
        rows_reduce_from(op, a, i, reduced_rows(op, a, i)) == Ok::<Seq<Seq<Array>>, Fault>(
            reduced_rows(op, a, a.rows()),
        ),
    decreases a.rows() - i,
{
    if i < a.rows() {
        assert(reduce_op(op, a.row(i as int)) is Ok);
        assert(reduced_rows(op, a, i).push(seq![reduce_op(op, a.row(i as int))->Ok_0])
            =~= reduced_rows(op, a, i + 1));
        lemma_rows_reduce_all(op, a, i + 1);
    }
}

/// Where some row from `i` on fails to reduce, and rows fail with domain
/// errors only, the whole fails with a domain error.
pub proof fn lemma_rows_reduce_fail(op: ScalarOp, a: Array, i: nat, bad: int, outs: Seq<Seq<Array>>)
    requires
        i <= bad < a.rows(),
        reduce_op(op, a.row(bad)) is Err,
        forall|k: int|
            0 <= k < a.rows() ==> ((#[trigger] reduce_op(op, a.row(k))) matches Err(e) ==> e
                == Fault::DomainError),
    ensures
        rows_reduce_from(op, a, i, outs) == Err::<Seq<Seq<Array>>, Fault>(Fault::DomainError),
    decreases a.rows() - i,
{
    match reduce_op(op, a.row(i as int)) {
        Ok(v) => {
            lemma_rows_reduce_fail(op, a, i + 1, bad, outs.push(seq![v]));
        },
        Err(e) => {},
    }
}

/// Column `j` of an array of at least two axes: from each row its row
/// `j`, as the rows of one value.
pub fn column_value(a: &Value, j: usize) -> (r: Value)
    requires
        a@.shape.len() >= 2,
        a@.rows() >= 1,
        j < a@.shape[1],
    ensures
        r@.valid(),
        r@.shape == seq![a@.shape[0]] + a@.shape.skip(2),
        forall|i: int| 0 <= i < a@.rows() ==> #[trigger] r@.row(i) == a@.row(i).row(j as int),
{
    let n = a.row_count();
    let mut parts: Vec<Value> = Vec::new();
    let mut i: usize = 0;
    while i < n
        invariant
            i <= n,
            n == a@.rows(),
            a@.valid(),
            a@.shape.len() >= 2,
            j < a@.shape[1],
            parts@.len() == i,
            forall|k: int| 0 <= k < i ==> (#[trigger] views(parts@)[k]) == a@.row(k).row(j as int),
        decreases n - i,
    {
        let row = a.row(i);
        assert(row@.shape =~= a@.shape.drop_first());
        let part = row.row(j);
        push_value(&mut parts, part);
        i += 1;
    }
    proof {
        let rows = views(parts@);
        assert forall|k: int| 0 <= k < rows.len() implies (#[trigger] rows[k]).valid()
            && rows[k].shape == a@.shape.skip(2) && rows[k].kind == a@.kind by {
            lemma_row_valid(a@, k);
            let row = a@.row(k);
            assert(row.shape =~= a@.shape.drop_first());
            lemma_row_valid(row, j as int);
            assert(row.row(j as int).shape =~= a@.shape.skip(2));
        }
        assert(rows[0].shape == a@.shape.skip(2));
        lemma_stack_valid(rows);
        assert(stack(rows) is Ok);
    }
    match stack_values(&parts) {
        Ok(r) => r,
        Err(_) => {
            // Not reached: the parts are rows of rows of one array.
            a.share()
        },
    }
}

/// An array with rows, laid out along a frame of as many rows, is itself.
proof fn lemma_reframe_same(v: Array)
    requires
        v.shape.len() >= 1,
    ensures
        reframe(v, seq![v.rows() as usize]) == v,
{
    assert(seq![v.rows() as usize] + row_shape(v.shape) =~= v.shape);
}

/// Results that are valid arrays, one for each row of `a`, gather into
/// what stacking them gives.
pub proof fn lemma_collect_rows(a: Array, results: Seq<Array>)
    requires
        results.len() == a.rows(),
        forall|k: int| 0 <= k < results.len() ==> (#[trigger] results[k]).valid(),
    ensures
        (match collect(
            Seq::new(results.len(), |k: int| seq![results[k]]),
            seq![a.rows() as usize],
            1,
            0,
        ) {
            Ok(out) => Ok::<Array, Fault>(out[0]),
            Err(e) => Err::<Array, Fault>(e),
        }) == stack(results),
        stack(results) matches Ok(v) ==> v.valid(),
{
    let got = Seq::new(results.len(), |k: int| seq![results[k]]);
    let frame = seq![a.rows() as usize];
    lemma_collect_one(got, frame);
    assert(column(got, 0) =~= results);
    lemma_stack_valid(results);
    if let Ok(v) = stack(results) {
        assert(v.rows() == a.rows());
        lemma_reframe_same(v);
    }
}

/// Every row reduced by itself, one after the other.
fn rows_reduce_plain(op: ScalarOp, a: &Value) -> (r: Result<Value, RuntimeError>)
    ensures
        yields(r, rows_reduce(op, a@)),
{
    let n = a.row_count();
    let mut outs: Vec<Value> = Vec::new();
    let mut i: usize = 0;
    let ghost singles = |s: Seq<Array>| Seq::new(s.len(), |k: int| seq![s[k]]);
    assert(singles(views(outs@)) =~= Seq::<Seq<Array>>::empty());
    while i < n
        invariant
            i <= n,
            n == a@.rows(),
            outs@.len() == i,
            singles == |s: Seq<Array>| Seq::new(s.len(), |k: int| seq![s[k]]),
            forall|k: int| 0 <= k < i ==> (#[trigger] views(outs@)[k]).valid(),
            rows_reduce_from(op, a@, 0, Seq::empty()) == rows_reduce_from(
                op,
                a@,
                i as nat,
                singles(views(outs@)),
            ),
        decreases n - i,
    {
        let row = a.row(i);
        match reduce_op_value(op, &row) {
            Ok(v) => {
                proof {
                    lemma_views_push(outs@, v);
                    assert(singles(views(outs@.push(v))) =~= singles(views(outs@)).push(seq![v@]));
                }
                outs.push(v);
            },
            Err(e) => {
                return Err(e);
            },
        }
        i += 1;
    }
    proof {
        lemma_collect_rows(a@, views(outs@));
    }
    stack_values(&outs)
}

/// Every row of `a` reduced by `op`. Where `a` has rows of rows, the fold
/// goes over the columns and takes all rows along at each step.
pub fn rows_reduce_value(op: ScalarOp, a: &Value) -> (r: Result<Value, RuntimeError>)
    ensures
        yields(r, rows_reduce(op, a@)),
{
    let n = a.row_count();
    if a.rank() < 2 || n == 0 {
        return rows_reduce_plain(op, a);
    }
    let m = a.dim(1);
    if m == 0 {
        return rows_reduce_plain(op, a);
    }
    let ghost inner = a@.shape.skip(2);
    proof {
        assert forall|k: int| 0 <= k < n implies (#[trigger] a@.row(k)).valid() && a@.row(k).shape
            == seq![a@.shape[1]] + inner && a@.row(k).rows() == m by {
            lemma_row_valid(a@, k);
            assert(a@.row(k).shape =~= seq![a@.shape[1]] + inner);
        }
    }
    let mut acc = column_value(a, 0);
    let mut j: usize = 1;
    while j < m
        invariant
            1 <= j <= m,
            n == a@.rows(),
            n >= 1,
            a@.valid(),
            a@.shape.len() >= 2,
            m == a@.shape[1],
            inner == a@.shape.skip(2),
            acc@.valid(),
            acc@.shape == seq![a@.shape[0]] + inner,
            forall|k: int|
                0 <= k < n ==> (#[trigger] a@.row(k)).valid() && a@.row(k).shape == seq![
                    a@.shape[1],
                ] + inner && a@.row(k).rows() == m,
            forall|k: int|
                0 <= k < n ==> #[trigger] reduce_op(op, a@.row(k)) == fold_op(
                    op,
                    a@.row(k),
                    j as nat,
                    acc@.row(k),
                ),
        decreases m - j,
    {
        let col = column_value(a, j);
        match pervade_values(op, &acc, &col) {
            Ok(next) => {
                proof {
                    assert forall|k: int| 0 <= k < n implies #[trigger] reduce_op(op, a@.row(k))
                        == fold_op(op, a@.row(k), (j + 1) as nat, next@.row(k)) by {
                        lemma_rows_pervade(op, acc@, col@, k);
                        assert(col@.row(k) == a@.row(k).row(j as int));
                        assert(reduce_op(op, a@.row(k)) == fold_op(
                            op,
                            a@.row(k),
                            j as nat,
                            acc@.row(k),
                        ));
                    }
                    lemma_rows_pervade(op, acc@, col@, 0);
                }
                acc = next;
            },
            Err(e) => {
                proof {
                    lemma_rows_pervade(op, acc@, col@, 0);
                    let bad = lemma_pervade_row_fails(op, acc@, col@);
                    assert(col@.row(bad) == a@.row(bad).row(j as int));
                    assert(reduce_op(op, a@.row(bad)) == fold_op(
                        op,
                        a@.row(bad),
                        j as nat,
                        acc@.row(bad),
                    ));
                    assert(reduce_op(op, a@.row(bad)) is Err);
                    assert forall|k: int| 0 <= k < a@.rows() implies ((#[trigger] reduce_op(
                        op,
                        a@.row(k),
                    )) matches Err(e) ==> e == Fault::DomainError) by {
                        let row = a@.row(k);
                        lemma_row_valid(row, 0);
                        assert(row.row(0).shape =~= row_shape(row.shape));
                        lemma_fold_domain(op, row, 1, row.row(0));
                    }
                    lemma_rows_reduce_fail(op, a@, 0, bad, Seq::empty());
                }
                return Err(e);
            },
        }
        j += 1;
    }
    proof {
        assert forall|k: int| 0 <= k < a@.rows() implies (#[trigger] reduce_op(op, a@.row(k)))
            == Ok::<Array, Fault>(acc@.row(k)) by {
            assert(reduce_op(op, a@.row(k)) == fold_op(op, a@.row(k), m as nat, acc@.row(k)));
        }
        assert(reduced_rows(op, a@, 0) =~= Seq::<Seq<Array>>::empty());
        lemma_rows_reduce_all(op, a@, 0);
        let outs = reduced_rows(op, a@, a@.rows());
        let frame = seq![a@.rows() as usize];
        lemma_collect_one(outs, frame);
        assert(acc@.rows() == a@.rows());
        assert(column(outs, 0) =~= Seq::new(acc@.rows(), |k: int| acc@.row(k)));
        lemma_stack_rows(acc@);
        lemma_reframe_same(acc@);
    }
    Ok(acc)
}

} // verus!
