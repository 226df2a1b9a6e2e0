//! Sliding windows over the rows of an array, and the reduction of every
//! window without making the windows.
use crate::arrayops::{is_count, lemma_stack_valid, stack, stack_values};
use crate::columns::lemma_collect_rows;
use crate::error::{Fault, RuntimeError};
use crate::pervasive::pervade_values;
use crate::scalar::ScalarOp;
use crate::semantics::{fold_op, reduce_op, rows_reduce, rows_reduce_from};
use crate::value::{lemma_span, lemma_views_push, views, Array, Kind, Value};
use crate::vm::yields;
use vstd::prelude::*;

verus! {

/// Whether `size` is a window length for `a`: a single byte or number, at
/// least one, over an array that has an axis of rows.
pub open spec fn is_window(size: Array, a: Array) -> bool {
    is_count(size) && size.cells[0].integer() >= 1 && a.shape.len() >= 1
}

/// The windows of `a`, one for each place at which a window fits.
pub open spec fn window_rows(a: Array, k: int) -> Seq<Array> {
    Seq::new((a.rows() - k + 1) as nat, |i: int| a.span(i, k))
}

/// Every run of `size` rows of `a` that follow one another, as the rows of
/// one array: window `i` holds rows `i` to `i + size - 1`.
///
/// The length must be a single byte or number, at least one, and `a` must
/// have an axis of rows, else the domain is wrong; a window longer than `a`
/// does not fit its shape.
pub open spec fn windows(size: Array, a: Array) -> Result<Array, Fault> {
    if !is_window(size, a) {
        Err(Fault::DomainError)
    } else if size.cells[0].integer() > a.rows() {
        Err(Fault::ShapeMismatch)
    } else {
        stack(window_rows(a, size.cells[0].integer()))
    }
}

/// The reduction by `op` of every window of `a`.
pub open spec fn windows_reduce(op: ScalarOp, size: Array, a: Array) -> Result<Array, Fault> {
    match windows(size, a) {
        Ok(w) => rows_reduce(op, w),
        Err(e) => Err(e),
    }
}

/// The windows of a valid array make a valid array; row `j` of window `i`
/// is row `i + j` of the array.
pub proof fn lemma_windows(size: Array, a: Array)
    requires
        a.valid(),
        is_window(size, a),
        size.cells[0].integer() <= a.rows(),
    ensures
        windows(size, a) matches Ok(w) && w.valid() && w.rows() == a.rows() - size.cells[0].integer()
            + 1 && (forall|i: int|
            0 <= i < w.rows() ==> #[trigger] w.row(i) == a.span(i, size.cells[0].integer())),
{
    let k = size.cells[0].integer();
    let rows = window_rows(a, k);
    assert forall|i: int| 0 <= i < rows.len() implies (#[trigger] rows[i]).valid() && rows[i].shape
        == rows[0].shape && rows[i].kind == rows[0].kind by {
        lemma_span(a, i, k);
        lemma_span(a, 0, k);
    }
    lemma_stack_valid(rows);
}

/// The length of a window for `a`, if `size` is one that fits.
pub fn window_length(size: &Value, a: &Value) -> (r: Result<usize, RuntimeError>)
    ensures
        match r {
            Ok(k) => is_window(size@, a@) && k == size@.cells[0].integer() && 1 <= k <= a@.rows(),
            Err(RuntimeError::DomainError) => !is_window(size@, a@),
            Err(RuntimeError::ShapeMismatch) => is_window(size@, a@) && size@.cells[0].integer()
                > a@.rows(),
            Err(_) => false,
        },
{
    let kind = size.kind();
    if size.rank() != 0 || !(kind == Kind::Byte || kind == Kind::Number) || a.rank() < 1 {
        return Err(RuntimeError::DomainError);
    }
    let _ = size.count();
    assert(crate::shape::product(size@.shape) == 1);
    let k = size.cell(0).integer();
    if k < 1 {
        return Err(RuntimeError::DomainError);
    }
    let rows = a.row_count();
    if k as u64 > rows as u64 {
        return Err(RuntimeError::ShapeMismatch);
    }
    Ok(k as usize)
}

/// The windows of `a` of length `size`.
pub fn windows_value(size: &Value, a: &Value) -> (r: Result<Value, RuntimeError>)
    ensures
        yields(r, windows(size@, a@)),
{
    let k = match window_length(size, a) {
        Ok(k) => k,
        Err(e) => {
            return Err(e);
        },
    };
    let count = a.row_count() - k + 1;
    let mut parts: Vec<Value> = Vec::new();
    let mut i: usize = 0;
    assert(views(parts@) =~= window_rows(a@, k as int).take(0));
    while i < count
        invariant
            i <= count,
            1 <= k <= a@.rows(),
            a@.shape.len() >= 1,
            count == a@.rows() - k + 1,
            views(parts@) == window_rows(a@, k as int).take(i as int),
        decreases count - i,
    {
        let part = a.span(i, k);
        proof {
            lemma_views_push(parts@, part);
        }
        parts.push(part);
        i += 1;
        assert(views(parts@) =~= window_rows(a@, k as int).take(i as int));
    }
    assert(window_rows(a@, k as int).take(count as int) =~= window_rows(a@, k as int));
    stack_values(&parts)
}

/// The reduction by `op` of every window of `a` of length `size`: each
/// fold runs over the rows of `a` themselves.
pub fn windows_reduce_value(op: ScalarOp, size: &Value, a: &Value) -> (r: Result<
    Value,
    RuntimeError,
>)
    ensures
        yields(r, windows_reduce(op, size@, a@)),
{
    let k = match window_length(size, a) {
        Ok(k) => k,
        Err(e) => {
            return Err(e);
        },
    };
    let count = a.row_count() - k + 1;
    proof {
        lemma_windows(size@, a@);
    }
    let ghost w = windows(size@, a@)->Ok_0;
    let ghost singles = |s: Seq<Array>| Seq::new(s.len(), |j: int| seq![s[j]]);
    let mut outs: Vec<Value> = Vec::new();
    let mut i: usize = 0;
    assert(singles(views(outs@)) =~= Seq::<Seq<Array>>::empty());
    while i < count
        invariant
            i <= count,
            1 <= k <= a@.rows(),
            a@.valid(),
            a@.shape.len() >= 1,
            count == a@.rows() - k + 1,
            w.rows() == count,
            windows(size@, a@) == Ok::<Array, Fault>(w),
            forall|j: int| 0 <= j < count ==> #[trigger] w.row(j) == a@.span(j, k as int),
            singles == |s: Seq<Array>| Seq::new(s.len(), |j: int| seq![s[j]]),
            outs@.len() == i,
            forall|j: int| 0 <= j < i ==> (#[trigger] views(outs@)[j]).valid(),
            rows_reduce_from(op, w, 0, Seq::empty()) == rows_reduce_from(
                op,
                w,
                i as nat,
                singles(views(outs@)),
            ),
        decreases count - i,
    {
        let ghost window = a@.span(i as int, k as int);
        proof {
            lemma_span(a@, i as int, k as int);
            assert(w.row(i as int) == window);
        }
        let mut acc = a.row(i);
        let mut j: usize = 1;
        while j < k
            invariant
                1 <= j <= k,
                i + k <= a@.rows(),
                a@.valid(),
                i < w.rows(),
                w.row(i as int) == window,
                windows(size@, a@) == Ok::<Array, Fault>(w),
                rows_reduce_from(op, w, 0, Seq::empty()) == rows_reduce_from(
                    op,
                    w,
                    i as nat,
                    singles(views(outs@)),
                ),
                window == a@.span(i as int, k as int),
                window.rows() == k,
                forall|t: int| 0 <= t < k ==> #[trigger] window.row(t) == a@.row(i + t),
                acc@.valid(),
                reduce_op(op, window) == fold_op(op, window, j as nat, acc@),
            decreases k - j,
        {
            let row = a.row(i + j);
            proof {
                assert(window.row(j as int) == a@.row(i + j));
            }
            match pervade_values(op, &acc, &row) {
                Ok(next) => {
                    acc = next;
                },
                Err(e) => {
                    return Err(e);
                },
            }
            j += 1;
        }
        proof {
            lemma_views_push(outs@, acc);
            assert(singles(views(outs@.push(acc))) =~= singles(views(outs@)).push(seq![acc@]));
        }
        outs.push(acc);
        i += 1;
    }
    proof {
        lemma_collect_rows(w, views(outs@));
    }
    stack_values(&outs)
}

} // verus!
