//! Cell-by-cell application of a scalar function across two arrays, with
//! broadcasting of the shorter shape along the leading axes of the longer.
use crate::error::{Fault, RuntimeError};
use crate::scalar::{apply, apply_elems, kind_of_result, lemma_apply_kind, result_kind, ScalarOp};
use crate::shape::{is_suffix, lemma_product_concat, product};
use crate::value::{models, Array, Cell, Elem, Value};
use vstd::prelude::*;

verus! {

/// The shape of the result: the longer of two shapes of which one ends with
/// the other. Equal shapes and a scalar operand are the two ends of this
/// rule. `None` where neither ends with the other.
pub open spec fn broadcast_shape(a: Seq<usize>, b: Seq<usize>) -> Option<Seq<usize>> {
    if is_suffix(a, b) {
        Some(b)
    } else if is_suffix(b, a) {
        Some(a)
    } else {
        None
    }
}

/// Cell `i` of the result: each operand is read at `i`, wrapped round to its
/// own length, so the shorter operand repeats under every leading index of
/// the longer one.
pub open spec fn cell_at(op: ScalarOp, a: Array, b: Array, i: int) -> Result<Cell, Fault> {
    apply(op, a.cells[i % (a.cells.len() as int)], b.cells[i % (b.cells.len() as int)])
}

/// `op` applied across `a` (the top operand) and `b` (the one below).
///
/// Fails with a shape mismatch unless one shape ends with the other; then
/// with a domain error if `op` is not defined on the two kinds, or if it
/// fails on any pair of cells.
pub open spec fn pervade(op: ScalarOp, a: Array, b: Array) -> Result<Array, Fault> {
    match broadcast_shape(a.shape, b.shape) {
        None => Err(Fault::ShapeMismatch),
        Some(shape) => match result_kind(op, a.kind, b.kind) {
            None => Err(Fault::DomainError),
            Some(kind) => {
                let n = product(shape);
                if forall|i: int| 0 <= i < n ==> (#[trigger] cell_at(op, a, b, i)) is Ok {
                    Ok(
                        Array {
                            kind,
                            shape,
                            cells: Seq::new(n, |i: int| cell_at(op, a, b, i)->Ok_0),
                        },
                    )
                } else {
                    Err(Fault::DomainError)
                }
            },
        },
    }
}

/// Where the shorter shape holds no cell, neither does the longer.
pub proof fn lemma_suffix_cells(short: Seq<usize>, long: Seq<usize>)
    requires
        is_suffix(short, long),
    ensures
        product(long) == product(long.take(long.len() - short.len())) * product(short),
        product(long) > 0 ==> product(short) > 0,
{
    let k = long.len() - short.len();
    lemma_product_concat(long.take(k), long.skip(k));
    assert(long.take(k) + long.skip(k) =~= long);
    let p = product(long.take(k));
    let q = product(short);
    assert(q == 0 ==> p * q == 0) by (nonlinear_arith);
}

/// What `pervade` returns on valid arrays is a valid array.
pub proof fn lemma_pervade_valid(op: ScalarOp, a: Array, b: Array)
    requires
        a.valid(),
        b.valid(),
    ensures
        pervade(op, a, b) matches Ok(r) ==> r.valid(),
{
    if let Ok(r) = pervade(op, a, b) {
        assert forall|i: int| 0 <= i < r.cells.len() implies (#[trigger] r.cells[i]).kind()
            == r.kind && !(r.cells[i] is Boxed) by {
            assert(cell_at(op, a, b, i) is Ok);
            lemma_operand_index(a, b, i);
            lemma_apply_kind(
                op,
                a.cells[i % (a.cells.len() as int)],
                b.cells[i % (b.cells.len() as int)],
            );
        }
    }
}

/// Reading an operand at a result index, wrapped round, stays inside it.
pub proof fn lemma_operand_index(a: Array, b: Array, i: int)
    requires
        a.valid(),
        b.valid(),
        broadcast_shape(a.shape, b.shape) matches Some(shape) && 0 <= i < product(shape),
    ensures
        0 <= i % (a.cells.len() as int) < a.cells.len(),
        0 <= i % (b.cells.len() as int) < b.cells.len(),
{
    if is_suffix(a.shape, b.shape) {
        lemma_suffix_cells(a.shape, b.shape);
    } else {
        lemma_suffix_cells(b.shape, a.shape);
    }
}

/// Whether the dimensions of `short` are what those of `long` end with.
pub fn ends_with(long: &Value, short: &Value) -> (r: bool)
    ensures
        r == is_suffix(short@.shape, long@.shape),
{
    let n = long.rank();
    let m = short.rank();
    if m > n {
        return false;
    }
    let skip = n - m;
    let mut i: usize = 0;
    while i < m
        invariant
            i <= m,
            m == short@.shape.len(),
            n == long@.shape.len(),
            skip == n - m,
            forall|j: int| 0 <= j < i ==> long@.shape[skip + j] == short@.shape[j],
        decreases m - i,
    {
        if long.dim(skip + i) != short.dim(i) {
            assert(long@.shape.skip(skip as int)[i as int] != short@.shape[i as int]);
            return false;
        }
        i += 1;
    }
    assert(long@.shape.skip(skip as int) =~= short@.shape);
    true
}

/// Applies `op` across `a` (the top operand) and `b` (the one below).
pub fn pervade_values(op: ScalarOp, a: &Value, b: &Value) -> (r: Result<Value, RuntimeError>)
    ensures
        match r {
            Ok(v) => pervade(op, a@, b@) == Ok::<Array, Fault>(v@) && v@.valid(),
            Err(e) => pervade(op, a@, b@) == Err::<Array, Fault>(e@),
        },
{
    let a_under_b = ends_with(b, a);
    if !a_under_b && !ends_with(a, b) {
        return Err(RuntimeError::ShapeMismatch);
    }
    let long = if a_under_b {
        b
    } else {
        a
    };
    let kind = match kind_of_result(op, a.kind(), b.kind()) {
        None => {
            return Err(RuntimeError::DomainError);
        },
        Some(kind) => kind,
    };
    let n = long.count();
    let la = a.count();
    let lb = b.count();
    let mut cells: Vec<Elem> = Vec::new();
    let mut i: usize = 0;
    while i < n
        invariant
            i <= n,
            n == product(long@.shape),
            la == a@.cells.len(),
            lb == b@.cells.len(),
            a@.valid(),
            b@.valid(),
            broadcast_shape(a@.shape, b@.shape) == Some(long@.shape),
            cells@.len() == i,
            forall|j: int| 0 <= j < i ==> cell_at(op, a@, b@, j) == Ok::<Cell, Fault>(#[trigger] cells@[j]@),
        decreases n - i,
    {
        proof {
            lemma_operand_index(a@, b@, i as int);
        }
        match apply_elems(op, a.cell(i % la), b.cell(i % lb)) {
            Ok(e) => {
                cells.push(e);
            },
            Err(e) => {
                proof {
                    lemma_apply_kind(
                        op,
                        a@.cells[(i as int) % (la as int)],
                        b@.cells[(i as int) % (lb as int)],
                    );
                    assert(!(cell_at(op, a@, b@, i as int) is Ok));
                }
                return Err(e);
            },
        }
        i += 1;
    }
    let shape = long.shape();
    proof {
        let want = pervade(op, a@, b@)->Ok_0;
        assert forall|j: int| 0 <= j < n implies (#[trigger] cell_at(op, a@, b@, j)) is Ok by {
            assert(cell_at(op, a@, b@, j) == Ok::<Cell, Fault>(cells@[j]@));
        }
        assert(pervade(op, a@, b@) is Ok);
        assert(want.cells.len() == n);
        assert forall|j: int| 0 <= j < n implies models(cells@)[j] == want.cells[j] by {
            assert(cell_at(op, a@, b@, j) == Ok::<Cell, Fault>(cells@[j]@));
        }
        assert(models(cells@) =~= want.cells);
        lemma_pervade_valid(op, a@, b@);
    }
    Ok(Value::assemble(kind, shape, cells))
}

} // verus!
