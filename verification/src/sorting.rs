//! Grading and sorting: the stable order of an array's rows, the row that
//! sorts first or last, and the rows put in order.
use crate::arrayops::{first, last, select};
use crate::error::{Fault, RuntimeError};
use crate::order::{
    cell_key, key_lt, lemma_insert_at, lemma_order, lemma_order_head, lemma_order_last, lex_lt,
};
use crate::rows::{
    as_ints, gather_rows, index_value, index_vector, lemma_gather, lemma_index_vector,
};
use crate::shape::row_shape;
use crate::value::{lemma_row_valid, Array, Cell, Elem, Kind, Value};
use vstd::prelude::*;

verus! {

/// Whether the rows of `a` can be graded: boxes have no order, and row
/// indices must fit a number.
pub open spec fn gradable(a: Array) -> bool {
    !(a.kind is Box) && a.rows() <= i64::MAX
}

/// The row indices of `a` in stable sorted order: rising, or falling where
/// `desc` is set.
pub open spec fn grade(a: Array, desc: bool) -> Result<Array, Fault> {
    if gradable(a) {
        Ok(index_vector(a.order(desc, a.rows())))
    } else {
        Err(Fault::DomainError)
    }
}

/// The index of the row that sorts first, found in one pass.
pub open spec fn grade_first(a: Array, desc: bool) -> Result<Array, Fault> {
    if !gradable(a) {
        Err(Fault::DomainError)
    } else if a.rows() == 0 {
        Err(Fault::IndexOutOfBounds)
    } else {
        Ok(Array::scalar(Cell::Num(a.foremost(desc, a.rows()) as i64)))
    }
}

/// The index of the row that sorts last, found in one pass.
pub open spec fn grade_last(a: Array, desc: bool) -> Result<Array, Fault> {
    if !gradable(a) {
        Err(Fault::DomainError)
    } else if a.rows() == 0 {
        Err(Fault::IndexOutOfBounds)
    } else {
        Ok(Array::scalar(Cell::Num(a.hindmost(desc, a.rows()) as i64)))
    }
}

/// The rows of `a` in stable sorted order.
pub open spec fn sort(a: Array, desc: bool) -> Result<Array, Fault> {
    if gradable(a) {
        Ok(
            Array {
                kind: a.kind,
                shape: seq![a.rows() as usize] + row_shape(a.shape),
                cells: a.gather(a.order(desc, a.rows())).cells,
            },
        )
    } else {
        Err(Fault::DomainError)
    }
}

/// Taking the first of the graded indices is finding the foremost row.
pub proof fn lemma_first_grade(a: Array, desc: bool)
    requires
        a.valid(),
        a.rows() <= usize::MAX,
    ensures
        (match grade(a, desc) {
            Ok(g) => first(g),
            Err(e) => Err(e),
        }) == grade_first(a, desc),
{
    if gradable(a) {
        let order = a.order(desc, a.rows());
        lemma_order(a, desc, a.rows());
        lemma_index_vector(order);
        if a.rows() > 0 {
            lemma_order_head(a, desc, a.rows());
        }
    }
}

/// Taking the last of the graded indices is finding the hindmost row.
pub proof fn lemma_last_grade(a: Array, desc: bool)
    requires
        a.valid(),
        a.rows() <= usize::MAX,
    ensures
        (match grade(a, desc) {
            Ok(g) => last(g),
            Err(e) => Err(e),
        }) == grade_last(a, desc),
{
    if gradable(a) {
        let order = a.order(desc, a.rows());
        lemma_order(a, desc, a.rows());
        lemma_index_vector(order);
        if a.rows() > 0 {
            lemma_order_last(a, desc, a.rows());
        }
    }
}

/// Selecting the rows of an array by its own grade is sorting it.
pub proof fn lemma_select_grade(a: Array, desc: bool)
    requires
        a.valid(),
        a.rows() <= usize::MAX,
    ensures
        (match grade(a, desc) {
            Ok(g) => select(g, a),
            Err(e) => Err(e),
        }) == sort(a, desc),
{
    if gradable(a) {
        let order = a.order(desc, a.rows());
        lemma_order(a, desc, a.rows());
        let g = index_vector(order);
        assert(crate::arrayops::picks_of(g) =~= order);
    }
}

pub proof fn lemma_sort_valid(a: Array, desc: bool)
    requires
        a.valid(),
        a.rows() <= usize::MAX,
    ensures
        sort(a, desc) matches Ok(r) ==> r.valid() && r == a.gather(a.order(desc, a.rows())),
{
    if gradable(a) {
        lemma_order(a, desc, a.rows());
        lemma_gather(a, a.order(desc, a.rows()));
    }
}

impl Elem {
    /// The pair of integers by which this cell is ordered.
    pub fn key(&self) -> (r: (i64, i64))
        ensures
            r.0 == cell_key(self@).0,
            r.1 == cell_key(self@).1,
    {
        match self {
            Elem::Cpx(re, im) => (*re, *im),
            Elem::Boxed(_) => (0, 0),
            _ => (self.integer(), 0),
        }
    }
}

fn pair_lt(p: (i64, i64), q: (i64, i64)) -> (r: bool)
    ensures
        r == key_lt((p.0 as int, p.1 as int), (q.0 as int, q.1 as int)),
{
    p.0 < q.0 || (p.0 == q.0 && p.1 < q.1)
}

/// Whether row `i` of `a` sorts strictly before row `j`.
pub fn row_before(a: &Value, desc: bool, i: usize, j: usize) -> (r: bool)
    requires
        i < a@.rows(),
        j < a@.rows(),
    ensures
        r == a@.before(desc, i as int, j as int),
{
    let (x, y) = if desc {
        (a.row(j), a.row(i))
    } else {
        (a.row(i), a.row(j))
    };
    let n = x.count();
    let m = y.count();
    proof {
        use_type_invariant(a);
        a.lemma_inv();
        lemma_row_valid(a@, i as int);
        lemma_row_valid(a@, j as int);
    }
    let mut k: usize = 0;
    assert(x@.cells.skip(0) =~= x@.cells && y@.cells.skip(0) =~= y@.cells);
    while k < n
        invariant
            k <= n,
            n == x@.cells.len(),
            n == y@.cells.len(),
            a@.before(desc, i as int, j as int) == lex_lt(x@.cells, y@.cells),
            lex_lt(x@.cells, y@.cells) == lex_lt(x@.cells.skip(k as int), y@.cells.skip(k as int)),
        decreases n - k,
    {
        let p = x.cell(k).key();
        let q = y.cell(k).key();
        proof {
            assert(x@.cells.skip(k as int)[0] == x@.cells[k as int]);
            assert(y@.cells.skip(k as int)[0] == y@.cells[k as int]);
            assert(x@.cells.skip(k as int).drop_first() =~= x@.cells.skip(k + 1));
            assert(y@.cells.skip(k as int).drop_first() =~= y@.cells.skip(k + 1));
        }
        if pair_lt(p, q) {
            return true;
        }
        if pair_lt(q, p) {
            return false;
        }
        k += 1;
    }
    false
}

/// The row indices of `a` in stable sorted order, by insertion.
pub fn order_rows(a: &Value, desc: bool) -> (perm: Vec<usize>)
    ensures
        as_ints(perm@) == a@.order(desc, a@.rows()),
        perm@.len() == a@.rows(),
        forall|k: int| 0 <= k < perm@.len() ==> #[trigger] perm@[k] < a@.rows(),
{
    let rows = a.row_count();
    let mut perm: Vec<usize> = Vec::new();
    let mut i: usize = 0;
    assert(as_ints(perm@) =~= a@.order(desc, 0));
    while i < rows
        invariant
            i <= rows,
            rows == a@.rows(),
            a@.valid(),
            perm@.len() == i,
            as_ints(perm@) == a@.order(desc, i as nat),
            forall|k: int| 0 <= k < perm@.len() ==> #[trigger] perm@[k] < i,
        decreases rows - i,
    {
        let mut p: usize = 0;
        while p < perm.len() && !row_before(a, desc, i, perm[p])
            invariant
                p <= perm@.len(),
                i < rows,
                rows == a@.rows(),
                forall|k: int| 0 <= k < perm@.len() ==> #[trigger] perm@[k] < i,
                forall|k: int| 0 <= k < p ==> !a@.before(desc, i as int, #[trigger] as_ints(perm@)[k]),
            decreases perm@.len() - p,
        {
            p += 1;
        }
        proof {
            lemma_insert_at(a@, desc, as_ints(perm@), i as int, p as int);
        }
        let ghost before = perm@;
        perm.insert(p, i);
        proof {
            assert(as_ints(perm@) =~= as_ints(before).take(p as int).push(i as int) + as_ints(
                before,
            ).skip(p as int));
            assert forall|k: int| 0 <= k < perm@.len() implies #[trigger] perm@[k] < i + 1 by {
                if k < p {
                    assert(perm@[k] == before[k]);
                } else if k > p {
                    assert(perm@[k] == before[k - 1]);
                }
            }
        }
        i += 1;
    }
    perm
}

/// The index of the row of `a` that sorts first, in one pass over the rows.
pub fn foremost_row(a: &Value, desc: bool) -> (m: usize)
    requires
        a@.rows() >= 1,
    ensures
        m == a@.foremost(desc, a@.rows()),
        m < a@.rows(),
{
    let rows = a.row_count();
    let mut m: usize = 0;
    let mut n: usize = 1;
    while n < rows
        invariant
            1 <= n <= rows,
            rows == a@.rows(),
            m < n,
            m == a@.foremost(desc, n as nat),
        decreases rows - n,
    {
        if row_before(a, desc, n, m) {
            m = n;
        }
        n += 1;
    }
    m
}

/// The index of the row of `a` that sorts last, in one pass over the rows.
pub fn hindmost_row(a: &Value, desc: bool) -> (m: usize)
    requires
        a@.rows() >= 1,
    ensures
        m == a@.hindmost(desc, a@.rows()),
        m < a@.rows(),
{
    let rows = a.row_count();
    let mut m: usize = 0;
    let mut n: usize = 1;
    while n < rows
        invariant
            1 <= n <= rows,
            rows == a@.rows(),
            m < n,
            m == a@.hindmost(desc, n as nat),
        decreases rows - n,
    {
        if !row_before(a, desc, n, m) {
            m = n;
        }
        n += 1;
    }
    m
}

/// Whether the rows of `a` can be graded.
pub fn can_grade(a: &Value) -> (r: bool)
    ensures
        r == gradable(a@),
{
    a.kind() != Kind::Box && a.row_count() as u64 <= 0x7fff_ffff_ffff_ffffu64
}

/// The grade of `a`: rising, or falling where `desc` is set.
pub fn grade_value(a: &Value, desc: bool) -> (r: Result<Value, RuntimeError>)
    ensures
        match r {
            Ok(v) => grade(a@, desc) == Ok::<Array, Fault>(v@) && v@.valid(),
            Err(e) => grade(a@, desc) == Err::<Array, Fault>(e@),
        },
{
    if !can_grade(a) {
        return Err(RuntimeError::DomainError);
    }
    let perm = order_rows(a, desc);
    Ok(index_value(&perm))
}

/// The index of the row that sorts first, without grading the rest.
pub fn grade_first_value(a: &Value, desc: bool) -> (r: Result<Value, RuntimeError>)
    ensures
        match r {
            Ok(v) => grade_first(a@, desc) == Ok::<Array, Fault>(v@) && v@.valid(),
            Err(e) => grade_first(a@, desc) == Err::<Array, Fault>(e@),
        },
{
    if !can_grade(a) {
        return Err(RuntimeError::DomainError);
    }
    if a.row_count() == 0 {
        return Err(RuntimeError::IndexOutOfBounds);
    }
    Ok(Value::scalar(Elem::Num(foremost_row(a, desc) as i64)))
}

/// The index of the row that sorts last, without grading the rest.
pub fn grade_last_value(a: &Value, desc: bool) -> (r: Result<Value, RuntimeError>)
    ensures
        match r {
            Ok(v) => grade_last(a@, desc) == Ok::<Array, Fault>(v@) && v@.valid(),
            Err(e) => grade_last(a@, desc) == Err::<Array, Fault>(e@),
        },
{
    if !can_grade(a) {
        return Err(RuntimeError::DomainError);
    }
    if a.row_count() == 0 {
        return Err(RuntimeError::IndexOutOfBounds);
    }
    Ok(Value::scalar(Elem::Num(hindmost_row(a, desc) as i64)))
}

/// The rows of `a` in stable sorted order. No index array is built.
pub fn sort_value(a: &Value, desc: bool) -> (r: Result<Value, RuntimeError>)
    ensures
        match r {
            Ok(v) => sort(a@, desc) == Ok::<Array, Fault>(v@) && v@.valid(),
            Err(e) => sort(a@, desc) == Err::<Array, Fault>(e@),
        },
{
    if !can_grade(a) {
        return Err(RuntimeError::DomainError);
    }
    let perm = order_rows(a, desc);
    proof {
        use_type_invariant(a);
        a.lemma_inv();
        lemma_sort_valid(a@, desc);
    }
    Ok(gather_rows(a, &perm))
}

} // verus!
