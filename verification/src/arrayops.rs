//! The array functions that look at rows rather than at single cells.
use crate::cowslice::Dup;
use crate::error::{Fault, RuntimeError};
use crate::rows::{
    as_ints, gather_rows, index_value, index_vector, join_cells, lemma_gather,
    lemma_gather_cells, lemma_index_vector, lemma_join_fit, lemma_join_push,
    lemma_join_uniform, with_leading,
};
use crate::shape::{lemma_product_concat, product, row_len, row_shape};
use crate::value::{
    cells_fit, lemma_models_push, lemma_row_valid, models, views, Array, Cell, Elem, Kind,
    Value,
};
use vstd::prelude::*;

verus! {

/// The number of rows, as a number.
pub open spec fn len(a: Array) -> Result<Array, Fault> {
    if a.rows() <= i64::MAX {
        Ok(Array::scalar(Cell::Num(a.rows() as i64)))
    } else {
        Err(Fault::DomainError)
    }
}

/// The first row. A scalar is its own only row.
pub open spec fn first(a: Array) -> Result<Array, Fault> {
    if a.rows() == 0 {
        Err(Fault::IndexOutOfBounds)
    } else {
        Ok(a.row(0))
    }
}

/// The last row. A scalar is its own only row.
pub open spec fn last(a: Array) -> Result<Array, Fault> {
    if a.rows() == 0 {
        Err(Fault::IndexOutOfBounds)
    } else {
        Ok(a.row(a.rows() - 1))
    }
}

/// The row indices from the last to the first.
pub open spec fn backwards(rows: nat) -> Seq<int> {
    Seq::new(rows, |j: int| rows - 1 - j)
}

/// The rows in opposite order. A scalar is left as it is.
pub open spec fn reverse(a: Array) -> Array {
    if a.shape.len() == 0 {
        a
    } else {
        a.gather(backwards(a.rows()))
    }
}

/// Whether `a` is a single byte or number.
pub open spec fn is_count(a: Array) -> bool {
    a.shape.len() == 0 && (a.kind is Byte || a.kind is Number)
}

/// The numbers from zero up to, but not including, a scalar count.
pub open spec fn range(a: Array) -> Result<Array, Fault> {
    if is_count(a) && 0 <= a.cells[0].integer() <= usize::MAX {
        let n = a.cells[0].integer();
        Ok(
            Array {
                kind: Kind::Number,
                shape: seq![n as usize],
                cells: Seq::new(n as nat, |i: int| Cell::Num(i as i64)),
            },
        )
    } else {
        Err(Fault::DomainError)
    }
}

/// The row indices that the cells of an index array name.
pub open spec fn picks_of(idx: Array) -> Seq<int> {
    Seq::new(idx.cells.len(), |j: int| idx.cells[j].integer())
}

/// The rows of `a` that the cells of `idx` name, arranged as `idx` is: the
/// result has the shape of `idx` followed by the shape of a row of `a`.
///
/// Indices must be bytes or numbers, else the domain is wrong; each must
/// name a row, counting from zero, else it is out of bounds.
pub open spec fn select(idx: Array, a: Array) -> Result<Array, Fault> {
    if !(idx.kind is Byte || idx.kind is Number) {
        Err(Fault::DomainError)
    } else if !a.picks_ok(picks_of(idx)) {
        Err(Fault::IndexOutOfBounds)
    } else {
        Ok(
            Array {
                kind: a.kind,
                shape: idx.shape + row_shape(a.shape),
                cells: a.gather(picks_of(idx)).cells,
            },
        )
    }
}

pub proof fn lemma_first_valid(a: Array)
    requires
        a.valid(),
    ensures
        first(a) matches Ok(r) ==> r.valid(),
        last(a) matches Ok(r) ==> r.valid(),
{
    if a.rows() > 0 {
        lemma_row_valid(a, 0);
        lemma_row_valid(a, a.rows() - 1);
    }
}

pub proof fn lemma_reverse_valid(a: Array)
    requires
        a.valid(),
    ensures
        reverse(a).valid(),
        reverse(a).rows() == a.rows(),
        reverse(a).shape == a.shape,
{
    if a.shape.len() > 0 {
        lemma_gather(a, backwards(a.rows()));
        assert(reverse(a).shape =~= a.shape);
    }
}

pub proof fn lemma_select_valid(idx: Array, a: Array)
    requires
        idx.valid(),
        a.valid(),
    ensures
        select(idx, a) matches Ok(r) ==> r.valid(),
{
    if let Ok(r) = select(idx, a) {
        lemma_gather_cells(a, picks_of(idx));
        lemma_product_concat(idx.shape, row_shape(a.shape));
    }
}

/// The number of rows of `a`, as a scalar number.
pub fn len_value(a: &Value) -> (r: Result<Value, RuntimeError>)
    ensures
        match r {
            Ok(v) => len(a@) == Ok::<Array, Fault>(v@) && v@.valid(),
            Err(e) => len(a@) == Err::<Array, Fault>(e@),
        },
{
    let rows = a.row_count();
    if rows as u64 <= 0x7fff_ffff_ffff_ffffu64 {
        Ok(Value::scalar(Elem::Num(rows as i64)))
    } else {
        Err(RuntimeError::DomainError)
    }
}

/// The first row of `a`, sharing its cells.
pub fn first_value(a: &Value) -> (r: Result<Value, RuntimeError>)
    ensures
        match r {
            Ok(v) => first(a@) == Ok::<Array, Fault>(v@) && v@.valid(),
            Err(e) => first(a@) == Err::<Array, Fault>(e@),
        },
{
    if a.row_count() == 0 {
        Err(RuntimeError::IndexOutOfBounds)
    } else {
        Ok(a.row(0))
    }
}

/// The last row of `a`, sharing its cells. Nothing is reversed or copied.
pub fn last_value(a: &Value) -> (r: Result<Value, RuntimeError>)
    ensures
        match r {
            Ok(v) => last(a@) == Ok::<Array, Fault>(v@) && v@.valid(),
            Err(e) => last(a@) == Err::<Array, Fault>(e@),
        },
{
    let rows = a.row_count();
    if rows == 0 {
        Err(RuntimeError::IndexOutOfBounds)
    } else {
        Ok(a.row(rows - 1))
    }
}

/// The rows of `a` in opposite order.
pub fn reverse_value(a: &Value) -> (r: Value)
    ensures
        r@ == reverse(a@),
        r@.valid(),
{
    if a.rank() == 0 {
        return a.share();
    }
    let rows = a.row_count();
    let mut picks: Vec<usize> = Vec::new();
    let mut j: usize = 0;
    while j < rows
        invariant
            j <= rows,
            picks@.len() == j,
            forall|k: int| 0 <= k < j ==> picks@[k] == rows - 1 - k,
        decreases rows - j,
    {
        picks.push(rows - 1 - j);
        j += 1;
    }
    assert(as_ints(picks@) =~= backwards(rows as nat));
    gather_rows(a, &picks)
}

/// The numbers below a scalar count.
pub fn range_value(a: &Value) -> (r: Result<Value, RuntimeError>)
    ensures
        match r {
            Ok(v) => range(a@) == Ok::<Array, Fault>(v@) && v@.valid(),
            Err(e) => range(a@) == Err::<Array, Fault>(e@),
        },
{
    let kind = a.kind();
    if a.rank() != 0 || !(kind == Kind::Byte || kind == Kind::Number) {
        return Err(RuntimeError::DomainError);
    }
    let count = a.count();
    assert(product(a@.shape) == 1);
    let n = a.cell(0).integer();
    if n < 0 || n as u64 > usize::MAX as u64 {
        return Err(RuntimeError::DomainError);
    }
    let n = n as usize;
    let mut cells: Vec<Elem> = Vec::new();
    let mut i: usize = 0;
    while i < n
        invariant
            i <= n,
            n <= i64::MAX,
            cells@.len() == i,
            forall|k: int| 0 <= k < i ==> cells@[k] == Elem::Num(k as i64),
        decreases n - i,
    {
        cells.push(Elem::Num(i as i64));
        i += 1;
    }
    let mut shape: Vec<usize> = Vec::new();
    shape.push(n);
    proof {
        let want = range(a@)->Ok_0;
        assert(models(cells@) =~= want.cells);
        assert(shape@ =~= want.shape);
        assert(shape@.drop_first() =~= Seq::<usize>::empty());
        assert(product(Seq::<usize>::empty()) == 1);
        assert(product(shape@) == n * product(shape@.drop_first()));
        assert(cells_fit(Kind::Number, models(cells@)));
    }
    Ok(Value::assemble(Kind::Number, shape, cells))
}

/// The rows of `a` that the cells of `idx` name.
pub fn select_value(idx: &Value, a: &Value) -> (r: Result<Value, RuntimeError>)
    ensures
        match r {
            Ok(v) => select(idx@, a@) == Ok::<Array, Fault>(v@) && v@.valid(),
            Err(e) => select(idx@, a@) == Err::<Array, Fault>(e@),
        },
{
    let kind = idx.kind();
    if !(kind == Kind::Byte || kind == Kind::Number) {
        return Err(RuntimeError::DomainError);
    }
    let rows = a.row_count();
    let n = idx.count();
    let mut picks: Vec<usize> = Vec::new();
    let mut j: usize = 0;
    while j < n
        invariant
            j <= n,
            n == idx@.cells.len(),
            rows == a@.rows(),
            picks@.len() == j,
            idx@.kind is Byte || idx@.kind is Number,
            forall|k: int| 0 <= k < j ==> picks@[k] == #[trigger] picks_of(idx@)[k],
            forall|k: int| 0 <= k < j ==> #[trigger] picks@[k] < rows,
        decreases n - j,
    {
        let at = idx.cell(j).integer();
        if at < 0 || at as u64 >= rows as u64 {
            assert(!(0 <= picks_of(idx@)[j as int] < a@.rows()));
            return Err(RuntimeError::IndexOutOfBounds);
        }
        picks.push(at as usize);
        j += 1;
    }
    assert(as_ints(picks@) =~= picks_of(idx@));
    let picked = gather_rows(a, &picks);
    let shape = concat_dims(idx.shape(), a.row_dims());
    proof {
        lemma_select_valid(idx@, a@);
    }
    Ok(picked.reshaped(shape))
}

/// One list of dimensions after another.
pub fn concat_dims(front: Vec<usize>, back: Vec<usize>) -> (r: Vec<usize>)
    ensures
        r@ == front@ + back@,
{
    let mut r = front;
    let mut i: usize = 0;
    while i < back.len()
        invariant
            i <= back@.len(),
            r@ == front@ + back@.take(i as int),
        decreases back@.len() - i,
    {
        r.push(back[i]);
        i += 1;
        assert(r@ =~= front@ + back@.take(i as int));
    }
    assert(back@.take(back@.len() as int) =~= back@);
    r
}

/// Taking the first row of the reversed rows is taking the last row.
pub proof fn lemma_first_reverse(a: Array)
    requires
        a.valid(),
    ensures
        first(reverse(a)) == last(a),
{
    if a.shape.len() > 0 {
        lemma_gather(a, backwards(a.rows()));
    }
}

/// Whether a cell counts as true: any byte or number but zero.
pub open spec fn truthy(c: Cell) -> bool {
    c.integer() != 0
}

/// The indices below `n` of the cells that count as true, rising.
pub open spec fn truthy_below(cells: Seq<Cell>, n: nat) -> Seq<int>
    decreases n,
{
    if n == 0 {
        Seq::empty()
    } else {
        let rest = truthy_below(cells, (n - 1) as nat);
        if truthy(cells[n - 1]) {
            rest.push(n - 1)
        } else {
            rest
        }
    }
}

/// The least index below `n` of a cell that counts as true.
pub open spec fn first_truthy(cells: Seq<Cell>, n: nat) -> Option<int>
    decreases n,
{
    if n == 0 {
        None
    } else {
        match first_truthy(cells, (n - 1) as nat) {
            Some(i) => Some(i),
            None => if truthy(cells[n - 1]) {
                Some(n - 1)
            } else {
                None
            },
        }
    }
}

/// The greatest index below `n` of a cell that counts as true.
pub open spec fn last_truthy(cells: Seq<Cell>, n: nat) -> Option<int>
    decreases n,
{
    if n == 0 {
        None
    } else if truthy(cells[n - 1]) {
        Some(n - 1)
    } else {
        last_truthy(cells, (n - 1) as nat)
    }
}

/// Whether `a` is a vector of bytes or numbers whose indices fit a number.
pub open spec fn is_mask(a: Array) -> bool {
    a.shape.len() == 1 && (a.kind is Byte || a.kind is Number) && a.cells.len() <= i64::MAX
}

/// The indices of the cells of a mask that count as true, rising.
pub open spec fn indices_where(a: Array) -> Result<Array, Fault> {
    if is_mask(a) {
        Ok(index_vector(truthy_below(a.cells, a.cells.len())))
    } else {
        Err(Fault::DomainError)
    }
}

/// The index of the first cell of a mask that counts as true.
pub open spec fn first_where(a: Array) -> Result<Array, Fault> {
    if !is_mask(a) {
        Err(Fault::DomainError)
    } else {
        match first_truthy(a.cells, a.cells.len()) {
            Some(i) => Ok(Array::scalar(Cell::Num(i as i64))),
            None => Err(Fault::IndexOutOfBounds),
        }
    }
}

/// The index of the last cell of a mask that counts as true.
pub open spec fn last_where(a: Array) -> Result<Array, Fault> {
    if !is_mask(a) {
        Err(Fault::DomainError)
    } else {
        match last_truthy(a.cells, a.cells.len()) {
            Some(i) => Ok(Array::scalar(Cell::Num(i as i64))),
            None => Err(Fault::IndexOutOfBounds),
        }
    }
}

/// The true indices are rising indices below `n`; the first and the last of
/// them are what the two short scans find.
pub proof fn lemma_truthy(cells: Seq<Cell>, n: nat)
    ensures
        truthy_below(cells, n).len() <= n,
        forall|k: int|
            0 <= k < truthy_below(cells, n).len() ==> 0 <= #[trigger] truthy_below(cells, n)[k] < n,
        match first_truthy(cells, n) {
            Some(i) => truthy_below(cells, n).len() > 0 && truthy_below(cells, n)[0] == i,
            None => truthy_below(cells, n).len() == 0,
        },
        match last_truthy(cells, n) {
            Some(i) => truthy_below(cells, n).len() > 0 && truthy_below(cells, n).last() == i,
            None => truthy_below(cells, n).len() == 0,
        },
    decreases n,
{
    if n > 0 {
        lemma_truthy(cells, (n - 1) as nat);
    }
}

/// A scan from the front that stops at the first true cell has found
/// `first_truthy`.
pub proof fn lemma_first_truthy_at(cells: Seq<Cell>, i: int, n: nat)
    requires
        0 <= i <= n,
        forall|k: int| 0 <= k < i ==> !truthy(#[trigger] cells[k]),
        i < n ==> truthy(cells[i]),
    ensures
        first_truthy(cells, n) == (if i < n {
            Some(i)
        } else {
            None::<int>
        }),
        i == n ==> last_truthy(cells, n) == None::<int>,
    decreases n,
{
    if n > 0 {
        if i < n {
            if i < n - 1 {
                lemma_first_truthy_at(cells, i, (n - 1) as nat);
            } else {
                lemma_first_truthy_at(cells, i, (n - 1) as nat);
            }
        } else {
            lemma_first_truthy_at(cells, i - 1, (n - 1) as nat);
        }
    }
}

/// A scan from the back that stops at the last true cell has found
/// `last_truthy`.
pub proof fn lemma_last_truthy_at(cells: Seq<Cell>, i: int, n: nat)
    requires
        0 <= i < n,
        forall|k: int| i < k < n ==> !truthy(#[trigger] cells[k]),
        truthy(cells[i]),
    ensures
        last_truthy(cells, n) == Some(i),
    decreases n,
{
    if i < n - 1 {
        lemma_last_truthy_at(cells, i, (n - 1) as nat);
    }
}

/// Taking the first of the true indices is stopping at the first true cell;
/// taking the last of them is stopping at the last.
pub proof fn lemma_first_where(a: Array)
    requires
        a.valid(),
    ensures
        (match indices_where(a) {
            Ok(w) => first(w),
            Err(e) => Err(e),
        }) == first_where(a),
        (match indices_where(a) {
            Ok(w) => last(w),
            Err(e) => Err(e),
        }) == last_where(a),
        indices_where(a) matches Ok(w) ==> w.valid(),
{
    if is_mask(a) {
        let n = a.cells.len();
        assert(a.shape.drop_first() =~= Seq::<usize>::empty());
        assert(product(Seq::<usize>::empty()) == 1);
        assert(n == a.shape[0] * product(a.shape.drop_first()));
        lemma_truthy(a.cells, n);
        lemma_index_vector(truthy_below(a.cells, n));
    }
}

/// What joins as one row: an array of lower rank than its partner.
pub open spec fn join_rows(x: Array, rank: nat) -> nat {
    if x.shape.len() == rank {
        x.rows()
    } else {
        1
    }
}

/// The shape of each row that `x` brings to a join at rank `rank`.
pub open spec fn join_item(x: Array, rank: nat) -> Seq<usize> {
    if x.shape.len() == rank {
        row_shape(x.shape)
    } else {
        x.shape
    }
}

pub open spec fn max_rank(a: Array, b: Array) -> nat {
    if a.shape.len() >= b.shape.len() {
        a.shape.len()
    } else {
        b.shape.len()
    }
}

/// The rows of `a` followed by the rows of `b`. An operand whose rank is one
/// less than the other's counts as a single row; two scalars make a pair.
///
/// The rows must be of one shape, else the shapes do not fit; and the
/// arrays of one kind, else the domain is wrong.
pub open spec fn join(a: Array, b: Array) -> Result<Array, Fault> {
    let rank = max_rank(a, b);
    let rows = join_rows(a, rank) + join_rows(b, rank);
    if rank - a.shape.len() > 1 || rank - b.shape.len() > 1 || join_item(a, rank) != join_item(
        b,
        rank,
    ) || rows > usize::MAX {
        Err(Fault::ShapeMismatch)
    } else if a.kind != b.kind {
        Err(Fault::DomainError)
    } else {
        Ok(
            Array {
                kind: a.kind,
                shape: seq![rows as usize] + join_item(a, rank),
                cells: a.cells + b.cells,
            },
        )
    }
}

/// The arrays as the rows of a new array. They must be of one shape, else
/// the shapes do not fit, and of one kind, else the domain is wrong. No
/// rows at all make the empty vector of numbers.
pub open spec fn stack(rows: Seq<Array>) -> Result<Array, Fault> {
    if rows.len() == 0 {
        Ok(Array { kind: Kind::Number, shape: seq![0usize], cells: Seq::empty() })
    } else if rows.len() > usize::MAX || exists|j: int|
        0 <= j < rows.len() && (#[trigger] rows[j]).shape != rows[0].shape {
        Err(Fault::ShapeMismatch)
    } else if exists|j: int| 0 <= j < rows.len() && (#[trigger] rows[j]).kind != rows[0].kind {
        Err(Fault::DomainError)
    } else {
        Ok(
            Array {
                kind: rows[0].kind,
                shape: seq![rows.len() as usize] + rows[0].shape,
                cells: join_cells(Seq::new(rows.len(), |j: int| rows[j].cells)),
            },
        )
    }
}

/// Two arrays of one shape and kind as the two rows of a new array.
pub open spec fn couple(a: Array, b: Array) -> Result<Array, Fault> {
    stack(seq![a, b])
}

proof fn lemma_join_part(x: Array, rank: nat)
    requires
        x.valid(),
    ensures
        x.cells.len() == join_rows(x, rank) * product(join_item(x, rank)),
{
    let p = product(join_item(x, rank));
    if x.shape.len() == rank {
        if rank == 0 {
            assert(p == 1);
            assert(1 * 1 == 1);
        }
    } else {
        assert(1 * p == p);
    }
}

pub proof fn lemma_join_valid(a: Array, b: Array)
    requires
        a.valid(),
        b.valid(),
    ensures
        join(a, b) matches Ok(r) ==> r.valid(),
{
    if let Ok(r) = join(a, b) {
        let rank = max_rank(a, b);
        let item = join_item(a, rank);
        let (ra, rb) = (join_rows(a, rank), join_rows(b, rank));
        let p = product(item);
        assert(r.shape.drop_first() =~= item);
        lemma_join_part(a, rank);
        lemma_join_part(b, rank);
        assert((ra + rb) * p == ra * p + rb * p) by (nonlinear_arith);
        assert forall|i: int| 0 <= i < r.cells.len() implies (#[trigger] r.cells[i]).kind()
            == r.kind && (r.cells[i] matches Cell::Boxed(inner) ==> inner.valid()) by {
            if i < a.cells.len() {
                assert(r.cells[i] == a.cells[i]);
            } else {
                assert(r.cells[i] == b.cells[i - a.cells.len()]);
            }
        }
    }
}

pub proof fn lemma_stack_valid(rows: Seq<Array>)
    requires
        forall|j: int| 0 <= j < rows.len() ==> (#[trigger] rows[j]).valid(),
    ensures
        stack(rows) matches Ok(r) ==> {
            &&& r.valid()
            &&& r.rows() == rows.len()
            &&& forall|j: int| 0 <= j < rows.len() ==> #[trigger] r.row(j) == rows[j]
        },
{
    if let Ok(r) = stack(rows) {
        if rows.len() == 0 {
            assert(r.shape.drop_first() =~= Seq::<usize>::empty());
            assert(product(r.shape) == 0 * product(r.shape.drop_first()));
            assert(r.valid());
        } else {
            let parts = Seq::new(rows.len(), |j: int| rows[j].cells);
            let shape = rows[0].shape;
            let len = product(shape);
            assert(r.kind == rows[0].kind);
            assert(r.shape =~= seq![rows.len() as usize] + shape);
            assert(r.cells == join_cells(parts));
            assert(r.shape.drop_first() =~= shape);
            assert(row_shape(r.shape) == shape);
            assert(row_len(r.shape) == len);
            assert(r.shape[0] == rows.len());
            assert forall|j: int| 0 <= j < parts.len() implies (#[trigger] parts[j]).len() == len
                && cells_fit(r.kind, parts[j]) by {
                assert(rows[j].valid());
                assert(rows[j].shape == shape);
                assert(rows[j].kind == r.kind);
            }
            lemma_join_uniform(parts, len);
            lemma_join_fit(r.kind, parts);
            assert(product(r.shape) == rows.len() * len);
            assert(r.valid());
            assert forall|j: int| 0 <= j < rows.len() implies #[trigger] r.row(j) == rows[j] by {
                assert(rows[j].shape == shape);
                assert(rows[j].kind == r.kind);
                assert(parts[j] == rows[j].cells);
                assert(r.row(j).cells == parts[j]);
                assert(r.row(j).shape == rows[j].shape);
            }
        }
    }
}

/// Whether two lists of dimensions are the same.
pub fn dims_equal(a: &Vec<usize>, b: &Vec<usize>) -> (r: bool)
    ensures
        r == (a@ == b@),
{
    if a.len() != b.len() {
        return false;
    }
    let mut i: usize = 0;
    while i < a.len()
        invariant
            i <= a@.len(),
            a@.len() == b@.len(),
            forall|k: int| 0 <= k < i ==> a@[k] == b@[k],
        decreases a@.len() - i,
    {
        if a[i] != b[i] {
            return false;
        }
        i += 1;
    }
    assert(a@ =~= b@);
    true
}

/// Appends copies of the cells of `v` to `cells`.
pub fn append_cells(cells: &mut Vec<Elem>, v: &Value)
    ensures
        models(final(cells)@) == models(old(cells)@) + v@.cells,
{
    let n = v.count();
    let ghost before = cells@;
    let mut k: usize = 0;
    assert(models(cells@) =~= models(before) + v@.cells.take(0));
    while k < n
        invariant
            k <= n,
            n == v@.cells.len(),
            models(cells@) == models(before) + v@.cells.take(k as int),
        decreases n - k,
    {
        let e = v.cell(k).dup();
        proof {
            lemma_models_push(cells@, e);
        }
        cells.push(e);
        k += 1;
        assert(models(cells@) =~= models(before) + v@.cells.take(k as int));
    }
    assert(v@.cells.take(n as int) =~= v@.cells);
}

/// Whether `a` is a mask.
pub fn mask(a: &Value) -> (r: bool)
    ensures
        r == is_mask(a@),
{
    let kind = a.kind();
    a.rank() == 1 && (kind == Kind::Byte || kind == Kind::Number) && a.count() as u64
        <= 0x7fff_ffff_ffff_ffffu64
}

/// The true indices of a mask.
pub fn where_value(a: &Value) -> (r: Result<Value, RuntimeError>)
    ensures
        match r {
            Ok(v) => indices_where(a@) == Ok::<Array, Fault>(v@) && v@.valid(),
            Err(e) => indices_where(a@) == Err::<Array, Fault>(e@),
        },
{
    if !mask(a) {
        return Err(RuntimeError::DomainError);
    }
    let n = a.count();
    let mut picks: Vec<usize> = Vec::new();
    let mut i: usize = 0;
    assert(as_ints(picks@) =~= truthy_below(a@.cells, 0));
    while i < n
        invariant
            i <= n,
            n == a@.cells.len(),
            n <= i64::MAX,
            as_ints(picks@) == truthy_below(a@.cells, i as nat),
        decreases n - i,
    {
        let ghost before = picks@;
        if a.cell(i).integer() != 0 {
            picks.push(i);
            assert(as_ints(picks@) =~= as_ints(before).push(i as int));
        }
        i += 1;
    }
    proof {
        lemma_truthy(a@.cells, n as nat);
        assert forall|k: int| 0 <= k < picks@.len() implies #[trigger] picks@[k] <= i64::MAX by {
            assert(as_ints(picks@)[k] == picks@[k]);
        }
    }
    Ok(index_value(&picks))
}

/// The index of the first true cell of a mask; later cells are not read.
pub fn first_where_value(a: &Value) -> (r: Result<Value, RuntimeError>)
    ensures
        match r {
            Ok(v) => first_where(a@) == Ok::<Array, Fault>(v@) && v@.valid(),
            Err(e) => first_where(a@) == Err::<Array, Fault>(e@),
        },
{
    if !mask(a) {
        return Err(RuntimeError::DomainError);
    }
    let n = a.count();
    let mut i: usize = 0;
    while i < n
        invariant
            i <= n,
            n == a@.cells.len(),
            n <= i64::MAX,
            is_mask(a@),
            forall|k: int| 0 <= k < i ==> !truthy(#[trigger] a@.cells[k]),
        decreases n - i,
    {
        if a.cell(i).integer() != 0 {
            proof {
                lemma_first_truthy_at(a@.cells, i as int, n as nat);
            }
            return Ok(Value::scalar(Elem::Num(i as i64)));
        }
        i += 1;
    }
    proof {
        lemma_first_truthy_at(a@.cells, n as int, n as nat);
    }
    Err(RuntimeError::IndexOutOfBounds)
}

/// The index of the last true cell of a mask; earlier cells are not read.
pub fn last_where_value(a: &Value) -> (r: Result<Value, RuntimeError>)
    ensures
        match r {
            Ok(v) => last_where(a@) == Ok::<Array, Fault>(v@) && v@.valid(),
            Err(e) => last_where(a@) == Err::<Array, Fault>(e@),
        },
{
    if !mask(a) {
        return Err(RuntimeError::DomainError);
    }
    let n = a.count();
    let mut i: usize = n;
    while i > 0
        invariant
            i <= n,
            n == a@.cells.len(),
            n <= i64::MAX,
            is_mask(a@),
            forall|k: int| i <= k < n ==> !truthy(#[trigger] a@.cells[k]),
        decreases i,
    {
        i -= 1;
        if a.cell(i).integer() != 0 {
            proof {
                lemma_last_truthy_at(a@.cells, i as int, n as nat);
            }
            return Ok(Value::scalar(Elem::Num(i as i64)));
        }
    }
    proof {
        lemma_first_truthy_at(a@.cells, n as int, n as nat);
    }
    Err(RuntimeError::IndexOutOfBounds)
}

/// The rows of `a` followed by the rows of `b`.
pub fn join_value(a: &Value, b: &Value) -> (r: Result<Value, RuntimeError>)
    ensures
        match r {
            Ok(v) => join(a@, b@) == Ok::<Array, Fault>(v@) && v@.valid(),
            Err(e) => join(a@, b@) == Err::<Array, Fault>(e@),
        },
{
    let (na, nb) = (a.rank(), b.rank());
    let rank = if na >= nb {
        na
    } else {
        nb
    };
    if rank - na > 1 || rank - nb > 1 {
        return Err(RuntimeError::ShapeMismatch);
    }
    let item_a = if na == rank {
        a.row_dims()
    } else {
        a.shape()
    };
    let item_b = if nb == rank {
        b.row_dims()
    } else {
        b.shape()
    };
    if !dims_equal(&item_a, &item_b) {
        return Err(RuntimeError::ShapeMismatch);
    }
    let rows_a = if na == rank {
        a.row_count()
    } else {
        1
    };
    let rows_b = if nb == rank {
        b.row_count()
    } else {
        1
    };
    let rows = match rows_a.checked_add(rows_b) {
        Some(rows) => rows,
        None => {
            return Err(RuntimeError::ShapeMismatch);
        },
    };
    if a.kind() != b.kind() {
        return Err(RuntimeError::DomainError);
    }
    let mut cells: Vec<Elem> = Vec::new();
    assert(models(cells@) =~= Seq::<Cell>::empty());
    append_cells(&mut cells, a);
    append_cells(&mut cells, b);
    let shape = with_leading(rows, item_a);
    proof {
        lemma_join_valid(a@, b@);
        assert(models(cells@) =~= a@.cells + b@.cells);
    }
    Ok(Value::assemble(a.kind(), shape, cells))
}

/// The values as the rows of a new array.
pub fn stack_values(rows: &Vec<Value>) -> (r: Result<Value, RuntimeError>)
    ensures
        match r {
            Ok(v) => stack(views(rows@)) == Ok::<Array, Fault>(v@) && v@.valid(),
            Err(e) => stack(views(rows@)) == Err::<Array, Fault>(e@),
        },
{
    let n = rows.len();
    if n == 0 {
        let mut shape: Vec<usize> = Vec::new();
        shape.push(0);
        let cells: Vec<Elem> = Vec::new();
        proof {
            lemma_stack_valid(views(rows@));
            assert(models(cells@) =~= Seq::<Cell>::empty());
        }
        return Ok(Value::assemble(Kind::Number, shape, cells));
    }
    let item = rows[0].shape();
    let kind = rows[0].kind();
    let mut j: usize = 1;
    while j < n
        invariant
            1 <= j <= n,
            n == rows@.len(),
            item@ == rows@[0]@.shape,
            forall|k: int| 0 <= k < j ==> (#[trigger] views(rows@)[k]).shape == rows@[0]@.shape,
            forall|k: int| 0 <= k < j ==> (#[trigger] views(rows@)[k]).valid(),
        decreases n - j,
    {
        let dims = rows[j].shape();
        if !dims_equal(&dims, &item) {
            assert(views(rows@)[j as int].shape != views(rows@)[0].shape);
            return Err(RuntimeError::ShapeMismatch);
        }
        j += 1;
    }
    let mut j: usize = 1;
    while j < n
        invariant
            1 <= j <= n,
            n == rows@.len(),
            kind == rows@[0]@.kind,
            forall|k: int| 0 <= k < n ==> (#[trigger] views(rows@)[k]).shape == rows@[0]@.shape,
            forall|k: int| 0 <= k < n ==> (#[trigger] views(rows@)[k]).valid(),
            forall|k: int| 0 <= k < j ==> (#[trigger] views(rows@)[k]).kind == rows@[0]@.kind,
        decreases n - j,
    {
        if rows[j].kind() != kind {
            assert(views(rows@)[j as int].kind != views(rows@)[0].kind);
            return Err(RuntimeError::DomainError);
        }
        j += 1;
    }
    let ghost parts = Seq::new(n as nat, |j: int| views(rows@)[j].cells);
    let mut cells: Vec<Elem> = Vec::new();
    let mut j: usize = 0;
    assert(models(cells@) =~= join_cells(parts.take(0)));
    while j < n
        invariant
            j <= n,
            n == rows@.len(),
            parts == Seq::new(n as nat, |j: int| views(rows@)[j].cells),
            models(cells@) == join_cells(parts.take(j as int)),
            forall|k: int| 0 <= k < n ==> (#[trigger] views(rows@)[k]).shape == rows@[0]@.shape,
            forall|k: int| 0 <= k < n ==> (#[trigger] views(rows@)[k]).valid(),
            forall|k: int| 0 <= k < n ==> (#[trigger] views(rows@)[k]).kind == rows@[0]@.kind,
        decreases n - j,
    {
        append_cells(&mut cells, &rows[j]);
        proof {
            lemma_join_push(parts.take(j as int), parts[j as int]);
            assert(parts.take(j as int).push(parts[j as int]) =~= parts.take(j + 1));
        }
        j += 1;
    }
    let shape = with_leading(n, item);
    proof {
        assert(parts.take(n as int) =~= parts);
        lemma_stack_valid(views(rows@));
    }
    Ok(Value::assemble(kind, shape, cells))
}

/// The two values as the two rows of a new array.
pub fn couple_value(a: &Value, b: &Value) -> (r: Result<Value, RuntimeError>)
    ensures
        match r {
            Ok(v) => couple(a@, b@) == Ok::<Array, Fault>(v@) && v@.valid(),
            Err(e) => couple(a@, b@) == Err::<Array, Fault>(e@),
        },
{
    let mut rows: Vec<Value> = Vec::new();
    rows.push(a.share());
    rows.push(b.share());
    assert(views(rows@) =~= seq![a@, b@]);
    stack_values(&rows)
}

/// The scalar that holds `a` in a box.
pub open spec fn enclose(a: Array) -> Array {
    Array::scalar(Cell::Boxed(a))
}

/// What a scalar box holds; any other array is left as it is.
pub open spec fn disclose(a: Array) -> Array {
    if a.shape.len() == 0 && a.cells.len() == 1 {
        match a.cells[0] {
            Cell::Boxed(inner) => inner,
            _ => a,
        }
    } else {
        a
    }
}

pub proof fn lemma_enclose_valid(a: Array)
    requires
        a.valid(),
    ensures
        enclose(a).valid(),
        disclose(a).valid(),
        disclose(enclose(a)) == a,
{
    assert(product(Seq::<usize>::empty()) == 1);
    if a.shape.len() == 0 && a.cells.len() == 1 {
        assert(a.cells[0] matches Cell::Boxed(inner) ==> inner.valid());
    }
}

/// `a` in a box. The box shares the cells of `a`.
pub fn enclose_value(a: &Value) -> (r: Value)
    ensures
        r@ == enclose(a@),
        r@.valid(),
{
    Value::scalar(Elem::Boxed(a.share()))
}

/// What a scalar box holds, sharing its cells; any other value as it is.
pub fn disclose_value(a: &Value) -> (r: Value)
    ensures
        r@ == disclose(a@),
        r@.valid(),
{
    if a.rank() == 0 {
        let n = a.count();
        assert(product(a@.shape) == 1);
        match a.cell(0) {
            Elem::Boxed(inner) => {
                proof {
                    lemma_enclose_valid(a@);
                }
                inner.share()
            },
            _ => a.share(),
        }
    } else {
        a.share()
    }
}

} // verus!
