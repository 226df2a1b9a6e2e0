//! Transposition: moving leading axes behind the others.
use crate::cowslice::Dup;
use crate::shape::{lemma_product_concat, product};
use crate::value::{models, Array, Cell, Elem, Value};
use vstd::prelude::*;

verus! {

/// The array with its first `m` axes moved behind the others. Seen as a
/// matrix of `front` rows, one for each place along the first `m` axes, and
/// `back` columns, this is the matrix turned over.
pub open spec fn rotate(a: Array, m: nat) -> Array {
    let front = product(a.shape.take(m as int)) as int;
    let back = product(a.shape.skip(m as int)) as int;
    Array {
        kind: a.kind,
        shape: a.shape.skip(m as int) + a.shape.take(m as int),
        cells: Seq::new(a.cells.len(), |k: int| a.cells[(k % front) * back + k / front]),
    }
}

/// The array with its first axis moved behind the others; an array with
/// fewer than two axes is left as it is.
pub open spec fn transpose(a: Array) -> Array {
    if a.shape.len() < 2 {
        a
    } else {
        rotate(a, 1)
    }
}

/// The array transposed `n` times over.
pub open spec fn transposed(a: Array, n: nat) -> Array
    decreases n,
{
    if n == 0 {
        a
    } else {
        transpose(transposed(a, (n - 1) as nat))
    }
}

/// In a matrix of `front` rows and `back` columns, place `k` of the turned
/// matrix reads a place of the matrix.
pub proof fn lemma_turn_index(front: int, back: int, k: int)
    requires
        0 <= k < front * back,
        0 <= front,
        0 <= back,
    ensures
        front > 0,
        0 <= k % front < front,
        0 <= k / front < back,
        0 <= (k % front) * back + k / front < front * back,
{
    if front == 0 {
        assert(front * back == 0) by (nonlinear_arith)
            requires
                front == 0,
        ;
    }
    vstd::arithmetic::div_mod::lemma_fundamental_div_mod(k, front);
    let q = k / front;
    let r = k % front;
    assert(0 <= q < back) by (nonlinear_arith)
        requires
            0 <= k < front * back,
            front > 0,
            k == front * q + r,
            0 <= r < front,
    ;
    assert(0 <= r * back + q < front * back) by (nonlinear_arith)
        requires
            0 <= r < front,
            0 <= q < back,
    ;
}

/// The two parts of a shape account for the cells between them.
pub proof fn lemma_split(a: Array, m: nat)
    requires
        a.valid(),
        m <= a.shape.len(),
    ensures
        a.cells.len() == product(a.shape.take(m as int)) * product(a.shape.skip(m as int)),
        product(a.shape.skip(m as int) + a.shape.take(m as int)) == a.cells.len(),
{
    lemma_product_concat(a.shape.take(m as int), a.shape.skip(m as int));
    lemma_product_concat(a.shape.skip(m as int), a.shape.take(m as int));
    assert(a.shape.take(m as int) + a.shape.skip(m as int) =~= a.shape);
    let x = product(a.shape.take(m as int));
    let y = product(a.shape.skip(m as int));
    assert(x * y == y * x) by (nonlinear_arith);
}

pub proof fn lemma_rotate_valid(a: Array, m: nat)
    requires
        a.valid(),
        m <= a.shape.len(),
    ensures
        rotate(a, m).valid(),
{
    let r = rotate(a, m);
    let front = product(a.shape.take(m as int)) as int;
    let back = product(a.shape.skip(m as int)) as int;
    lemma_split(a, m);
    assert forall|k: int| 0 <= k < r.cells.len() implies (#[trigger] r.cells[k]).kind() == r.kind
        && (r.cells[k] matches Cell::Boxed(inner) ==> inner.valid()) by {
        lemma_turn_index(front, back, k);
        let at = (k % front) * back + k / front;
        assert(r.cells[k] == a.cells[at]);
    }
}

/// Moving no axis, or every axis, leaves the array as it is.
pub proof fn lemma_rotate_none(a: Array)
    requires
        a.valid(),
    ensures
        rotate(a, 0) == a,
        rotate(a, a.shape.len()) == a,
{
    let n = a.cells.len() as int;
    let rank = a.shape.len();
    lemma_split(a, 0);
    lemma_split(a, rank);
    assert(a.shape.take(0) =~= Seq::<usize>::empty());
    assert(a.shape.skip(rank as int) =~= Seq::<usize>::empty());
    assert(a.shape.skip(0) =~= a.shape);
    assert(a.shape.take(rank as int) =~= a.shape);
    assert(product(Seq::<usize>::empty()) == 1);
    assert(a.shape.skip(0) + a.shape.take(0) =~= a.shape);
    assert(a.shape.skip(rank as int) + a.shape.take(rank as int) =~= a.shape);
    assert forall|k: int| 0 <= k < n implies #[trigger] rotate(a, 0).cells[k] == a.cells[k] by {
        assert(k % 1 == 0 && k / 1 == k);
        assert(0 * n + k == k);
    }
    assert(rotate(a, 0).cells =~= a.cells);
    assert forall|k: int| 0 <= k < n implies #[trigger] rotate(a, rank).cells[k] == a.cells[k] by {
        vstd::arithmetic::div_mod::lemma_small_mod(k as nat, n as nat);
        vstd::arithmetic::div_mod::lemma_basic_div(k, n);
        assert(k * 1 + 0 == k);
    }
    assert(rotate(a, rank).cells =~= a.cells);
}

/// Place `k` read through one more move of an axis: the index algebra of
/// turning a turned matrix.
proof fn lemma_turn_twice(front: int, d: int, rest: int, k: int)
    requires
        0 <= front,
        0 <= d,
        0 <= rest,
        0 <= k < front * d * rest,
    ensures
        ({
            let inner = (k % d) * (rest * front) + k / d;
            &&& 0 <= inner < front * d * rest
            &&& (inner % front) * (d * rest) + inner / front == (k % (front * d)) * rest + k / (front
                * d)
        }),
{
    assert(front > 0 && d > 0 && rest > 0) by (nonlinear_arith)
        requires
            0 <= front,
            0 <= d,
            0 <= rest,
            0 < front * d * rest,
    ;
    let u = k % d;
    let w = k / d;
    vstd::arithmetic::div_mod::lemma_fundamental_div_mod(k, d);
    assert(0 <= w < rest * front) by (nonlinear_arith)
        requires
            0 <= k < front * d * rest,
            d > 0,
            k == d * w + u,
            0 <= u < d,
    ;
    let p = w % front;
    let v = w / front;
    vstd::arithmetic::div_mod::lemma_fundamental_div_mod(w, front);
    assert(0 <= v < rest) by (nonlinear_arith)
        requires
            0 <= w < rest * front,
            front > 0,
            w == front * v + p,
            0 <= p < front,
    ;
    let inner = u * (rest * front) + w;
    assert(inner == (u * rest + v) * front + p) by (nonlinear_arith)
        requires
            inner == u * (rest * front) + w,
            w == front * v + p,
    ;
    assert(0 <= u * rest + v) by (nonlinear_arith)
        requires
            0 <= u,
            0 <= rest,
            0 <= v,
    ;
    vstd::arithmetic::div_mod::lemma_fundamental_div_mod_converse(inner, front, u * rest + v, p);
    assert(0 <= inner < front * d * rest) by (nonlinear_arith)
        requires
            inner == (u * rest + v) * front + p,
            0 <= p < front,
            0 <= u < d,
            0 <= v < rest,
    ;
    assert(k == v * (front * d) + (p * d + u)) by (nonlinear_arith)
        requires
            k == d * w + u,
            w == front * v + p,
    ;
    assert(0 <= p * d + u < front * d) by (nonlinear_arith)
        requires
            0 <= p < front,
            0 <= u < d,
    ;
    vstd::arithmetic::div_mod::lemma_fundamental_div_mod_converse(k, front * d, v, p * d + u);
    assert(p * (d * rest) + (u * rest + v) == (p * d + u) * rest + v) by (nonlinear_arith);
}

/// Transposing after `m` axes were moved is moving `m + 1` axes.
pub proof fn lemma_rotate_step(a: Array, m: nat)
    requires
        a.valid(),
        a.shape.len() >= 2,
        m < a.shape.len(),
    ensures
        transpose(rotate(a, m)) == rotate(a, m + 1),
{
    let s = a.shape;
    let x = rotate(a, m);
    let n = a.cells.len() as int;
    let front = product(s.take(m as int)) as int;
    let d = s[m as int] as int;
    let rest = product(s.skip((m + 1) as int)) as int;
    lemma_rotate_valid(a, m);
    lemma_split(a, m);
    lemma_split(a, m + 1);
    assert(s.skip(m as int).drop_first() =~= s.skip((m + 1) as int));
    assert(product(s.skip(m as int)) == d * rest);
    crate::shape::lemma_product_push(s.take(m as int), s[m as int]);
    assert(s.take(m as int).push(s[m as int]) =~= s.take((m + 1) as int));
    assert(product(s.take((m + 1) as int)) == front * d);
    assert(n == front * d * rest) by (nonlinear_arith)
        requires
            n == front * (d * rest),
    ;
    let t = transpose(x);
    let want = rotate(a, m + 1);
    assert(x.shape[0] == s[m as int]);
    assert(x.shape.take(1) =~= seq![s[m as int]]);
    assert(x.shape.skip(1) =~= s.skip((m + 1) as int) + s.take(m as int));
    assert(t.shape =~= want.shape) by {
        assert(x.shape.skip(1) + x.shape.take(1) =~= s.skip((m + 1) as int) + s.take((m + 1) as int));
    }
    lemma_product_concat(s.skip((m + 1) as int), s.take(m as int));
    assert(product(x.shape.skip(1)) == rest * front);
    assert(seq![s[m as int]].drop_first() =~= Seq::<usize>::empty());
    assert(product(Seq::<usize>::empty()) == 1);
    assert(product(x.shape.take(1)) == d) by {
        assert(product(seq![s[m as int]]) == d * product(seq![s[m as int]].drop_first()));
        assert(d * 1 == d);
    }
    assert forall|k: int| 0 <= k < n implies #[trigger] t.cells[k] == want.cells[k] by {
        lemma_turn_twice(front, d, rest, k);
        let inner = (k % d) * (rest * front) + k / d;
        assert(t.cells[k] == x.cells[inner]);
        assert(x.cells[inner] == a.cells[(inner % front) * (d * rest) + inner / front]);
    }
    assert(t.cells =~= want.cells);
}

/// Transposing `n` times over is moving `n` axes, counted round the rank,
/// in one go.
pub proof fn lemma_transposed(a: Array, n: nat)
    requires
        a.valid(),
    ensures
        transposed(a, n) == (if a.shape.len() < 2 {
            a
        } else {
            rotate(a, n % a.shape.len())
        }),
        transposed(a, n).valid(),
    decreases n,
{
    let rank = a.shape.len();
    if n == 0 {
        lemma_rotate_none(a);
        if rank >= 2 {
            vstd::arithmetic::div_mod::lemma_small_mod(0, rank);
        }
    } else {
        lemma_transposed(a, (n - 1) as nat);
        if rank < 2 {
            assert(transposed(a, (n - 1) as nat) == a);
            assert(transpose(a) == a);
        }
        if rank >= 2 {
            let m = ((n - 1) as nat) % rank;
            lemma_rotate_step(a, m);
            lemma_rotate_valid(a, m);
            lemma_rotate_valid(a, m + 1);
            assert(rotate(a, m).shape.len() == rank);
            vstd::arithmetic::div_mod::lemma_fundamental_div_mod((n - 1) as int, rank as int);
            assert(transposed(a, (n - 1) as nat) == rotate(a, m));
            assert(transposed(a, n) == transpose(rotate(a, m)));
            assert(transposed(a, n) == rotate(a, m + 1));
            if m + 1 == rank {
                lemma_rotate_none(a);
                let q = ((n - 1) as int) / (rank as int);
                assert(n as int == (q + 1) * rank + 0) by (nonlinear_arith)
                    requires
                        n - 1 == rank * q + m,
                        m + 1 == rank,
                ;
                assert(0 <= q + 1) by {
                    vstd::arithmetic::div_mod::lemma_div_pos_is_pos((n - 1) as int, rank as int);
                }
                vstd::arithmetic::div_mod::lemma_fundamental_div_mod_converse(
                    n as int,
                    rank as int,
                    q + 1,
                    0,
                );
                assert(n % rank == 0);
            } else {
                let q = ((n - 1) as int) / (rank as int);
                assert(n as int == q * rank + (m + 1)) by (nonlinear_arith)
                    requires
                        n - 1 == rank * q + m,
                ;
                vstd::arithmetic::div_mod::lemma_fundamental_div_mod_converse(
                    n as int,
                    rank as int,
                    q,
                    (m + 1) as int,
                );
                assert(n % rank == m + 1);
            }
        }
    }
}

/// The dimensions of `a` with the first `m` moved behind the others.
pub fn rotated_dims(a: &Value, m: usize) -> (shape: Vec<usize>)
    requires
        m <= a@.shape.len(),
    ensures
        shape@ == a@.shape.skip(m as int) + a@.shape.take(m as int),
{
    let dims = a.shape();
    let rank = dims.len();
    let mut shape: Vec<usize> = Vec::new();
    let mut j: usize = m;
    while j < rank
        invariant
            m <= j <= rank,
            rank == dims@.len(),
            shape@ == dims@.subrange(m as int, j as int),
        decreases rank - j,
    {
        shape.push(dims[j]);
        j += 1;
        assert(shape@ =~= dims@.subrange(m as int, j as int));
    }
    let mut j: usize = 0;
    while j < m
        invariant
            j <= m <= rank,
            rank == dims@.len(),
            shape@ == dims@.skip(m as int) + dims@.take(j as int),
        decreases m - j,
    {
        shape.push(dims[j]);
        j += 1;
        assert(shape@ =~= dims@.skip(m as int) + dims@.take(j as int));
    }
    shape
}

/// The number of places along the first `m` axes of a value that has
/// cells.
fn front_places(a: &Value, m: usize) -> (front: usize)
    requires
        m <= a@.shape.len(),
        a@.cells.len() > 0,
    ensures
        front == product(a@.shape.take(m as int)),
        front > 0,
{
    let dims = a.shape();
    let n = a.count();
    let mut front: usize = 1;
    let mut j: usize = 0;
    proof {
        lemma_split(a@, m as nat);
        assert(dims@.take(0) =~= Seq::<usize>::empty());
    }
    while j < m
        invariant
            j <= m <= dims@.len(),
            dims@ == a@.shape,
            a@.valid(),
            n == a@.cells.len(),
            n > 0,
            front == product(dims@.take(j as int)),
            front > 0,
        decreases m - j,
    {
        proof {
            crate::shape::lemma_product_push(dims@.take(j as int), dims@[j as int]);
            assert(dims@.take(j as int).push(dims@[j as int]) =~= dims@.take(j + 1));
            lemma_split(a@, (j + 1) as nat);
            let x = product(dims@.take(j + 1));
            let y = product(dims@.skip(j + 1));
            assert(x * y > 0 ==> x > 0 && x <= x * y) by (nonlinear_arith)
                requires
                    x >= 0,
                    y >= 0,
            ;
        }
        front = front * dims[j];
        j += 1;
    }
    front
}

/// The cells of `a` in the order they take when its first `m` axes move
/// behind the others, in one pass.
pub fn rotated_cells(a: &Value, m: usize) -> (cells: Vec<Elem>)
    requires
        m <= a@.shape.len(),
    ensures
        models(cells@) == rotate(a@, m as nat).cells,
{
    let n = a.count();
    proof {
        lemma_split(a@, m as nat);
    }
    let mut cells: Vec<Elem> = Vec::new();
    if n == 0 {
        assert(models(cells@) =~= rotate(a@, m as nat).cells);
        return cells;
    }
    let front = front_places(a, m);
    let back = n / front;
    proof {
        let y = product(a@.shape.skip(m as int)) as int;
        assert((front * y) / (front as int) == y) by (nonlinear_arith)
            requires
                front > 0,
        ;
    }
    let ghost want = rotate(a@, m as nat);
    let mut c: usize = 0;
    assert(0 * front == 0);
    while c < back
        invariant
            c <= back,
            front > 0,
            n == front * back,
            n == a@.cells.len(),
            front == product(a@.shape.take(m as int)),
            back == product(a@.shape.skip(m as int)),
            want == rotate(a@, m as nat),
            cells@.len() == c * front,
            forall|k: int| 0 <= k < cells@.len() ==> (#[trigger] cells@[k])@ == want.cells[k],
        decreases back - c,
    {
        let mut r: usize = 0;
        while r < front
            invariant
                r <= front,
                c < back,
                front > 0,
                n == front * back,
                n == a@.cells.len(),
                front == product(a@.shape.take(m as int)),
                back == product(a@.shape.skip(m as int)),
                want == rotate(a@, m as nat),
                cells@.len() == c * front + r,
                forall|k: int| 0 <= k < cells@.len() ==> (#[trigger] cells@[k])@ == want.cells[k],
            decreases front - r,
        {
            proof {
                let k = c * front + r;
                vstd::arithmetic::div_mod::lemma_fundamental_div_mod_converse(
                    k,
                    front as int,
                    c as int,
                    r as int,
                );
                assert(0 <= r * back + c < front * back) by (nonlinear_arith)
                    requires
                        0 <= r < front,
                        0 <= c < back,
                ;
                assert(k < front * back) by (nonlinear_arith)
                    requires
                        k == c * front + r,
                        0 <= r < front,
                        0 <= c < back,
                ;
            }
            let e = a.cell(r * back + c).dup();
            cells.push(e);
            r += 1;
        }
        c += 1;
        assert(c * front == (c - 1) * front + front) by (nonlinear_arith);
    }
    proof {
        assert(back * front == front * back) by (nonlinear_arith);
        assert forall|k: int| 0 <= k < n implies models(cells@)[k] == want.cells[k] by {
            assert(cells@[k]@ == want.cells[k]);
        }
        assert(models(cells@) =~= want.cells);
    }
    cells
}

/// The value with its first `m` axes moved behind the others, in one pass
/// over its cells.
pub fn rotate_value(a: &Value, m: usize) -> (r: Value)
    requires
        m <= a@.shape.len(),
    ensures
        r@ == rotate(a@, m as nat),
        r@.valid(),
{
    let kind = a.kind();
    let shape = rotated_dims(a, m);
    let cells = rotated_cells(a, m);
    proof {
        lemma_rotate_valid(a@, m as nat);
    }
    Value::assemble(kind, shape, cells)
}

/// The value with its first axis moved behind the others.
pub fn transpose_value(a: &Value) -> (r: Value)
    ensures
        r@ == transpose(a@),
        r@.valid(),
{
    if a.rank() < 2 {
        a.share()
    } else {
        rotate_value(a, 1)
    }
}

/// The value transposed `n` times over, in one pass over its cells.
pub fn transposed_value(a: &Value, n: usize) -> (r: Value)
    ensures
        r@ == transposed(a@, n as nat),
        r@.valid(),
{
    let rank = a.rank();
    proof {
        lemma_transposed(a@, n as nat);
    }
    if rank < 2 {
        a.share()
    } else {
        rotate_value(a, n % rank)
    }
}

/// Every row of `a` from row `i` on, transposed; `outs` holds the results
/// so far, each on a stack of its own.
pub open spec fn rows_transpose_from(a: Array, i: nat, outs: Seq<Seq<Array>>) -> Seq<Seq<Array>>
    decreases a.rows() - i,
{
    if i >= a.rows() {
        outs
    } else {
        rows_transpose_from(a, i + 1, outs.push(seq![transpose(a.row(i as int))]))
    }
}

/// Every row of `a` transposed, the results gathered as the rows of one
/// array.
pub open spec fn rows_transpose(a: Array) -> Result<Array, crate::error::Fault> {
    match crate::semantics::collect(
        rows_transpose_from(a, 0, Seq::empty()),
        seq![a.rows() as usize],
        1,
        0,
    ) {
        Ok(out) => Ok(out[0]),
        Err(e) => Err(e),
    }
}

/// The rows of `a`, transposed.
pub open spec fn transposed_rows(a: Array, n: nat) -> Seq<Array> {
    Seq::new(n, |k: int| transpose(a.row(k)))
}

proof fn lemma_rows_transpose_from(a: Array, i: nat)
    requires
        i <= a.rows(),
    ensures
        rows_transpose_from(
            a,
            i,
            Seq::new(i, |k: int| seq![transposed_rows(a, a.rows())[k]]),
        ) == Seq::new(a.rows(), |k: int| seq![transposed_rows(a, a.rows())[k]]),
    decreases a.rows() - i,
{
    let all = transposed_rows(a, a.rows());
    if i < a.rows() {
        assert(Seq::new(i, |k: int| seq![all[k]]).push(seq![transpose(a.row(i as int))])
            =~= Seq::new((i + 1) as nat, |k: int| seq![all[k]]));
        lemma_rows_transpose_from(a, i + 1);
    } else {
        assert(Seq::new(i, |k: int| seq![all[k]]) =~= Seq::new(a.rows(), |k: int| seq![all[k]]));
    }
}

/// A transposed array is valid.
pub proof fn lemma_transpose_valid(a: Array)
    requires
        a.valid(),
    ensures
        transpose(a).valid(),
{
    if a.shape.len() >= 2 {
        lemma_rotate_valid(a, 1);
    }
}

/// Every row of `a` transposed, all written into one array with no array
/// made for a row.
pub fn rows_transpose_value(a: &Value) -> (r: Result<Value, crate::error::RuntimeError>)
    ensures
        crate::vm::yields(r, rows_transpose(a@)),
{
    let n = a.row_count();
    let ghost results = transposed_rows(a@, a@.rows());
    let ghost parts = Seq::new(results.len(), |k: int| results[k].cells);
    proof {
        lemma_rows_transpose_from(a@, 0);
        assert(Seq::new(0, |k: int| seq![results[k]]) =~= Seq::<Seq<Array>>::empty());
        assert forall|k: int| 0 <= k < results.len() implies (#[trigger] results[k]).valid()
            && results[k].shape == transpose(a@.row(0)).shape && results[k].kind == a@.kind by {
            crate::value::lemma_row_valid(a@, k);
            lemma_transpose_valid(a@.row(k));
        }
        crate::columns::lemma_collect_rows(a@, results);
    }
    if n == 0 {
        let mut shape: Vec<usize> = Vec::new();
        shape.push(0);
        let cells: Vec<Elem> = Vec::new();
        proof {
            assert(results =~= Seq::<Array>::empty());
            assert(models(cells@) =~= Seq::<Cell>::empty());
            assert(shape@ =~= seq![0usize]);
            assert(shape@.drop_first() =~= Seq::<usize>::empty());
            assert(product(shape@) == 0 * product(shape@.drop_first()));
        }
        return Ok(Value::assemble(crate::value::Kind::Number, shape, cells));
    }
    let kind = a.kind();
    let first = a.row(0);
    let turn = first.rank() >= 2;
    let item = if turn {
        rotated_dims(&first, 1)
    } else {
        first.shape()
    };
    let shape = crate::rows::with_leading(n, item);
    let mut cells: Vec<Elem> = Vec::new();
    let mut i: usize = 0;
    assert(models(cells@) =~= crate::rows::join_cells(parts.take(0)));
    while i < n
        invariant
            i <= n,
            n == a@.rows(),
            a@.valid(),
            turn == (crate::shape::row_shape(a@.shape).len() >= 2),
            results == transposed_rows(a@, a@.rows()),
            parts == Seq::new(results.len(), |k: int| results[k].cells),
            models(cells@) == crate::rows::join_cells(parts.take(i as int)),
        decreases n - i,
    {
        let row = a.row(i);
        let ghost before = cells@;
        if turn {
            let mut part = rotated_cells(&row, 1);
            let ghost moved = part@;
            cells.append(&mut part);
            assert(models(cells@) =~= models(before) + models(moved));
        } else {
            crate::arrayops::append_cells(&mut cells, &row);
        }
        proof {
            assert(parts[i as int] == transpose(a@.row(i as int)).cells);
            crate::rows::lemma_join_push(parts.take(i as int), parts[i as int]);
            assert(parts.take(i as int).push(parts[i as int]) =~= parts.take(i + 1));
        }
        i += 1;
    }
    proof {
        assert(parts.take(n as int) =~= parts);
        let want = crate::arrayops::stack(results)->Ok_0;
        assert(results[0] == transpose(a@.row(0)));
        assert(shape@ =~= want.shape);
        crate::arrayops::lemma_stack_valid(results);
    }
    Ok(Value::assemble(kind, shape, cells))
}

} // verus!
