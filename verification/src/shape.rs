//! Array dimensions and the arithmetic of row-major layout.
use vstd::prelude::*;

verus! {

/// The number of cells in an array with the given dimensions. The empty list
/// of dimensions is the shape of a scalar, which holds one cell.
pub open spec fn product(dims: Seq<usize>) -> nat
    decreases dims.len(),
{
    if dims.len() == 0 {
        1
    } else {
        dims[0] as nat * product(dims.drop_first())
    }
}

/// The number of rows: the leading dimension, or one for a scalar.
pub open spec fn row_count(dims: Seq<usize>) -> nat {
    if dims.len() == 0 {
        1
    } else {
        dims[0] as nat
    }
}

/// The dimensions of each row.
pub open spec fn row_shape(dims: Seq<usize>) -> Seq<usize> {
    if dims.len() == 0 {
        dims
    } else {
        dims.drop_first()
    }
}

/// The number of cells in each row.
pub open spec fn row_len(dims: Seq<usize>) -> nat {
    product(row_shape(dims))
}

/// Whether `tail` is what `dims` ends with.
pub open spec fn is_suffix(tail: Seq<usize>, dims: Seq<usize>) -> bool {
    tail.len() <= dims.len() && dims.skip(dims.len() - tail.len()) == tail
}

pub proof fn lemma_product_concat(a: Seq<usize>, b: Seq<usize>)
    ensures
        product(a + b) == product(a) * product(b),
    decreases a.len(),
{
    if a.len() == 0 {
        assert(a + b =~= b);
        assert(product(a) == 1);
        assert(1 * product(b) == product(b));
    } else {
        lemma_product_concat(a.drop_first(), b);
        assert((a + b).drop_first() =~= a.drop_first() + b);
        assert((a + b)[0] == a[0]);
        let h = a[0] as nat;
        let x = product(a.drop_first());
        let y = product(b);
        assert(product(a + b) == h * product((a + b).drop_first()));
        assert(product(a) == h * x);
        assert(h * (x * y) == (h * x) * y) by (nonlinear_arith);
    }
}

pub proof fn lemma_product_push(a: Seq<usize>, d: usize)
    ensures
        product(a.push(d)) == product(a) * d,
{
    lemma_product_concat(a, seq![d]);
    assert(seq![d].drop_first() =~= Seq::<usize>::empty());
    assert(product(seq![d].drop_first()) == 1);
    assert(product(seq![d]) == d as nat * product(seq![d].drop_first()));
    assert(d as nat * 1 == d as nat);
    assert(a.push(d) =~= a + seq![d]);
}

/// An array with a zero dimension holds nothing.
pub proof fn lemma_product_zero(dims: Seq<usize>, k: int)
    requires
        0 <= k < dims.len(),
        dims[k] == 0,
    ensures
        product(dims) == 0,
    decreases dims.len(),
{
    if k == 0 {
    } else {
        lemma_product_zero(dims.drop_first(), k - 1);
        assert(dims[0] as nat * 0 == 0) by (nonlinear_arith);
    }
}

/// Without a zero dimension, a prefix never holds more than the whole.
pub proof fn lemma_product_prefix_le(dims: Seq<usize>, k: int)
    requires
        0 <= k <= dims.len(),
        forall|j: int| 0 <= j < dims.len() ==> dims[j] != 0,
    ensures
        1 <= product(dims.take(k)) <= product(dims),
{
    lemma_product_concat(dims.take(k), dims.skip(k));
    assert(dims.take(k) + dims.skip(k) =~= dims);
    lemma_product_positive(dims.take(k));
    lemma_product_positive(dims.skip(k));
    let a = product(dims.take(k));
    let b = product(dims.skip(k));
    assert(1 <= a && 1 <= b ==> a <= a * b) by (nonlinear_arith);
}

pub proof fn lemma_product_positive(dims: Seq<usize>)
    requires
        forall|j: int| 0 <= j < dims.len() ==> dims[j] != 0,
    ensures
        1 <= product(dims),
    decreases dims.len(),
{
    if dims.len() > 0 {
        lemma_product_positive(dims.drop_first());
        let a = dims[0] as nat;
        let b = product(dims.drop_first());
        assert(1 <= a && 1 <= b ==> 1 <= a * b) by (nonlinear_arith);
    }
}

/// Row `i` of `rows` rows of `len` cells each ends inside the whole.
pub proof fn lemma_row_bounds(i: nat, rows: nat, len: nat)
    requires
        i < rows,
    ensures
        i * len + len <= rows * len,
        (i + 1) * len == i * len + len,
{
    assert(i * len + len <= rows * len) by (nonlinear_arith)
        requires
            i + 1 <= rows,
    ;
    assert((i + 1) * len == i * len + len) by (nonlinear_arith);
}

/// Whether any dimension is zero.
pub fn has_zero(dims: &Vec<usize>) -> (r: bool)
    ensures
        r == exists|j: int| 0 <= j < dims@.len() && dims@[j] == 0,
{
    let mut i: usize = 0;
    while i < dims.len()
        invariant
            i <= dims@.len(),
            forall|j: int| 0 <= j < i ==> dims@[j] != 0,
        decreases dims@.len() - i,
    {
        if dims[i] == 0 {
            return true;
        }
        i += 1;
    }
    false
}

/// The number of cells for `dims`, or `None` when it does not fit a `usize`.
pub fn checked_product(dims: &Vec<usize>) -> (r: Option<usize>)
    ensures
        match r {
            Some(n) => n == product(dims@),
            None => product(dims@) > usize::MAX,
        },
{
    if has_zero(dims) {
        proof {
            let k = choose|j: int| 0 <= j < dims@.len() && dims@[j] == 0;
            lemma_product_zero(dims@, k);
        }
        return Some(0);
    }
    let mut acc: usize = 1;
    let mut i: usize = 0;
    assert(dims@.take(0) =~= Seq::<usize>::empty());
    while i < dims.len()
        invariant
            i <= dims@.len(),
            forall|j: int| 0 <= j < dims@.len() ==> dims@[j] != 0,
            acc == product(dims@.take(i as int)),
        decreases dims@.len() - i,
    {
        proof {
            lemma_product_push(dims@.take(i as int), dims@[i as int]);
            assert(dims@.take(i as int).push(dims@[i as int]) =~= dims@.take(i + 1));
            lemma_product_prefix_le(dims@, i + 1);
        }
        match acc.checked_mul(dims[i]) {
            Some(next) => {
                acc = next;
            },
            None => {
                return None;
            },
        }
        i += 1;
    }
    assert(dims@.take(dims@.len() as int) =~= dims@);
    Some(acc)
}

} // verus!
