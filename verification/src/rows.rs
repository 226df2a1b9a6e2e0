//! Arrays as stacks of rows: joining rows into an array, and picking rows
//! out of one.
use crate::cowslice::Dup;
use crate::shape::{lemma_row_bounds, product, row_len, row_shape};
use crate::value::{
    cells_fit, lemma_models_push, lemma_row_valid, models, Array, Cell, Elem, Kind, Value,
};
use vstd::prelude::*;

verus! {

/// The cells of the parts, one part after the other.
pub open spec fn join_cells(parts: Seq<Seq<Cell>>) -> Seq<Cell>
    decreases parts.len(),
{
    if parts.len() == 0 {
        Seq::empty()
    } else {
        join_cells(parts.drop_last()) + parts.last()
    }
}

/// Whether every part holds `len` cells.
pub open spec fn uniform(parts: Seq<Seq<Cell>>, len: nat) -> bool {
    forall|j: int| 0 <= j < parts.len() ==> (#[trigger] parts[j]).len() == len
}

/// Parts of one length join into blocks of that length, part `j` at block
/// `j`.
pub proof fn lemma_join_uniform(parts: Seq<Seq<Cell>>, len: nat)
    requires
        uniform(parts, len),
    ensures
        join_cells(parts).len() == parts.len() * len,
        forall|j: int|
            0 <= j < parts.len() ==> join_cells(parts).subrange(j * len, j * len + len)
                == #[trigger] parts[j],
    decreases parts.len(),
{
    if parts.len() == 0 {
        assert(0 * len == 0);
    } else {
        let front = parts.drop_last();
        let n = front.len() as int;
        lemma_join_uniform(front, len);
        assert((n + 1) * len == n * len + len) by (nonlinear_arith);
        assert forall|j: int| 0 <= j < parts.len() implies join_cells(parts).subrange(
            j * len,
            j * len + len,
        ) == #[trigger] parts[j] by {
            if j < n {
                lemma_row_bounds(j as nat, n as nat, len);
                assert(front[j] == parts[j]);
                assert(join_cells(parts).subrange(j * len, j * len + len) =~= join_cells(
                    front,
                ).subrange(j * len, j * len + len));
            } else {
                assert(join_cells(parts).subrange(j * len, j * len + len) =~= parts.last());
            }
        }
    }
}

pub proof fn lemma_join_push(parts: Seq<Seq<Cell>>, part: Seq<Cell>)
    ensures
        join_cells(parts.push(part)) == join_cells(parts) + part,
{
    assert(parts.push(part).drop_last() =~= parts);
}

/// Joined parts fit a kind when every part does.
pub proof fn lemma_join_fit(kind: Kind, parts: Seq<Seq<Cell>>)
    requires
        forall|j: int| 0 <= j < parts.len() ==> cells_fit(kind, #[trigger] parts[j]),
    ensures
        cells_fit(kind, join_cells(parts)),
    decreases parts.len(),
{
    if parts.len() > 0 {
        let front = parts.drop_last();
        assert forall|j: int| 0 <= j < front.len() implies cells_fit(kind, #[trigger] front[j]) by {
            assert(front[j] == parts[j]);
        }
        lemma_join_fit(kind, front);
        assert(cells_fit(kind, parts.last()));
        let all = join_cells(parts);
        let cut = join_cells(front).len() as int;
        assert forall|i: int| 0 <= i < all.len() implies (#[trigger] all[i]).kind() == kind && (
        all[i] matches Cell::Boxed(inner) ==> inner.valid()) by {
            if i < cut {
                assert(all[i] == join_cells(front)[i]);
            } else {
                assert(all[i] == parts.last()[i - cut]);
            }
        }
    }
}

/// Row indices as integers.
pub open spec fn as_ints(picks: Seq<usize>) -> Seq<int> {
    Seq::new(picks.len(), |k: int| picks[k] as int)
}

impl Array {
    /// The rows picked by `picks`, in that order, as a new array.
    pub open spec fn gather(self, picks: Seq<int>) -> Array {
        Array {
            kind: self.kind,
            shape: seq![picks.len() as usize] + row_shape(self.shape),
            cells: join_cells(Seq::new(picks.len(), |j: int| self.row(picks[j]).cells)),
        }
    }

    /// Whether every pick names a row.
    pub open spec fn picks_ok(self, picks: Seq<int>) -> bool {
        forall|j: int| 0 <= j < picks.len() ==> 0 <= #[trigger] picks[j] < self.rows()
    }
}

/// The cells of picked rows: as many blocks of a row's length as there are
/// picks, block `j` holding the row picked at `j`.
pub proof fn lemma_gather_cells(a: Array, picks: Seq<int>)
    requires
        a.valid(),
        a.picks_ok(picks),
    ensures
        cells_fit(a.kind, a.gather(picks).cells),
        a.gather(picks).cells.len() == picks.len() * row_len(a.shape),
        forall|j: int|
            0 <= j < picks.len() ==> a.gather(picks).cells.subrange(
                j * row_len(a.shape),
                j * row_len(a.shape) + row_len(a.shape),
            ) == (#[trigger] a.row(picks[j])).cells,
{
    let parts = Seq::new(picks.len(), |j: int| a.row(picks[j]).cells);
    let len = row_len(a.shape);
    assert forall|j: int| 0 <= j < parts.len() implies (#[trigger] parts[j]).len() == len
        && cells_fit(a.kind, parts[j]) by {
        lemma_row_valid(a, picks[j]);
    }
    lemma_join_uniform(parts, len);
    lemma_join_fit(a.kind, parts);
    assert forall|j: int| 0 <= j < picks.len() implies a.gather(picks).cells.subrange(
        j * len,
        j * len + len,
    ) == (#[trigger] a.row(picks[j])).cells by {
        assert(parts[j] == a.row(picks[j]).cells);
    }
}

/// Picking rows that exist from a valid array gives a valid array whose
/// row `j` is the row picked at `j`.
pub proof fn lemma_gather(a: Array, picks: Seq<int>)
    requires
        a.valid(),
        a.picks_ok(picks),
        picks.len() <= usize::MAX,
    ensures
        a.gather(picks).valid(),
        a.gather(picks).rows() == picks.len(),
        row_len(a.gather(picks).shape) == row_len(a.shape),
        forall|j: int| 0 <= j < picks.len() ==> #[trigger] a.gather(picks).row(j) == a.row(picks[j]),
{
    let g = a.gather(picks);
    assert(g.shape.drop_first() =~= row_shape(a.shape));
    assert(row_shape(g.shape) =~= row_shape(a.shape));
    lemma_gather_cells(a, picks);
    assert forall|j: int| 0 <= j < picks.len() implies #[trigger] g.row(j) == a.row(picks[j]) by {
        assert(g.row(j).cells == a.row(picks[j]).cells);
    }
}

/// The dimensions `dims` under a new leading dimension `n`.
pub fn with_leading(n: usize, dims: Vec<usize>) -> (r: Vec<usize>)
    ensures
        r@ == seq![n] + dims@,
{
    let mut r: Vec<usize> = Vec::new();
    r.push(n);
    let mut i: usize = 0;
    while i < dims.len()
        invariant
            i <= dims@.len(),
            r@ == seq![n] + dims@.take(i as int),
        decreases dims@.len() - i,
    {
        r.push(dims[i]);
        i += 1;
        assert(r@ =~= seq![n] + dims@.take(i as int));
    }
    assert(dims@.take(dims@.len() as int) =~= dims@);
    r
}

/// Copies of the rows of `a` named by `picks`, in that order.
pub fn gather_rows(a: &Value, picks: &Vec<usize>) -> (r: Value)
    requires
        forall|j: int| 0 <= j < picks@.len() ==> picks@[j] < a@.rows(),
    ensures
        r@ == a@.gather(as_ints(picks@)),
        r@.valid(),
{
    let ghost want = as_ints(picks@);
    let ghost parts = Seq::new(want.len(), |j: int| a@.row(want[j]).cells);
    let kind = a.kind();
    let shape = with_leading(picks.len(), a.row_dims());
    let mut cells: Vec<Elem> = Vec::new();
    let mut j: usize = 0;
    assert(parts.take(0) =~= Seq::<Seq<Cell>>::empty());
    while j < picks.len()
        invariant
            j <= picks@.len(),
            a@.valid(),
            want == as_ints(picks@),
            parts == Seq::new(want.len(), |j: int| a@.row(want[j]).cells),
            forall|k: int| 0 <= k < picks@.len() ==> picks@[k] < a@.rows(),
            models(cells@) == join_cells(parts.take(j as int)),
        decreases picks@.len() - j,
    {
        let row = picks[j];
        let len = a.row_len();
        let ghost before = cells@;
        proof {
            lemma_row_valid(a@, row as int);
            lemma_row_bounds(row as nat, a@.rows(), len as nat);
        }
        let count = a.count();
        let start = row * len;
        let mut k: usize = 0;
        while k < len
            invariant
                k <= len,
                start == row * len,
                start + len <= a@.cells.len(),
                count == a@.cells.len(),
                a@.valid(),
                models(cells@) == models(before) + a@.cells.subrange(start as int, start + k),
            decreases len - k,
        {
            let e = a.cell(start + k).dup();
            proof {
                lemma_models_push(cells@, e);
            }
            cells.push(e);
            k += 1;
            assert(models(cells@) =~= models(before) + a@.cells.subrange(
                start as int,
                start + k,
            ));
        }
        proof {
            lemma_join_push(parts.take(j as int), parts[j as int]);
            assert(parts.take(j as int).push(parts[j as int]) =~= parts.take(j + 1));
            assert(parts[j as int] == a@.row(row as int).cells);
        }
        j += 1;
    }
    proof {
        assert(parts.take(picks@.len() as int) =~= parts);
        lemma_gather(a@, want);
    }
    Value::assemble(kind, shape, cells)
}

/// The vector of the given row indices, as numbers.
pub open spec fn index_vector(picks: Seq<int>) -> Array {
    Array {
        kind: Kind::Number,
        shape: seq![picks.len() as usize],
        cells: Seq::new(picks.len(), |k: int| Cell::Num(picks[k] as i64)),
    }
}

pub proof fn lemma_index_vector(picks: Seq<int>)
    requires
        picks.len() <= usize::MAX,
    ensures
        index_vector(picks).valid(),
        index_vector(picks).rows() == picks.len(),
        forall|k: int|
            0 <= k < picks.len() ==> #[trigger] index_vector(picks).row(k) == Array::scalar(
                Cell::Num(picks[k] as i64),
            ),
{
    let v = index_vector(picks);
    assert(v.shape.drop_first() =~= Seq::<usize>::empty());
    assert(product(Seq::<usize>::empty()) == 1);
    assert(product(v.shape) == picks.len() * product(v.shape.drop_first()));
    assert forall|k: int| 0 <= k < picks.len() implies #[trigger] v.row(k) == Array::scalar(
        Cell::Num(picks[k] as i64),
    ) by {
        let rl = row_len(v.shape) as int;
        assert(rl == 1);
        assert(k * rl == k) by (nonlinear_arith)
            requires
                rl == 1,
        ;
        assert(v.row(k).cells =~= seq![Cell::Num(picks[k] as i64)]);
        assert(v.row(k).shape =~= Seq::<usize>::empty());
    }
}

/// The vector of the given row indices.
pub fn index_value(picks: &Vec<usize>) -> (r: Value)
    requires
        forall|k: int| 0 <= k < picks@.len() ==> #[trigger] picks@[k] <= i64::MAX,
    ensures
        r@ == index_vector(as_ints(picks@)),
        r@.valid(),
{
    let mut cells: Vec<Elem> = Vec::new();
    let mut k: usize = 0;
    while k < picks.len()
        invariant
            k <= picks@.len(),
            cells@.len() == k,
            forall|j: int| 0 <= j < picks@.len() ==> #[trigger] picks@[j] <= i64::MAX,
            forall|j: int| 0 <= j < k ==> cells@[j] == Elem::Num(picks@[j] as i64),
        decreases picks@.len() - k,
    {
        cells.push(Elem::Num(picks[k] as i64));
        k += 1;
    }
    let mut shape: Vec<usize> = Vec::new();
    shape.push(picks.len());
    proof {
        let want = index_vector(as_ints(picks@));
        lemma_index_vector(as_ints(picks@));
        assert(models(cells@) =~= want.cells);
        assert(shape@ =~= want.shape);
    }
    Value::assemble(Kind::Number, shape, cells)
}

} // verus!
