//! Table by join and by couple in one loop: every cell of one array put
//! beside every cell of the other.
use crate::arrayops::{concat_dims, stack};
use crate::error::{Fault, RuntimeError};
use crate::fusion::{lemma_pair_index, lemma_stack_none};
use crate::optimize::lemma_collect_one;
use crate::rows::{join_cells, lemma_join_push, lemma_join_uniform, uniform};
use crate::semantics::{column, pair_items, pair_map_from, paired, reframe, table_pairs};
use crate::shape::{lemma_product_concat, lemma_product_push, row_shape};
use crate::value::{cells_fit, models, Array, Cell, Elem, Kind, Value};
use crate::vm::yields;
use vstd::prelude::*;

verus! {

/// Two scalars of one kind, joined or coupled, are the vector of their two
/// cells; scalars of two kinds are outside the domain.
pub proof fn lemma_paired_scalars(couple: bool, x: Cell, y: Cell)
    ensures
        paired(couple, Array::scalar(x), Array::scalar(y)) == (if x.kind() != y.kind() {
            Err::<Array, Fault>(Fault::DomainError)
        } else {
            Ok::<Array, Fault>(Array { kind: x.kind(), shape: seq![2usize], cells: seq![x, y] })
        }),
{
    let (tx, ty) = (Array::scalar(x), Array::scalar(y));
    if couple {
        let rows = seq![tx, ty];
        assert(rows[0] == tx && rows[1] == ty);
        if x.kind() == y.kind() {
            let parts = Seq::new(rows.len(), |j: int| rows[j].cells);
            assert(parts =~= seq![seq![x]].push(seq![y]));
            lemma_join_push(seq![seq![x]], seq![y]);
            assert(seq![seq![x]] =~= Seq::<Seq<Cell>>::empty().push(seq![x]));
            lemma_join_push(Seq::<Seq<Cell>>::empty(), seq![x]);
            assert(join_cells(Seq::<Seq<Cell>>::empty()) =~= Seq::<Cell>::empty());
            assert(join_cells(parts) =~= seq![x, y]);
            assert(seq![rows.len() as usize] + rows[0].shape =~= seq![2usize]);
        } else {
            assert(rows[1].kind != rows[0].kind);
        }
    } else {
        assert(row_shape(tx.shape) =~= Seq::<usize>::empty());
        assert(tx.rows() == 1 && ty.rows() == 1);
        assert(seq![2usize] + row_shape(tx.shape) =~= seq![2usize]);
        assert(tx.cells + ty.cells =~= seq![x, y]);
    }
}

/// The pair at place `k` of the table: a cell of `a` and a cell of `b`
/// beside it, the cells of `b` varying fastest.
pub open spec fn pair_of(a: Array, b: Array, k: int) -> Seq<Cell> {
    seq![a.cells[k / (b.cells.len() as int)], b.cells[k % (b.cells.len() as int)]]
}

/// The first `i` pairs of the table.
pub open spec fn pairs_of(a: Array, b: Array, i: nat) -> Seq<Seq<Cell>> {
    Seq::new(i, |k: int| pair_of(a, b, k))
}

/// The results that the item-by-item table has gathered after `i` items.
pub open spec fn pair_rows(a: Array, b: Array, i: nat) -> Seq<Seq<Array>> {
    Seq::new(i, |k: int| seq![Array { kind: a.kind, shape: seq![2usize], cells: pair_of(a, b, k) }])
}

/// What the table by join or couple comes to for valid arrays: nothing
/// where there is no pair, a failure where the kinds differ, else all
/// pairs one after another along one more axis of length two.
pub open spec fn pairs_direct(a: Array, b: Array) -> Result<Array, Fault> {
    let n = a.cells.len() * b.cells.len();
    if n > usize::MAX {
        Err(Fault::ShapeMismatch)
    } else if n == 0 {
        Ok(Array { kind: Kind::Number, shape: a.shape + b.shape, cells: Seq::empty() })
    } else if a.kind != b.kind {
        Err(Fault::DomainError)
    } else {
        Ok(
            Array {
                kind: a.kind,
                shape: (a.shape + b.shape).push(2usize),
                cells: join_cells(pairs_of(a, b, n)),
            },
        )
    }
}

proof fn lemma_pair_map(couple: bool, a: Array, b: Array, i: nat)
    requires
        a.valid(),
        b.valid(),
        a.kind == b.kind,
        i <= a.cells.len() * b.cells.len(),
    ensures
        pair_map_from(couple, pair_items(a, b), i, pair_rows(a, b, i)) == Ok::<
            Seq<Seq<Array>>,
            Fault,
        >(pair_rows(a, b, a.cells.len() * b.cells.len())),
    decreases a.cells.len() * b.cells.len() - i,
{
    let n = a.cells.len() * b.cells.len();
    let items = pair_items(a, b);
    if i < n {
        let nb = b.cells.len() as int;
        lemma_pair_index(a.cells.len(), b.cells.len(), i as int);
        let x = a.cells[(i as int) / nb];
        let y = b.cells[(i as int) % nb];
        assert(items[i as int][1] == Array::scalar(x));
        assert(items[i as int][0] == Array::scalar(y));
        assert(x.kind() == a.kind && y.kind() == b.kind);
        lemma_paired_scalars(couple, x, y);
        assert(pair_rows(a, b, i).push(
            seq![Array { kind: a.kind, shape: seq![2usize], cells: pair_of(a, b, i as int) }],
        ) =~= pair_rows(a, b, i + 1));
        lemma_pair_map(couple, a, b, i + 1);
    }
}

/// The table by join or couple, item by item, comes to what
/// `pairs_direct` says.
pub proof fn lemma_table_pairs(couple: bool, a: Array, b: Array)
    requires
        a.valid(),
        b.valid(),
    ensures
        table_pairs(couple, a, b) == pairs_direct(a, b),
{
    let n = a.cells.len() * b.cells.len();
    let frame = a.shape + b.shape;
    let items = pair_items(a, b);
    if n > usize::MAX {
    } else if n == 0 {
        let outs = Seq::<Seq<Array>>::empty();
        lemma_collect_one(outs, frame);
        assert(column(outs, 0) =~= Seq::<Array>::empty());
        lemma_stack_none(column(outs, 0), frame);
    } else if a.kind != b.kind {
        let nb = b.cells.len() as int;
        lemma_pair_index(a.cells.len(), b.cells.len(), 0);
        let x = a.cells[0int / nb];
        let y = b.cells[0int % nb];
        assert(items[0][1] == Array::scalar(x));
        assert(items[0][0] == Array::scalar(y));
        assert(x.kind() == a.kind && y.kind() == b.kind);
        lemma_paired_scalars(couple, x, y);
    } else {
        assert(pair_rows(a, b, 0) =~= Seq::<Seq<Array>>::empty());
        lemma_pair_map(couple, a, b, 0);
        let outs = pair_rows(a, b, n);
        lemma_collect_one(outs, frame);
        let col = column(outs, 0);
        assert(col.len() == n);
        assert(col[0] == outs[0][0]);
        assert forall|j: int| 0 <= j < col.len() implies (#[trigger] col[j]).shape == col[0].shape
            && col[j].kind == col[0].kind by {
            assert(col[j] == outs[j][0]);
        }
        assert(Seq::new(col.len(), |j: int| col[j].cells) =~= pairs_of(a, b, n));
        let v = stack(col)->Ok_0;
        assert(v.shape =~= seq![n as usize, 2usize]);
        assert(row_shape(v.shape) =~= seq![2usize]);
        assert(frame + row_shape(v.shape) =~= frame.push(2usize));
        assert(reframe(v, frame) == pairs_direct(a, b)->Ok_0);
    }
}

/// Table by join, or by couple where `couple` is set, in one loop over the
/// pairs of cells.
pub fn table_pairs_value(couple: bool, a: &Value, b: &Value) -> (r: Result<Value, RuntimeError>)
    ensures
        yields(r, table_pairs(couple, a@, b@)),
{
    let na = a.count();
    let nb = b.count();
    let total = match na.checked_mul(nb) {
        Some(total) => total,
        None => {
            return Err(RuntimeError::ShapeMismatch);
        },
    };
    let mut dims = concat_dims(a.shape(), b.shape());
    proof {
        lemma_table_pairs(couple, a@, b@);
        lemma_product_concat(a@.shape, b@.shape);
    }
    if total == 0 {
        let cells: Vec<Elem> = Vec::new();
        assert(models(cells@) =~= Seq::<Cell>::empty());
        return Ok(Value::assemble(Kind::Number, dims, cells));
    }
    let kind = a.kind();
    if kind != b.kind() {
        return Err(RuntimeError::DomainError);
    }
    let ghost parts = pairs_of(a@, b@, total as nat);
    let mut cells: Vec<Elem> = Vec::new();
    let mut i: usize = 0;
    proof {
        assert(0 * nb == 0);
        assert(parts.take(0) =~= Seq::<Seq<Cell>>::empty());
        assert(models(cells@) =~= join_cells(parts.take(0)));
    }
    while i < na
        invariant
            i <= na,
            na == a@.cells.len(),
            nb == b@.cells.len(),
            total == na * nb,
            kind == a@.kind,
            kind == b@.kind,
            parts == pairs_of(a@, b@, total as nat),
            i * nb <= total,
            models(cells@) == join_cells(parts.take(i * nb)),
            cells_fit(kind, models(cells@)),
        decreases na - i,
    {
        let mut j: usize = 0;
        while j < nb
            invariant
                j <= nb,
                i < na,
                na == a@.cells.len(),
                nb == b@.cells.len(),
                total == na * nb,
                kind == a@.kind,
                kind == b@.kind,
                parts == pairs_of(a@, b@, total as nat),
                i * nb + j <= total,
                models(cells@) == join_cells(parts.take(i * nb + j)),
                cells_fit(kind, models(cells@)),
            decreases nb - j,
        {
            let ghost k = i * nb + j;
            let ghost before = models(cells@);
            proof {
                vstd::arithmetic::div_mod::lemma_fundamental_div_mod_converse(
                    k,
                    nb as int,
                    i as int,
                    j as int,
                );
                assert(k < na * nb) by (nonlinear_arith)
                    requires
                        k == i * nb + j,
                        0 <= j < nb,
                        0 <= i < na,
                ;
            }
            let x = a.cell(i).clone();
            let y = b.cell(j).clone();
            cells.push(x);
            cells.push(y);
            proof {
                assert(parts[k] == pair_of(a@, b@, k));
                assert(models(cells@) =~= before + parts[k]);
                lemma_join_push(parts.take(k), parts[k]);
                assert(parts.take(k).push(parts[k]) =~= parts.take(k + 1));
                assert(cells_fit(kind, models(cells@))) by {
                    assert forall|m: int| 0 <= m < models(cells@).len() implies (
                    #[trigger] models(cells@)[m]).kind() == kind && (models(cells@)[m] matches Cell::Boxed(
                        inner,
                    ) ==> inner.valid()) by {
                        if m < before.len() {
                            assert(models(cells@)[m] == before[m]);
                        }
                    }
                }
            }
            j += 1;
        }
        i += 1;
        assert(i * nb == (i - 1) * nb + nb) by (nonlinear_arith);
    }
    proof {
        assert(i * nb == total);
        assert(parts.take(total as int) =~= parts);
        assert(uniform(parts, 2));
        lemma_join_uniform(parts, 2);
        lemma_product_push(dims@, 2usize);
    }
    dims.push(2);
    Ok(Value::assemble(kind, dims, cells))
}

} // verus!
