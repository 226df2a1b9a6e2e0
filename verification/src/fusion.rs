//! Why each fused instruction may stand for its idiom: what the idiom
//! computes step by step is what the fused instruction computes at once.
use crate::arrayops::{
    first, first_where, indices_where, last, last_where, lemma_first_reverse,
    lemma_first_where, reverse, select, stack,
};
use crate::assembly::Fused;
use crate::error::Fault;
use crate::order::lemma_order;
use crate::pervasive::{cell_at, pervade};
use crate::primitive::{peek, prim_step, settle, Primitive};
use crate::rows::{join_cells, lemma_index_vector, lemma_join_uniform};
use crate::scalar::{apply, lemma_apply_kind, result_kind, ScalarOp};
use crate::semantics::{
    collect, column, grader, idiom, op_map2_from, op_map_from, pair_items, reframe, run_prims,
    table_fork, table_op, Outcome,
};
use crate::shape::{lemma_product_concat, product};
use crate::sorting::{
    grade, grade_first, grade_last, lemma_first_grade, lemma_last_grade, lemma_select_grade,
    sort,
};
use crate::value::{Array, Cell, Kind};
use vstd::prelude::*;

verus! {

/// What a fused instruction computes from the array on top of the stack.
pub open spec fn direct(x: Fused, a: Array) -> Result<Array, Fault> {
    match x {
        Fused::Last => last(a),
        Fused::GradeFirst { desc } => grade_first(a, desc),
        Fused::GradeLast { desc } => grade_last(a, desc),
        Fused::WhereFirst => first_where(a),
        Fused::WhereLast => last_where(a),
        Fused::Sort { desc } => sort(a, desc),
        Fused::Transposes(n) => Ok(crate::transpose::transposed(a, n as nat)),
        _ => Err(Fault::StackUnderflow),
    }
}

/// Whether the fused instruction stands for a run of built-in functions.
pub open spec fn is_idiom(x: Fused) -> bool {
    !(x is Dips) && !(x is ReduceOp) && !(x is ScanOp) && !(x is TableOp) && !(x is Repeat)
        && !(x is TablePairs) && !(x is Forked) && !(x is TableFork) && !(x is ReduceTable) && !(x is RowsReduce) && !(x is RowsTranspose)
        && !(x is WindowsReduce)
}

/// One function of one argument, run on a stack that holds an argument.
proof fn lemma_monadic(p: Primitive, s: Seq<Array>, r: Result<Array, Fault>)
    requires
        s.len() >= 1,
        p.signature_spec() == Some((1nat, 1nat)),
        prim_step(p, s) == settle(s, 1, r),
    ensures
        match r {
            Ok(v) => prim_step(p, s) == Ok::<Seq<Array>, Fault>(s.drop_last().push(v)) && peek(
                s.drop_last().push(v),
                0,
            ) == v && s.drop_last().push(v).drop_last() == s.drop_last(),
            Err(e) => prim_step(p, s) == Err::<Seq<Array>, Fault>(e),
        },
{
    if let Ok(v) = r {
        assert(s.take(s.len() - 1) =~= s.drop_last());
        assert(s.drop_last().push(v).drop_last() =~= s.drop_last());
    }
}

/// Two functions run one after the other.
proof fn lemma_run2(one: Primitive, two: Primitive, s: Seq<Array>)
    ensures
        run_prims(seq![one, two], 0, s) == (match prim_step(one, s) {
            Ok(t) => prim_step(two, t),
            Err(e) => Err::<Seq<Array>, Fault>(e),
        }),
{
    reveal_with_fuel(run_prims, 3);
    let ps = seq![one, two];
    assert(ps[0] == one && ps[1] == two);
    if let Ok(t) = prim_step(one, s) {
        if let Ok(u) = prim_step(two, t) {
            assert(run_prims(ps, 2, u) == Ok::<Seq<Array>, Fault>(u));
        }
    }
}

/// Three functions run one after the other.
proof fn lemma_run3(one: Primitive, two: Primitive, three: Primitive, s: Seq<Array>)
    ensures
        run_prims(seq![one, two, three], 0, s) == (match prim_step(one, s) {
            Ok(t) => match prim_step(two, t) {
                Ok(u) => prim_step(three, u),
                Err(e) => Err::<Seq<Array>, Fault>(e),
            },
            Err(e) => Err::<Seq<Array>, Fault>(e),
        }),
{
    reveal_with_fuel(run_prims, 4);
    let ps = seq![one, two, three];
    assert(ps[0] == one && ps[1] == two && ps[2] == three);
    if let Ok(t) = prim_step(one, s) {
        if let Ok(u) = prim_step(two, t) {
            if let Ok(v) = prim_step(three, u) {
                assert(run_prims(ps, 3, v) == Ok::<Seq<Array>, Fault>(v));
            }
        }
    }
}

proof fn lemma_idiom_last(s: Seq<Array>)
    requires
        s.len() >= 1,
        s.last().valid(),
    ensures
        run_prims(idiom(Fused::Last), 0, s) == settle(s, 1, last(s.last())),
{
    let a = s.last();
    let rest = s.drop_last();
    assert(s.take(s.len() - 1) =~= rest);
    lemma_run2(Primitive::Reverse, Primitive::First, s);
    lemma_first_reverse(a);
    lemma_monadic(Primitive::Reverse, s, Ok(reverse(a)));
    lemma_monadic(Primitive::First, rest.push(reverse(a)), first(reverse(a)));
}

proof fn lemma_idiom_grade_first(desc: bool, s: Seq<Array>)
    requires
        s.len() >= 1,
        s.last().valid(),
    ensures
        run_prims(idiom(Fused::GradeFirst { desc }), 0, s) == settle(
            s,
            1,
            grade_first(s.last(), desc),
        ),
{
    let a = s.last();
    let rest = s.drop_last();
    assert(s.take(s.len() - 1) =~= rest);
    lemma_run2(grader(desc), Primitive::First, s);
    lemma_first_grade(a, desc);
    lemma_monadic(grader(desc), s, grade(a, desc));
    if let Ok(g) = grade(a, desc) {
        lemma_monadic(Primitive::First, rest.push(g), first(g));
    }
}

proof fn lemma_idiom_grade_last(desc: bool, s: Seq<Array>)
    requires
        s.len() >= 1,
        s.last().valid(),
    ensures
        run_prims(idiom(Fused::GradeLast { desc }), 0, s) == settle(
            s,
            1,
            grade_last(s.last(), desc),
        ),
{
    let a = s.last();
    let rest = s.drop_last();
    assert(s.take(s.len() - 1) =~= rest);
    lemma_run3(grader(desc), Primitive::Reverse, Primitive::First, s);
    lemma_last_grade(a, desc);
    lemma_monadic(grader(desc), s, grade(a, desc));
    if let Ok(g) = grade(a, desc) {
        lemma_order(a, desc, a.rows());
        lemma_index_vector(a.order(desc, a.rows()));
        lemma_first_reverse(g);
        lemma_monadic(Primitive::Reverse, rest.push(g), Ok(reverse(g)));
        lemma_monadic(Primitive::First, rest.push(reverse(g)), first(reverse(g)));
    }
}

proof fn lemma_idiom_where_first(s: Seq<Array>)
    requires
        s.len() >= 1,
        s.last().valid(),
    ensures
        run_prims(idiom(Fused::WhereFirst), 0, s) == settle(s, 1, first_where(s.last())),
{
    let a = s.last();
    let rest = s.drop_last();
    assert(s.take(s.len() - 1) =~= rest);
    lemma_run2(Primitive::Where, Primitive::First, s);
    lemma_first_where(a);
    lemma_monadic(Primitive::Where, s, indices_where(a));
    if let Ok(w) = indices_where(a) {
        lemma_monadic(Primitive::First, rest.push(w), first(w));
    }
}

proof fn lemma_idiom_where_last(s: Seq<Array>)
    requires
        s.len() >= 1,
        s.last().valid(),
    ensures
        run_prims(idiom(Fused::WhereLast), 0, s) == settle(s, 1, last_where(s.last())),
{
    let a = s.last();
    let rest = s.drop_last();
    assert(s.take(s.len() - 1) =~= rest);
    lemma_run3(Primitive::Where, Primitive::Reverse, Primitive::First, s);
    lemma_first_where(a);
    lemma_monadic(Primitive::Where, s, indices_where(a));
    if let Ok(w) = indices_where(a) {
        lemma_first_reverse(w);
        lemma_monadic(Primitive::Reverse, rest.push(w), Ok(reverse(w)));
        lemma_monadic(Primitive::First, rest.push(reverse(w)), first(reverse(w)));
    }
}

proof fn lemma_idiom_sort(desc: bool, s: Seq<Array>)
    requires
        s.len() >= 1,
        s.last().valid(),
    ensures
        run_prims(idiom(Fused::Sort { desc }), 0, s) == settle(s, 1, sort(s.last(), desc)),
{
    let a = s.last();
    let rest = s.drop_last();
    assert(s.take(s.len() - 1) =~= rest);
    lemma_run3(Primitive::Dup, grader(desc), Primitive::Select, s);
    lemma_select_grade(a, desc);
    let t = s.push(a);
    assert(prim_step(Primitive::Dup, s) == Ok::<Seq<Array>, Fault>(t));
    lemma_monadic(grader(desc), t, grade(a, desc));
    assert(t.drop_last() =~= s);
    if let Ok(g) = grade(a, desc) {
        let u = s.push(g);
        assert(peek(u, 0) == g);
        assert(peek(u, 1) == a);
        assert(u.take(u.len() - 2) =~= rest);
        assert(prim_step(Primitive::Select, u) == settle(u, 2, select(g, a)));
    }
}

/// The first `i` of `n` transposes have transposed the top of the stack
/// `i` times over.
proof fn lemma_idiom_transposes(n: usize, i: nat, s: Seq<Array>)
    requires
        i <= n,
        s.len() >= 1,
    ensures
        run_prims(
            idiom(Fused::Transposes(n)),
            i,
            s.drop_last().push(crate::transpose::transposed(s.last(), i)),
        ) == Ok::<Seq<Array>, Fault>(
            s.drop_last().push(crate::transpose::transposed(s.last(), n as nat)),
        ),
    decreases n - i,
{
    let ps = idiom(Fused::Transposes(n));
    let t = s.drop_last().push(crate::transpose::transposed(s.last(), i));
    if i < n {
        assert(ps[i as int] == Primitive::Transpose);
        assert(peek(t, 0) == crate::transpose::transposed(s.last(), i));
        assert(t.take(t.len() - 1) =~= s.drop_last());
        assert(prim_step(Primitive::Transpose, t) == Ok::<Seq<Array>, Fault>(
            s.drop_last().push(crate::transpose::transposed(s.last(), i + 1)),
        ));
        lemma_idiom_transposes(n, i + 1, s);
    }
}

/// On a stack whose top is a valid array, the idiom of a fused instruction
/// leaves what the instruction computes directly; on an empty stack both
/// underflow.
pub proof fn lemma_idiom(x: Fused, s: Seq<Array>)
    requires
        is_idiom(x),
        x matches Fused::Transposes(n) ==> n >= 1,
        s.len() >= 1 ==> s.last().valid(),
    ensures
        run_prims(idiom(x), 0, s) == (if s.len() < 1 {
            Err::<Seq<Array>, Fault>(Fault::StackUnderflow)
        } else {
            settle(s, 1, direct(x, s.last()))
        }),
{
    if s.len() >= 1 {
        match x {
            Fused::Last => lemma_idiom_last(s),
            Fused::GradeFirst { desc } => lemma_idiom_grade_first(desc, s),
            Fused::GradeLast { desc } => lemma_idiom_grade_last(desc, s),
            Fused::WhereFirst => lemma_idiom_where_first(s),
            Fused::WhereLast => lemma_idiom_where_last(s),
            Fused::Sort { desc } => lemma_idiom_sort(desc, s),
            Fused::Transposes(n) => {
                lemma_idiom_transposes(n, 0, s);
                assert(s.drop_last().push(crate::transpose::transposed(s.last(), 0)) =~= s);
                assert(s.take(s.len() - 1) =~= s.drop_last());
            },
            _ => {},
        }
    } else {
        reveal_with_fuel(run_prims, 2);
        assert(idiom(x).len() >= 1);
        assert(prim_step(idiom(x)[0], s) == Err::<Seq<Array>, Fault>(Fault::StackUnderflow));
    }
}

/// What `op` makes of cell `k / n` of `a` and cell `k % n` of `b`, where
/// `n` is the number of cells of `b`: the cell at place `k` of their table.
pub open spec fn pair_cell(op: ScalarOp, a: Array, b: Array, k: int) -> Result<Cell, Fault> {
    apply(op, a.cells[k / (b.cells.len() as int)], b.cells[k % (b.cells.len() as int)])
}

/// The table of `a` and `b` by `op`, cell by cell: no cells make an empty
/// array of numbers; otherwise the kinds must suit `op` and `op` must
/// succeed on every pair.
pub open spec fn table_direct(op: ScalarOp, a: Array, b: Array) -> Result<Array, Fault> {
    let n = a.cells.len() * b.cells.len();
    if n == 0 {
        Ok(Array { kind: Kind::Number, shape: a.shape + b.shape, cells: Seq::empty() })
    } else {
        match result_kind(op, a.kind, b.kind) {
            None => Err(Fault::DomainError),
            Some(kind) => if forall|k: int| 0 <= k < n ==> (#[trigger] pair_cell(op, a, b, k)) is Ok {
                Ok(
                    Array {
                        kind,
                        shape: a.shape + b.shape,
                        cells: Seq::new(n, |k: int| pair_cell(op, a, b, k)->Ok_0),
                    },
                )
            } else {
                Err(Fault::DomainError)
            },
        }
    }
}

/// A pervasive operation on two scalars is the operation on their cells.
pub proof fn lemma_pervade_scalars(op: ScalarOp, x: Cell, y: Cell)
    ensures
        pervade(op, Array::scalar(x), Array::scalar(y)) == (match apply(op, x, y) {
            Ok(c) => Ok::<Array, Fault>(Array::scalar(c)),
            Err(_) => Err::<Array, Fault>(Fault::DomainError),
        }),
{
    let (tx, ty) = (Array::scalar(x), Array::scalar(y));
    assert(tx.shape.skip(0) =~= ty.shape);
    assert(product(Seq::<usize>::empty()) == 1);
    lemma_apply_kind(op, x, y);
    assert(cell_at(op, tx, ty, 0) == apply(op, x, y));
    if let Ok(r) = pervade(op, tx, ty) {
        assert(r.cells =~= seq![apply(op, x, y)->Ok_0]);
    } else if result_kind(op, x.kind(), y.kind()) is Some {
        assert(!(cell_at(op, tx, ty, 0) is Ok));
    }
}

/// Place `k` of a table with `nb` columns lies in row `k / nb`, column
/// `k % nb`.
pub proof fn lemma_pair_index(na: nat, nb: nat, k: int)
    requires
        0 <= k < na * nb,
    ensures
        nb > 0,
        0 <= k / (nb as int) < na,
        0 <= k % (nb as int) < nb,
{
    if nb == 0 {
        assert(na * nb == 0) by (nonlinear_arith)
            requires
                nb == 0,
        ;
    }
    let d = nb as int;
    vstd::arithmetic::div_mod::lemma_fundamental_div_mod(k, d);
    let q = k / d;
    assert(0 <= q < na) by (nonlinear_arith)
        requires
            0 <= k < na * d,
            d > 0,
            k == d * q + k % d,
            0 <= k % d < d,
    ;
}

/// The results that the item-by-item table has gathered after `i` items
/// that all succeeded.
pub open spec fn pair_outs(op: ScalarOp, a: Array, b: Array, i: nat) -> Seq<Seq<Array>> {
    Seq::new(i, |k: int| seq![Array::scalar(pair_cell(op, a, b, k)->Ok_0)])
}

proof fn lemma_op_map(op: ScalarOp, a: Array, b: Array, i: nat)
    requires
        i <= a.cells.len() * b.cells.len(),
        forall|k: int| 0 <= k < i ==> (#[trigger] pair_cell(op, a, b, k)) is Ok,
    ensures
        op_map_from(op, pair_items(a, b), i, pair_outs(op, a, b, i)) == (if forall|k: int|
            0 <= k < a.cells.len() * b.cells.len() ==> (#[trigger] pair_cell(op, a, b, k)) is Ok {
            Ok::<Seq<Seq<Array>>, Fault>(pair_outs(op, a, b, a.cells.len() * b.cells.len()))
        } else {
            Err::<Seq<Seq<Array>>, Fault>(Fault::DomainError)
        }),
    decreases a.cells.len() * b.cells.len() - i,
{
    let n = a.cells.len() * b.cells.len();
    let items = pair_items(a, b);
    if i < n {
        let nb = b.cells.len() as int;
        let x = a.cells[(i as int) / nb];
        let y = b.cells[(i as int) % nb];
        assert(items[i as int][1] == Array::scalar(x));
        assert(items[i as int][0] == Array::scalar(y));
        lemma_pervade_scalars(op, x, y);
        if pair_cell(op, a, b, i as int) is Ok {
            assert(pair_outs(op, a, b, i).push(seq![Array::scalar(pair_cell(op, a, b, i as int)->Ok_0)])
                =~= pair_outs(op, a, b, i + 1));
            lemma_op_map(op, a, b, i + 1);
        }
    }
}

/// Scalars of one kind, stacked and laid out along a frame that accounts
/// for them, are the array of their cells.
pub proof fn lemma_stack_scalars(cells: Seq<Cell>, kind: Kind, frame: Seq<usize>)
    requires
        1 <= cells.len() <= usize::MAX,
        forall|k: int| 0 <= k < cells.len() ==> (#[trigger] cells[k]).kind() == kind,
    ensures
        stack(Seq::new(cells.len(), |k: int| Array::scalar(cells[k]))) matches Ok(v) && reframe(
            v,
            frame,
        ) == (Array { kind, shape: frame, cells }),
{
    let n = cells.len();
    let col = Seq::new(n, |k: int| Array::scalar(cells[k]));
    assert(col[0] == Array::scalar(cells[0]));
    assert forall|j: int| 0 <= j < col.len() implies (#[trigger] col[j]).shape == col[0].shape
        && col[j].kind == col[0].kind by {
        assert(cells[j].kind() == kind);
    }
    let parts = Seq::new(col.len(), |j: int| col[j].cells);
    assert forall|j: int| 0 <= j < parts.len() implies (#[trigger] parts[j]).len() == 1 by {}
    lemma_join_uniform(parts, 1);
    let joined = join_cells(parts);
    assert(joined.len() == n) by {
        assert(parts.len() * 1 == parts.len());
    }
    assert forall|k: int| 0 <= k < n implies joined[k] == cells[k] by {
        assert(joined.subrange(k * 1, k * 1 + 1) == parts[k]);
        assert(joined.subrange(k * 1, k * 1 + 1)[0] == joined[k]);
        assert(parts[k] =~= seq![cells[k]]);
    }
    assert(joined =~= cells);
    let stacked = stack(col);
    assert(stacked is Ok);
    let v = stacked->Ok_0;
    assert(crate::shape::row_shape(v.shape) =~= Seq::<usize>::empty());
    assert(frame + crate::shape::row_shape(v.shape) =~= frame);
}

/// No arrays at all, stacked and laid out along a frame, are the empty
/// array of numbers of that shape.
pub proof fn lemma_stack_none(col: Seq<Array>, frame: Seq<usize>)
    requires
        col.len() == 0,
    ensures
        stack(col) matches Ok(v) && reframe(v, frame) == (Array {
            kind: Kind::Number,
            shape: frame,
            cells: Seq::empty(),
        }),
{
    let v = stack(col)->Ok_0;
    assert(crate::shape::row_shape(v.shape) =~= Seq::<usize>::empty());
    assert(frame + crate::shape::row_shape(v.shape) =~= frame);
}

/// The cells of the table of `a` and `b` by `op`, where `op` succeeds on
/// every pair.
pub open spec fn pair_cells(op: ScalarOp, a: Array, b: Array) -> Seq<Cell> {
    Seq::new(a.cells.len() * b.cells.len(), |k: int| pair_cell(op, a, b, k)->Ok_0)
}

/// Whether `op` succeeds on every pair of a cell of `a` and a cell of `b`.
pub open spec fn pairs_ok(op: ScalarOp, a: Array, b: Array) -> bool {
    forall|k: int|
        0 <= k < a.cells.len() * b.cells.len() ==> (#[trigger] pair_cell(op, a, b, k)) is Ok
}

/// In the table of valid arrays, every cell that `op` yields is of the
/// kind that suits the two kinds.
pub proof fn lemma_pair_kinds(op: ScalarOp, a: Array, b: Array)
    requires
        a.valid(),
        b.valid(),
        pairs_ok(op, a, b),
        a.cells.len() * b.cells.len() >= 1,
    ensures
        result_kind(op, a.kind, b.kind) is Some,
        forall|k: int|
            0 <= k < a.cells.len() * b.cells.len() ==> (#[trigger] pair_cells(op, a, b)[k]).kind()
                == result_kind(op, a.kind, b.kind)->0 && !(pair_cells(op, a, b)[k] is Boxed),
{
    let n = a.cells.len() * b.cells.len();
    let nb = b.cells.len() as int;
    assert forall|k: int| 0 <= k < n implies (#[trigger] pair_cells(op, a, b)[k]).kind()
        == result_kind(op, a.kind, b.kind)->0 && !(pair_cells(op, a, b)[k] is Boxed)
        && result_kind(op, a.kind, b.kind) is Some by {
        lemma_pair_index(a.cells.len(), b.cells.len(), k);
        lemma_apply_kind(op, a.cells[k / nb], b.cells[k % nb]);
        assert(pair_cell(op, a, b, k) is Ok);
    }
    assert(pair_cells(op, a, b)[0].kind() == result_kind(op, a.kind, b.kind)->0);
}

/// Where the kinds do not suit `op`, it fails on the first pair.
pub proof fn lemma_pair_unsuited(op: ScalarOp, a: Array, b: Array)
    requires
        a.valid(),
        b.valid(),
        a.cells.len() * b.cells.len() >= 1,
        result_kind(op, a.kind, b.kind) is None,
    ensures
        !pairs_ok(op, a, b),
{
    lemma_pair_index(a.cells.len(), b.cells.len(), 0);
    lemma_apply_kind(op, a.cells[0], b.cells[0]);
    assert(!(pair_cell(op, a, b, 0) is Ok));
}

/// The fused table is the table cell by cell.
pub proof fn lemma_table_direct(op: ScalarOp, a: Array, b: Array)
    requires
        a.valid(),
        b.valid(),
        a.cells.len() * b.cells.len() <= usize::MAX,
    ensures
        table_op(op, a, b) == table_direct(op, a, b),
        table_direct(op, a, b) matches Ok(r) ==> r.valid(),
        table_direct(op, a, b) matches Err(e) ==> e == Fault::DomainError,
{
    let n = a.cells.len() * b.cells.len();
    let frame = a.shape + b.shape;
    lemma_op_map(op, a, b, 0);
    assert(pair_outs(op, a, b, 0) =~= Seq::<Seq<Array>>::empty());
    lemma_product_concat(a.shape, b.shape);
    if n == 0 {
        let outs = pair_outs(op, a, b, 0);
        crate::optimize::lemma_collect_one(outs, frame);
        assert(column(outs, 0) =~= Seq::<Array>::empty());
        lemma_stack_none(column(outs, 0), frame);
        assert(table_direct(op, a, b)->Ok_0.valid());
    } else if pairs_ok(op, a, b) {
        lemma_pair_kinds(op, a, b);
        let kind = result_kind(op, a.kind, b.kind)->0;
        let outs = pair_outs(op, a, b, n);
        let cells = pair_cells(op, a, b);
        crate::optimize::lemma_collect_one(outs, frame);
        assert(column(outs, 0) =~= Seq::new(cells.len(), |k: int| Array::scalar(cells[k])));
        lemma_stack_scalars(cells, kind, frame);
        let r = table_direct(op, a, b)->Ok_0;
        assert(r.cells =~= cells);
        assert(product(r.shape) == n);
        assert(r.valid());
    } else if result_kind(op, a.kind, b.kind) is None {
        lemma_pair_unsuited(op, a, b);
    }
}

/// The results that the item-by-item table of a fork has gathered after
/// `i` items on which both operations succeeded.
pub open spec fn pair_outs2(first: ScalarOp, second: ScalarOp, a: Array, b: Array, i: nat) -> Seq<
    Seq<Array>,
> {
    Seq::new(
        i,
        |k: int|
            seq![
                Array::scalar(pair_cell(second, a, b, k)->Ok_0),
                Array::scalar(pair_cell(first, a, b, k)->Ok_0),
            ],
    )
}

proof fn lemma_op_map2(first: ScalarOp, second: ScalarOp, a: Array, b: Array, i: nat)
    requires
        i <= a.cells.len() * b.cells.len(),
        forall|k: int| 0 <= k < i ==> (#[trigger] pair_cell(first, a, b, k)) is Ok,
        forall|k: int| 0 <= k < i ==> (#[trigger] pair_cell(second, a, b, k)) is Ok,
    ensures
        op_map2_from(first, second, pair_items(a, b), i, pair_outs2(first, second, a, b, i)) == (
        if pairs_ok(first, a, b) && pairs_ok(second, a, b) {
            Ok::<Seq<Seq<Array>>, Fault>(
                pair_outs2(first, second, a, b, a.cells.len() * b.cells.len()),
            )
        } else {
            Err::<Seq<Seq<Array>>, Fault>(Fault::DomainError)
        }),
    decreases a.cells.len() * b.cells.len() - i,
{
    let n = a.cells.len() * b.cells.len();
    let items = pair_items(a, b);
    if i < n {
        let nb = b.cells.len() as int;
        let x = a.cells[(i as int) / nb];
        let y = b.cells[(i as int) % nb];
        assert(items[i as int][1] == Array::scalar(x));
        assert(items[i as int][0] == Array::scalar(y));
        lemma_pervade_scalars(first, x, y);
        lemma_pervade_scalars(second, x, y);
        if pair_cell(first, a, b, i as int) is Ok && pair_cell(second, a, b, i as int) is Ok {
            assert(pair_outs2(first, second, a, b, i).push(
                seq![
                    Array::scalar(pair_cell(second, a, b, i as int)->Ok_0),
                    Array::scalar(pair_cell(first, a, b, i as int)->Ok_0),
                ],
            ) =~= pair_outs2(first, second, a, b, i + 1));
            lemma_op_map2(first, second, a, b, i + 1);
        }
    }
}

/// What the fork of the two tables leaves: the second table and the first
/// on top of it, or the failure of the first that fails.
pub open spec fn fork_direct(first: ScalarOp, second: ScalarOp, a: Array, b: Array) -> Outcome {
    match table_direct(first, a, b) {
        Ok(x) => match table_direct(second, a, b) {
            Ok(y) => Ok(seq![y, x]),
            Err(e) => Err(e),
        },
        Err(e) => Err(e),
    }
}

/// Gathering two outputs gives two arrays: that of the first output and
/// that of the second on top of it.
pub proof fn lemma_collect_two(outs: Seq<Seq<Array>>, frame: Seq<usize>)
    ensures
        collect(outs, frame, 2, 0) == (match stack(column(outs, 0)) {
            Ok(x) => match stack(column(outs, 1)) {
                Ok(y) => Ok::<Seq<Array>, Fault>(seq![reframe(x, frame), reframe(y, frame)]),
                Err(e) => Err::<Seq<Array>, Fault>(e),
            },
            Err(e) => Err::<Seq<Array>, Fault>(e),
        }),
{
    reveal_with_fuel(collect, 3);
    if let Ok(x) = stack(column(outs, 0)) {
        if let Ok(y) = stack(column(outs, 1)) {
            let (fx, fy) = (reframe(x, frame), reframe(y, frame));
            assert(collect(outs, frame, 2, 2) == Ok::<Seq<Array>, Fault>(Seq::empty()));
            assert(seq![fy] + Seq::<Array>::empty() =~= seq![fy]);
            assert(collect(outs, frame, 2, 1) == Ok::<Seq<Array>, Fault>(seq![fy]));
            assert(seq![fx] + seq![fy] =~= seq![fx, fy]);
        }
    }
}

/// What two columns of scalars gather into.
proof fn lemma_two_columns(outs: Seq<Seq<Array>>, frame: Seq<usize>, c1: Seq<Cell>, k1: Kind, c2: Seq<
    Cell,
>, k2: Kind)
    requires
        1 <= c1.len() <= usize::MAX,
        c2.len() == c1.len(),
        forall|k: int| 0 <= k < c1.len() ==> (#[trigger] c1[k]).kind() == k1,
        forall|k: int| 0 <= k < c2.len() ==> (#[trigger] c2[k]).kind() == k2,
        column(outs, 0) == Seq::new(c1.len(), |k: int| Array::scalar(c1[k])),
        column(outs, 1) == Seq::new(c2.len(), |k: int| Array::scalar(c2[k])),
    ensures
        collect(outs, frame, 2, 0) == Ok::<Seq<Array>, Fault>(
            seq![
                Array { kind: k1, shape: frame, cells: c1 },
                Array { kind: k2, shape: frame, cells: c2 },
            ],
        ),
{
    lemma_collect_two(outs, frame);
    lemma_stack_scalars(c1, k1, frame);
    lemma_stack_scalars(c2, k2, frame);
}

proof fn lemma_table_fork_all(first: ScalarOp, second: ScalarOp, a: Array, b: Array)
    requires
        a.valid(),
        b.valid(),
        1 <= a.cells.len() * b.cells.len() <= usize::MAX,
        pairs_ok(first, a, b),
        pairs_ok(second, a, b),
    ensures
        collect(
            pair_outs2(first, second, a, b, a.cells.len() * b.cells.len()),
            a.shape + b.shape,
            2,
            0,
        ) == Ok::<Seq<Array>, Fault>(
            seq![
                Array {
                    kind: result_kind(second, a.kind, b.kind)->0,
                    shape: a.shape + b.shape,
                    cells: pair_cells(second, a, b),
                },
                Array {
                    kind: result_kind(first, a.kind, b.kind)->0,
                    shape: a.shape + b.shape,
                    cells: pair_cells(first, a, b),
                },
            ],
        ),
        result_kind(first, a.kind, b.kind) is Some,
        result_kind(second, a.kind, b.kind) is Some,
{
    let n = a.cells.len() * b.cells.len();
    lemma_pair_kinds(first, a, b);
    lemma_pair_kinds(second, a, b);
    let outs = pair_outs2(first, second, a, b, n);
    let c1 = pair_cells(first, a, b);
    let c2 = pair_cells(second, a, b);
    assert(column(outs, 0) =~= Seq::new(c2.len(), |k: int| Array::scalar(c2[k])));
    assert(column(outs, 1) =~= Seq::new(c1.len(), |k: int| Array::scalar(c1[k])));
    lemma_two_columns(
        outs,
        a.shape + b.shape,
        c2,
        result_kind(second, a.kind, b.kind)->0,
        c1,
        result_kind(first, a.kind, b.kind)->0,
    );
}

proof fn lemma_table_fork_none(first: ScalarOp, second: ScalarOp, a: Array, b: Array)
    requires
        a.cells.len() * b.cells.len() == 0,
    ensures
        collect(pair_outs2(first, second, a, b, 0), a.shape + b.shape, 2, 0) == Ok::<
            Seq<Array>,
            Fault,
        >(
            seq![
                Array { kind: Kind::Number, shape: a.shape + b.shape, cells: Seq::empty() },
                Array { kind: Kind::Number, shape: a.shape + b.shape, cells: Seq::empty() },
            ],
        ),
{
    let frame = a.shape + b.shape;
    let outs = pair_outs2(first, second, a, b, 0);
    lemma_collect_two(outs, frame);
    assert(column(outs, 0) =~= Seq::<Array>::empty());
    assert(column(outs, 1) =~= Seq::<Array>::empty());
    lemma_stack_none(column(outs, 0), frame);
    lemma_stack_none(column(outs, 1), frame);
}

/// The table of a fork is the fork of the tables.
pub proof fn lemma_table_fork(first: ScalarOp, second: ScalarOp, a: Array, b: Array)
    requires
        a.valid(),
        b.valid(),
        a.cells.len() * b.cells.len() <= usize::MAX,
    ensures
        table_fork(first, second, a, b) == fork_direct(first, second, a, b),
{
    let n = a.cells.len() * b.cells.len();
    lemma_op_map2(first, second, a, b, 0);
    assert(pair_outs2(first, second, a, b, 0) =~= Seq::<Seq<Array>>::empty());
    if n == 0 {
        lemma_table_fork_none(first, second, a, b);
    } else if pairs_ok(first, a, b) && pairs_ok(second, a, b) {
        lemma_table_fork_all(first, second, a, b);
    } else {
        if result_kind(first, a.kind, b.kind) is None {
            lemma_pair_unsuited(first, a, b);
        }
        if result_kind(second, a.kind, b.kind) is None {
            lemma_pair_unsuited(second, a, b);
        }
    }
}

} // verus!
