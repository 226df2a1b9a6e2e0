//! The stack machine: runs an assembly on a private stack of values.
use crate::arrayops::{concat_dims, first_where_value, last_value, last_where_value, stack_values};
use crate::assembly::{Assembly, Fused, Instr, Modifier, Program};
use crate::cowslice::Dup;
use crate::error::{Fault, RuntimeError};
use crate::fusion::{pair_cell, table_direct};
use crate::pervasive::pervade_values;
use crate::primitive::{apply_primitive, peek, pop_value, push_value, settle_value};
use crate::scalar::{apply_elems, kind_of_result, lemma_apply_kind, result_kind, ScalarOp};
use crate::semantics::{
    cell_items, collect, column, filled, fold_op, pair_items, reduce_empty, reduce_op, reframe,
    repeat_for, row_items, scan_op, scan_op_from, sole_op, table_op, Outcome,
};
use crate::shape::{checked_product, lemma_product_concat, product, row_shape};
use crate::sorting::{grade_first_value, grade_last_value, sort_value};
use crate::value::{cells_fit, lemma_views_push, models, views, Array, Cell, Elem, Kind, Value};
use vstd::prelude::*;

verus! {

/// Whether what a step returned is what the semantics asks for.
pub open spec fn agrees(r: Result<(), RuntimeError>, stack: Seq<Value>, want: Outcome) -> bool {
    match r {
        Ok(()) => want == Ok::<Seq<Array>, Fault>(views(stack)),
        Err(e) => want == Err::<Seq<Array>, Fault>(e@),
    }
}

/// Whether a returned value is the array asked for.
pub open spec fn yields(r: Result<Value, RuntimeError>, want: Result<Array, Fault>) -> bool {
    match r {
        Ok(v) => want == Ok::<Array, Fault>(v@) && v@.valid(),
        Err(e) => want == Err::<Array, Fault>(e@),
    }
}

/// Whether returned values are the arrays asked for.
pub open spec fn yields_all(r: Result<Vec<Value>, RuntimeError>, want: Outcome) -> bool {
    match r {
        Ok(vs) => want == Ok::<Seq<Array>, Fault>(views(vs@)),
        Err(e) => want == Err::<Seq<Array>, Fault>(e@),
    }
}

/// The stacks that stored argument lists stand for.
pub open spec fn item_views(items: Seq<Vec<Value>>) -> Seq<Seq<Array>> {
    Seq::new(items.len(), |i: int| views(items[i]@))
}

/// Further handles on the same values. No cell is copied.
pub fn share_all(values: &Vec<Value>) -> (r: Vec<Value>)
    ensures
        r@ == values@,
{
    let mut r: Vec<Value> = Vec::new();
    let mut i: usize = 0;
    while i < values.len()
        invariant
            i <= values@.len(),
            r@ == values@.take(i as int),
        decreases values@.len() - i,
    {
        r.push(values[i].share());
        i += 1;
        assert(r@ =~= values@.take(i as int));
    }
    assert(values@.take(values@.len() as int) =~= values@);
    r
}

/// Handles on the top `k` values of the stack, which stays as it is.
pub fn share_top(stack: &Vec<Value>, k: usize) -> (r: Vec<Value>)
    requires
        k <= stack@.len(),
    ensures
        r@ == stack@.skip(stack@.len() - k),
        views(r@) == views(stack@).skip(stack@.len() - k),
{
    let n = stack.len();
    let mut r: Vec<Value> = Vec::new();
    let mut i: usize = n - k;
    while i < n
        invariant
            k <= n,
            n - k <= i <= n,
            n == stack@.len(),
            r@ == stack@.subrange(n - k, i as int),
        decreases n - i,
    {
        r.push(stack[i].share());
        i += 1;
        assert(r@ =~= stack@.subrange(n - k, i as int));
    }
    assert(stack@.subrange(n - k, n as int) =~= stack@.skip(n - k));
    assert(views(r@) =~= views(stack@).skip(stack@.len() - k));
    r
}

/// Moves `more` onto the stack, its last value on top.
pub fn push_all(stack: &mut Vec<Value>, more: Vec<Value>)
    ensures
        final(stack)@ == old(stack)@ + more@,
        views(final(stack)@) == views(old(stack)@) + views(more@),
{
    let ghost more_before = more@;
    let mut more = more;
    stack.append(&mut more);
    assert(views(stack@) =~= views(old(stack)@) + views(more_before));
}

/// Drops the top `k` values of the stack.
pub fn drop_top(stack: &mut Vec<Value>, k: usize)
    requires
        k <= old(stack)@.len(),
    ensures
        final(stack)@ == old(stack)@.take(old(stack)@.len() - k),
        views(final(stack)@) == views(old(stack)@).take(old(stack)@.len() - k),
{
    let n = stack.len();
    stack.truncate(n - k);
    assert(stack@ =~= old(stack)@.take(n - k));
    assert(views(stack@) =~= views(old(stack)@).take(n - k));
}

/// Takes the top `k` values off the stack, in stack order.
pub fn take_top(stack: &mut Vec<Value>, k: usize) -> (r: Vec<Value>)
    requires
        k <= old(stack)@.len(),
    ensures
        r@ == old(stack)@.skip(old(stack)@.len() - k),
        views(r@) == views(old(stack)@).skip(old(stack)@.len() - k),
        final(stack)@ == old(stack)@.take(old(stack)@.len() - k),
        views(final(stack)@) == views(old(stack)@).take(old(stack)@.len() - k),
{
    let n = stack.len();
    let r = stack.split_off(n - k);
    assert(r@ =~= old(stack)@.skip(n - k));
    assert(stack@ =~= old(stack)@.take(n - k));
    assert(views(r@) =~= views(old(stack)@).skip(n - k));
    assert(views(stack@) =~= views(old(stack)@).take(n - k));
    r
}

/// The pervasive operation that function `f` consists of, if it is one
/// primitive and nothing more.
pub fn sole_op_of(prog: &Assembly, f: usize) -> (r: Option<ScalarOp>)
    ensures
        r == sole_op(prog@, f as nat),
{
    if f < prog.function_count() {
        let function = prog.function(f);
        if function.body.len() == 1 {
            match function.body[0] {
                Instr::Prim(q) => q.pervasive_op(),
                _ => None,
            }
        } else {
            None
        }
    } else {
        None
    }
}

/// The result of reducing an array that has no rows.
pub fn reduce_empty_value(op: Option<ScalarOp>, a: &Value) -> (r: Result<Value, RuntimeError>)
    ensures
        yields(r, reduce_empty(op, a@)),
{
    let cell = match op {
        Some(ScalarOp::Add) => Elem::Num(0),
        Some(ScalarOp::Mul) => Elem::Num(1),
        Some(ScalarOp::Min) => Elem::Num(0x7fff_ffff_ffff_ffff),
        Some(ScalarOp::Max) => Elem::Num(-0x8000_0000_0000_0000),
        _ => {
            return Err(RuntimeError::DomainError);
        },
    };
    let shape = a.row_dims();
    let n = match checked_product(&shape) {
        Some(n) => n,
        None => {
            return Err(RuntimeError::ShapeMismatch);
        },
    };
    let mut cells: Vec<Elem> = Vec::new();
    let mut i: usize = 0;
    while i < n
        invariant
            i <= n,
            cells@.len() == i,
            cell is Num,
            forall|k: int| 0 <= k < i ==> cells@[k] == cell,
        decreases n - i,
    {
        cells.push(Elem::Num(cell.integer()));
        i += 1;
    }
    proof {
        let want = filled(shape@, cell@);
        assert(models(cells@) =~= want.cells);
        assert(cells_fit(Kind::Number, models(cells@)));
    }
    Ok(Value::assemble(Kind::Number, shape, cells))
}

/// Reduction by one pervasive operation, with no call into the machine.
pub fn reduce_op_value(op: ScalarOp, a: &Value) -> (r: Result<Value, RuntimeError>)
    ensures
        yields(r, reduce_op(op, a@)),
{
    let rows = a.row_count();
    if rows == 0 {
        return reduce_empty_value(Some(op), a);
    }
    let mut acc = a.row(0);
    let mut i: usize = 1;
    while i < rows
        invariant
            1 <= i <= rows,
            rows == a@.rows(),
            acc@.valid(),
            reduce_op(op, a@) == fold_op(op, a@, i as nat, acc@),
        decreases rows - i,
    {
        let row = a.row(i);
        match pervade_values(op, &acc, &row) {
            Ok(next) => {
                acc = next;
            },
            Err(e) => {
                return Err(e);
            },
        }
        i += 1;
    }
    Ok(acc)
}

/// Scan by one pervasive operation, with no call into the machine.
pub fn scan_op_value(op: ScalarOp, a: &Value) -> (r: Result<Value, RuntimeError>)
    ensures
        yields(r, scan_op(op, a@)),
{
    let rows = a.row_count();
    if rows == 0 {
        return Ok(a.share());
    }
    let mut outs: Vec<Value> = Vec::new();
    outs.push(a.row(0));
    assert(views(outs@) =~= seq![a@.row(0)]);
    let mut i: usize = 1;
    while i < rows
        invariant
            1 <= i <= rows,
            rows == a@.rows(),
            outs@.len() >= 1,
            scan_op(op, a@) == scan_op_from(op, a@, i as nat, views(outs@)),
        decreases rows - i,
    {
        let row = a.row(i);
        match pervade_values(op, &outs[outs.len() - 1], &row) {
            Ok(next) => {
                push_value(&mut outs, next);
            },
            Err(e) => {
                return Err(e);
            },
        }
        i += 1;
    }
    stack_values(&outs)
}

/// A constant once for every row of `a`, or for every cell where `each` is
/// set, with no call into the machine.
pub fn repeat_value(prog: &Assembly, k: usize, each: bool, a: &Value) -> (r: Result<
    Value,
    RuntimeError,
>)
    ensures
        yields(r, repeat_for(prog@.constants, k, each, a@)),
{
    let n = if each {
        a.count()
    } else {
        a.row_count()
    };
    let frame = if each {
        a.shape()
    } else {
        let mut frame: Vec<usize> = Vec::new();
        frame.push(n);
        assert(frame@ =~= seq![a@.rows() as usize]);
        frame
    };
    proof {
        if !each {
            assert(frame@.drop_first() =~= Seq::<usize>::empty());
            assert(product(Seq::<usize>::empty()) == 1);
            assert(product(frame@) == frame@[0] * product(frame@.drop_first()));
        }
    }
    if n == 0 {
        let cells: Vec<Elem> = Vec::new();
        proof {
            let none = Seq::new(0, |j: int| a@);
            assert(none =~= Seq::<Array>::empty());
            let e = crate::arrayops::stack(none)->Ok_0;
            assert(row_shape(e.shape) =~= Seq::<usize>::empty());
            assert(frame@ + row_shape(e.shape) =~= frame@);
            assert(models(cells@) =~= Seq::<Cell>::empty());
        }
        return Ok(Value::assemble(Kind::Number, frame, cells));
    }
    if k >= prog.constant_count() {
        return Err(RuntimeError::StackUnderflow);
    }
    let c = prog.constant(k);
    let ghost rows = Seq::new(n as nat, |j: int| c@);
    let ghost parts = Seq::new(rows.len(), |j: int| rows[j].cells);
    let mut cells: Vec<Elem> = Vec::new();
    let mut j: usize = 0;
    assert(models(cells@) =~= crate::rows::join_cells(parts.take(0)));
    while j < n
        invariant
            j <= n,
            parts.len() == n,
            forall|i: int| 0 <= i < n ==> #[trigger] parts[i] == c@.cells,
            models(cells@) == crate::rows::join_cells(parts.take(j as int)),
        decreases n - j,
    {
        crate::arrayops::append_cells(&mut cells, c);
        proof {
            crate::rows::lemma_join_push(parts.take(j as int), parts[j as int]);
            assert(parts.take(j as int).push(parts[j as int]) =~= parts.take(j + 1));
        }
        j += 1;
    }
    let shape = concat_dims(frame, c.shape());
    proof {
        assert(parts.take(n as int) =~= parts);
        assert forall|i: int| 0 <= i < rows.len() implies (#[trigger] rows[i]).valid() by {}
        crate::arrayops::lemma_stack_valid(rows);
        let v = crate::arrayops::stack(rows)->Ok_0;
        assert(v.shape =~= seq![n] + c@.shape);
        assert(row_shape(v.shape) =~= c@.shape);
        lemma_reframe(v, frame@);
    }
    Ok(Value::assemble(c.kind(), shape, cells))
}

/// Table by one pervasive operation, in one loop over the pairs of cells.
pub fn table_op_value(op: ScalarOp, a: &Value, b: &Value) -> (r: Result<Value, RuntimeError>)
    ensures
        yields(r, table_op(op, a@, b@)),
{
    let na = a.count();
    let nb = b.count();
    let total = match na.checked_mul(nb) {
        Some(total) => total,
        None => {
            return Err(RuntimeError::ShapeMismatch);
        },
    };
    let frame = concat_dims(a.shape(), b.shape());
    proof {
        crate::fusion::lemma_table_direct(op, a@, b@);
        lemma_product_concat(a@.shape, b@.shape);
    }
    if total == 0 {
        let cells: Vec<Elem> = Vec::new();
        assert(models(cells@) =~= Seq::<Cell>::empty());
        return Ok(Value::assemble(Kind::Number, frame, cells));
    }
    let kind = match kind_of_result(op, a.kind(), b.kind()) {
        Some(kind) => kind,
        None => {
            return Err(RuntimeError::DomainError);
        },
    };
    let mut cells: Vec<Elem> = Vec::new();
    let mut i: usize = 0;
    assert(0 * nb == 0);
    assert(nb > 0) by {
        if nb == 0 {
            assert(na * nb == 0) by (nonlinear_arith)
                requires
                    nb == 0,
            ;
        }
    }
    while i < na
        invariant
            i <= na,
            na == a@.cells.len(),
            nb == b@.cells.len(),
            nb > 0,
            total == na * nb,
            total > 0,
            table_op(op, a@, b@) == table_direct(op, a@, b@),
            result_kind(op, a@.kind, b@.kind) == Some(kind),
            cells@.len() == i * nb,
            forall|k: int|
                0 <= k < cells@.len() ==> pair_cell(op, a@, b@, k) == Ok::<Cell, Fault>(
                    #[trigger] cells@[k]@,
                ),
        decreases na - i,
    {
        let mut j: usize = 0;
        while j < nb
            invariant
                j <= nb,
                i < na,
                na == a@.cells.len(),
                nb == b@.cells.len(),
                total == na * nb,
                total > 0,
                table_op(op, a@, b@) == table_direct(op, a@, b@),
                result_kind(op, a@.kind, b@.kind) == Some(kind),
                cells@.len() == i * nb + j,
                forall|k: int|
                    0 <= k < cells@.len() ==> pair_cell(op, a@, b@, k) == Ok::<Cell, Fault>(
                        #[trigger] cells@[k]@,
                    ),
            decreases nb - j,
        {
            proof {
                let k = i * nb + j;
                vstd::arithmetic::div_mod::lemma_fundamental_div_mod_converse(
                    k,
                    nb as int,
                    i as int,
                    j as int,
                );
                assert(k < na * nb) by (nonlinear_arith)
                    requires
                        k == i * nb + j,
                        0 <= j < nb,
                        0 <= i < na,
                ;
            }
            match apply_elems(op, a.cell(i), b.cell(j)) {
                Ok(e) => {
                    cells.push(e);
                },
                Err(e) => {
                    proof {
                        lemma_apply_kind(op, a@.cells[i as int], b@.cells[j as int]);
                        assert(!(pair_cell(op, a@, b@, i * nb + j) is Ok));
                    }
                    return Err(e);
                },
            }
            j += 1;
        }
        i += 1;
        assert(i * nb == (i - 1) * nb + nb) by (nonlinear_arith);
    }
    proof {
        let want = table_direct(op, a@, b@);
        assert forall|k: int| 0 <= k < total implies (#[trigger] pair_cell(op, a@, b@, k)) is Ok by {
            assert(pair_cell(op, a@, b@, k) == Ok::<Cell, Fault>(cells@[k]@));
        }
        assert(want is Ok);
        assert forall|k: int| 0 <= k < total implies models(cells@)[k] == want->Ok_0.cells[k] by {
            assert(pair_cell(op, a@, b@, k) == Ok::<Cell, Fault>(cells@[k]@));
        }
        assert(models(cells@) =~= want->Ok_0.cells);
    }
    Ok(Value::assemble(kind, frame, cells))
}

/// Runs the instructions of `body` on the stack.
pub fn run_body(prog: &Assembly, level: usize, body: &Vec<Instr>, stack: &mut Vec<Value>) -> (r:
    Result<(), RuntimeError>)
    ensures
        agrees(r, final(stack)@, prog@.run_from(level as nat, body@, 0, views(old(stack)@))),
    decreases level, 2nat, 0nat,
{
    let mut pc: usize = 0;
    while pc < body.len()
        invariant
            pc <= body@.len(),
            prog@.run_from(level as nat, body@, 0, views(old(stack)@)) == prog@.run_from(
                level as nat,
                body@,
                pc as nat,
                views(stack@),
            ),
        decreases body@.len() - pc,
    {
        match step(prog, level, body[pc], stack) {
            Ok(()) => {},
            Err(e) => {
                return Err(e);
            },
        }
        pc += 1;
    }
    Ok(())
}

/// Calls function `f` on the stack.
pub fn call(prog: &Assembly, level: usize, f: usize, stack: &mut Vec<Value>) -> (r: Result<
    (),
    RuntimeError,
>)
    ensures
        agrees(r, final(stack)@, prog@.call(level as nat, f as nat, views(old(stack)@))),
    decreases level, 0nat, 0nat,
{
    if f < level && f < prog.function_count() {
        run_body(prog, f, &prog.function(f).body, stack)
    } else {
        Err(RuntimeError::StackUnderflow)
    }
}

/// Calls function `f` on a stack of its own that holds `args` alone, and
/// expects `outputs` values back.
pub fn apply(prog: &Assembly, level: usize, f: usize, args: Vec<Value>, outputs: usize) -> (r:
    Result<Vec<Value>, RuntimeError>)
    ensures
        yields_all(r, prog@.apply(level as nat, f as nat, views(args@), outputs as nat)),
    decreases level, 0nat, 1nat,
{
    let mut own = args;
    match call(prog, level, f, &mut own) {
        Ok(()) => if own.len() == outputs {
            Ok(own)
        } else {
            Err(RuntimeError::StackUnderflow)
        },
        Err(e) => Err(e),
    }
}

/// `Reduce` by function `f`.
pub fn reduce(prog: &Assembly, level: usize, f: usize, a: &Value) -> (r: Result<Value, RuntimeError>)
    ensures
        yields(r, prog@.reduce(level as nat, f as nat, a@)),
    decreases level, 0nat, 3nat,
{
    if !(f < level && f < prog.function_count()) {
        return Err(RuntimeError::StackUnderflow);
    }
    let rows = a.row_count();
    if rows == 0 {
        return reduce_empty_value(sole_op_of(prog, f), a);
    }
    let mut acc = a.row(0);
    let mut i: usize = 1;
    while i < rows
        invariant
            1 <= i <= rows,
            rows == a@.rows(),
            acc@.valid(),
            prog@.reduce(level as nat, f as nat, a@) == prog@.fold(
                level as nat,
                f as nat,
                a@,
                i as nat,
                acc@,
            ),
        decreases rows - i,
    {
        let mut args: Vec<Value> = Vec::new();
        args.push(a.row(i));
        args.push(acc);
        assert(views(args@) =~= seq![a@.row(i as int), acc@]);
        match apply(prog, level, f, args, 1) {
            Ok(out) => {
                let mut out = out;
                acc = pop_value(&mut out);
            },
            Err(e) => {
                return Err(e);
            },
        }
        i += 1;
    }
    Ok(acc)
}

/// `Scan` by function `f`.
pub fn scan(prog: &Assembly, level: usize, f: usize, a: &Value) -> (r: Result<Value, RuntimeError>)
    ensures
        yields(r, prog@.scan(level as nat, f as nat, a@)),
    decreases level, 0nat, 3nat,
{
    if !(f < level && f < prog.function_count()) {
        return Err(RuntimeError::StackUnderflow);
    }
    let rows = a.row_count();
    if rows == 0 {
        return Ok(a.share());
    }
    let mut outs: Vec<Value> = Vec::new();
    outs.push(a.row(0));
    assert(views(outs@) =~= seq![a@.row(0)]);
    let mut i: usize = 1;
    while i < rows
        invariant
            1 <= i <= rows,
            rows == a@.rows(),
            outs@.len() >= 1,
            prog@.scan(level as nat, f as nat, a@) == prog@.scan_from(
                level as nat,
                f as nat,
                a@,
                i as nat,
                views(outs@),
            ),
        decreases rows - i,
    {
        let mut args: Vec<Value> = Vec::new();
        args.push(a.row(i));
        args.push(outs[outs.len() - 1].share());
        assert(views(args@) =~= seq![a@.row(i as int), views(outs@).last()]);
        match apply(prog, level, f, args, 1) {
            Ok(out) => {
                let mut out = out;
                let next = pop_value(&mut out);
                push_value(&mut outs, next);
            },
            Err(e) => {
                return Err(e);
            },
        }
        i += 1;
    }
    stack_values(&outs)
}

/// Gathers the output stacks of many items into one value for each output,
/// laid out along `frame`.
pub fn gather(outs: &Vec<Vec<Value>>, frame: Vec<usize>, outputs: usize) -> (r: Result<
    Vec<Value>,
    RuntimeError,
>)
    requires
        product(frame@) == outs@.len(),
        forall|j: int| 0 <= j < outs@.len() ==> (#[trigger] outs@[j])@.len() == outputs,
    ensures
        yields_all(r, collect(item_views(outs@), frame@, outputs as nat, 0)),
{
    let ghost got = item_views(outs@);
    let mut done: Vec<Value> = Vec::new();
    let mut k: usize = 0;
    assert(views(done@) =~= Seq::<Array>::empty());
    while k < outputs
        invariant
            k <= outputs,
            got == item_views(outs@),
            product(frame@) == outs@.len(),
            forall|j: int| 0 <= j < outs@.len() ==> (#[trigger] outs@[j])@.len() == outputs,
            collect(got, frame@, outputs as nat, 0) == (match collect(
                got,
                frame@,
                outputs as nat,
                k as nat,
            ) {
                Ok(rest) => Ok::<Seq<Array>, Fault>(views(done@) + rest),
                Err(e) => Err::<Seq<Array>, Fault>(e),
            }),
        decreases outputs - k,
    {
        let mut col: Vec<Value> = Vec::new();
        let mut j: usize = 0;
        assert(views(col@) =~= column(got, k as int).take(0));
        while j < outs.len()
            invariant
                j <= outs@.len(),
                k < outputs,
                got == item_views(outs@),
                forall|j: int| 0 <= j < outs@.len() ==> (#[trigger] outs@[j])@.len() == outputs,
                views(col@) == column(got, k as int).take(j as int),
            decreases outs@.len() - j,
        {
            let v = outs[j][k].share();
            proof {
                lemma_views_push(col@, v);
            }
            col.push(v);
            j += 1;
            assert(views(col@) =~= column(got, k as int).take(j as int));
        }
        assert(column(got, k as int).take(outs@.len() as int) =~= column(got, k as int));
        match stack_values(&col) {
            Ok(a) => {
                let shape = concat_dims(clone_dims(&frame), a.row_dims());
                proof {
                    assert(a@.shape[0] == outs@.len());
                    lemma_reframe(a@, frame@);
                }
                let framed = a.reshaped(shape);
                proof {
                    lemma_views_push(done@, framed);
                    let rest = collect(got, frame@, outputs as nat, (k + 1) as nat);
                    if let Ok(rest) = rest {
                        assert(views(done@) + (seq![framed@] + rest) =~= views(done@.push(framed))
                            + rest);
                    }
                }
                done.push(framed);
            },
            Err(e) => {
                return Err(e);
            },
        }
        k += 1;
    }
    proof {
        assert(views(done@) + Seq::<Array>::empty() =~= views(done@));
    }
    Ok(done)
}

/// Applies function `f` to each of `items` and gathers each of its outputs
/// into one value laid out along `frame`.
pub fn map(prog: &Assembly, level: usize, f: usize, items: &Vec<Vec<Value>>, frame: Vec<usize>) -> (r:
    Result<Vec<Value>, RuntimeError>)
    requires
        product(frame@) == items@.len(),
    ensures
        yields_all(r, prog@.map(level as nat, f as nat, item_views(items@), frame@)),
    decreases level, 0nat, 3nat,
{
    if !(f < level && f < prog.function_count()) {
        return Err(RuntimeError::StackUnderflow);
    }
    let outputs = prog.function(f).outputs;
    let ghost want = item_views(items@);
    let mut outs: Vec<Vec<Value>> = Vec::new();
    let mut i: usize = 0;
    assert(item_views(outs@) =~= Seq::<Seq<Array>>::empty());
    while i < items.len()
        invariant
            i <= items@.len(),
            f < level && f < prog@.functions.len(),
            outputs == prog@.functions[f as int].outputs,
            want == item_views(items@),
            outs@.len() == i,
            forall|j: int| 0 <= j < outs@.len() ==> (#[trigger] outs@[j])@.len() == outputs,
            prog@.map_from(level as nat, f as nat, want, 0, Seq::empty()) == prog@.map_from(
                level as nat,
                f as nat,
                want,
                i as nat,
                item_views(outs@),
            ),
        decreases items@.len() - i,
    {
        let args = share_all(&items[i]);
        match apply(prog, level, f, args, outputs) {
            Ok(out) => {
                assert(item_views(outs@.push(out)) =~= item_views(outs@).push(views(out@)));
                outs.push(out);
            },
            Err(e) => {
                return Err(e);
            },
        }
        i += 1;
    }
    assert(prog@.map(level as nat, f as nat, want, frame@) == collect(
        item_views(outs@),
        frame@,
        outputs as nat,
        0,
    ));
    gather(&outs, frame, outputs)
}

/// An array whose leading axis accounts for `product(frame)` rows keeps a
/// shape that accounts for its cells when that axis gives way to `frame`.
pub proof fn lemma_reframe(a: Array, frame: Seq<usize>)
    requires
        a.valid(),
        a.shape.len() >= 1,
        a.rows() == product(frame),
    ensures
        product(frame + row_shape(a.shape)) == a.cells.len(),
        reframe(a, frame).valid(),
{
    lemma_product_concat(frame, row_shape(a.shape));
}

/// A copy of a list of dimensions.
pub fn clone_dims(dims: &Vec<usize>) -> (r: Vec<usize>)
    ensures
        r@ == dims@,
{
    let mut r: Vec<usize> = Vec::new();
    let mut i: usize = 0;
    while i < dims.len()
        invariant
            i <= dims@.len(),
            r@ == dims@.take(i as int),
        decreases dims@.len() - i,
    {
        r.push(dims[i]);
        i += 1;
        assert(r@ =~= dims@.take(i as int));
    }
    assert(dims@.take(dims@.len() as int) =~= dims@);
    r
}

/// Each row of `a` as a stack of its own.
pub fn row_items_of(a: &Value) -> (items: Vec<Vec<Value>>)
    ensures
        item_views(items@) == row_items(a@),
        items@.len() == a@.rows(),
{
    let rows = a.row_count();
    let mut items: Vec<Vec<Value>> = Vec::new();
    let mut i: usize = 0;
    while i < rows
        invariant
            i <= rows,
            rows == a@.rows(),
            items@.len() == i,
            forall|j: int| 0 <= j < i ==> views((#[trigger] items@[j])@) == seq![a@.row(j)],
        decreases rows - i,
    {
        let mut one: Vec<Value> = Vec::new();
        one.push(a.row(i));
        assert(views(one@) =~= seq![a@.row(i as int)]);
        items.push(one);
        i += 1;
    }
    assert(item_views(items@) =~= row_items(a@));
    items
}

/// Each cell of `a`, as a scalar on a stack of its own.
pub fn cell_items_of(a: &Value) -> (items: Vec<Vec<Value>>)
    ensures
        item_views(items@) == cell_items(a@),
        items@.len() == a@.cells.len(),
{
    let n = a.count();
    let mut items: Vec<Vec<Value>> = Vec::new();
    let mut i: usize = 0;
    while i < n
        invariant
            i <= n,
            n == a@.cells.len(),
            items@.len() == i,
            forall|j: int|
                0 <= j < i ==> views((#[trigger] items@[j])@) == seq![Array::scalar(a@.cells[j])],
        decreases n - i,
    {
        let mut one: Vec<Value> = Vec::new();
        one.push(Value::scalar(a.cell(i).dup()));
        assert(views(one@) =~= seq![Array::scalar(a@.cells[i as int])]);
        items.push(one);
        i += 1;
    }
    assert(item_views(items@) =~= cell_items(a@));
    items
}

/// Every cell of `a` on top of every cell of `b`, each pair on a stack of
/// its own.
pub fn pair_items_of(a: &Value, b: &Value) -> (items: Vec<Vec<Value>>)
    ensures
        item_views(items@) == pair_items(a@, b@),
        items@.len() == a@.cells.len() * b@.cells.len(),
{
    let na = a.count();
    let nb = b.count();
    let mut items: Vec<Vec<Value>> = Vec::new();
    let mut i: usize = 0;
    assert(0 * nb == 0);
    while i < na
        invariant
            i <= na,
            na == a@.cells.len(),
            nb == b@.cells.len(),
            items@.len() == i * nb,
            forall|k: int|
                0 <= k < items@.len() ==> views((#[trigger] items@[k])@) == pair_items(a@, b@)[k],
        decreases na - i,
    {
        let mut j: usize = 0;
        while j < nb
            invariant
                j <= nb,
                i < na,
                na == a@.cells.len(),
                nb == b@.cells.len(),
                items@.len() == i * nb + j,
                forall|k: int|
                    0 <= k < items@.len() ==> views((#[trigger] items@[k])@) == pair_items(
                        a@,
                        b@,
                    )[k],
            decreases nb - j,
        {
            let mut one: Vec<Value> = Vec::new();
            one.push(Value::scalar(b.cell(j).dup()));
            one.push(Value::scalar(a.cell(i).dup()));
            proof {
                let k = i * nb + j;
                vstd::arithmetic::div_mod::lemma_fundamental_div_mod_converse(
                    k,
                    nb as int,
                    i as int,
                    j as int,
                );
                assert(k < na * nb) by (nonlinear_arith)
                    requires
                        k == i * nb + j,
                        0 <= j < nb,
                        0 <= i < na,
                ;
                assert(views(one@) =~= pair_items(a@, b@)[k]);
            }
            items.push(one);
            j += 1;
        }
        i += 1;
        assert(i * nb == (i - 1) * nb + nb) by (nonlinear_arith);
    }
    assert(item_views(items@) =~= pair_items(a@, b@));
    items
}

/// Applies a modifier to the stack. After a failure the stack holds no
/// particular values.
pub fn modify(prog: &Assembly, level: usize, m: Modifier, stack: &mut Vec<Value>) -> (r: Result<
    (),
    RuntimeError,
>)
    ensures
        agrees(r, final(stack)@, prog@.modify(level as nat, m, views(old(stack)@))),
    decreases level, 1nat, 0nat,
{
    let ghost s = views(stack@);
    let n = stack.len();
    match m {
        Modifier::Dip(f) => {
            if n < 1 {
                return Err(RuntimeError::StackUnderflow);
            }
            let top = pop_value(stack);
            match call(prog, level, f, stack) {
                Ok(()) => {
                    push_value(stack, top);
                    Ok(())
                },
                Err(e) => Err(e),
            }
        },
        Modifier::Gap(f) => {
            if n < 1 {
                return Err(RuntimeError::StackUnderflow);
            }
            let _ = pop_value(stack);
            call(prog, level, f, stack)
        },
        Modifier::Fork(f, g) => {
            let count = prog.function_count();
            if !(f < level && f < count && g < level && g < count) {
                return Err(RuntimeError::StackUnderflow);
            }
            let fi = prog.function(f).inputs;
            let gi = prog.function(g).inputs;
            let k = if fi >= gi {
                fi
            } else {
                gi
            };
            if n < k {
                return Err(RuntimeError::StackUnderflow);
            }
            let mut fa = share_top(stack, fi);
            let mut ga = share_top(stack, gi);
            drop_top(stack, k);
            match call(prog, level, f, &mut fa) {
                Ok(()) => {},
                Err(e) => {
                    return Err(e);
                },
            }
            match call(prog, level, g, &mut ga) {
                Ok(()) => {},
                Err(e) => {
                    return Err(e);
                },
            }
            push_all(stack, ga);
            push_all(stack, fa);
            assert(views(stack@) =~= s.take(n - k) + (views(ga@) + views(fa@)));
            Ok(())
        },
        Modifier::Bracket(f, g) => {
            let count = prog.function_count();
            if !(f < level && f < count && g < level && g < count) {
                return Err(RuntimeError::StackUnderflow);
            }
            let fi = prog.function(f).inputs;
            let gi = prog.function(g).inputs;
            if n < fi || n - fi < gi {
                return Err(RuntimeError::StackUnderflow);
            }
            let mut fa = take_top(stack, fi);
            let mut ga = take_top(stack, gi);
            assert(views(ga@) =~= s.subrange(n - fi - gi, n - fi));
            assert(views(stack@) =~= s.take(n - fi - gi));
            match call(prog, level, f, &mut fa) {
                Ok(()) => {},
                Err(e) => {
                    return Err(e);
                },
            }
            match call(prog, level, g, &mut ga) {
                Ok(()) => {},
                Err(e) => {
                    return Err(e);
                },
            }
            push_all(stack, ga);
            push_all(stack, fa);
            assert(views(stack@) =~= s.take(n - fi - gi) + (views(ga@) + views(fa@)));
            Ok(())
        },
        Modifier::Try(f, h) => {
            let saved = share_all(stack);
            match call(prog, level, f, stack) {
                Ok(()) => Ok(()),
                Err(e) => {
                    if e.recoverable() {
                        *stack = saved;
                        call(prog, level, h, stack)
                    } else {
                        Err(e)
                    }
                },
            }
        },
        Modifier::Reduce(f) => {
            if n < 1 {
                return Err(RuntimeError::StackUnderflow);
            }
            let a = pop_value(stack);
            assert(views(stack@) =~= s.take(s.len() - 1));
            let r = reduce(prog, level, f, &a);
            settle_value(stack, r)
        },
        Modifier::Scan(f) => {
            if n < 1 {
                return Err(RuntimeError::StackUnderflow);
            }
            let a = pop_value(stack);
            assert(views(stack@) =~= s.take(s.len() - 1));
            let r = scan(prog, level, f, &a);
            settle_value(stack, r)
        },
        Modifier::Rows(f) => {
            if n < 1 {
                return Err(RuntimeError::StackUnderflow);
            }
            let a = pop_value(stack);
            let items = row_items_of(&a);
            let mut frame: Vec<usize> = Vec::new();
            frame.push(a.row_count());
            proof {
                assert(frame@ =~= seq![a@.rows() as usize]);
                assert(frame@.drop_first() =~= Seq::<usize>::empty());
                assert(product(Seq::<usize>::empty()) == 1);
                assert(product(frame@) == frame@[0] * product(frame@.drop_first()));
            }
            match map(prog, level, f, &items, frame) {
                Ok(out) => {
                    push_all(stack, out);
                    Ok(())
                },
                Err(e) => Err(e),
            }
        },
        Modifier::Each(f) => {
            if n < 1 {
                return Err(RuntimeError::StackUnderflow);
            }
            let a = pop_value(stack);
            let items = cell_items_of(&a);
            let frame = a.shape();
            match map(prog, level, f, &items, frame) {
                Ok(out) => {
                    push_all(stack, out);
                    Ok(())
                },
                Err(e) => Err(e),
            }
        },
        Modifier::Table(f) => {
            if n < 2 {
                return Err(RuntimeError::StackUnderflow);
            }
            let a = pop_value(stack);
            let b = pop_value(stack);
            assert(views(stack@) =~= s.take(n - 2));
            if a.count().checked_mul(b.count()).is_none() {
                return Err(RuntimeError::ShapeMismatch);
            }
            let items = pair_items_of(&a, &b);
            let frame = concat_dims(a.shape(), b.shape());
            proof {
                lemma_product_concat(a@.shape, b@.shape);
            }
            match map(prog, level, f, &items, frame) {
                Ok(out) => {
                    push_all(stack, out);
                    Ok(())
                },
                Err(e) => Err(e),
            }
        },
    }
}

/// The two functions of a body that is nothing but a fork or a bracket,
/// and whether it is a bracket.
pub fn fork_of_body(body: &Vec<Instr>) -> (r: Option<(bool, usize, usize)>)
    ensures
        match r {
            Some((bracket, f, g)) => body@ == seq![
                Instr::Modifier(crate::optimize::fork_or_bracket(bracket, f, g)),
            ],
            None => !(body@.len() == 1 && (body@[0] matches Instr::Modifier(m) && (m is Fork
                || m is Bracket))),
        },
{
    if body.len() != 1 {
        return None;
    }
    match body[0] {
        Instr::Modifier(Modifier::Fork(f, g)) => {
            assert(body@ =~= seq![Instr::Modifier(Modifier::Fork(f, g))]);
            Some((false, f, g))
        },
        Instr::Modifier(Modifier::Bracket(f, g)) => {
            assert(body@ =~= seq![Instr::Modifier(Modifier::Bracket(f, g))]);
            Some((true, f, g))
        },
        _ => None,
    }
}

/// Handles on the first `k` values of `values`.
fn share_front(values: &Vec<Value>, k: usize) -> (r: Vec<Value>)
    requires
        k <= values@.len(),
    ensures
        r@ == values@.take(k as int),
        views(r@) == views(values@).take(k as int),
{
    let mut r: Vec<Value> = Vec::new();
    let mut i: usize = 0;
    while i < k
        invariant
            i <= k <= values@.len(),
            r@ == values@.take(i as int),
        decreases k - i,
    {
        r.push(values[i].share());
        i += 1;
        assert(r@ =~= values@.take(i as int));
    }
    assert(views(r@) =~= views(values@).take(k as int));
    r
}

/// What the first function of a fork makes of each item, up to the first
/// item that has too few values or on which it fails.
fn fork_first_pass(prog: &Assembly, h: usize, f: usize, fi: usize, k: usize, items: &Vec<Vec<Value>>) -> (r: (
    Vec<Vec<Value>>,
    Option<RuntimeError>,
))
    requires
        fi <= k,
    ensures
        r.0@.len() <= items@.len(),
        r.1 is None ==> r.0@.len() == items@.len(),
        forall|j: int|
            0 <= j < r.0@.len() ==> (#[trigger] items@[j])@.len() >= k && prog@.call(
                h as nat,
                f as nat,
                views(items@[j]@).skip(items@[j]@.len() - fi),
            ) == Ok::<Seq<Array>, Fault>(views(r.0@[j]@)),
        r.1 matches Some(e) ==> {
            let item = items@[r.0@.len() as int];
            &&& r.0@.len() < items@.len()
            &&& if item@.len() < k {
                e@ == Fault::StackUnderflow
            } else {
                prog@.call(h as nat, f as nat, views(item@).skip(item@.len() - fi)) == Err::<
                    Seq<Array>,
                    Fault,
                >(e@)
            }
        },
    decreases h, 1nat, 0nat,
{
    let mut done: Vec<Vec<Value>> = Vec::new();
    let mut i: usize = 0;
    while i < items.len()
        invariant
            i <= items@.len(),
            fi <= k,
            done@.len() == i,
            forall|j: int|
                0 <= j < i ==> (#[trigger] items@[j])@.len() >= k && prog@.call(
                    h as nat,
                    f as nat,
                    views(items@[j]@).skip(items@[j]@.len() - fi),
                ) == Ok::<Seq<Array>, Fault>(views(done@[j]@)),
        decreases items@.len() - i,
    {
        if items[i].len() < k {
            return (done, Some(RuntimeError::StackUnderflow));
        }
        let mut fa = share_top(&items[i], fi);
        match call(prog, h, f, &mut fa) {
            Ok(()) => {
                done.push(fa);
            },
            Err(e) => {
                return (done, Some(e));
            },
        }
        i += 1;
    }
    (done, None)
}

/// Applies a function that is nothing but a fork or a bracket to each of
/// `items`, the fork taken outward: its first function runs over the
/// items, then its second, and what they leave is gathered as `map`
/// gathers it. The
/// failure, where there is one, is that of the first item that fails, as
/// if the two functions had run item by item.
pub fn map_forked(prog: &Assembly, level: usize, h: usize, items: &Vec<Vec<Value>>, frame: Vec<usize>) -> (r:
    Result<Vec<Value>, RuntimeError>)
    requires
        product(frame@) == items@.len(),
    ensures
        yields_all(r, prog@.map(level as nat, h as nat, item_views(items@), frame@)),
    decreases level, 0nat, 4nat,
{
    let count = prog.function_count();
    if !(h < level && h < count) {
        return Err(RuntimeError::StackUnderflow);
    }
    let (bracket, f, g) = match fork_of_body(&prog.function(h).body) {
        Some(found) => found,
        None => {
            return map(prog, level, h, items, frame);
        },
    };
    if !(f < h && f < count && g < h && g < count) {
        return map(prog, level, h, items, frame);
    }
    let outputs = prog.function(h).outputs;
    let fi = prog.function(f).inputs;
    let gi = prog.function(g).inputs;
    let k = if bracket {
        match fi.checked_add(gi) {
            Some(k) => k,
            None => {
                return map(prog, level, h, items, frame);
            },
        }
    } else if fi >= gi {
        fi
    } else {
        gi
    };
    let ghost want = item_views(items@);
    let (firsts, stop) = fork_first_pass(prog, h, f, fi, k, items);
    let limit = firsts.len();
    let mut outs: Vec<Vec<Value>> = Vec::new();
    let mut j: usize = 0;
    assert(item_views(outs@) =~= Seq::<Seq<Array>>::empty());
    while j < limit
        invariant
            j <= limit <= items@.len(),
            limit == firsts@.len(),
            h < level && h < prog@.functions.len(),
            prog@.functions[h as int].body == seq![
                Instr::Modifier(crate::optimize::fork_or_bracket(bracket, f, g)),
            ],
            f < h && f < prog@.functions.len() && g < h && g < prog@.functions.len(),
            outputs == prog@.functions[h as int].outputs,
            fi == prog@.functions[f as int].inputs,
            gi == prog@.functions[g as int].inputs,
            k as int == (if bracket {
                fi + gi
            } else if fi >= gi {
                fi as int
            } else {
                gi as int
            }),
            want == item_views(items@),
            outs@.len() == j,
            forall|i: int| 0 <= i < outs@.len() ==> (#[trigger] outs@[i])@.len() == outputs,
            forall|i: int|
                0 <= i < limit ==> (#[trigger] items@[i])@.len() >= k && prog@.call(
                    h as nat,
                    f as nat,
                    views(items@[i]@).skip(items@[i]@.len() - fi),
                ) == Ok::<Seq<Array>, Fault>(views(firsts@[i]@)),
            prog@.map_from(level as nat, h as nat, want, 0, Seq::empty()) == prog@.map_from(
                level as nat,
                h as nat,
                want,
                j as nat,
                item_views(outs@),
            ),
        decreases limit - j,
    {
        let item = &items[j];
        let n = item.len();
        proof {
            crate::optimize::lemma_fork_item(prog@, level as nat, h as nat, bracket, f, g, want[j as int]);
            assert(want[j as int] == views(item@));
            assert(items@[j as int]@.len() >= k);
        }
        let mut ga = if bracket {
            let below = share_front(item, n - fi);
            let ga = share_top(&below, gi);
            assert(views(ga@) =~= views(item@).subrange(n - fi - gi, n - fi));
            ga
        } else {
            share_top(item, gi)
        };
        match call(prog, h, g, &mut ga) {
            Ok(()) => {},
            Err(e) => {
                return Err(e);
            },
        }
        let mut out = share_front(item, n - k);
        push_all(&mut out, ga);
        push_all(&mut out, share_all(&firsts[j]));
        proof {
            assert(views(out@) =~= views(item@).take(n - k) + (views(ga@) + views(firsts@[j as int]@)));
        }
        if out.len() != outputs {
            return Err(RuntimeError::StackUnderflow);
        }
        proof {
            assert(item_views(outs@.push(out)) =~= item_views(outs@).push(views(out@)));
        }
        outs.push(out);
        j += 1;
    }
    match stop {
        Some(e) => {
            proof {
                crate::optimize::lemma_fork_item(
                    prog@,
                    level as nat,
                    h as nat,
                    bracket,
                    f,
                    g,
                    want[limit as int],
                );
                assert(want[limit as int] == views(items@[limit as int]@));
            }
            Err(e)
        },
        None => {
            assert(prog@.map(level as nat, h as nat, want, frame@) == collect(
                item_views(outs@),
                frame@,
                outputs as nat,
                0,
            ));
            gather(&outs, frame, outputs)
        },
    }
}

/// Rows, each or table by a function that is nothing but a fork or a
/// bracket, with the fork or bracket taken outward.
pub fn spread(prog: &Assembly, level: usize, m: Modifier, stack: &mut Vec<Value>) -> (r: Result<
    (),
    RuntimeError,
>)
    ensures
        agrees(r, final(stack)@, prog@.fused(level as nat, Fused::Forked(m), views(old(stack)@))),
    decreases level, 0nat, 5nat,
{
    let ghost s = views(stack@);
    let n = stack.len();
    match m {
        Modifier::Rows(f) => {
            if n < 1 {
                return Err(RuntimeError::StackUnderflow);
            }
            let a = pop_value(stack);
            let items = row_items_of(&a);
            let mut frame: Vec<usize> = Vec::new();
            frame.push(a.row_count());
            proof {
                assert(frame@ =~= seq![a@.rows() as usize]);
                assert(frame@.drop_first() =~= Seq::<usize>::empty());
                assert(product(Seq::<usize>::empty()) == 1);
                assert(product(frame@) == frame@[0] * product(frame@.drop_first()));
            }
            match map_forked(prog, level, f, &items, frame) {
                Ok(out) => {
                    push_all(stack, out);
                    Ok(())
                },
                Err(e) => Err(e),
            }
        },
        Modifier::Each(f) => {
            if n < 1 {
                return Err(RuntimeError::StackUnderflow);
            }
            let a = pop_value(stack);
            let items = cell_items_of(&a);
            let frame = a.shape();
            match map_forked(prog, level, f, &items, frame) {
                Ok(out) => {
                    push_all(stack, out);
                    Ok(())
                },
                Err(e) => Err(e),
            }
        },
        Modifier::Table(f) => {
            if n < 2 {
                return Err(RuntimeError::StackUnderflow);
            }
            let a = pop_value(stack);
            let b = pop_value(stack);
            assert(views(stack@) =~= s.take(n - 2));
            if a.count().checked_mul(b.count()).is_none() {
                return Err(RuntimeError::ShapeMismatch);
            }
            let items = pair_items_of(&a, &b);
            let frame = concat_dims(a.shape(), b.shape());
            proof {
                lemma_product_concat(a@.shape, b@.shape);
            }
            match map_forked(prog, level, f, &items, frame) {
                Ok(out) => {
                    push_all(stack, out);
                    Ok(())
                },
                Err(e) => Err(e),
            }
        },
        _ => Err(RuntimeError::StackUnderflow),
    }
}


/// What a fused instruction of one argument computes from it.
pub open spec fn fused_one(constants: Seq<Array>, x: Fused, a: Array) -> Result<Array, Fault> {
    match x {
        Fused::ReduceOp(op) => reduce_op(op, a),
        Fused::ScanOp(op) => scan_op(op, a),
        Fused::RowsReduce(op) => crate::semantics::rows_reduce(op, a),
        Fused::RowsTranspose => crate::transpose::rows_transpose(a),
        Fused::Repeat { constant, each } => repeat_for(constants, constant, each, a),
        _ => crate::fusion::direct(x, a),
    }
}

/// What a fused instruction of two arguments and one result computes from
/// them.
pub open spec fn fused_two(x: Fused, a: Array, b: Array) -> Result<Array, Fault> {
    match x {
        Fused::ReduceTable(reducer, tabler) => crate::semantics::reduce_table(reducer, tabler, a, b),
        Fused::TableOp(op) => table_op(op, a, b),
        Fused::TablePairs { couple } => crate::semantics::table_pairs(couple, a, b),
        Fused::WindowsReduce(op) => crate::windows::windows_reduce(op, a, b),
        _ => Err(Fault::StackUnderflow),
    }
}

/// Runs a fused instruction of one argument.
pub fn run_fused_one(prog: &Assembly, x: Fused, a: &Value) -> (r: Result<Value, RuntimeError>)
    requires
        !(x is Dips) && !(x is Forked) && !(x is TableOp) && !(x is TablePairs) && !(x is TableFork) && !(
        x is ReduceTable) && !(
        x is WindowsReduce),
    ensures
        yields(r, fused_one(prog@.constants, x, a@)),
{
    match x {
        Fused::Last => last_value(a),
        Fused::GradeFirst { desc } => grade_first_value(a, desc),
        Fused::GradeLast { desc } => grade_last_value(a, desc),
        Fused::WhereFirst => first_where_value(a),
        Fused::WhereLast => last_where_value(a),
        Fused::Sort { desc } => sort_value(a, desc),
        Fused::Transposes(n) => Ok(crate::transpose::transposed_value(a, n)),
        Fused::ReduceOp(op) => reduce_op_value(op, a),
        Fused::ScanOp(op) => scan_op_value(op, a),
        Fused::RowsReduce(op) => crate::columns::rows_reduce_value(op, a),
        Fused::RowsTranspose => crate::transpose::rows_transpose_value(a),
        Fused::Repeat { constant, each } => repeat_value(prog, constant, each, a),
        _ => Err(RuntimeError::StackUnderflow),
    }
}

/// Runs a fused instruction of two arguments and one result.
pub fn run_fused_two(x: Fused, a: &Value, b: &Value) -> (r: Result<Value, RuntimeError>)
    requires
        x is TableOp || x is TablePairs || x is ReduceTable || x is WindowsReduce,
    ensures
        yields(r, fused_two(x, a@, b@)),
{
    match x {
        Fused::ReduceTable(reducer, tabler) => crate::stream::reduce_table_value(
            reducer,
            tabler,
            a,
            b,
        ),
        Fused::TableOp(op) => table_op_value(op, a, b),
        Fused::TablePairs { couple } => crate::pairs::table_pairs_value(couple, a, b),
        Fused::WindowsReduce(op) => crate::windows::windows_reduce_value(op, a, b),
        _ => Err(RuntimeError::StackUnderflow),
    }
}

/// The fork of the tables of `a` and `b` by `first` and by `second`.
pub fn table_fork_value(first: ScalarOp, second: ScalarOp, a: &Value, b: &Value) -> (r: Result<
    Vec<Value>,
    RuntimeError,
>)
    ensures
        yields_all(r, crate::semantics::table_fork(first, second, a@, b@)),
{
    if a.count().checked_mul(b.count()).is_none() {
        return Err(RuntimeError::ShapeMismatch);
    }
    proof {
        crate::fusion::lemma_table_fork(first, second, a@, b@);
        crate::fusion::lemma_table_direct(first, a@, b@);
        crate::fusion::lemma_table_direct(second, a@, b@);
    }
    let x = match table_op_value(first, a, b) {
        Ok(x) => x,
        Err(e) => {
            return Err(e);
        },
    };
    let y = match table_op_value(second, a, b) {
        Ok(y) => y,
        Err(e) => {
            return Err(e);
        },
    };
    let mut out: Vec<Value> = Vec::new();
    out.push(y);
    out.push(x);
    assert(views(out@) =~= seq![y@, x@]);
    Ok(out)
}

/// A fused instruction of one argument settles the stack with what it
/// computes from the top value.
pub proof fn lemma_fused_one(p: Program, level: nat, x: Fused, s: Seq<Array>)
    requires
        !(x is Dips) && !(x is Forked) && !(x is TableOp) && !(x is TablePairs) && !(x is TableFork) && !(
        x is ReduceTable) && !(
        x is WindowsReduce),
        x matches Fused::Transposes(n) ==> n >= 1,
        s.len() >= 1,
        s.last().valid(),
    ensures
        p.fused(level, x, s) == crate::primitive::settle(s, 1, fused_one(p.constants, x, s.last())),
{
    if crate::fusion::is_idiom(x) {
        crate::fusion::lemma_idiom(x, s);
    }
}

/// Runs a fused instruction on the stack.
pub fn fused(prog: &Assembly, level: usize, x: Fused, stack: &mut Vec<Value>) -> (r: Result<
    (),
    RuntimeError,
>)
    ensures
        agrees(r, final(stack)@, prog@.fused(level as nat, x, views(old(stack)@))),
    decreases level, 1nat, 0nat,
{
    let ghost s = views(stack@);
    let n = stack.len();
    match x {
        Fused::Dips { depth, function } => {
            if n < depth {
                return Err(RuntimeError::StackUnderflow);
            }
            let held = take_top(stack, depth);
            match call(prog, level, function, stack) {
                Ok(()) => {
                    push_all(stack, held);
                    Ok(())
                },
                Err(e) => Err(e),
            }
        },
        Fused::Forked(m) => spread(prog, level, m, stack),
        Fused::TableFork(first, second) => {
            if n < 2 {
                return Err(RuntimeError::StackUnderflow);
            }
            let a = pop_value(stack);
            let b = pop_value(stack);
            assert(views(stack@) =~= s.take(s.len() - 2));
            match table_fork_value(first, second, &a, &b) {
                Ok(out) => {
                    push_all(stack, out);
                    Ok(())
                },
                Err(e) => Err(e),
            }
        },
        Fused::Transposes(0) => {
            proof {
                reveal_with_fuel(crate::semantics::run_prims, 1);
            }
            Ok(())
        },
        Fused::TableOp(_) | Fused::TablePairs { .. } | Fused::ReduceTable(_, _) | Fused::WindowsReduce(
            _,
        ) => {
            if n < 2 {
                return Err(RuntimeError::StackUnderflow);
            }
            let a = pop_value(stack);
            let b = pop_value(stack);
            assert(views(stack@) =~= s.take(s.len() - 2));
            let r = run_fused_two(x, &a, &b);
            settle_value(stack, r)
        },
        _ => {
            if n < 1 {
                proof {
                    if crate::fusion::is_idiom(x) {
                        crate::fusion::lemma_idiom(x, s);
                    }
                }
                return Err(RuntimeError::StackUnderflow);
            }
            let a = pop_value(stack);
            assert(views(stack@) =~= s.take(s.len() - 1));
            proof {
                lemma_fused_one(prog@, level as nat, x, s);
            }
            let r = run_fused_one(prog, x, &a);
            settle_value(stack, r)
        },
    }
}

/// Runs one instruction on the stack. After a failure the stack holds no
/// particular values.
pub fn step(prog: &Assembly, level: usize, instr: Instr, stack: &mut Vec<Value>) -> (r: Result<
    (),
    RuntimeError,
>)
    ensures
        agrees(r, final(stack)@, prog@.step(level as nat, instr, views(old(stack)@))),
    decreases level, 1nat, 1nat,
{
    let ghost s = views(stack@);
    match instr {
        Instr::Push(c) => {
            if c < prog.constant_count() {
                push_value(stack, prog.constant(c).share());
                Ok(())
            } else {
                Err(RuntimeError::StackUnderflow)
            }
        },
        Instr::Prim(p) => apply_primitive(p, stack),
        Instr::Call(f) => call(prog, level, f, stack),
        Instr::MakeArray(n) => {
            if stack.len() < n {
                return Err(RuntimeError::StackUnderflow);
            }
            let mut rows: Vec<Value> = Vec::new();
            let mut j: usize = 0;
            assert(views(rows@) =~= Program::literal_rows(s, n as nat).take(0));
            while j < n
                invariant
                    j <= n <= s.len(),
                    s.len() == stack@.len() + j,
                    views(stack@) == s.take(s.len() - j),
                    views(rows@) == Program::literal_rows(s, n as nat).take(j as int),
                decreases n - j,
            {
                let v = pop_value(stack);
                proof {
                    lemma_views_push(rows@, v);
                    assert(v@ == peek(s, j as int));
                }
                rows.push(v);
                j += 1;
                assert(views(stack@) =~= s.take(s.len() - j));
                assert(views(rows@) =~= Program::literal_rows(s, n as nat).take(j as int));
            }
            assert(Program::literal_rows(s, n as nat).take(n as int) =~= Program::literal_rows(
                s,
                n as nat,
            ));
            let r = stack_values(&rows);
            settle_value(stack, r)
        },
        Instr::Modifier(m) => modify(prog, level, m, stack),
        Instr::Fused(x) => fused(prog, level, x, stack),
    }
}

impl Assembly {
    /// Runs the program on an empty stack and returns the values it leaves,
    /// the top of the stack last.
    pub fn run(&self) -> (r: Result<Vec<Value>, RuntimeError>)
        ensures
            yields_all(r, self@.run(self.top())),
    {
        let mut stack: Vec<Value> = Vec::new();
        assert(views(stack@) =~= Seq::<Array>::empty());
        match run_body(self, self.function_count(), self.main(), &mut stack) {
            Ok(()) => Ok(stack),
            Err(e) => Err(e),
        }
    }
}

} // verus!
