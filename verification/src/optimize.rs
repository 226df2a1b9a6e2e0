//! The fusion pass: rewrites known idioms into single fused instructions.
//!
//! The pass goes through the function table from the front, so that a
//! function is rewritten after every function it may call, and then through
//! the top-level instructions. What it produces is stated exactly by `fuse`
//! and `optimized`; that the rewritten program turns every stack into the
//! outcome that the program it was made from turns it into is proved from
//! those.
use crate::assembly::{
    function_models, Assembly, Function, FunctionModel, Fused, Instr, Modifier, Program,
};
use crate::equiv::{
    lemma_effect_append, lemma_prefix, lemma_run, lemma_run_concat, lemma_run_one, related,
    same_effect,
};
use crate::error::Fault;
use crate::fusion::is_idiom;
use crate::pervasive::pervade;
use crate::primitive::{peek, prim_step, settle, Primitive};
use crate::scalar::ScalarOp;
use crate::semantics::{
    collect, column, fold_op, idiom, op_map_from, pair_items, pair_map_from, paired, reduce_op,
    run_prims, scan_op_from, sole_of, sole_op,
};
use crate::value::{views, Array, Value};
use crate::vm::share_all;
use vstd::prelude::*;

verus! {

/// Built-in functions as instructions.
pub open spec fn instrs_of(ps: Seq<Primitive>) -> Seq<Instr> {
    Seq::new(ps.len(), |i: int| Instr::Prim(ps[i]))
}

/// The built-in function called at place `i` of `body`, if there is one.
pub open spec fn prim_at(body: Seq<Instr>, i: int) -> Option<Primitive> {
    if 0 <= i < body.len() {
        match body[i] {
            Instr::Prim(p) => Some(p),
            _ => None,
        }
    } else {
        None
    }
}

/// Whether a function grades, and if so whether by falling keys.
pub open spec fn graded(p: Option<Primitive>) -> Option<bool> {
    match p {
        Some(Primitive::Rise) => Some(false),
        Some(Primitive::Fall) => Some(true),
        _ => None,
    }
}

/// The fused form of a dip around function `g`, where `g` itself is nothing
/// but a dip, or nested dips, around a function before it.
pub open spec fn dips_of(fs: Seq<FunctionModel>, level: nat, g: usize) -> Option<Fused> {
    if g < level && g < fs.len() && fs[g as int].body.len() == 1 {
        match fs[g as int].body[0] {
            Instr::Modifier(Modifier::Dip(f)) => if f < g {
                Some(Fused::Dips { depth: 2, function: f })
            } else {
                None
            },
            Instr::Fused(Fused::Dips { depth, function }) => if function < g && depth < usize::MAX {
                Some(Fused::Dips { depth: (depth + 1) as usize, function })
            } else {
                None
            },
            _ => None,
        }
    } else {
        None
    }
}

/// The constant that function `g` pushes in place of its argument, where
/// `g` is nothing but a gap around an earlier function that is nothing but
/// the push of a constant, and `g` leaves one value.
pub open spec fn gap_constant(fs: Seq<FunctionModel>, level: nat, g: usize) -> Option<usize> {
    if g < level && g < fs.len() && fs[g as int].body.len() == 1 && fs[g as int].outputs == 1 {
        match fs[g as int].body[0] {
            Instr::Modifier(Modifier::Gap(f)) => if f < g && fs[f as int].body.len() == 1 {
                match fs[f as int].body[0] {
                    Instr::Push(k) => Some(k),
                    _ => None,
                }
            } else {
                None
            },
            _ => None,
        }
    } else {
        None
    }
}

/// The two pervasive operations that function `h` forks, where `h` is
/// nothing but a fork of two earlier functions that are one pervasive
/// primitive each and take two values.
pub open spec fn fork_ops(fs: Seq<FunctionModel>, h: usize) -> Option<(ScalarOp, ScalarOp)> {
    if h < fs.len() && fs[h as int].body.len() == 1 {
        match fs[h as int].body[0] {
            Instr::Modifier(Modifier::Fork(f, g)) => if f < h && g < h && fs[f as int].inputs == 2
                && fs[g as int].inputs == 2 {
                match (sole_of(fs[f as int].body), sole_of(fs[g as int].body)) {
                    (Some(first), Some(second)) => Some((first, second)),
                    _ => None,
                }
            } else {
                None
            },
            _ => None,
        }
    } else {
        None
    }
}

/// The first of the two operations that function `h` forks.
pub open spec fn fork_first(fs: Seq<FunctionModel>, h: usize) -> ScalarOp {
    match fork_ops(fs, h) {
        Some((first, _)) => first,
        None => ScalarOp::Add,
    }
}

/// The second of the two operations that function `h` forks.
pub open spec fn fork_second(fs: Seq<FunctionModel>, h: usize) -> ScalarOp {
    match fork_ops(fs, h) {
        Some((_, second)) => second,
        None => ScalarOp::Add,
    }
}

/// Whether a function body is nothing but a join, or nothing but a
/// couple: `Some(true)` for the couple.
pub open spec fn pairing_of(body: Seq<Instr>) -> Option<bool> {
    if body.len() == 1 {
        match body[0] {
            Instr::Prim(Primitive::Join) => Some(false),
            Instr::Prim(Primitive::Couple) => Some(true),
            _ => None,
        }
    } else {
        None
    }
}

/// Whether function `h` is nothing but a fork or a bracket.
pub open spec fn forks(fs: Seq<FunctionModel>, level: nat, h: usize) -> bool {
    h < level && h < fs.len() && fs[h as int].body.len() == 1 && (fs[h as int].body[0] matches Instr::Modifier(
        m,
    ) && (m is Fork || m is Bracket))
}

/// The fused form of a table by function `h`: by one pervasive primitive,
/// by a join or a couple, or by a fork of two pervasive primitives.
pub open spec fn table_fusion(fs: Seq<FunctionModel>, level: nat, h: usize) -> Option<Fused> {
    if h < level && h < fs.len() {
        if fs[h as int].outputs == 1 && sole_of(fs[h as int].body) is Some {
            Some(Fused::TableOp(sole_of(fs[h as int].body)->0))
        } else if fs[h as int].outputs == 1 && pairing_of(fs[h as int].body) is Some {
            Some(Fused::TablePairs { couple: pairing_of(fs[h as int].body)->0 })
        } else if fs[h as int].outputs == 2 && fork_ops(fs, h) is Some {
            Some(Fused::TableFork(fork_first(fs, h), fork_second(fs, h)))
        } else {
            None
        }
    } else {
        None
    }
}

/// The fused form of a table at place `i` followed by a reduce, both by
/// functions that are one pervasive primitive.
pub open spec fn reduce_of_table(fs: Seq<FunctionModel>, level: nat, body: Seq<Instr>, i: int) -> Option<
    Fused,
> {
    if 0 <= i && i + 1 < body.len() {
        match (body[i], body[i + 1]) {
            (Instr::Modifier(Modifier::Table(g)), Instr::Modifier(Modifier::Reduce(f))) => if g
                < level && g < fs.len() && f < level && f < fs.len() && fs[g as int].outputs == 1 {
                match (sole_of(fs[f as int].body), sole_of(fs[g as int].body)) {
                    (Some(reducer), Some(tabler)) => Some(Fused::ReduceTable(reducer, tabler)),
                    _ => None,
                }
            } else {
                None
            },
            _ => None,
        }
    } else {
        None
    }
}

/// How many transposes stand in a row from place `i` of `body` on.
pub open spec fn transposes_at(body: Seq<Instr>, i: int) -> nat
    decreases body.len() - i,
{
    if 0 <= i < body.len() && body[i] == Instr::Prim(Primitive::Transpose) {
        1 + transposes_at(body, i + 1)
    } else {
        0
    }
}

/// A row of transposes lies inside the body and holds nothing else.
pub proof fn lemma_transposes_at(body: Seq<Instr>, i: int)
    requires
        0 <= i,
    ensures
        transposes_at(body, i) > 0 ==> i + transposes_at(body, i) <= body.len(),
        forall|j: int|
            0 <= j < transposes_at(body, i) ==> #[trigger] prim_at(body, i + j) == Some(
                Primitive::Transpose,
            ),
    decreases body.len() - i,
{
    if i < body.len() && body[i] == Instr::Prim(Primitive::Transpose) {
        lemma_transposes_at(body, i + 1);
        assert forall|j: int| 0 <= j < transposes_at(body, i) implies #[trigger] prim_at(
            body,
            i + j,
        ) == Some(Primitive::Transpose) by {
            if j > 0 {
                assert(prim_at(body, (i + 1) + (j - 1)) == Some(Primitive::Transpose));
            }
        }
    }
}

/// The operation that function `g` reduces by, where `g` is nothing but a
/// fused reduce and leaves one value.
pub open spec fn reducer_of(fs: Seq<FunctionModel>, level: nat, g: usize) -> Option<ScalarOp> {
    if g < level && g < fs.len() && fs[g as int].body.len() == 1 && fs[g as int].outputs == 1 {
        match fs[g as int].body[0] {
            Instr::Fused(Fused::ReduceOp(op)) => Some(op),
            _ => None,
        }
    } else {
        None
    }
}

/// The operation by which every window is reduced, where windows at place
/// `i` are followed by rows of a function that is nothing but a fused
/// reduce.
pub open spec fn reduce_of_windows(fs: Seq<FunctionModel>, level: nat, body: Seq<Instr>, i: int) -> Option<
    ScalarOp,
> {
    if 0 <= i && i + 1 < body.len() && body[i] == Instr::Prim(Primitive::Windows) {
        match body[i + 1] {
            Instr::Modifier(Modifier::Rows(g)) => reducer_of(fs, level, g),
            _ => None,
        }
    } else {
        None
    }
}

/// Whether function `g` is nothing but a transpose and leaves one value.
pub open spec fn transposer(fs: Seq<FunctionModel>, level: nat, g: usize) -> bool {
    g < level && g < fs.len() && fs[g as int].outputs == 1 && fs[g as int].body == seq![
        Instr::Prim(Primitive::Transpose),
    ]
}

/// The rewrite that applies at place `i` of `body`: the fused instruction
/// and how many instructions it stands for. Longer idioms are tried first.
pub open spec fn fuse_at(fs: Seq<FunctionModel>, level: nat, body: Seq<Instr>, i: int) -> Option<
    (Fused, nat),
> {
    let a = prim_at(body, i);
    let b = prim_at(body, i + 1);
    let c = prim_at(body, i + 2);
    if 2 <= transposes_at(body, i) <= usize::MAX {
        Some((Fused::Transposes(transposes_at(body, i) as usize), transposes_at(body, i)))
    } else if a == Some(Primitive::Dup) && graded(b) is Some && c == Some(Primitive::Select) {
        Some((Fused::Sort { desc: graded(b)->0 }, 3))
    } else if graded(a) is Some && b == Some(Primitive::Reverse) && c == Some(Primitive::First) {
        Some((Fused::GradeLast { desc: graded(a)->0 }, 3))
    } else if a == Some(Primitive::Where) && b == Some(Primitive::Reverse) && c == Some(
        Primitive::First,
    ) {
        Some((Fused::WhereLast, 3))
    } else if a == Some(Primitive::Reverse) && b == Some(Primitive::First) {
        Some((Fused::Last, 2))
    } else if graded(a) is Some && b == Some(Primitive::First) {
        Some((Fused::GradeFirst { desc: graded(a)->0 }, 2))
    } else if a == Some(Primitive::Where) && b == Some(Primitive::First) {
        Some((Fused::WhereFirst, 2))
    } else if reduce_of_table(fs, level, body, i) is Some {
        Some((reduce_of_table(fs, level, body, i)->0, 2))
    } else if reduce_of_windows(fs, level, body, i) is Some {
        Some((Fused::WindowsReduce(reduce_of_windows(fs, level, body, i)->0), 2))
    } else if 0 <= i < body.len() {
        match body[i] {
            Instr::Modifier(Modifier::Dip(g)) => match dips_of(fs, level, g) {
                Some(x) => Some((x, 1)),
                None => None,
            },
            Instr::Modifier(Modifier::Reduce(f)) => if f < level && f < fs.len() {
                match sole_of(fs[f as int].body) {
                    Some(op) => if op.folds() {
                        Some((Fused::ReduceOp(op), 1))
                    } else {
                        None
                    },
                    None => None,
                }
            } else {
                None
            },
            Instr::Modifier(Modifier::Scan(f)) => if f < level && f < fs.len() {
                match sole_of(fs[f as int].body) {
                    Some(op) => if op.scans() {
                        Some((Fused::ScanOp(op), 1))
                    } else {
                        None
                    },
                    None => None,
                }
            } else {
                None
            },
            Instr::Modifier(Modifier::Rows(g)) => match gap_constant(fs, level, g) {
                Some(k) => Some((Fused::Repeat { constant: k, each: false }, 1)),
                None => match reducer_of(fs, level, g) {
                    Some(op) => Some((Fused::RowsReduce(op), 1)),
                    None => if transposer(fs, level, g) {
                        Some((Fused::RowsTranspose, 1))
                    } else if forks(fs, level, g) {
                        Some((Fused::Forked(Modifier::Rows(g)), 1))
                    } else {
                        None
                    },
                },
            },
            Instr::Modifier(Modifier::Each(g)) => match gap_constant(fs, level, g) {
                Some(k) => Some((Fused::Repeat { constant: k, each: true }, 1)),
                None => if forks(fs, level, g) {
                    Some((Fused::Forked(Modifier::Each(g)), 1))
                } else {
                    None
                },
            },
            Instr::Modifier(Modifier::Table(f)) => match table_fusion(fs, level, f) {
                Some(x) => Some((x, 1)),
                None => if forks(fs, level, f) {
                    Some((Fused::Forked(Modifier::Table(f)), 1))
                } else {
                    None
                },
            },
            _ => None,
        }
    } else {
        None
    }
}

/// The instructions of `body` from place `i` on, with every idiom
/// replaced by its fused instruction.
pub open spec fn fuse(fs: Seq<FunctionModel>, level: nat, body: Seq<Instr>, i: nat) -> Seq<Instr>
    decreases body.len() - i,
{
    if i >= body.len() {
        Seq::empty()
    } else {
        match fuse_at(fs, level, body, i as int) {
            Some((x, k)) => if k >= 1 && i + k <= body.len() {
                seq![Instr::Fused(x)] + fuse(fs, level, body, i + k)
            } else {
                Seq::empty()
            },
            None => seq![body[i as int]] + fuse(fs, level, body, i + 1),
        }
    }
}

/// The first `n` functions of a table after the pass: each body is fused
/// against the functions already rewritten; signatures stay.
pub open spec fn optimized(fs: Seq<FunctionModel>, n: nat) -> Seq<FunctionModel>
    decreases n,
{
    if n == 0 || n > fs.len() {
        Seq::empty()
    } else {
        let done = optimized(fs, (n - 1) as nat);
        done.push(
            FunctionModel {
                body: fuse(done, (n - 1) as nat, fs[n - 1].body, 0),
                inputs: fs[n - 1].inputs,
                outputs: fs[n - 1].outputs,
            },
        )
    }
}

/// Built-in functions run as instructions do what they do run by
/// themselves.
pub proof fn lemma_prims_run(q: Program, level: nat, ps: Seq<Primitive>, i: nat, s: Seq<Array>)
    ensures
        q.run_from(level, instrs_of(ps), i, s) == run_prims(ps, i, s),
    decreases ps.len() - i,
{
    let body = instrs_of(ps);
    assert(body.len() == ps.len());
    if i < ps.len() {
        assert(body[i as int] == Instr::Prim(ps[i as int]));
        assert(q.step(level, body[i as int], s) == prim_step(ps[i as int], s));
        if let Ok(t) = prim_step(ps[i as int], s) {
            lemma_prims_run(q, level, ps, i + 1, t);
            assert(q.run_from(level, body, i, s) == q.run_from(level, body, i + 1, t));
        } else {
            assert(q.run_from(level, body, i, s) is Err);
        }
    } else {
        assert(q.run_from(level, body, i, s) == Ok::<Seq<Array>, Fault>(s));
    }
}

/// A fused instruction has the effect of its idiom.
pub proof fn lemma_fused_idiom(q: Program, level: nat, x: Fused)
    requires
        is_idiom(x),
    ensures
        same_effect(q, level, instrs_of(idiom(x)), seq![Instr::Fused(x)]),
{
    assert forall|s: Seq<Array>| #[trigger]
        q.run_from(level, instrs_of(idiom(x)), 0, s) == q.run_from(
            level,
            seq![Instr::Fused(x)],
            0,
            s,
        ) by {
        lemma_prims_run(q, level, idiom(x), 0, s);
        lemma_run_one(q, level, Instr::Fused(x), s);
    }
}

/// Folding by a function that is one pervasive primitive is folding by
/// that primitive's operation.
pub proof fn lemma_fold_op(q: Program, level: nat, f: nat, op: ScalarOp, a: Array, i: nat, acc: Array)
    requires
        q.has(level, f),
        sole_op(q, f) == Some(op),
    ensures
        q.fold(level, f, a, i, acc) == fold_op(op, a, i, acc),
    decreases a.rows() - i,
{
    if i < a.rows() {
        let args = seq![a.row(i as int), acc];
        let body = q.functions[f as int].body;
        let p = body[0]->Prim_0;
        reveal_with_fuel(Program::run_from, 2);
        assert(peek(args, 0) == acc && peek(args, 1) == a.row(i as int));
        assert(q.step(f, body[0], args) == prim_step(p, args));
        assert(prim_step(p, args) == settle(args, 2, pervade(op, acc, a.row(i as int))));
        match pervade(op, acc, a.row(i as int)) {
            Ok(v) => {
                let out = args.take(0).push(v);
                assert(out.len() == 1 && out[0] == v);
                assert(q.run_from(f, body, 1, out) == Ok::<Seq<Array>, Fault>(out));
                assert(q.run_from(f, body, 0, args) == Ok::<Seq<Array>, Fault>(out));
                assert(q.call(level, f, args) == Ok::<Seq<Array>, Fault>(out));
                assert(q.apply(level, f, args, 1) == Ok::<Seq<Array>, Fault>(out));
                lemma_fold_op(q, level, f, op, a, i + 1, v);
            },
            Err(e) => {
                assert(q.run_from(f, body, 0, args) == Err::<Seq<Array>, Fault>(e));
                assert(q.call(level, f, args) == Err::<Seq<Array>, Fault>(e));
                assert(q.apply(level, f, args, 1) == Err::<Seq<Array>, Fault>(e));
            },
        }
    }
}

/// Reducing by a function that is one pervasive primitive has the effect
/// of the fused reduction by its operation.
pub proof fn lemma_reduce_effect(q: Program, level: nat, f: usize, op: ScalarOp)
    requires
        q.has(level, f as nat),
        sole_op(q, f as nat) == Some(op),
    ensures
        same_effect(
            q,
            level,
            seq![Instr::Modifier(Modifier::Reduce(f))],
            seq![Instr::Fused(Fused::ReduceOp(op))],
        ),
{
    assert forall|s: Seq<Array>| #[trigger]
        q.run_from(level, seq![Instr::Modifier(Modifier::Reduce(f))], 0, s) == q.run_from(
            level,
            seq![Instr::Fused(Fused::ReduceOp(op))],
            0,
            s,
        ) by {
        lemma_run_one(q, level, Instr::Modifier(Modifier::Reduce(f)), s);
        lemma_run_one(q, level, Instr::Fused(Fused::ReduceOp(op)), s);
        if s.len() >= 1 {
            let a = s.last();
            if a.rows() > 0 {
                lemma_fold_op(q, level, f as nat, op, a, 1, a.row(0));
            }
        }
    }
}

/// What a function that is one pervasive primitive makes of a stack of
/// two values: one value, the operation applied across the two.
pub proof fn lemma_sole_call(q: Program, level: nat, f: nat, op: ScalarOp, below: Array, top: Array)
    requires
        q.has(level, f),
        sole_op(q, f) == Some(op),
    ensures
        q.call(level, f, seq![below, top]) == (match pervade(op, top, below) {
            Ok(v) => Ok::<Seq<Array>, Fault>(seq![v]),
            Err(e) => Err::<Seq<Array>, Fault>(e),
        }),
{
    let args = seq![below, top];
    let body = q.functions[f as int].body;
    let p = body[0]->Prim_0;
    reveal_with_fuel(Program::run_from, 2);
    assert(peek(args, 0) == top && peek(args, 1) == below);
    assert(q.step(f, body[0], args) == prim_step(p, args));
    assert(prim_step(p, args) == settle(args, 2, pervade(op, top, below)));
    match pervade(op, top, below) {
        Ok(v) => {
            let out = args.take(0).push(v);
            assert(out =~= seq![v]);
            assert(q.run_from(f, body, 1, out) == Ok::<Seq<Array>, Fault>(out));
            assert(q.run_from(f, body, 0, args) == Ok::<Seq<Array>, Fault>(out));
        },
        Err(e) => {
            assert(q.run_from(f, body, 0, args) == Err::<Seq<Array>, Fault>(e));
        },
    }
}

/// The same, where exactly one value is expected back.
pub proof fn lemma_sole_apply(q: Program, level: nat, f: nat, op: ScalarOp, below: Array, top: Array)
    requires
        q.has(level, f),
        sole_op(q, f) == Some(op),
    ensures
        q.apply(level, f, seq![below, top], 1) == (match pervade(op, top, below) {
            Ok(v) => Ok::<Seq<Array>, Fault>(seq![v]),
            Err(e) => Err::<Seq<Array>, Fault>(e),
        }),
{
    lemma_sole_call(q, level, f, op, below, top);
}

/// What a fork of two functions that are one pervasive primitive each
/// makes of two values on a stack of their own: the two results.
pub proof fn lemma_fork_apply(q: Program, level: nat, h: usize, below: Array, top: Array)
    requires
        q.has(level, h as nat),
        fork_ops(q.functions, h) is Some,
        q.functions[h as int].outputs == 2,
    ensures
        ({
            let (first, second) = fork_ops(q.functions, h)->0;
            q.apply(level, h as nat, seq![below, top], 2) == (match pervade(first, top, below) {
                Ok(x) => match pervade(second, top, below) {
                    Ok(y) => Ok::<Seq<Array>, Fault>(seq![y, x]),
                    Err(e) => Err::<Seq<Array>, Fault>(e),
                },
                Err(e) => Err::<Seq<Array>, Fault>(e),
            })
        }),
{
    let (first, second) = fork_ops(q.functions, h)->0;
    let item = seq![below, top];
    let body = q.functions[h as int].body;
    let f = body[0]->Modifier_0->Fork_0;
    let g = body[0]->Modifier_0->Fork_1;
    assert(body =~= seq![body[0]]);
    lemma_run_one(q, h as nat, body[0], item);
    assert(item.skip(0) =~= item);
    assert(item.take(0) =~= Seq::<Array>::empty());
    lemma_sole_call(q, h as nat, f as nat, first, below, top);
    lemma_sole_call(q, h as nat, g as nat, second, below, top);
    assert(q.step(h as nat, body[0], item) == q.modify(h as nat, Modifier::Fork(f, g), item));
    if let Ok(x) = pervade(first, top, below) {
        if let Ok(y) = pervade(second, top, below) {
            assert(q.both(h as nat, f as nat, g as nat, item, item) == Ok::<Seq<Array>, Fault>(
                seq![y] + seq![x],
            ));
            assert(Seq::<Array>::empty() + (seq![y] + seq![x]) =~= seq![y, x]);
        }
    }
}

pub proof fn lemma_map_fork(
    q: Program,
    level: nat,
    h: usize,
    a: Array,
    b: Array,
    i: nat,
    outs: Seq<Seq<Array>>,
)
    requires
        q.has(level, h as nat),
        fork_ops(q.functions, h) is Some,
        q.functions[h as int].outputs == 2,
    ensures
        q.map_from(level, h as nat, pair_items(a, b), i, outs) == crate::semantics::op_map2_from(
            fork_first(q.functions, h),
            fork_second(q.functions, h),
            pair_items(a, b),
            i,
            outs,
        ),
    decreases pair_items(a, b).len() - i,
{
    let (first, second) = fork_ops(q.functions, h)->0;
    let items = pair_items(a, b);
    if i < items.len() {
        let item = items[i as int];
        assert(item.len() == 2);
        assert(item =~= seq![item[0], item[1]]);
        lemma_fork_apply(q, level, h, item[0], item[1]);
        if let Ok(x) = pervade(first, item[1], item[0]) {
            if let Ok(y) = pervade(second, item[1], item[0]) {
                lemma_map_fork(q, level, h, a, b, i + 1, outs.push(seq![y, x]));
            }
        }
    }
}

/// Table by a fork of two functions that are one pervasive primitive each
/// has the effect of the fused fork of the two tables.
pub proof fn lemma_table_fork_effect(q: Program, level: nat, h: usize)
    requires
        q.has(level, h as nat),
        fork_ops(q.functions, h) is Some,
        q.functions[h as int].outputs == 2,
    ensures
        same_effect(
            q,
            level,
            seq![Instr::Modifier(Modifier::Table(h))],
            seq![
                Instr::Fused(
                    Fused::TableFork(fork_first(q.functions, h), fork_second(q.functions, h)),
                ),
            ],
        ),
{
    let (first, second) = fork_ops(q.functions, h)->0;
    let x = Fused::TableFork(first, second);
    assert forall|s: Seq<Array>| #[trigger]
        q.run_from(level, seq![Instr::Modifier(Modifier::Table(h))], 0, s) == q.run_from(
            level,
            seq![Instr::Fused(x)],
            0,
            s,
        ) by {
        lemma_run_one(q, level, Instr::Modifier(Modifier::Table(h)), s);
        lemma_run_one(q, level, Instr::Fused(x), s);
        if s.len() >= 2 {
            lemma_map_fork(q, level, h, peek(s, 0), peek(s, 1), 0, Seq::empty());
        }
    }
}

pub proof fn lemma_scan_op(
    q: Program,
    level: nat,
    f: nat,
    op: ScalarOp,
    a: Array,
    i: nat,
    outs: Seq<Array>,
)
    requires
        q.has(level, f),
        sole_op(q, f) == Some(op),
    ensures
        q.scan_from(level, f, a, i, outs) == scan_op_from(op, a, i, outs),
    decreases a.rows() - i,
{
    if i < a.rows() && outs.len() > 0 {
        lemma_sole_apply(q, level, f, op, a.row(i as int), outs.last());
        if let Ok(v) = pervade(op, outs.last(), a.row(i as int)) {
            assert(seq![v][0] == v);
            lemma_scan_op(q, level, f, op, a, i + 1, outs.push(v));
        }
    }
}

/// Scanning by a function that is one pervasive primitive has the effect
/// of the fused scan by its operation.
pub proof fn lemma_scan_effect(q: Program, level: nat, f: usize, op: ScalarOp)
    requires
        q.has(level, f as nat),
        sole_op(q, f as nat) == Some(op),
    ensures
        same_effect(
            q,
            level,
            seq![Instr::Modifier(Modifier::Scan(f))],
            seq![Instr::Fused(Fused::ScanOp(op))],
        ),
{
    assert forall|s: Seq<Array>| #[trigger]
        q.run_from(level, seq![Instr::Modifier(Modifier::Scan(f))], 0, s) == q.run_from(
            level,
            seq![Instr::Fused(Fused::ScanOp(op))],
            0,
            s,
        ) by {
        lemma_run_one(q, level, Instr::Modifier(Modifier::Scan(f)), s);
        lemma_run_one(q, level, Instr::Fused(Fused::ScanOp(op)), s);
        if s.len() >= 1 {
            let a = s.last();
            if a.rows() > 0 {
                lemma_scan_op(q, level, f as nat, op, a, 1, seq![a.row(0)]);
            }
        }
    }
}

pub proof fn lemma_map_op(
    q: Program,
    level: nat,
    f: nat,
    op: ScalarOp,
    a: Array,
    b: Array,
    i: nat,
    outs: Seq<Seq<Array>>,
)
    requires
        q.has(level, f),
        sole_op(q, f) == Some(op),
        q.functions[f as int].outputs == 1,
    ensures
        q.map_from(level, f, pair_items(a, b), i, outs) == op_map_from(
            op,
            pair_items(a, b),
            i,
            outs,
        ),
    decreases pair_items(a, b).len() - i,
{
    let items = pair_items(a, b);
    if i < items.len() {
        let item = items[i as int];
        assert(item.len() == 2);
        assert(item =~= seq![item[0], item[1]]);
        lemma_sole_apply(q, level, f, op, item[0], item[1]);
        if let Ok(v) = pervade(op, item[1], item[0]) {
            lemma_map_op(q, level, f, op, a, b, i + 1, outs.push(seq![v]));
        }
    }
}

/// Table by a function that is one pervasive primitive with one output has
/// the effect of the fused table by its operation.
pub proof fn lemma_table_effect(q: Program, level: nat, f: usize, op: ScalarOp)
    requires
        q.has(level, f as nat),
        sole_op(q, f as nat) == Some(op),
        q.functions[f as int].outputs == 1,
    ensures
        same_effect(
            q,
            level,
            seq![Instr::Modifier(Modifier::Table(f))],
            seq![Instr::Fused(Fused::TableOp(op))],
        ),
{
    assert forall|s: Seq<Array>| #[trigger]
        q.run_from(level, seq![Instr::Modifier(Modifier::Table(f))], 0, s) == q.run_from(
            level,
            seq![Instr::Fused(Fused::TableOp(op))],
            0,
            s,
        ) by {
        lemma_run_one(q, level, Instr::Modifier(Modifier::Table(f)), s);
        lemma_run_one(q, level, Instr::Fused(Fused::TableOp(op)), s);
        let n = s.len() as int;
        if n >= 2 {
            let a = peek(s, 0);
            let b = peek(s, 1);
            lemma_map_op(q, level, f as nat, op, a, b, 0, Seq::empty());
            if let Ok(outs) = op_map_from(op, pair_items(a, b), 0, Seq::empty()) {
                lemma_collect_one(outs, a.shape + b.shape);
                if let Ok(out) = collect(outs, a.shape + b.shape, 1, 0) {
                    assert(s.take(n - 2) + out =~= s.take(n - 2).push(out[0]));
                }
            }
        }
    }
}

/// What a function that is nothing but a join or a couple makes of a
/// stack of two values: the two made one.
pub proof fn lemma_pairing_apply(q: Program, level: nat, f: nat, couple: bool, below: Array, top: Array)
    requires
        q.has(level, f),
        pairing_of(q.functions[f as int].body) == Some(couple),
    ensures
        q.apply(level, f, seq![below, top], 1) == (match paired(couple, top, below) {
            Ok(v) => Ok::<Seq<Array>, Fault>(seq![v]),
            Err(e) => Err::<Seq<Array>, Fault>(e),
        }),
{
    let args = seq![below, top];
    let body = q.functions[f as int].body;
    let p = body[0]->Prim_0;
    reveal_with_fuel(Program::run_from, 2);
    assert(peek(args, 0) == top && peek(args, 1) == below);
    assert(q.step(f, body[0], args) == prim_step(p, args));
    assert(prim_step(p, args) == settle(args, 2, paired(couple, top, below)));
    match paired(couple, top, below) {
        Ok(v) => {
            let out = args.take(0).push(v);
            assert(out =~= seq![v]);
            assert(q.run_from(f, body, 1, out) == Ok::<Seq<Array>, Fault>(out));
            assert(q.run_from(f, body, 0, args) == Ok::<Seq<Array>, Fault>(out));
            assert(q.call(level, f, args) == Ok::<Seq<Array>, Fault>(out));
        },
        Err(e) => {
            assert(q.run_from(f, body, 0, args) == Err::<Seq<Array>, Fault>(e));
            assert(q.call(level, f, args) == Err::<Seq<Array>, Fault>(e));
        },
    }
}

pub proof fn lemma_map_pairs(
    q: Program,
    level: nat,
    f: nat,
    couple: bool,
    a: Array,
    b: Array,
    i: nat,
    outs: Seq<Seq<Array>>,
)
    requires
        q.has(level, f),
        pairing_of(q.functions[f as int].body) == Some(couple),
        q.functions[f as int].outputs == 1,
    ensures
        q.map_from(level, f, pair_items(a, b), i, outs) == pair_map_from(
            couple,
            pair_items(a, b),
            i,
            outs,
        ),
    decreases pair_items(a, b).len() - i,
{
    let items = pair_items(a, b);
    if i < items.len() {
        let item = items[i as int];
        assert(item.len() == 2);
        assert(item =~= seq![item[0], item[1]]);
        lemma_pairing_apply(q, level, f, couple, item[0], item[1]);
        if let Ok(v) = paired(couple, item[1], item[0]) {
            lemma_map_pairs(q, level, f, couple, a, b, i + 1, outs.push(seq![v]));
        }
    }
}

/// Table by a function that is nothing but a join or a couple has the
/// effect of the fused table of pairs.
pub proof fn lemma_table_pairs_effect(q: Program, level: nat, f: usize, couple: bool)
    requires
        q.has(level, f as nat),
        pairing_of(q.functions[f as int].body) == Some(couple),
        q.functions[f as int].outputs == 1,
    ensures
        same_effect(
            q,
            level,
            seq![Instr::Modifier(Modifier::Table(f))],
            seq![Instr::Fused(Fused::TablePairs { couple })],
        ),
{
    assert forall|s: Seq<Array>| #[trigger]
        q.run_from(level, seq![Instr::Modifier(Modifier::Table(f))], 0, s) == q.run_from(
            level,
            seq![Instr::Fused(Fused::TablePairs { couple })],
            0,
            s,
        ) by {
        lemma_run_one(q, level, Instr::Modifier(Modifier::Table(f)), s);
        lemma_run_one(q, level, Instr::Fused(Fused::TablePairs { couple }), s);
        let n = s.len() as int;
        if n >= 2 {
            let a = peek(s, 0);
            let b = peek(s, 1);
            lemma_map_pairs(q, level, f as nat, couple, a, b, 0, Seq::empty());
            if let Ok(outs) = pair_map_from(couple, pair_items(a, b), 0, Seq::empty()) {
                lemma_collect_one(outs, a.shape + b.shape);
                if let Ok(out) = collect(outs, a.shape + b.shape, 1, 0) {
                    assert(s.take(n - 2) + out =~= s.take(n - 2).push(out[0]));
                }
            }
        }
    }
}

/// Rows, each and table with the fork or bracket of their function taken
/// outward have the effect of the modifier as it stands.
pub proof fn lemma_forked_effect(q: Program, level: nat, m: Modifier)
    requires
        m is Rows || m is Each || m is Table,
    ensures
        same_effect(q, level, seq![Instr::Modifier(m)], seq![Instr::Fused(Fused::Forked(m))]),
{
    assert forall|s: Seq<Array>| #[trigger]
        q.run_from(level, seq![Instr::Modifier(m)], 0, s) == q.run_from(
            level,
            seq![Instr::Fused(Fused::Forked(m))],
            0,
            s,
        ) by {
        lemma_run_one(q, level, Instr::Modifier(m), s);
        lemma_run_one(q, level, Instr::Fused(Fused::Forked(m)), s);
    }
}

/// The fork of `f` and `g`, or their bracket where `bracket` is set.
pub open spec fn fork_or_bracket(bracket: bool, f: usize, g: usize) -> Modifier {
    if bracket {
        Modifier::Bracket(f, g)
    } else {
        Modifier::Fork(f, g)
    }
}

/// A function that is nothing but a fork or a bracket makes of an item
/// what `fork_item` says.
pub proof fn lemma_fork_item(
    q: Program,
    level: nat,
    h: nat,
    bracket: bool,
    f: usize,
    g: usize,
    item: Seq<Array>,
)
    requires
        q.has(level, h),
        q.functions[h as int].body == seq![Instr::Modifier(fork_or_bracket(bracket, f, g))],
        q.has(h, f as nat),
        q.has(h, g as nat),
    ensures
        q.apply(level, h, item, q.functions[h as int].outputs) == q.fork_item(
            h,
            bracket,
            f,
            g,
            item,
            q.functions[h as int].outputs,
        ),
{
    let body = q.functions[h as int].body;
    let m = fork_or_bracket(bracket, f, g);
    reveal_with_fuel(Program::run_from, 2);
    assert(body[0] == Instr::Modifier(m));
    assert(q.step(h, body[0], item) == q.modify(h, m, item));
    if let Ok(t) = q.step(h, body[0], item) {
        assert(q.run_from(h, body, 1, t) == Ok::<Seq<Array>, Fault>(t));
    }
}

/// Gathering a single output gives a single array.
pub proof fn lemma_collect_one(outs: Seq<Seq<Array>>, frame: Seq<usize>)
    ensures
        collect(outs, frame, 1, 0) == (match crate::arrayops::stack(column(outs, 0)) {
            Ok(a) => Ok::<Seq<Array>, Fault>(seq![crate::semantics::reframe(a, frame)]),
            Err(e) => Err::<Seq<Array>, Fault>(e),
        }),
{
    reveal_with_fuel(collect, 2);
    if let Ok(a) = crate::arrayops::stack(column(outs, 0)) {
        assert(seq![crate::semantics::reframe(a, frame)] + Seq::<Array>::empty() =~= seq![
            crate::semantics::reframe(a, frame),
        ]);
    }
}

pub proof fn lemma_map_reduce(
    q: Program,
    level: nat,
    g: usize,
    a: Array,
    i: nat,
    outs: Seq<Seq<Array>>,
)
    requires
        reducer_of(q.functions, level, g) is Some,
    ensures
        q.map_from(level, g as nat, crate::semantics::row_items(a), i, outs)
            == crate::semantics::rows_reduce_from(
            reducer_of(q.functions, level, g)->0,
            a,
            i,
            outs,
        ),
    decreases a.rows() - i,
{
    let op = reducer_of(q.functions, level, g)->0;
    let items = crate::semantics::row_items(a);
    if i < a.rows() {
        let item = items[i as int];
        let body = q.functions[g as int].body;
        assert(body =~= seq![body[0]]);
        lemma_run_one(q, g as nat, body[0], item);
        assert(item.last() == a.row(i as int));
        assert(item.take(item.len() - 1) =~= Seq::<Array>::empty());
        assert(q.step(g as nat, body[0], item) == q.fused(g as nat, Fused::ReduceOp(op), item));
        assert(q.fused(g as nat, Fused::ReduceOp(op), item) == settle(
            item,
            1,
            reduce_op(op, a.row(i as int)),
        ));
        assert(q.call(level, g as nat, item) == q.run_from(g as nat, body, 0, item));
        match reduce_op(op, a.row(i as int)) {
            Ok(v) => {
                assert(Seq::<Array>::empty().push(v) =~= seq![v]);
                assert(q.call(level, g as nat, item) == Ok::<Seq<Array>, Fault>(seq![v]));
                assert(q.apply(level, g as nat, item, 1) == Ok::<Seq<Array>, Fault>(seq![v]));
                lemma_map_reduce(q, level, g, a, i + 1, outs.push(seq![v]));
            },
            Err(e) => {
                assert(q.call(level, g as nat, item) == Err::<Seq<Array>, Fault>(e));
                assert(q.apply(level, g as nat, item, 1) == Err::<Seq<Array>, Fault>(e));
            },
        }
    }
}

/// Rows of a function that is nothing but a fused reduce has the effect of
/// the fused reduction of every row.
pub proof fn lemma_rows_reduce_effect(q: Program, level: nat, g: usize)
    requires
        reducer_of(q.functions, level, g) is Some,
    ensures
        same_effect(
            q,
            level,
            seq![Instr::Modifier(Modifier::Rows(g))],
            seq![Instr::Fused(Fused::RowsReduce(reducer_of(q.functions, level, g)->0))],
        ),
{
    let op = reducer_of(q.functions, level, g)->0;
    let x = Fused::RowsReduce(op);
    assert forall|s: Seq<Array>| #[trigger]
        q.run_from(level, seq![Instr::Modifier(Modifier::Rows(g))], 0, s) == q.run_from(
            level,
            seq![Instr::Fused(x)],
            0,
            s,
        ) by {
        lemma_run_one(q, level, Instr::Modifier(Modifier::Rows(g)), s);
        lemma_run_one(q, level, Instr::Fused(x), s);
        if s.len() >= 1 {
            let a = s.last();
            let frame = seq![a.rows() as usize];
            lemma_map_reduce(q, level, g, a, 0, Seq::empty());
            if let Ok(outs) = crate::semantics::rows_reduce_from(op, a, 0, Seq::empty()) {
                lemma_collect_one(outs, frame);
                if let Ok(out) = collect(outs, frame, 1, 0) {
                    assert(s.drop_last() + out =~= s.take(s.len() - 1).push(out[0]));
                }
            }
        }
    }
}

pub proof fn lemma_map_transpose(
    q: Program,
    level: nat,
    g: usize,
    a: Array,
    i: nat,
    outs: Seq<Seq<Array>>,
)
    requires
        transposer(q.functions, level, g),
    ensures
        q.map_from(level, g as nat, crate::semantics::row_items(a), i, outs) == Ok::<
            Seq<Seq<Array>>,
            Fault,
        >(crate::transpose::rows_transpose_from(a, i, outs)),
    decreases a.rows() - i,
{
    let items = crate::semantics::row_items(a);
    if i < a.rows() {
        let item = items[i as int];
        let body = q.functions[g as int].body;
        let v = crate::transpose::transpose(a.row(i as int));
        lemma_run_one(q, g as nat, body[0], item);
        assert(item.last() == a.row(i as int));
        assert(peek(item, 0) == a.row(i as int));
        assert(item.take(item.len() - 1) =~= Seq::<Array>::empty());
        assert(q.step(g as nat, body[0], item) == prim_step(Primitive::Transpose, item));
        assert(prim_step(Primitive::Transpose, item) == settle(item, 1, Ok(v)));
        assert(Seq::<Array>::empty().push(v) =~= seq![v]);
        assert(q.call(level, g as nat, item) == q.run_from(g as nat, body, 0, item));
        assert(q.call(level, g as nat, item) == Ok::<Seq<Array>, Fault>(seq![v]));
        assert(q.apply(level, g as nat, item, 1) == Ok::<Seq<Array>, Fault>(seq![v]));
        lemma_map_transpose(q, level, g, a, i + 1, outs.push(seq![v]));
    }
}

/// Rows of a function that is nothing but a transpose has the effect of
/// the fused transposition of every row.
pub proof fn lemma_rows_transpose_effect(q: Program, level: nat, g: usize)
    requires
        transposer(q.functions, level, g),
    ensures
        same_effect(
            q,
            level,
            seq![Instr::Modifier(Modifier::Rows(g))],
            seq![Instr::Fused(Fused::RowsTranspose)],
        ),
{
    let x = Fused::RowsTranspose;
    assert forall|s: Seq<Array>| #[trigger]
        q.run_from(level, seq![Instr::Modifier(Modifier::Rows(g))], 0, s) == q.run_from(
            level,
            seq![Instr::Fused(x)],
            0,
            s,
        ) by {
        lemma_run_one(q, level, Instr::Modifier(Modifier::Rows(g)), s);
        lemma_run_one(q, level, Instr::Fused(x), s);
        if s.len() >= 1 {
            let a = s.last();
            let frame = seq![a.rows() as usize];
            lemma_map_transpose(q, level, g, a, 0, Seq::empty());
            let outs = crate::transpose::rows_transpose_from(a, 0, Seq::empty());
            lemma_collect_one(outs, frame);
            if let Ok(out) = collect(outs, frame, 1, 0) {
                assert(s.drop_last() + out =~= s.take(s.len() - 1).push(out[0]));
            }
        }
    }
}

/// Mapping a function that pushes a constant in place of its argument
/// over items of one value each gathers the constant once per item.
pub proof fn lemma_map_constant(
    q: Program,
    level: nat,
    g: usize,
    items: Seq<Seq<Array>>,
    i: nat,
    outs: Seq<Seq<Array>>,
)
    requires
        gap_constant(q.functions, level, g) is Some,
        forall|j: int| 0 <= j < items.len() ==> (#[trigger] items[j]).len() == 1,
        i <= items.len(),
    ensures
        ({
            let k = gap_constant(q.functions, level, g)->0;
            q.map_from(level, g as nat, items, i, outs) == (if i == items.len() {
                Ok::<Seq<Seq<Array>>, Fault>(outs)
            } else if k < q.constants.len() {
                Ok::<Seq<Seq<Array>>, Fault>(
                    outs + Seq::new(
                        (items.len() - i) as nat,
                        |j: int| seq![q.constants[k as int]],
                    ),
                )
            } else {
                Err::<Seq<Seq<Array>>, Fault>(Fault::StackUnderflow)
            })
        }),
    decreases items.len() - i,
{
    let k = gap_constant(q.functions, level, g)->0;
    if i < items.len() {
        let item = items[i as int];
        let body = q.functions[g as int].body;
        let f = body[0]->Modifier_0->Gap_0;
        let inner = q.functions[f as int].body;
        reveal_with_fuel(Program::run_from, 2);
        assert(item.len() == 1);
        assert(item.drop_last() =~= Seq::<Array>::empty());
        let none = Seq::<Array>::empty();
        assert(q.step(f as nat, inner[0], none) == (if k < q.constants.len() {
            Ok::<Seq<Array>, Fault>(none.push(q.constants[k as int]))
        } else {
            Err::<Seq<Array>, Fault>(Fault::StackUnderflow)
        }));
        if k < q.constants.len() {
            let out = none.push(q.constants[k as int]);
            assert(out =~= seq![q.constants[k as int]]);
            assert(q.run_from(f as nat, inner, 1, out) == Ok::<Seq<Array>, Fault>(out));
            assert(q.call(g as nat, f as nat, none) == Ok::<Seq<Array>, Fault>(out));
            assert(q.modify(g as nat, Modifier::Gap(f), item) == Ok::<Seq<Array>, Fault>(out));
            assert(q.run_from(g as nat, body, 1, out) == Ok::<Seq<Array>, Fault>(out));
            assert(q.call(level, g as nat, item) == Ok::<Seq<Array>, Fault>(out));
            assert(q.apply(level, g as nat, item, 1) == Ok::<Seq<Array>, Fault>(out));
            lemma_map_constant(q, level, g, items, i + 1, outs.push(out));
            assert(outs.push(out) + Seq::new(
                (items.len() - (i + 1)) as nat,
                |j: int| seq![q.constants[k as int]],
            ) =~= outs + Seq::new(
                (items.len() - i) as nat,
                |j: int| seq![q.constants[k as int]],
            ));
        } else {
            assert(q.call(g as nat, f as nat, none) == Err::<Seq<Array>, Fault>(
                Fault::StackUnderflow,
            ));
            assert(q.modify(g as nat, Modifier::Gap(f), item) == Err::<Seq<Array>, Fault>(
                Fault::StackUnderflow,
            ));
            assert(q.call(level, g as nat, item) == Err::<Seq<Array>, Fault>(
                Fault::StackUnderflow,
            ));
        }
    }
}

/// Rows or each of a function that pushes a constant in place of its
/// argument has the effect of repeating the constant.
pub proof fn lemma_repeat_effect(q: Program, level: nat, g: usize, each: bool)
    requires
        gap_constant(q.functions, level, g) is Some,
    ensures
        same_effect(
            q,
            level,
            seq![
                Instr::Modifier(
                    if each {
                        Modifier::Each(g)
                    } else {
                        Modifier::Rows(g)
                    },
                ),
            ],
            seq![
                Instr::Fused(
                    Fused::Repeat { constant: gap_constant(q.functions, level, g)->0, each },
                ),
            ],
        ),
{
    let k = gap_constant(q.functions, level, g)->0;
    let m = if each {
        Modifier::Each(g)
    } else {
        Modifier::Rows(g)
    };
    let x = Fused::Repeat { constant: k, each };
    assert forall|s: Seq<Array>| #[trigger]
        q.run_from(level, seq![Instr::Modifier(m)], 0, s) == q.run_from(
            level,
            seq![Instr::Fused(x)],
            0,
            s,
        ) by {
        lemma_run_one(q, level, Instr::Modifier(m), s);
        lemma_run_one(q, level, Instr::Fused(x), s);
        if s.len() >= 1 {
            let a = s.last();
            let items = if each {
                crate::semantics::cell_items(a)
            } else {
                crate::semantics::row_items(a)
            };
            let frame = if each {
                a.shape
            } else {
                seq![a.rows() as usize]
            };
            let n = items.len();
            lemma_map_constant(q, level, g, items, 0, Seq::empty());
            if n == 0 || k < q.constants.len() {
                let c = if n == 0 {
                    a
                } else {
                    q.constants[k as int]
                };
                let outs = Seq::new(n, |j: int| seq![c]);
                let got = q.map_from(level, g as nat, items, 0, Seq::empty())->Ok_0;
                assert(got =~= outs) by {
                    if n > 0 {
                        assert(Seq::<Seq<Array>>::empty() + Seq::new(
                            (n - 0) as nat,
                            |j: int| seq![q.constants[k as int]],
                        ) =~= outs);
                    }
                }
                lemma_collect_one(outs, frame);
                assert(column(outs, 0) =~= Seq::new(n, |j: int| c));
                if let Ok(out) = collect(outs, frame, 1, 0) {
                    assert(s.drop_last() + out =~= s.take(s.len() - 1).push(out[0]));
                }
            }
        }
    }
}

/// A dip around a function whose body is a single dip around `f`.
proof fn lemma_dip_of_dip(q: Program, level: nat, g: usize, f: usize, s: Seq<Array>)
    requires
        q.has(level, g as nat),
        q.functions[g as int].body == seq![Instr::Modifier(Modifier::Dip(f))],
        f < g,
    ensures
        q.modify(level, Modifier::Dip(g), s) == q.fused(
            level,
            Fused::Dips { depth: 2, function: f },
            s,
        ),
{
    let n = s.len() as int;
    let body = q.functions[g as int].body;
    if n >= 1 {
        let rest = s.drop_last();
        lemma_run_one(q, g as nat, body[0], rest);
        assert(q.call(level, g as nat, rest) == q.modify(g as nat, Modifier::Dip(f), rest));
        if n >= 2 {
            assert(rest.drop_last() =~= s.take(n - 2));
            assert(q.call(g as nat, f as nat, s.take(n - 2)) == q.call(
                level,
                f as nat,
                s.take(n - 2),
            ));
            if let Ok(t) = q.call(level, f as nat, s.take(n - 2)) {
                assert(t.push(rest.last()).push(s.last()) =~= t + s.skip(n - 2));
            }
        }
    }
}

/// A dip around a function whose body is a single nest of dips around `f`.
proof fn lemma_dip_of_dips(q: Program, level: nat, g: usize, depth: usize, f: usize, s: Seq<Array>)
    requires
        q.has(level, g as nat),
        q.functions[g as int].body == seq![Instr::Fused(Fused::Dips { depth, function: f })],
        f < g,
        depth < usize::MAX,
    ensures
        q.modify(level, Modifier::Dip(g), s) == q.fused(
            level,
            Fused::Dips { depth: (depth + 1) as usize, function: f },
            s,
        ),
{
    let n = s.len() as int;
    let body = q.functions[g as int].body;
    if n >= 1 {
        let rest = s.drop_last();
        let m = rest.len() as int;
        lemma_run_one(q, g as nat, body[0], rest);
        assert(q.call(level, g as nat, rest) == q.fused(
            g as nat,
            Fused::Dips { depth, function: f },
            rest,
        ));
        if m >= depth {
            assert(rest.take(m - depth) =~= s.take(n - (depth + 1)));
            assert(q.call(g as nat, f as nat, s.take(n - (depth + 1))) == q.call(
                level,
                f as nat,
                s.take(n - (depth + 1)),
            ));
            if let Ok(t) = q.call(level, f as nat, s.take(n - (depth + 1))) {
                assert((t + rest.skip(m - depth)).push(s.last()) =~= t + s.skip(n - (depth + 1)));
            }
        }
    }
}

/// A dip around a function that is itself a dip, or nested dips, around an
/// earlier function has the effect of the deeper nest of dips.
pub proof fn lemma_dips_effect(q: Program, level: nat, g: usize, x: Fused)
    requires
        dips_of(q.functions, level, g) == Some(x),
    ensures
        same_effect(q, level, seq![Instr::Modifier(Modifier::Dip(g))], seq![Instr::Fused(x)]),
{
    let body = q.functions[g as int].body;
    assert(body =~= seq![body[0]]);
    assert forall|s: Seq<Array>| #[trigger]
        q.run_from(level, seq![Instr::Modifier(Modifier::Dip(g))], 0, s) == q.run_from(
            level,
            seq![Instr::Fused(x)],
            0,
            s,
        ) by {
        lemma_run_one(q, level, Instr::Modifier(Modifier::Dip(g)), s);
        lemma_run_one(q, level, Instr::Fused(x), s);
        match body[0] {
            Instr::Modifier(Modifier::Dip(f)) => {
                lemma_dip_of_dip(q, level, g, f, s);
            },
            Instr::Fused(Fused::Dips { depth, function }) => {
                lemma_dip_of_dips(q, level, g, depth, function, s);
            },
            _ => {},
        }
    }
}

/// A table followed by a reduce, both by functions that are one pervasive
/// primitive, has the effect of the fused reduction of the table.
pub proof fn lemma_reduce_table_effect(q: Program, level: nat, body: Seq<Instr>, i: int)
    requires
        reduce_of_table(q.functions, level, body, i) is Some,
    ensures
        same_effect(
            q,
            level,
            body.subrange(i, i + 2),
            seq![Instr::Fused(reduce_of_table(q.functions, level, body, i)->0)],
        ),
{
    let x = reduce_of_table(q.functions, level, body, i)->0;
    let g = body[i]->Modifier_0->Table_0;
    let f = body[i + 1]->Modifier_0->Reduce_0;
    let reducer = x->ReduceTable_0;
    let tabler = x->ReduceTable_1;
    let pair = body.subrange(i, i + 2);
    assert(pair =~= seq![body[i]] + seq![body[i + 1]]);
    lemma_table_effect(q, level, g, tabler);
    lemma_reduce_effect(q, level, f, reducer);
    lemma_effect_append(
        q,
        level,
        seq![body[i]],
        seq![Instr::Fused(Fused::TableOp(tabler))],
        seq![body[i + 1]],
        seq![Instr::Fused(Fused::ReduceOp(reducer))],
    );
    let two = seq![Instr::Fused(Fused::TableOp(tabler))] + seq![
        Instr::Fused(Fused::ReduceOp(reducer)),
    ];
    assert forall|s: Seq<Array>| #[trigger]
        q.run_from(level, pair, 0, s) == q.run_from(level, seq![Instr::Fused(x)], 0, s) by {
        assert(q.run_from(level, pair, 0, s) == q.run_from(level, two, 0, s));
        lemma_run_concat(
            q,
            level,
            seq![Instr::Fused(Fused::TableOp(tabler))],
            seq![Instr::Fused(Fused::ReduceOp(reducer))],
            0,
            s,
        );
        lemma_run_one(q, level, Instr::Fused(Fused::TableOp(tabler)), s);
        lemma_run_one(q, level, Instr::Fused(x), s);
        let n = s.len() as int;
        if n >= 2 {
            if let Ok(t) = crate::semantics::table_op(tabler, peek(s, 0), peek(s, 1)) {
                let mid = s.take(n - 2).push(t);
                lemma_run_one(q, level, Instr::Fused(Fused::ReduceOp(reducer)), mid);
                assert(mid.take(mid.len() - 1) =~= s.take(n - 2));
            }
        }
    }
}

/// Windows followed by rows of a function that is nothing but a fused
/// reduce has the effect of the fused reduction of every window.
pub proof fn lemma_windows_reduce_effect(q: Program, level: nat, body: Seq<Instr>, i: int)
    requires
        reduce_of_windows(q.functions, level, body, i) is Some,
    ensures
        same_effect(
            q,
            level,
            body.subrange(i, i + 2),
            seq![Instr::Fused(Fused::WindowsReduce(reduce_of_windows(q.functions, level, body, i)->0))],
        ),
{
    let op = reduce_of_windows(q.functions, level, body, i)->0;
    let x = Fused::WindowsReduce(op);
    let g = body[i + 1]->Modifier_0->Rows_0;
    let pair = body.subrange(i, i + 2);
    let first = seq![Instr::Prim(Primitive::Windows)];
    let mid = seq![Instr::Fused(Fused::RowsReduce(op))];
    assert(pair =~= first + seq![body[i + 1]]);
    lemma_rows_reduce_effect(q, level, g);
    assert(same_effect(q, level, first, first));
    lemma_effect_append(q, level, first, first, seq![body[i + 1]], mid);
    assert forall|s: Seq<Array>| #[trigger]
        q.run_from(level, pair, 0, s) == q.run_from(level, seq![Instr::Fused(x)], 0, s) by {
        assert(q.run_from(level, pair, 0, s) == q.run_from(level, first + mid, 0, s));
        lemma_run_concat(q, level, first, mid, 0, s);
        lemma_run_one(q, level, Instr::Prim(Primitive::Windows), s);
        lemma_run_one(q, level, Instr::Fused(x), s);
        let n = s.len() as int;
        if n >= 2 {
            if let Ok(w) = crate::windows::windows(peek(s, 0), peek(s, 1)) {
                let t = s.take(n - 2).push(w);
                lemma_run_one(q, level, Instr::Fused(Fused::RowsReduce(op)), t);
                assert(t.take(t.len() - 1) =~= s.take(n - 2));
            }
        }
    }
}

/// The idiom that a fused instruction stands for, read off the body.
proof fn lemma_idiom_at(body: Seq<Instr>, i: int, x: Fused)
    requires
        is_idiom(x),
        0 <= i,
        i + idiom(x).len() <= body.len(),
        forall|j: int| 0 <= j < idiom(x).len() ==> prim_at(body, i + j) == Some(idiom(x)[j]),
    ensures
        body.subrange(i, i + idiom(x).len()) == instrs_of(idiom(x)),
{
    assert(body.subrange(i, i + idiom(x).len()) =~= instrs_of(idiom(x)));
}

/// Where a rewrite applies, the instructions it replaces have the effect
/// of the fused instruction.
pub proof fn lemma_fuse_at(q: Program, level: nat, body: Seq<Instr>, i: int)
    requires
        fuse_at(q.functions, level, body, i) is Some,
    ensures
        ({
            let (x, k) = fuse_at(q.functions, level, body, i)->0;
            &&& 1 <= k
            &&& 0 <= i
            &&& i + k <= body.len()
            &&& same_effect(q, level, body.subrange(i, i + k), seq![Instr::Fused(x)])
        }),
{
    let (x, k) = fuse_at(q.functions, level, body, i)->0;
    if x is ReduceTable {
        lemma_reduce_table_effect(q, level, body, i);
    } else if x is WindowsReduce {
        lemma_windows_reduce_effect(q, level, body, i);
    } else if x is Transposes {
        lemma_transposes_at(body, i);
        assert forall|j: int| 0 <= j < idiom(x).len() implies prim_at(body, i + j) == Some(
            idiom(x)[j],
        ) by {}
        lemma_idiom_at(body, i, x);
        lemma_fused_idiom(q, level, x);
    } else if is_idiom(x) {
        assert forall|j: int| 0 <= j < idiom(x).len() implies prim_at(body, i + j) == Some(
            idiom(x)[j],
        ) by {
            let a = prim_at(body, i);
            let b = prim_at(body, i + 1);
            let c = prim_at(body, i + 2);
            assert(graded(a) == Some(false) ==> a == Some(Primitive::Rise));
            assert(graded(a) == Some(true) ==> a == Some(Primitive::Fall));
            assert(graded(b) == Some(false) ==> b == Some(Primitive::Rise));
            assert(graded(b) == Some(true) ==> b == Some(Primitive::Fall));
        }
        lemma_idiom_at(body, i, x);
        lemma_fused_idiom(q, level, x);
    } else {
        assert(body.subrange(i, i + 1) =~= seq![body[i]]);
        match body[i] {
            Instr::Modifier(Modifier::Dip(g)) => {
                lemma_dips_effect(q, level, g, x);
            },
            Instr::Modifier(Modifier::Reduce(f)) => {
                lemma_reduce_effect(q, level, f, x->ReduceOp_0);
            },
            Instr::Modifier(Modifier::Scan(f)) => {
                lemma_scan_effect(q, level, f, x->ScanOp_0);
            },
            Instr::Modifier(Modifier::Rows(g)) => {
                if x is Forked {
                    lemma_forked_effect(q, level, Modifier::Rows(g));
                } else if x is Repeat {
                    lemma_repeat_effect(q, level, g, false);
                } else if x is RowsReduce {
                    lemma_rows_reduce_effect(q, level, g);
                } else {
                    lemma_rows_transpose_effect(q, level, g);
                }
            },
            Instr::Modifier(Modifier::Each(g)) => {
                if x is Forked {
                    lemma_forked_effect(q, level, Modifier::Each(g));
                } else {
                    lemma_repeat_effect(q, level, g, true);
                }
            },
            Instr::Modifier(Modifier::Table(f)) => {
                if x is Forked {
                    lemma_forked_effect(q, level, Modifier::Table(f));
                } else if x is TablePairs {
                    lemma_table_pairs_effect(q, level, f, x->TablePairs_couple);
                } else if x is TableOp {
                    lemma_table_effect(q, level, f, x->TableOp_0);
                } else {
                    lemma_table_fork_effect(q, level, f);
                }
            },
            _ => {},
        }
    }
}

/// The fused instructions have the effect of the instructions they were
/// made from.
pub proof fn lemma_fuse(q: Program, level: nat, body: Seq<Instr>, i: nat)
    requires
        i <= body.len(),
    ensures
        same_effect(q, level, body.skip(i as int), fuse(q.functions, level, body, i)),
    decreases body.len() - i,
{
    if i >= body.len() {
        assert(body.skip(i as int) =~= Seq::<Instr>::empty());
    } else {
        match fuse_at(q.functions, level, body, i as int) {
            Some((x, k)) => {
                lemma_fuse_at(q, level, body, i as int);
                lemma_fuse(q, level, body, i + k);
                lemma_effect_append(
                    q,
                    level,
                    body.subrange(i as int, (i + k) as int),
                    seq![Instr::Fused(x)],
                    body.skip((i + k) as int),
                    fuse(q.functions, level, body, i + k),
                );
                assert(body.subrange(i as int, (i + k) as int) + body.skip((i + k) as int) =~= body.skip(i as int));
            },
            None => {
                lemma_fuse(q, level, body, i + 1);
                lemma_effect_append(
                    q,
                    level,
                    seq![body[i as int]],
                    seq![body[i as int]],
                    body.skip((i + 1) as int),
                    fuse(q.functions, level, body, i + 1),
                );
                assert(seq![body[i as int]] + body.skip((i + 1) as int) =~= body.skip(i as int));
            },
        }
    }
}

/// Fusing leaves a body that is one pervasive primitive as it is, and
/// makes no other body into one.
pub proof fn lemma_fuse_sole(fs: Seq<FunctionModel>, level: nat, body: Seq<Instr>)
    ensures
        sole_of(fuse(fs, level, body, 0)) == sole_of(body),
{
    reveal_with_fuel(fuse, 3);
    if body.len() == 0 {
    } else if body.len() == 1 {
        assert(prim_at(body, 1) is None);
    } else {
        lemma_fuse_longer(fs, level, body, 0);
        let out = fuse(fs, level, body, 0);
        if out.len() == 1 {
            assert(fuse_at(fs, level, body, 0) is Some) by {
                if fuse_at(fs, level, body, 0) is None {
                    lemma_fuse_longer(fs, level, body, 1);
                }
            }
        }
    }
}

/// Fusing what is left of a body leaves at least one instruction.
proof fn lemma_fuse_longer(fs: Seq<FunctionModel>, level: nat, body: Seq<Instr>, i: nat)
    requires
        i < body.len(),
    ensures
        fuse(fs, level, body, i).len() >= 1,
        fuse_at(fs, level, body, i as int) is Some ==> fuse(fs, level, body, i)[0] is Fused,
        fuse_at(fs, level, body, i as int) matches Some((x, k)) ==> 1 <= k && i + k <= body.len(),
{
    if let Some((x, k)) = fuse_at(fs, level, body, i as int) {
        lemma_transposes_at(body, i as int);
    }
}

/// The program that holds the first `n` functions of `p` after the pass.
pub open spec fn pass(p: Program, n: nat) -> Program {
    Program { functions: optimized(p.functions, n), constants: p.constants }
}

pub proof fn lemma_optimized_len(fs: Seq<FunctionModel>, n: nat)
    requires
        n <= fs.len(),
    ensures
        optimized(fs, n).len() == n,
        forall|m: nat, f: int|
            0 <= f < m <= n ==> #[trigger] optimized(fs, m)[f] == optimized(fs, n)[f],
        forall|f: int|
            0 <= f < n ==> {
                &&& (#[trigger] optimized(fs, n)[f]).inputs == fs[f].inputs
                &&& optimized(fs, n)[f].outputs == fs[f].outputs
                &&& sole_of(optimized(fs, n)[f].body) == sole_of(fs[f].body)
            },
    decreases n,
{
    if n > 0 {
        lemma_optimized_len(fs, (n - 1) as nat);
        let done = optimized(fs, (n - 1) as nat);
        lemma_fuse_sole(done, (n - 1) as nat, fs[n - 1].body);
        assert forall|m: nat, f: int| 0 <= f < m <= n implies #[trigger] optimized(fs, m)[f]
            == optimized(fs, n)[f] by {
            if m < n {
                assert(optimized(fs, m)[f] == optimized(fs, (n - 1) as nat)[f]);
            }
        }
    }
}

/// After the pass, the first `n` functions do what they did before.
pub proof fn lemma_pass(p: Program, n: nat)
    requires
        n <= p.functions.len(),
    ensures
        related(p, pass(p, n), n),
    decreases n,
{
    lemma_optimized_len(p.functions, n);
    if n > 0 {
        let m = (n - 1) as nat;
        let q0 = pass(p, m);
        let q = pass(p, n);
        lemma_pass(p, m);
        lemma_optimized_len(p.functions, m);
        assert forall|f: int| 0 <= f < q0.functions.len() implies q0.functions[f]
            == q.functions[f] by {
            assert(optimized(p.functions, m)[f] == optimized(p.functions, n)[f]);
        }
        lemma_prefix(q0, q, m);
        let old_body = p.functions[m as int].body;
        let new_body = q.functions[m as int].body;
        assert(new_body == fuse(q0.functions, m, old_body, 0));
        assert forall|f: int, s: Seq<Array>| 0 <= f < n implies #[trigger] p.run_from(
            f as nat,
            p.functions[f].body,
            0,
            s,
        ) == q.run_from(f as nat, q.functions[f].body, 0, s) by {
            if f < m {
                assert(p.run_from(f as nat, p.functions[f].body, 0, s) == q0.run_from(
                    f as nat,
                    q0.functions[f].body,
                    0,
                    s,
                ));
                lemma_prefix(q0, q, f as nat);
                lemma_run(q0, q, f as nat, q0.functions[f].body, 0, s);
            } else {
                lemma_run(p, q0, m, old_body, 0, s);
                lemma_fuse(q0, m, old_body, 0);
                assert(old_body.skip(0) =~= old_body);
                assert(q0.run_from(m, old_body, 0, s) == q0.run_from(m, new_body, 0, s));
                lemma_run(q0, q, m, new_body, 0, s);
            }
        }
        assert forall|f: int| 0 <= f < n implies {
            &&& (#[trigger] p.functions[f]).inputs == q.functions[f].inputs
            &&& p.functions[f].outputs == q.functions[f].outputs
            &&& sole_op(p, f as nat) == sole_op(q, f as nat)
        } by {
            assert(optimized(p.functions, n)[f].inputs == p.functions[f].inputs);
        }
    }
}

/// Fusion is transparent: the program after the pass, run on its fused
/// top-level instructions, turns every stack into the outcome that the
/// program before the pass turns it into with the instructions as they
/// were.
pub proof fn lemma_transparent(p: Program, main: Seq<Instr>, s: Seq<Array>)
    ensures
        ({
            let n = p.functions.len();
            let q = pass(p, n);
            q.run_from(n, fuse(q.functions, n, main, 0), 0, s) == p.run_from(n, main, 0, s)
        }),
{
    let n = p.functions.len();
    let q = pass(p, n);
    lemma_pass(p, n);
    lemma_optimized_len(p.functions, n);
    lemma_run(p, q, n, main, 0, s);
    lemma_fuse(q, n, main, 0);
    assert(main.skip(0) =~= main);
    assert(q.run_from(n, main, 0, s) == q.run_from(n, fuse(q.functions, n, main, 0), 0, s));
}

fn prim_of(body: &Vec<Instr>, i: usize) -> (r: Option<Primitive>)
    ensures
        r == prim_at(body@, i as int),
{
    if i < body.len() {
        match body[i] {
            Instr::Prim(p) => Some(p),
            _ => None,
        }
    } else {
        None
    }
}

fn grading(p: Option<Primitive>) -> (r: Option<bool>)
    ensures
        r == graded(p),
{
    match p {
        Some(Primitive::Rise) => Some(false),
        Some(Primitive::Fall) => Some(true),
        _ => None,
    }
}

fn is_prim(p: Option<Primitive>, want: Primitive) -> (r: bool)
    ensures
        r == (p == Some(want)),
{
    match p {
        Some(q) => q == want,
        None => false,
    }
}

/// The pervasive operation that a body consists of, if it is one primitive
/// and nothing more.
pub fn sole_of_body(body: &Vec<Instr>) -> (r: Option<ScalarOp>)
    ensures
        r == sole_of(body@),
{
    if body.len() == 1 {
        match body[0] {
            Instr::Prim(q) => q.pervasive_op(),
            _ => None,
        }
    } else {
        None
    }
}

fn dips_at(table: &Vec<Function>, level: usize, g: usize) -> (r: Option<Fused>)
    ensures
        r == dips_of(function_models(table@), level as nat, g),
{
    if g < level && g < table.len() && table[g].body.len() == 1 {
        match table[g].body[0] {
            Instr::Modifier(Modifier::Dip(f)) => if f < g {
                Some(Fused::Dips { depth: 2, function: f })
            } else {
                None
            },
            Instr::Fused(Fused::Dips { depth, function }) => if function < g && depth
                < usize::MAX {
                Some(Fused::Dips { depth: depth + 1, function })
            } else {
                None
            },
            _ => None,
        }
    } else {
        None
    }
}

fn gap_constant_of(table: &Vec<Function>, level: usize, g: usize) -> (r: Option<usize>)
    ensures
        r == gap_constant(function_models(table@), level as nat, g),
{
    if g < level && g < table.len() && table[g].body.len() == 1 && table[g].outputs == 1 {
        match table[g].body[0] {
            Instr::Modifier(Modifier::Gap(f)) => if f < g && table[f].body.len() == 1 {
                match table[f].body[0] {
                    Instr::Push(k) => Some(k),
                    _ => None,
                }
            } else {
                None
            },
            _ => None,
        }
    } else {
        None
    }
}

fn fork_ops_of(table: &Vec<Function>, h: usize) -> (r: Option<(ScalarOp, ScalarOp)>)
    ensures
        r == fork_ops(function_models(table@), h),
{
    if h < table.len() && table[h].body.len() == 1 {
        match table[h].body[0] {
            Instr::Modifier(Modifier::Fork(f, g)) => if f < h && g < h && table[f].inputs == 2
                && table[g].inputs == 2 {
                match (sole_of_body(&table[f].body), sole_of_body(&table[g].body)) {
                    (Some(first), Some(second)) => Some((first, second)),
                    _ => None,
                }
            } else {
                None
            },
            _ => None,
        }
    } else {
        None
    }
}

fn forks_at(table: &Vec<Function>, level: usize, h: usize) -> (r: bool)
    ensures
        r == forks(function_models(table@), level as nat, h),
{
    if h < level && h < table.len() && table[h].body.len() == 1 {
        match table[h].body[0] {
            Instr::Modifier(Modifier::Fork(_, _)) => true,
            Instr::Modifier(Modifier::Bracket(_, _)) => true,
            _ => false,
        }
    } else {
        false
    }
}

fn pairing_of_body(body: &Vec<Instr>) -> (r: Option<bool>)
    ensures
        r == pairing_of(body@),
{
    if body.len() == 1 {
        match body[0] {
            Instr::Prim(Primitive::Join) => Some(false),
            Instr::Prim(Primitive::Couple) => Some(true),
            _ => None,
        }
    } else {
        None
    }
}

fn table_fusion_of(table: &Vec<Function>, level: usize, h: usize) -> (r: Option<Fused>)
    ensures
        r == table_fusion(function_models(table@), level as nat, h),
{
    if h < level && h < table.len() {
        if table[h].outputs == 1 {
            match sole_of_body(&table[h].body) {
                Some(op) => {
                    return Some(Fused::TableOp(op));
                },
                None => {},
            }
            match pairing_of_body(&table[h].body) {
                Some(couple) => {
                    return Some(Fused::TablePairs { couple });
                },
                None => {},
            }
        }
        if table[h].outputs == 2 {
            match fork_ops_of(table, h) {
                Some((first, second)) => Some(Fused::TableFork(first, second)),
                None => None,
            }
        } else {
            None
        }
    } else {
        None
    }
}

fn reduce_of_table_at(table: &Vec<Function>, level: usize, body: &Vec<Instr>, i: usize) -> (r:
    Option<Fused>)
    requires
        i < body@.len(),
    ensures
        r == reduce_of_table(function_models(table@), level as nat, body@, i as int),
{
    if body.len() - i >= 2 {
        match (body[i], body[i + 1]) {
            (Instr::Modifier(Modifier::Table(g)), Instr::Modifier(Modifier::Reduce(f))) => if g
                < level && g < table.len() && f < level && f < table.len() && table[g].outputs
                == 1 {
                match (sole_of_body(&table[f].body), sole_of_body(&table[g].body)) {
                    (Some(reducer), Some(tabler)) => Some(Fused::ReduceTable(reducer, tabler)),
                    _ => None,
                }
            } else {
                None
            },
            _ => None,
        }
    } else {
        None
    }
}

fn count_transposes(body: &Vec<Instr>, i: usize) -> (r: usize)
    requires
        i < body@.len(),
    ensures
        r == transposes_at(body@, i as int),
{
    let mut j: usize = i;
    while j < body.len() && is_prim(prim_of(body, j), Primitive::Transpose)
        invariant
            i <= j <= body@.len(),
            transposes_at(body@, i as int) == (j - i) + transposes_at(body@, j as int),
        decreases body@.len() - j,
    {
        j += 1;
    }
    j - i
}

fn reducer_at(table: &Vec<Function>, level: usize, g: usize) -> (r: Option<ScalarOp>)
    ensures
        r == reducer_of(function_models(table@), level as nat, g),
{
    if g < level && g < table.len() && table[g].body.len() == 1 && table[g].outputs == 1 {
        match table[g].body[0] {
            Instr::Fused(Fused::ReduceOp(op)) => Some(op),
            _ => None,
        }
    } else {
        None
    }
}

fn reduce_of_windows_at(table: &Vec<Function>, level: usize, body: &Vec<Instr>, i: usize) -> (r:
    Option<ScalarOp>)
    requires
        i < body@.len(),
    ensures
        r == reduce_of_windows(function_models(table@), level as nat, body@, i as int),
{
    if body.len() - i >= 2 && is_prim(prim_of(body, i), Primitive::Windows) {
        match body[i + 1] {
            Instr::Modifier(Modifier::Rows(g)) => reducer_at(table, level, g),
            _ => None,
        }
    } else {
        None
    }
}

fn transposer_at(table: &Vec<Function>, level: usize, g: usize) -> (r: bool)
    ensures
        r == transposer(function_models(table@), level as nat, g),
{
    if g < level && g < table.len() && table[g].outputs == 1 && table[g].body.len() == 1 {
        let r = is_prim(prim_of(&table[g].body, 0), Primitive::Transpose);
        proof {
            if r {
                assert(table@[g as int].body@ =~= seq![Instr::Prim(Primitive::Transpose)]);
            }
        }
        r
    } else {
        false
    }
}

/// The rewrite that applies at place `i` of `body`, if any: the fused
/// instruction and how many instructions it stands for.
pub fn find_idiom(table: &Vec<Function>, level: usize, body: &Vec<Instr>, i: usize) -> (r: Option<
    (Fused, usize),
>)
    requires
        i < body@.len(),
    ensures
        match r {
            Some((x, k)) => fuse_at(function_models(table@), level as nat, body@, i as int) == Some(
                (x, k as nat),
            ),
            None => fuse_at(function_models(table@), level as nat, body@, i as int) is None,
        },
{
    let n = body.len();
    let row = count_transposes(body, i);
    if row >= 2 {
        return Some((Fused::Transposes(row), row));
    }
    let a = prim_of(body, i);
    let b = prim_of(body, i + 1);
    let c = if n - i > 2 {
        prim_of(body, i + 2)
    } else {
        None
    };
    if is_prim(a, Primitive::Dup) && grading(b).is_some() && is_prim(c, Primitive::Select) {
        Some((Fused::Sort { desc: grading(b).unwrap() }, 3))
    } else if grading(a).is_some() && is_prim(b, Primitive::Reverse) && is_prim(
        c,
        Primitive::First,
    ) {
        Some((Fused::GradeLast { desc: grading(a).unwrap() }, 3))
    } else if is_prim(a, Primitive::Where) && is_prim(b, Primitive::Reverse) && is_prim(
        c,
        Primitive::First,
    ) {
        Some((Fused::WhereLast, 3))
    } else if is_prim(a, Primitive::Reverse) && is_prim(b, Primitive::First) {
        Some((Fused::Last, 2))
    } else if grading(a).is_some() && is_prim(b, Primitive::First) {
        Some((Fused::GradeFirst { desc: grading(a).unwrap() }, 2))
    } else if is_prim(a, Primitive::Where) && is_prim(b, Primitive::First) {
        Some((Fused::WhereFirst, 2))
    } else if let Some(x) = reduce_of_table_at(table, level, body, i) {
        Some((x, 2))
    } else if let Some(op) = reduce_of_windows_at(table, level, body, i) {
        Some((Fused::WindowsReduce(op), 2))
    } else {
        match body[i] {
            Instr::Modifier(Modifier::Dip(g)) => match dips_at(table, level, g) {
                Some(x) => Some((x, 1)),
                None => None,
            },
            Instr::Modifier(Modifier::Reduce(f)) => if f < level && f < table.len() {
                match sole_of_body(&table[f].body) {
                    Some(op) => if op.is_folding() {
                        Some((Fused::ReduceOp(op), 1))
                    } else {
                        None
                    },
                    None => None,
                }
            } else {
                None
            },
            Instr::Modifier(Modifier::Scan(f)) => if f < level && f < table.len() {
                match sole_of_body(&table[f].body) {
                    Some(op) => if op.is_scanning() {
                        Some((Fused::ScanOp(op), 1))
                    } else {
                        None
                    },
                    None => None,
                }
            } else {
                None
            },
            Instr::Modifier(Modifier::Rows(g)) => match gap_constant_of(table, level, g) {
                Some(k) => Some((Fused::Repeat { constant: k, each: false }, 1)),
                None => match reducer_at(table, level, g) {
                    Some(op) => Some((Fused::RowsReduce(op), 1)),
                    None => if transposer_at(table, level, g) {
                        Some((Fused::RowsTranspose, 1))
                    } else if forks_at(table, level, g) {
                        Some((Fused::Forked(Modifier::Rows(g)), 1))
                    } else {
                        None
                    },
                },
            },
            Instr::Modifier(Modifier::Each(g)) => match gap_constant_of(table, level, g) {
                Some(k) => Some((Fused::Repeat { constant: k, each: true }, 1)),
                None => if forks_at(table, level, g) {
                    Some((Fused::Forked(Modifier::Each(g)), 1))
                } else {
                    None
                },
            },
            Instr::Modifier(Modifier::Table(f)) => match table_fusion_of(table, level, f) {
                Some(x) => Some((x, 1)),
                None => if forks_at(table, level, f) {
                    Some((Fused::Forked(Modifier::Table(f)), 1))
                } else {
                    None
                },
            },
            _ => None,
        }
    }
}

/// The instructions of `body` with every idiom replaced by its fused
/// instruction. `table` holds the functions that `body` may call, and
/// `level` is the place of `body` among them.
pub fn fuse_body(table: &Vec<Function>, level: usize, body: &Vec<Instr>) -> (out: Vec<Instr>)
    ensures
        out@ == fuse(function_models(table@), level as nat, body@, 0),
{
    let ghost fs = function_models(table@);
    let mut out: Vec<Instr> = Vec::new();
    let mut i: usize = 0;
    assert(out@ + fuse(fs, level as nat, body@, 0) =~= fuse(fs, level as nat, body@, 0));
    while i < body.len()
        invariant
            i <= body@.len(),
            fs == function_models(table@),
            out@ + fuse(fs, level as nat, body@, i as nat) == fuse(fs, level as nat, body@, 0),
        decreases body@.len() - i,
    {
        let ghost rest = fuse(fs, level as nat, body@, i as nat);
        match find_idiom(table, level, body, i) {
            Some((x, k)) => {
                proof {
                    lemma_fuse_longer(fs, level as nat, body@, i as nat);
                    assert(out@.push(Instr::Fused(x)) + fuse(fs, level as nat, body@, (i + k) as nat)
                        =~= out@ + rest);
                }
                out.push(Instr::Fused(x));
                i += k;
            },
            None => {
                proof {
                    assert(out@.push(body@[i as int]) + fuse(
                        fs,
                        level as nat,
                        body@,
                        (i + 1) as nat,
                    ) =~= out@ + rest);
                }
                out.push(body[i]);
                i += 1;
            },
        }
    }
    assert(out@ + Seq::<Instr>::empty() =~= out@);
    out
}

/// The fusion pass over a whole assembly. Signatures, constants and
/// bindings stay; every body is fused as `optimized` and `fuse` say. The
/// result turns every stack into the outcome that `prog` turns it into,
/// failures included.
pub fn optimize(prog: &Assembly) -> (r: Assembly)
    ensures
        r@ == pass(prog@, prog@.functions.len()),
        r.top() == fuse(r@.functions, prog@.functions.len(), prog.top(), 0),
        r.names() == prog.names(),
        forall|s: Seq<Array>| #[trigger]
            r@.run_from(r@.functions.len(), r.top(), 0, s) == prog@.run_from(
                prog@.functions.len(),
                prog.top(),
                0,
                s,
            ),
        r@.run(r.top()) == prog@.run(prog.top()),
{
    let n = prog.function_count();
    let mut table: Vec<Function> = Vec::new();
    let mut f: usize = 0;
    assert(function_models(table@) =~= optimized(prog@.functions, 0));
    while f < n
        invariant
            f <= n,
            n == prog@.functions.len(),
            function_models(table@) == optimized(prog@.functions, f as nat),
        decreases n - f,
    {
        let old = prog.function(f);
        let body = fuse_body(&table, f, &old.body);
        let ghost before = function_models(table@);
        table.push(Function { body, inputs: old.inputs, outputs: old.outputs });
        proof {
            lemma_optimized_len(prog@.functions, f as nat);
            assert(function_models(table@) =~= optimized(prog@.functions, (f + 1) as nat));
        }
        f += 1;
    }
    let main = fuse_body(&table, n, prog.main());
    let mut constants: Vec<Value> = Vec::new();
    let mut c: usize = 0;
    while c < prog.constant_count()
        invariant
            c <= prog@.constants.len(),
            views(constants@) == prog@.constants.take(c as int),
        decreases prog@.constants.len() - c,
    {
        let v = prog.constant(c).share();
        proof {
            crate::value::lemma_views_push(constants@, v);
        }
        constants.push(v);
        c += 1;
        assert(views(constants@) =~= prog@.constants.take(c as int));
    }
    assert(prog@.constants.take(prog@.constants.len() as int) =~= prog@.constants);
    let bindings = prog.bindings();
    let r = Assembly::new(table, main, constants, bindings);
    proof {
        lemma_optimized_len(prog@.functions, n as nat);
        assert(r.names() =~= prog.names());
        assert forall|s: Seq<Array>| #[trigger]
            r@.run_from(r@.functions.len(), r.top(), 0, s) == prog@.run_from(
                prog@.functions.len(),
                prog.top(),
                0,
                s,
            ) by {
            lemma_transparent(prog@, prog.top(), s);
        }
    }
    r
}

} // verus!
