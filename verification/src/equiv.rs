//! When two programs mean the same: if every function of one does what the
//! function in the same place of the other does, then every instruction
//! does the same in both.
use crate::assembly::{Fused, Instr, Modifier, Program};
use crate::semantics::sole_op;
use crate::value::Array;
use vstd::prelude::*;

verus! {

/// Whether the functions below `level` do the same in `p` as in `q`: they
/// take and leave as many values, reduce alike over no rows, and turn every
/// stack into the same outcome; and the two constant pools are one.
pub open spec fn related(p: Program, q: Program, level: nat) -> bool {
    &&& p.constants == q.constants
    &&& level <= p.functions.len()
    &&& level <= q.functions.len()
    &&& forall|f: int|
        0 <= f < level ==> {
            &&& (#[trigger] p.functions[f]).inputs == q.functions[f].inputs
            &&& p.functions[f].outputs == q.functions[f].outputs
            &&& sole_op(p, f as nat) == sole_op(q, f as nat)
        }
    &&& forall|f: int, s: Seq<Array>|
        0 <= f < level ==> #[trigger] p.run_from(f as nat, p.functions[f].body, 0, s)
            == q.run_from(f as nat, q.functions[f].body, 0, s)
}

/// Whether two instruction sequences turn every stack into the same
/// outcome when run at `level` in `q`.
pub open spec fn same_effect(q: Program, level: nat, xs: Seq<Instr>, ys: Seq<Instr>) -> bool {
    forall|s: Seq<Array>| #[trigger] q.run_from(level, xs, 0, s) == q.run_from(level, ys, 0, s)
}

pub proof fn lemma_call(p: Program, q: Program, level: nat, f: nat, s: Seq<Array>)
    requires
        related(p, q, level),
    ensures
        p.call(level, f, s) == q.call(level, f, s),
{
    if p.has(level, f) {
        assert(p.run_from(f, p.functions[f as int].body, 0, s) == q.run_from(
            f,
            q.functions[f as int].body,
            0,
            s,
        ));
    }
}

pub proof fn lemma_apply(p: Program, q: Program, level: nat, f: nat, args: Seq<Array>, n: nat)
    requires
        related(p, q, level),
    ensures
        p.apply(level, f, args, n) == q.apply(level, f, args, n),
{
    lemma_call(p, q, level, f, args);
}

pub proof fn lemma_fold(p: Program, q: Program, level: nat, f: nat, a: Array, i: nat, acc: Array)
    requires
        related(p, q, level),
    ensures
        p.fold(level, f, a, i, acc) == q.fold(level, f, a, i, acc),
    decreases a.rows() - i,
{
    if i < a.rows() {
        lemma_apply(p, q, level, f, seq![a.row(i as int), acc], 1);
        if let Ok(out) = p.apply(level, f, seq![a.row(i as int), acc], 1) {
            lemma_fold(p, q, level, f, a, i + 1, out[0]);
        }
    }
}

pub proof fn lemma_reduce(p: Program, q: Program, level: nat, f: nat, a: Array)
    requires
        related(p, q, level),
    ensures
        p.reduce(level, f, a) == q.reduce(level, f, a),
{
    if p.has(level, f) {
        assert(p.functions[f as int].inputs == q.functions[f as int].inputs);
        if a.rows() > 0 {
            lemma_fold(p, q, level, f, a, 1, a.row(0));
        }
    }
}

pub proof fn lemma_scan_from(
    p: Program,
    q: Program,
    level: nat,
    f: nat,
    a: Array,
    i: nat,
    outs: Seq<Array>,
)
    requires
        related(p, q, level),
    ensures
        p.scan_from(level, f, a, i, outs) == q.scan_from(level, f, a, i, outs),
    decreases a.rows() - i,
{
    if i < a.rows() && outs.len() > 0 {
        lemma_apply(p, q, level, f, seq![a.row(i as int), outs.last()], 1);
        if let Ok(out) = p.apply(level, f, seq![a.row(i as int), outs.last()], 1) {
            lemma_scan_from(p, q, level, f, a, i + 1, outs.push(out[0]));
        }
    }
}

pub proof fn lemma_scan(p: Program, q: Program, level: nat, f: nat, a: Array)
    requires
        related(p, q, level),
    ensures
        p.scan(level, f, a) == q.scan(level, f, a),
{
    if p.has(level, f) && a.rows() > 0 {
        lemma_scan_from(p, q, level, f, a, 1, seq![a.row(0)]);
    }
}

pub proof fn lemma_map_from(
    p: Program,
    q: Program,
    level: nat,
    f: nat,
    items: Seq<Seq<Array>>,
    i: nat,
    outs: Seq<Seq<Array>>,
)
    requires
        related(p, q, level),
    ensures
        p.map_from(level, f, items, i, outs) == q.map_from(level, f, items, i, outs),
    decreases items.len() - i,
{
    if p.has(level, f) && i < items.len() {
        let n = p.functions[f as int].outputs;
        assert(n == q.functions[f as int].outputs);
        lemma_apply(p, q, level, f, items[i as int], n);
        if let Ok(out) = p.apply(level, f, items[i as int], n) {
            lemma_map_from(p, q, level, f, items, i + 1, outs.push(out));
        }
    }
}

pub proof fn lemma_map(
    p: Program,
    q: Program,
    level: nat,
    f: nat,
    items: Seq<Seq<Array>>,
    frame: Seq<usize>,
)
    requires
        related(p, q, level),
    ensures
        p.map(level, f, items, frame) == q.map(level, f, items, frame),
{
    lemma_map_from(p, q, level, f, items, 0, Seq::empty());
    if p.has(level, f) {
        assert(p.functions[f as int].outputs == q.functions[f as int].outputs);
    } else {
        assert(p.map_from(level, f, items, 0, Seq::empty()) is Err);
    }
}

pub proof fn lemma_both(
    p: Program,
    q: Program,
    level: nat,
    f: nat,
    g: nat,
    fa: Seq<Array>,
    ga: Seq<Array>,
)
    requires
        related(p, q, level),
    ensures
        p.both(level, f, g, fa, ga) == q.both(level, f, g, fa, ga),
{
    lemma_call(p, q, level, f, fa);
    lemma_call(p, q, level, g, ga);
}

pub proof fn lemma_modify(p: Program, q: Program, level: nat, m: Modifier, s: Seq<Array>)
    requires
        related(p, q, level),
    ensures
        p.modify(level, m, s) == q.modify(level, m, s),
{
    let n = s.len() as int;
    match m {
        Modifier::Dip(f) => {
            lemma_call(p, q, level, f as nat, s.drop_last());
        },
        Modifier::Gap(f) => {
            lemma_call(p, q, level, f as nat, s.drop_last());
        },
        Modifier::Fork(f, g) => {
            if p.has(level, f as nat) && p.has(level, g as nat) {
                let fi = p.functions[f as int].inputs as int;
                let gi = p.functions[g as int].inputs as int;
                assert(fi == q.functions[f as int].inputs);
                assert(gi == q.functions[g as int].inputs);
                lemma_both(p, q, level, f as nat, g as nat, s.skip(n - fi), s.skip(n - gi));
            }
        },
        Modifier::Bracket(f, g) => {
            if p.has(level, f as nat) && p.has(level, g as nat) {
                let fi = p.functions[f as int].inputs as int;
                let gi = p.functions[g as int].inputs as int;
                assert(fi == q.functions[f as int].inputs);
                assert(gi == q.functions[g as int].inputs);
                lemma_both(
                    p,
                    q,
                    level,
                    f as nat,
                    g as nat,
                    s.skip(n - fi),
                    s.subrange(n - fi - gi, n - fi),
                );
            }
        },
        Modifier::Try(f, h) => {
            lemma_call(p, q, level, f as nat, s);
            lemma_call(p, q, level, h as nat, s);
        },
        Modifier::Reduce(f) => {
            if n >= 1 {
                lemma_reduce(p, q, level, f as nat, s.last());
            }
        },
        Modifier::Scan(f) => {
            if n >= 1 {
                lemma_scan(p, q, level, f as nat, s.last());
            }
        },
        Modifier::Rows(f) => {
            if n >= 1 {
                lemma_map(
                    p,
                    q,
                    level,
                    f as nat,
                    crate::semantics::row_items(s.last()),
                    seq![s.last().rows() as usize],
                );
            }
        },
        Modifier::Each(f) => {
            if n >= 1 {
                lemma_map(p, q, level, f as nat, crate::semantics::cell_items(s.last()), s.last().shape);
            }
        },
        Modifier::Table(f) => {
            if n >= 2 {
                let a = crate::primitive::peek(s, 0);
                let b = crate::primitive::peek(s, 1);
                lemma_map(p, q, level, f as nat, crate::semantics::pair_items(a, b), a.shape + b.shape);
            }
        },
    }
}

pub proof fn lemma_fused(p: Program, q: Program, level: nat, x: Fused, s: Seq<Array>)
    requires
        related(p, q, level),
    ensures
        p.fused(level, x, s) == q.fused(level, x, s),
{
    match x {
        Fused::Dips { depth, function } => {
            lemma_call(p, q, level, function as nat, s.take(s.len() - depth));
        },
        Fused::Forked(m) => {
            let n = s.len() as int;
            match m {
                Modifier::Rows(f) => {
                    if n >= 1 {
                        lemma_map(
                            p,
                            q,
                            level,
                            f as nat,
                            crate::semantics::row_items(s.last()),
                            seq![s.last().rows() as usize],
                        );
                    }
                },
                Modifier::Each(f) => {
                    if n >= 1 {
                        lemma_map(p, q, level, f as nat, crate::semantics::cell_items(s.last()), s.last().shape);
                    }
                },
                Modifier::Table(f) => {
                    if n >= 2 {
                        let a = crate::primitive::peek(s, 0);
                        let b = crate::primitive::peek(s, 1);
                        lemma_map(p, q, level, f as nat, crate::semantics::pair_items(a, b), a.shape + b.shape);
                    }
                },
                _ => {},
            }
        },
        _ => {},
    }
}

pub proof fn lemma_step(p: Program, q: Program, level: nat, instr: Instr, s: Seq<Array>)
    requires
        related(p, q, level),
    ensures
        p.step(level, instr, s) == q.step(level, instr, s),
{
    match instr {
        Instr::Call(f) => lemma_call(p, q, level, f as nat, s),
        Instr::Modifier(m) => lemma_modify(p, q, level, m, s),
        Instr::Fused(x) => lemma_fused(p, q, level, x, s),
        _ => {},
    }
}

/// The same instructions do the same in related programs.
pub proof fn lemma_run(p: Program, q: Program, level: nat, body: Seq<Instr>, pc: nat, s: Seq<Array>)
    requires
        related(p, q, level),
    ensures
        p.run_from(level, body, pc, s) == q.run_from(level, body, pc, s),
    decreases body.len() - pc,
{
    if pc < body.len() {
        lemma_step(p, q, level, body[pc as int], s);
        if let Ok(t) = p.step(level, body[pc as int], s) {
            lemma_run(p, q, level, body, pc + 1, t);
        }
    }
}

/// A program whose function table begins with the whole table of another
/// does below that length what the other does.
pub proof fn lemma_prefix(p: Program, q: Program, level: nat)
    requires
        p.constants == q.constants,
        p.functions.len() <= q.functions.len(),
        forall|f: int| 0 <= f < p.functions.len() ==> p.functions[f] == q.functions[f],
        level <= p.functions.len(),
    ensures
        related(p, q, level),
    decreases level,
{
    if level > 0 {
        lemma_prefix(p, q, (level - 1) as nat);
        let g = (level - 1) as nat;
        assert forall|f: int, s: Seq<Array>| 0 <= f < level implies #[trigger] p.run_from(
            f as nat,
            p.functions[f].body,
            0,
            s,
        ) == q.run_from(f as nat, q.functions[f].body, 0, s) by {
            if f == g {
                lemma_run(p, q, g, p.functions[f].body, 0, s);
            }
        }
    }
}

/// Running from instruction `k + j` is running what is left after the
/// first `k` from its instruction `j`.
pub proof fn lemma_run_skip(q: Program, level: nat, zs: Seq<Instr>, k: nat, j: nat, s: Seq<Array>)
    requires
        k + j <= zs.len(),
    ensures
        q.run_from(level, zs, k + j, s) == q.run_from(level, zs.skip(k as int), j, s),
    decreases zs.len() - k - j,
{
    if k + j < zs.len() {
        assert(zs.skip(k as int)[j as int] == zs[(k + j) as int]);
        if let Ok(t) = q.step(level, zs[(k + j) as int], s) {
            lemma_run_skip(q, level, zs, k, j + 1, t);
        }
    }
}

/// Running one sequence after another is running the first and then, if
/// it succeeds, the second on what it leaves.
pub proof fn lemma_run_concat(
    q: Program,
    level: nat,
    xs: Seq<Instr>,
    ys: Seq<Instr>,
    pc: nat,
    s: Seq<Array>,
)
    requires
        pc <= xs.len(),
    ensures
        q.run_from(level, xs + ys, pc, s) == (match q.run_from(level, xs, pc, s) {
            Ok(t) => q.run_from(level, ys, 0, t),
            Err(e) => Err(e),
        }),
    decreases xs.len() - pc,
{
    if pc < xs.len() {
        assert((xs + ys)[pc as int] == xs[pc as int]);
        if let Ok(t) = q.step(level, xs[pc as int], s) {
            lemma_run_concat(q, level, xs, ys, pc + 1, t);
        }
    } else {
        lemma_run_skip(q, level, xs + ys, xs.len(), 0, s);
        assert((xs + ys).skip(xs.len() as int) =~= ys);
    }
}

/// Sequences with the same effect, followed by sequences with the same
/// effect, have the same effect.
pub proof fn lemma_effect_append(
    q: Program,
    level: nat,
    xs: Seq<Instr>,
    ys: Seq<Instr>,
    xs2: Seq<Instr>,
    ys2: Seq<Instr>,
)
    requires
        same_effect(q, level, xs, ys),
        same_effect(q, level, xs2, ys2),
    ensures
        same_effect(q, level, xs + xs2, ys + ys2),
{
    assert forall|s: Seq<Array>| #[trigger]
        q.run_from(level, xs + xs2, 0, s) == q.run_from(level, ys + ys2, 0, s) by {
        lemma_run_concat(q, level, xs, xs2, 0, s);
        lemma_run_concat(q, level, ys, ys2, 0, s);
        assert(q.run_from(level, xs, 0, s) == q.run_from(level, ys, 0, s));
        if let Ok(t) = q.run_from(level, xs, 0, s) {
            assert(q.run_from(level, xs2, 0, t) == q.run_from(level, ys2, 0, t));
        }
    }
}

/// A single instruction run as a sequence is that instruction's step.
pub proof fn lemma_run_one(q: Program, level: nat, instr: Instr, s: Seq<Array>)
    ensures
        q.run_from(level, seq![instr], 0, s) == q.step(level, instr, s),
{
    reveal_with_fuel(Program::run_from, 2);
    assert(seq![instr][0] == instr);
}

} // verus!
