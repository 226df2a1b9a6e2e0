//! Signatures are kept: a well-signed program takes from the stack and
//! leaves on it what its signatures say, and never finds the stack short.
use crate::arrayops::stack;
use crate::assembly::{Instr, Modifier, Program};
use crate::equiv::{lemma_run_concat, lemma_run_one};
use crate::error::Fault;
use crate::primitive::{prim_step, Primitive};
use crate::semantics::{collect, Outcome};
use crate::signature::{declared, infer, instr_sig, modifier_sig};
use crate::value::Array;
use vstd::prelude::*;

verus! {

/// Whether function `f` stands below `level` and has the signature `want`.
pub open spec fn signed(p: Program, level: nat, f: usize, want: (nat, nat)) -> bool {
    f < level && declared(p.functions, f) == Some(want)
}

/// Whether an instruction is in place at `level`: it names only constants
/// of the pool and functions below `level`, and hands each modifier
/// functions of a signature that the modifier accepts.
pub open spec fn fits(p: Program, level: nat, instr: Instr) -> bool {
    match instr {
        Instr::Push(c) => c < p.constants.len(),
        Instr::Prim(q) => q.signature_spec() is Some,
        Instr::Call(f) => f < level,
        Instr::MakeArray(_) => true,
        Instr::Modifier(m) => match m {
            Modifier::Reduce(f) | Modifier::Scan(f) => signed(p, level, f, (2nat, 1nat)),
            Modifier::Table(f) => f < level && f < p.functions.len() && p.functions[f as int].inputs
                == 2,
            Modifier::Rows(f) | Modifier::Each(f) => f < level && f < p.functions.len()
                && p.functions[f as int].inputs == 1,
            Modifier::Dip(f) | Modifier::Gap(f) => f < level,
            Modifier::Fork(f, g) | Modifier::Bracket(f, g) => f < level && g < level,
            Modifier::Try(f, h) => f < level && h < level && declared(p.functions, f) == declared(
                p.functions,
                h,
            ),
        },
        Instr::Fused(_) => false,
    }
}

/// Whether every instruction of `body` is in place at `level`.
pub open spec fn body_fits(p: Program, level: nat, body: Seq<Instr>) -> bool {
    forall|i: int| 0 <= i < body.len() ==> fits(p, level, #[trigger] body[i])
}

/// Whether the functions below `level` are well signed: every instruction
/// of each is in place, and each declares the signature that is inferred
/// from its body.
pub open spec fn sound(p: Program, level: nat) -> bool {
    &&& level <= p.functions.len()
    &&& forall|f: int|
        0 <= f < level ==> {
            &&& body_fits(p, f as nat, (#[trigger] p.functions[f]).body)
            &&& infer(p.functions, p.functions[f].body, p.functions[f].body.len()) == Some(
                (p.functions[f].inputs, p.functions[f].outputs),
            )
        }
}

/// Whether an outcome keeps a signature on a stack of `before` values: a
/// success leaves as many values as the signature says, and a failure is
/// not an underflow.
pub open spec fn kept(r: Outcome, before: nat, sig: (nat, nat)) -> bool {
    match r {
        Ok(t) => t.len() == before - sig.0 + sig.1,
        Err(e) => !(e is StackUnderflow),
    }
}

/// Whether a failure, if any, is something else than an underflow.
pub open spec fn held<T>(r: Result<T, Fault>) -> bool {
    r matches Err(e) ==> !(e is StackUnderflow)
}

/// Built-in functions keep their signatures.
pub proof fn lemma_prim_sound(q: Primitive, s: Seq<Array>)
    requires
        q.signature_spec() matches Some(sig) && s.len() >= sig.0,
    ensures
        kept(prim_step(q, s), s.len(), q.signature_spec()->0),
{
    let sig = q.signature_spec()->0;
    if sig == (1nat, 1nat) {
        lemma_monadic_sound(q, s);
    } else if sig == (2nat, 1nat) {
        lemma_dyadic_sound(q, s);
    }
}

proof fn lemma_monadic_sound(q: Primitive, s: Seq<Array>)
    requires
        q.signature_spec() == Some((1nat, 1nat)),
        s.len() >= 1,
    ensures
        kept(prim_step(q, s), s.len(), (1nat, 1nat)),
{
}

proof fn lemma_dyadic_sound(q: Primitive, s: Seq<Array>)
    requires
        q.signature_spec() == Some((2nat, 1nat)),
        s.len() >= 2,
    ensures
        kept(prim_step(q, s), s.len(), (2nat, 1nat)),
{
}

/// Gathering `n` outputs leaves `n` arrays, and fails, if at all, on
/// shapes or kinds that do not fit.
pub proof fn lemma_collect_sound(outs: Seq<Seq<Array>>, frame: Seq<usize>, n: nat, k: nat)
    requires
        k <= n,
    ensures
        match collect(outs, frame, n, k) {
            Ok(r) => r.len() == n - k,
            Err(e) => !(e is StackUnderflow),
        },
    decreases n - k,
{
    if k < n {
        lemma_collect_sound(outs, frame, n, k + 1);
    }
}

/// Calling a function of a well-signed program on a stack that holds what
/// it takes keeps its signature.
pub proof fn lemma_call_sound(p: Program, level: nat, f: usize, s: Seq<Array>)
    requires
        sound(p, level),
        f < level,
        s.len() >= p.functions[f as int].inputs,
    ensures
        kept(
            p.call(level, f as nat, s),
            s.len(),
            (p.functions[f as int].inputs, p.functions[f as int].outputs),
        ),
    decreases level, 0nat, 0nat,
{
    let body = p.functions[f as int].body;
    lemma_run_sound(p, f as nat, body, body.len(), s);
    assert(body.take(body.len() as int) =~= body);
}

/// Applying a function to exactly the values it takes gives exactly the
/// values it leaves.
pub proof fn lemma_apply_sound(p: Program, level: nat, f: usize, args: Seq<Array>)
    requires
        sound(p, level),
        f < level,
        args.len() == p.functions[f as int].inputs,
    ensures
        match p.apply(level, f as nat, args, p.functions[f as int].outputs) {
            Ok(out) => out.len() == p.functions[f as int].outputs,
            Err(e) => !(e is StackUnderflow),
        },
    decreases level, 0nat, 1nat,
{
    lemma_call_sound(p, level, f, args);
}

pub proof fn lemma_fold_sound(p: Program, level: nat, f: usize, a: Array, i: nat, acc: Array)
    requires
        sound(p, level),
        signed(p, level, f, (2nat, 1nat)),
    ensures
        held(p.fold(level, f as nat, a, i, acc)),
    decreases level, 0nat, a.rows() - i + 2,
{
    if i < a.rows() {
        let args = seq![a.row(i as int), acc];
        lemma_apply_sound(p, level, f, args);
        if let Ok(out) = p.apply(level, f as nat, args, 1) {
            lemma_fold_sound(p, level, f, a, i + 1, out[0]);
        }
    }
}

pub proof fn lemma_scan_sound(p: Program, level: nat, f: usize, a: Array, i: nat, outs: Seq<Array>)
    requires
        sound(p, level),
        signed(p, level, f, (2nat, 1nat)),
    ensures
        held(p.scan_from(level, f as nat, a, i, outs)),
    decreases level, 0nat, a.rows() - i + 2,
{
    if i < a.rows() && outs.len() > 0 {
        let args = seq![a.row(i as int), outs.last()];
        lemma_apply_sound(p, level, f, args);
        if let Ok(out) = p.apply(level, f as nat, args, 1) {
            lemma_scan_sound(p, level, f, a, i + 1, outs.push(out[0]));
        }
    }
}

pub proof fn lemma_map_sound(
    p: Program,
    level: nat,
    f: usize,
    items: Seq<Seq<Array>>,
    i: nat,
    outs: Seq<Seq<Array>>,
)
    requires
        sound(p, level),
        f < level,
        forall|j: int|
            0 <= j < items.len() ==> (#[trigger] items[j]).len() == p.functions[f as int].inputs,
    ensures
        held(p.map_from(level, f as nat, items, i, outs)),
    decreases level, 0nat, items.len() - i + 2,
{
    if i < items.len() {
        lemma_apply_sound(p, level, f, items[i as int]);
        if let Ok(out) = p.apply(level, f as nat, items[i as int], p.functions[f as int].outputs) {
            lemma_map_sound(p, level, f, items, i + 1, outs.push(out));
        }
    }
}

/// Mapping a function over items of as many values as it takes leaves one
/// array for each value it leaves.
pub proof fn lemma_map_all_sound(
    p: Program,
    level: nat,
    f: usize,
    items: Seq<Seq<Array>>,
    frame: Seq<usize>,
)
    requires
        sound(p, level),
        f < level,
        forall|j: int|
            0 <= j < items.len() ==> (#[trigger] items[j]).len() == p.functions[f as int].inputs,
    ensures
        match p.map(level, f as nat, items, frame) {
            Ok(out) => out.len() == p.functions[f as int].outputs,
            Err(e) => !(e is StackUnderflow),
        },
    decreases level, 0nat, items.len() + 3,
{
    lemma_map_sound(p, level, f, items, 0, Seq::empty());
    if let Ok(outs) = p.map_from(level, f as nat, items, 0, Seq::empty()) {
        lemma_collect_sound(outs, frame, p.functions[f as int].outputs, 0);
    }
}

proof fn lemma_dip_sound(p: Program, level: nat, f: usize, gap: bool, s: Seq<Array>)
    requires
        sound(p, level),
        f < level,
        s.len() >= p.functions[f as int].inputs + 1,
    ensures
        gap ==> kept(
            p.modify(level, Modifier::Gap(f), s),
            s.len(),
            ((p.functions[f as int].inputs + 1) as nat, p.functions[f as int].outputs),
        ),
        !gap ==> kept(
            p.modify(level, Modifier::Dip(f), s),
            s.len(),
            ((p.functions[f as int].inputs + 1) as nat, (p.functions[f as int].outputs + 1) as nat),
        ),
    decreases level, 1nat, 0nat,
{
    lemma_call_sound(p, level, f, s.drop_last());
}

proof fn lemma_fork_sound(p: Program, level: nat, f: usize, g: usize, s: Seq<Array>)
    requires
        sound(p, level),
        f < level,
        g < level,
        s.len() >= p.functions[f as int].inputs,
        s.len() >= p.functions[g as int].inputs,
    ensures
        kept(
            p.modify(level, Modifier::Fork(f, g), s),
            s.len(),
            (
                if p.functions[f as int].inputs >= p.functions[g as int].inputs {
                    p.functions[f as int].inputs
                } else {
                    p.functions[g as int].inputs
                },
                p.functions[f as int].outputs + p.functions[g as int].outputs,
            ),
        ),
    decreases level, 1nat, 0nat,
{
    let n = s.len() as int;
    let fi = p.functions[f as int].inputs as int;
    let gi = p.functions[g as int].inputs as int;
    lemma_call_sound(p, level, f, s.skip(n - fi));
    lemma_call_sound(p, level, g, s.skip(n - gi));
}

proof fn lemma_bracket_sound(p: Program, level: nat, f: usize, g: usize, s: Seq<Array>)
    requires
        sound(p, level),
        f < level,
        g < level,
        s.len() >= p.functions[f as int].inputs + p.functions[g as int].inputs,
    ensures
        kept(
            p.modify(level, Modifier::Bracket(f, g), s),
            s.len(),
            (
                p.functions[f as int].inputs + p.functions[g as int].inputs,
                p.functions[f as int].outputs + p.functions[g as int].outputs,
            ),
        ),
    decreases level, 1nat, 0nat,
{
    let n = s.len() as int;
    let fi = p.functions[f as int].inputs as int;
    let gi = p.functions[g as int].inputs as int;
    lemma_call_sound(p, level, f, s.skip(n - fi));
    lemma_call_sound(p, level, g, s.subrange(n - fi - gi, n - fi));
}

proof fn lemma_try_sound(p: Program, level: nat, f: usize, h: usize, s: Seq<Array>)
    requires
        sound(p, level),
        f < level,
        h < level,
        declared(p.functions, f) == declared(p.functions, h),
        s.len() >= p.functions[f as int].inputs,
    ensures
        kept(
            p.modify(level, Modifier::Try(f, h), s),
            s.len(),
            (p.functions[f as int].inputs, p.functions[f as int].outputs),
        ),
    decreases level, 1nat, 0nat,
{
    lemma_call_sound(p, level, f, s);
    lemma_call_sound(p, level, h, s);
}

proof fn lemma_reduce_sound(p: Program, level: nat, f: usize, scan: bool, s: Seq<Array>)
    requires
        sound(p, level),
        signed(p, level, f, (2nat, 1nat)),
        s.len() >= 1,
    ensures
        scan ==> kept(p.modify(level, Modifier::Scan(f), s), s.len(), (1nat, 1nat)),
        !scan ==> kept(p.modify(level, Modifier::Reduce(f), s), s.len(), (1nat, 1nat)),
    decreases level, 1nat, 0nat,
{
    let a = s.last();
    if a.rows() > 0 {
        lemma_fold_sound(p, level, f, a, 1, a.row(0));
        lemma_scan_sound(p, level, f, a, 1, seq![a.row(0)]);
    }
}

proof fn lemma_rows_sound(p: Program, level: nat, f: usize, each: bool, s: Seq<Array>)
    requires
        sound(p, level),
        f < level,
        p.functions[f as int].inputs == 1,
        s.len() >= 1,
    ensures
        each ==> kept(
            p.modify(level, Modifier::Each(f), s),
            s.len(),
            (1nat, p.functions[f as int].outputs),
        ),
        !each ==> kept(
            p.modify(level, Modifier::Rows(f), s),
            s.len(),
            (1nat, p.functions[f as int].outputs),
        ),
    decreases level, 1nat, 0nat,
{
    let a = s.last();
    if each {
        lemma_map_all_sound(p, level, f, crate::semantics::cell_items(a), a.shape);
    } else {
        lemma_map_all_sound(p, level, f, crate::semantics::row_items(a), seq![a.rows() as usize]);
    }
}

proof fn lemma_pairs_of_two(a: Array, b: Array)
    ensures
        forall|j: int|
            0 <= j < crate::semantics::pair_items(a, b).len() ==> (
            #[trigger] crate::semantics::pair_items(a, b)[j]).len() == 2,
{
}

/// What gathering the outputs of a map leaves on the stack keeps the
/// signature of the modifier that mapped.
proof fn lemma_mapped(out: Outcome, s: Seq<Array>, taken: nat, outputs: nat)
    requires
        taken <= s.len(),
        match out {
            Ok(o) => o.len() == outputs,
            Err(e) => !(e is StackUnderflow),
        },
    ensures
        kept(
            match out {
                Ok(o) => Ok(s.take(s.len() - taken) + o),
                Err(e) => Err(e),
            },
            s.len(),
            (taken, outputs),
        ),
{
}

#[verifier::rlimit(60)]
proof fn lemma_table_sound(p: Program, level: nat, f: usize, s: Seq<Array>)
    requires
        sound(p, level),
        f < level,
        p.functions[f as int].inputs == 2,
        s.len() >= 2,
    ensures
        kept(
            p.modify(level, Modifier::Table(f), s),
            s.len(),
            (2nat, p.functions[f as int].outputs),
        ),
    decreases level, 1nat, 0nat,
{
    let a = crate::primitive::peek(s, 0);
    let b = crate::primitive::peek(s, 1);
    let items = crate::semantics::pair_items(a, b);
    lemma_pairs_of_two(a, b);
    lemma_map_all_sound(p, level, f, items, a.shape + b.shape);
    lemma_mapped(p.map(level, f as nat, items, a.shape + b.shape), s, 2, p.functions[f as int].outputs);
}

/// Modifiers keep their signatures.
pub proof fn lemma_modify_sound(p: Program, level: nat, m: Modifier, s: Seq<Array>)
    requires
        sound(p, level),
        fits(p, level, Instr::Modifier(m)),
        modifier_sig(p.functions, m) matches Some(sig) && s.len() >= sig.0,
    ensures
        kept(p.modify(level, m, s), s.len(), modifier_sig(p.functions, m)->0),
    decreases level, 1nat, 1nat,
{
    match m {
        Modifier::Dip(f) => lemma_dip_sound(p, level, f, false, s),
        Modifier::Gap(f) => lemma_dip_sound(p, level, f, true, s),
        Modifier::Fork(f, g) => lemma_fork_sound(p, level, f, g, s),
        Modifier::Bracket(f, g) => lemma_bracket_sound(p, level, f, g, s),
        Modifier::Try(f, h) => lemma_try_sound(p, level, f, h, s),
        Modifier::Reduce(f) => lemma_reduce_sound(p, level, f, false, s),
        Modifier::Scan(f) => lemma_reduce_sound(p, level, f, true, s),
        Modifier::Rows(f) => lemma_rows_sound(p, level, f, false, s),
        Modifier::Each(f) => lemma_rows_sound(p, level, f, true, s),
        Modifier::Table(f) => lemma_table_sound(p, level, f, s),
    }
}

/// Instructions keep their signatures.
pub proof fn lemma_step_sound(p: Program, level: nat, instr: Instr, s: Seq<Array>)
    requires
        sound(p, level),
        fits(p, level, instr),
        instr_sig(p.functions, instr) matches Some(sig) && s.len() >= sig.0,
    ensures
        kept(p.step(level, instr, s), s.len(), instr_sig(p.functions, instr)->0),
    decreases level, 1nat, 2nat,
{
    match instr {
        Instr::Prim(q) => lemma_prim_sound(q, s),
        Instr::Call(f) => lemma_call_sound(p, level, f, s),
        Instr::Modifier(m) => lemma_modify_sound(p, level, m, s),
        _ => {},
    }
}

/// The first `n` instructions of a body keep the signature inferred for
/// them.
pub proof fn lemma_run_sound(p: Program, level: nat, body: Seq<Instr>, n: nat, s: Seq<Array>)
    requires
        sound(p, level),
        body_fits(p, level, body),
        n <= body.len(),
        infer(p.functions, body, n) matches Some(sig) && s.len() >= sig.0,
    ensures
        kept(p.run_from(level, body.take(n as int), 0, s), s.len(), infer(p.functions, body, n)->0),
    decreases level, 2nat, n,
{
    if n == 0 {
        assert(body.take(0) =~= Seq::<Instr>::empty());
    } else {
        let m = (n - 1) as nat;
        let a = infer(p.functions, body, m)->0;
        let instr = body[m as int];
        let b = instr_sig(p.functions, instr)->0;
        assert(fits(p, level, instr));
        lemma_run_sound(p, level, body, m, s);
        assert(body.take(m as int) + seq![instr] =~= body.take(n as int));
        lemma_run_concat(p, level, body.take(m as int), seq![instr], 0, s);
        if let Ok(t) = p.run_from(level, body.take(m as int), 0, s) {
            lemma_run_one(p, level, instr, t);
            lemma_step_sound(p, level, instr, t);
        }
    }
}

/// A well-signed program whose top-level instructions take nothing from
/// the stack never finds the stack short: it leaves as many values as its
/// signature says, or fails in some other way than by an underflow.
pub proof fn lemma_never_short(p: Program, main: Seq<Instr>)
    requires
        sound(p, p.functions.len()),
        body_fits(p, p.functions.len(), main),
        infer(p.functions, main, main.len()) matches Some(sig) && sig.0 == 0,
    ensures
        kept(p.run(main), 0, infer(p.functions, main, main.len())->0),
{
    lemma_run_sound(p, p.functions.len(), main, main.len(), Seq::empty());
    assert(main.take(main.len() as int) =~= main);
}

} // verus!
