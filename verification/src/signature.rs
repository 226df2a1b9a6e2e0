//! Signatures: how many values an instruction sequence takes from the
//! stack and how many it leaves.
use crate::assembly::{Function, FunctionModel, Fused, Instr, Modifier, function_models};
use crate::semantics::idiom;
use vstd::prelude::*;

verus! {

/// A count that a machine word can hold, or nothing.
pub open spec fn word(n: nat) -> Option<nat> {
    if n <= usize::MAX {
        Some(n)
    } else {
        None
    }
}

/// A signature whose two counts fit machine words, or nothing.
pub open spec fn sig(inputs: nat, outputs: nat) -> Option<(nat, nat)> {
    match (word(inputs), word(outputs)) {
        (Some(i), Some(o)) => Some((i, o)),
        _ => None,
    }
}

/// The signature of running `a` and then `b`: what `b` takes comes from
/// what `a` leaves as far as that goes, and from below otherwise.
pub open spec fn then(a: (nat, nat), b: (nat, nat)) -> Option<(nat, nat)> {
    if a.1 >= b.0 {
        sig(a.0, (a.1 - b.0 + b.1) as nat)
    } else {
        sig((a.0 + (b.0 - a.1)) as nat, b.1)
    }
}

/// The declared signature of function `f`, if there is such a function.
pub open spec fn declared(fs: Seq<FunctionModel>, f: usize) -> Option<(nat, nat)> {
    if f < fs.len() {
        Some((fs[f as int].inputs, fs[f as int].outputs))
    } else {
        None
    }
}

/// The signature of a modifier, from those of its functions. `None` where
/// a function is missing or a count does not fit a machine word.
pub open spec fn modifier_sig(fs: Seq<FunctionModel>, m: Modifier) -> Option<(nat, nat)> {
    match m {
        Modifier::Reduce(f) | Modifier::Scan(f) => match declared(fs, f) {
            Some(_) => Some((1, 1)),
            None => None,
        },
        Modifier::Rows(f) | Modifier::Each(f) => match declared(fs, f) {
            Some((_, o)) => Some((1, o)),
            None => None,
        },
        Modifier::Table(f) => match declared(fs, f) {
            Some((_, o)) => Some((2, o)),
            None => None,
        },
        Modifier::Dip(f) => match declared(fs, f) {
            Some((i, o)) => sig(i + 1, o + 1),
            None => None,
        },
        Modifier::Gap(f) => match declared(fs, f) {
            Some((i, o)) => sig(i + 1, o),
            None => None,
        },
        Modifier::Fork(f, g) => match (declared(fs, f), declared(fs, g)) {
            (Some((fi, fo)), Some((gi, go))) => sig(
                if fi >= gi {
                    fi
                } else {
                    gi
                },
                fo + go,
            ),
            _ => None,
        },
        Modifier::Bracket(f, g) => match (declared(fs, f), declared(fs, g)) {
            (Some((fi, fo)), Some((gi, go))) => sig(fi + gi, fo + go),
            _ => None,
        },
        Modifier::Try(f, h) => match (declared(fs, f), declared(fs, h)) {
            (Some(a), Some(_)) => Some(a),
            _ => None,
        },
    }
}

/// The signature of a fused instruction: that of the idiom it stands for.
pub open spec fn fused_sig(fs: Seq<FunctionModel>, x: Fused) -> Option<(nat, nat)> {
    match x {
        Fused::Dips { depth, function } => match declared(fs, function) {
            Some((i, o)) => sig(i + depth as nat, o + depth as nat),
            None => None,
        },
        Fused::TableOp(_) | Fused::TablePairs { .. } | Fused::ReduceTable(_, _) | Fused::WindowsReduce(_) => Some((2, 1)),
        Fused::Transposes(n) => if n == 0 {
            Some((0, 0))
        } else {
            Some((1, 1))
        },
        Fused::TableFork(_, _) => Some((2, 2)),
        Fused::Forked(m) => modifier_sig(fs, m),
        _ => Some((1, 1)),
    }
}

/// The signature of one instruction.
pub open spec fn instr_sig(fs: Seq<FunctionModel>, instr: Instr) -> Option<(nat, nat)> {
    match instr {
        Instr::Push(_) => Some((0, 1)),
        Instr::Prim(p) => p.signature_spec(),
        Instr::Call(f) => declared(fs, f),
        Instr::MakeArray(n) => Some((n as nat, 1)),
        Instr::Modifier(m) => modifier_sig(fs, m),
        Instr::Fused(x) => fused_sig(fs, x),
    }
}

/// The signature of the first `n` instructions of `body`, inferred from
/// the front.
pub open spec fn infer(fs: Seq<FunctionModel>, body: Seq<Instr>, n: nat) -> Option<(nat, nat)>
    decreases n,
{
    if n == 0 || n > body.len() {
        Some((0, 0))
    } else {
        match (infer(fs, body, (n - 1) as nat), instr_sig(fs, body[n - 1])) {
            (Some(a), Some(b)) => then(a, b),
            _ => None,
        }
    }
}

fn fit(inputs: Option<usize>, outputs: Option<usize>) -> (r: Option<(usize, usize)>)
    ensures
        r == (match (inputs, outputs) {
            (Some(i), Some(o)) => Some((i, o)),
            _ => None::<(usize, usize)>,
        }),
{
    match (inputs, outputs) {
        (Some(i), Some(o)) => Some((i, o)),
        _ => None,
    }
}

/// Whether an inferred signature is the one asked for.
pub open spec fn is_sig(r: Option<(usize, usize)>, want: Option<(nat, nat)>) -> bool {
    match r {
        Some((i, o)) => want == Some((i as nat, o as nat)),
        None => want is None,
    }
}

/// The signature of running `a` and then `b`.
pub fn compose(a: (usize, usize), b: (usize, usize)) -> (r: Option<(usize, usize)>)
    ensures
        is_sig(r, then((a.0 as nat, a.1 as nat), (b.0 as nat, b.1 as nat))),
{
    if a.1 >= b.0 {
        fit(Some(a.0), (a.1 - b.0).checked_add(b.1))
    } else {
        fit(a.0.checked_add(b.0 - a.1), Some(b.1))
    }
}

fn declared_of(table: &Vec<Function>, f: usize) -> (r: Option<(usize, usize)>)
    ensures
        is_sig(r, declared(function_models(table@), f)),
{
    if f < table.len() {
        Some((table[f].inputs, table[f].outputs))
    } else {
        None
    }
}

/// The signature of a modifier.
pub fn modifier_signature(table: &Vec<Function>, m: Modifier) -> (r: Option<(usize, usize)>)
    ensures
        is_sig(r, modifier_sig(function_models(table@), m)),
{
    match m {
        Modifier::Reduce(f) | Modifier::Scan(f) => match declared_of(table, f) {
            Some(_) => Some((1, 1)),
            None => None,
        },
        Modifier::Rows(f) | Modifier::Each(f) => match declared_of(table, f) {
            Some((_, o)) => Some((1, o)),
            None => None,
        },
        Modifier::Table(f) => match declared_of(table, f) {
            Some((_, o)) => Some((2, o)),
            None => None,
        },
        Modifier::Dip(f) => match declared_of(table, f) {
            Some((i, o)) => fit(i.checked_add(1), o.checked_add(1)),
            None => None,
        },
        Modifier::Gap(f) => match declared_of(table, f) {
            Some((i, o)) => fit(i.checked_add(1), Some(o)),
            None => None,
        },
        Modifier::Fork(f, g) => match (declared_of(table, f), declared_of(table, g)) {
            (Some((fi, fo)), Some((gi, go))) => fit(
                Some(
                    if fi >= gi {
                        fi
                    } else {
                        gi
                    },
                ),
                fo.checked_add(go),
            ),
            _ => None,
        },
        Modifier::Bracket(f, g) => match (declared_of(table, f), declared_of(table, g)) {
            (Some((fi, fo)), Some((gi, go))) => fit(fi.checked_add(gi), fo.checked_add(go)),
            _ => None,
        },
        Modifier::Try(f, h) => match (declared_of(table, f), declared_of(table, h)) {
            (Some(a), Some(_)) => Some(a),
            _ => None,
        },
    }
}

/// The signature of one instruction.
pub fn instr_signature(table: &Vec<Function>, instr: Instr) -> (r: Option<(usize, usize)>)
    ensures
        is_sig(r, instr_sig(function_models(table@), instr)),
{
    match instr {
        Instr::Push(_) => Some((0, 1)),
        Instr::Prim(p) => p.signature(),
        Instr::Call(f) => declared_of(table, f),
        Instr::MakeArray(n) => Some((n, 1)),
        Instr::Modifier(m) => modifier_signature(table, m),
        Instr::Fused(x) => match x {
            Fused::Dips { depth, function } => match declared_of(table, function) {
                Some((i, o)) => fit(i.checked_add(depth), o.checked_add(depth)),
                None => None,
            },
            Fused::TableOp(_) | Fused::TablePairs { .. } | Fused::ReduceTable(_, _) | Fused::WindowsReduce(_) => Some((2, 1)),
            Fused::Transposes(n) => if n == 0 {
                Some((0, 0))
            } else {
                Some((1, 1))
            },
            Fused::TableFork(_, _) => Some((2, 2)),
            Fused::Forked(m) => modifier_signature(table, m),
            _ => Some((1, 1)),
        },
    }
}

/// The signature of a whole body, or `None` where an instruction has none
/// or a count does not fit a machine word.
pub fn infer_signature(table: &Vec<Function>, body: &Vec<Instr>) -> (r: Option<(usize, usize)>)
    ensures
        is_sig(r, infer(function_models(table@), body@, body@.len())),
{
    let mut acc: (usize, usize) = (0, 0);
    let mut n: usize = 0;
    while n < body.len()
        invariant
            n <= body@.len(),
            infer(function_models(table@), body@, n as nat) == Some((acc.0 as nat, acc.1 as nat)),
        decreases body@.len() - n,
    {
        let next = match instr_signature(table, body[n]) {
            Some(b) => compose(acc, b),
            None => None,
        };
        match next {
            Some(a) => {
                acc = a;
            },
            None => {
                proof {
                    lemma_infer_none(function_models(table@), body@, (n + 1) as nat, body@.len());
                }
                return None;
            },
        }
        n += 1;
    }
    Some(acc)
}

/// Once a prefix has no signature, no longer prefix has one.
pub proof fn lemma_infer_none(fs: Seq<FunctionModel>, body: Seq<Instr>, n: nat, m: nat)
    requires
        n <= m <= body.len(),
        infer(fs, body, n) is None,
    ensures
        infer(fs, body, m) is None,
    decreases m,
{
    if n < m {
        lemma_infer_none(fs, body, n, (m - 1) as nat);
    }
}

} // verus!
