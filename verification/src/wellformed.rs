//! What the compiler makes is well signed: every function declares the
//! signature inferred from its body, and every instruction names only what
//! stands before it.
use crate::assembly::{lookup_name, Instr, Modifier, Program};
use crate::compile::{
    compile_from, compile_item, compile_items, compile_source, compile_word, modifier_of, Item,
    Source, Unit, Word,
};
use crate::signature::{declared, infer, instr_sig};
use crate::soundness::{body_fits, fits, sound};
use vstd::prelude::*;

verus! {

impl Unit {
    /// The function table and constant pool that the unit holds.
    pub open spec fn table(self) -> Program {
        Program { functions: self.functions, constants: self.constants }
    }

    /// Whether the tables are of a size that machine words can index.
    pub open spec fn bounded(self) -> bool {
        self.functions.len() <= usize::MAX && self.constants.len() <= usize::MAX
    }

    /// Whether the unit is well formed: its functions are well signed, its
    /// top-level instructions are in place, and its names name functions of
    /// its table.
    pub open spec fn well_formed(self) -> bool {
        &&& sound(self.table(), self.functions.len())
        &&& body_fits(self.table(), self.functions.len(), self.main)
        &&& forall|i: int| 0 <= i < self.names.len() ==> (#[trigger] self.names[i]).1 < self.functions.len()
    }

    /// Whether `later` holds all that this unit holds, in place, and
    /// perhaps more functions and constants.
    pub open spec fn grown(self, later: Unit) -> bool {
        &&& self.functions.len() <= later.functions.len()
        &&& later.functions.take(self.functions.len() as int) == self.functions
        &&& self.constants.len() <= later.constants.len()
        &&& self.names == later.names
        &&& self.main == later.main
        &&& self.paths == later.paths
    }
}

/// An instruction in place stays in place when the tables grow.
pub proof fn lemma_fits_grow(p: Program, q: Program, level: nat, up: nat, instr: Instr)
    requires
        fits(p, level, instr),
        level <= p.functions.len(),
        level <= up,
        p.functions.len() <= q.functions.len(),
        q.functions.take(p.functions.len() as int) == p.functions,
        p.constants.len() <= q.constants.len(),
    ensures
        fits(q, up, instr),
        instr_sig(q.functions, instr) == instr_sig(p.functions, instr),
{
    assert forall|f: usize| f < level implies declared(q.functions, f) == declared(
        p.functions,
        f,
    ) && q.functions[f as int] == p.functions[f as int] by {
        assert(q.functions.take(p.functions.len() as int)[f as int] == q.functions[f as int]);
    }
}

pub proof fn lemma_body_grow(p: Program, q: Program, level: nat, up: nat, body: Seq<Instr>, n: nat)
    requires
        body_fits(p, level, body),
        level <= p.functions.len(),
        level <= up,
        p.functions.len() <= q.functions.len(),
        q.functions.take(p.functions.len() as int) == p.functions,
        p.constants.len() <= q.constants.len(),
        n <= body.len(),
    ensures
        body_fits(q, up, body),
        infer(q.functions, body, n) == infer(p.functions, body, n),
    decreases n,
{
    assert forall|i: int| 0 <= i < body.len() implies fits(q, up, #[trigger] body[i]) by {
        lemma_fits_grow(p, q, level, up, body[i]);
    }
    if n > 0 {
        lemma_body_grow(p, q, level, up, body, (n - 1) as nat);
        lemma_fits_grow(p, q, level, up, body[n - 1]);
    }
}

/// Well-signed functions stay well signed when the tables grow behind
/// them.
pub proof fn lemma_sound_grow(p: Program, q: Program, level: nat)
    requires
        sound(p, level),
        p.functions.len() <= q.functions.len(),
        q.functions.take(p.functions.len() as int) == p.functions,
        p.constants.len() <= q.constants.len(),
    ensures
        sound(q, level),
{
    assert forall|f: int| 0 <= f < level implies body_fits(
        q,
        f as nat,
        (#[trigger] q.functions[f]).body,
    ) && infer(q.functions, q.functions[f].body, q.functions[f].body.len()) == Some(
        (q.functions[f].inputs, q.functions[f].outputs),
    ) by {
        assert(q.functions.take(p.functions.len() as int)[f] == q.functions[f]);
        let body = p.functions[f].body;
        lemma_body_grow(p, q, f as nat, f as nat, body, body.len());
    }
}

/// A well-formed unit stays well formed when it grows.
pub proof fn lemma_unit_grow(u: Unit, later: Unit)
    requires
        u.well_formed(),
        u.grown(later),
        sound(later.table(), later.functions.len()),
    ensures
        later.well_formed(),
{
    lemma_body_grow(
        u.table(),
        later.table(),
        u.functions.len(),
        later.functions.len(),
        u.main,
        0,
    );
}

pub proof fn lemma_grown_on(a: Unit, b: Unit, c: Unit)
    requires
        a.grown(b),
        b.grown(c),
    ensures
        a.grown(c),
{
    assert(c.functions.take(a.functions.len() as int) =~= b.functions.take(
        a.functions.len() as int,
    ));
}

/// A body in place at the end of a well-formed unit, with a signature,
/// makes a well-formed unit when it is defined as one more function.
pub proof fn lemma_define(u: Unit, body: Seq<Instr>)
    requires
        u.well_formed(),
        body_fits(u.table(), u.functions.len(), body),
    ensures
        match u.define(body) {
            Ok((later, f)) => later.bounded() ==> {
                &&& later.well_formed()
                &&& u.grown(later)
                &&& f == u.functions.len()
                &&& later.functions.len() == u.functions.len() + 1
                &&& declared(later.functions, f) == infer(u.functions, body, body.len())
                &&& later.constants == u.constants
            },
            Err(_) => true,
        },
{
    if let Ok((later, f)) = u.define(body) {
        if later.bounded() {
            let n = u.functions.len();
            assert(later.functions.take(n as int) =~= u.functions);
            lemma_sound_grow(u.table(), later.table(), n);
            lemma_body_grow(u.table(), later.table(), n, n, body, body.len());
            assert(later.functions[n as int].body == body);
            assert forall|g: int| 0 <= g < n + 1 implies body_fits(
                later.table(),
                g as nat,
                (#[trigger] later.functions[g]).body,
            ) && infer(later.functions, later.functions[g].body, later.functions[g].body.len())
                == Some((later.functions[g].inputs, later.functions[g].outputs)) by {}
            lemma_unit_grow(u, later);
        }
    }
}

/// The modifier instruction for accepted functions is in place.
proof fn lemma_modifier_fits(u: Unit, m: crate::primitive::Primitive, f: usize, g: usize)
    requires
        m.operands() > 0,
        f < u.functions.len(),
        g < u.functions.len(),
        u.accepts(m, f, g),
    ensures
        fits(u.table(), u.functions.len(), Instr::Modifier(modifier_of(m, f, g))),
{
}

/// Whether compiling left a well-formed unit that holds what `u` held,
/// and instructions in place at its end.
pub open spec fn compiled_well(u: Unit, r: crate::compile::Compiled) -> bool {
    match r {
        Ok((later, body)) => later.bounded() ==> {
            &&& later.well_formed()
            &&& u.grown(later)
            &&& body_fits(later.table(), later.functions.len(), body)
        },
        Err(_) => true,
    }
}

proof fn lemma_constant(u: Unit, a: crate::value::Array)
    requires
        u.well_formed(),
    ensures
        compiled_well(u, u.constant(a)),
{
    let (later, body) = u.constant(a)->Ok_0;
    if later.bounded() {
        assert(later.functions.take(u.functions.len() as int) =~= u.functions);
        lemma_sound_grow(u.table(), later.table(), u.functions.len());
        lemma_unit_grow(u, later);
    }
}

proof fn lemma_refer(u: Unit, name: Seq<char>)
    requires
        u.well_formed(),
    ensures
        compiled_well(u, u.refer(name)),
{
    if let Ok((later, body)) = u.refer(name) {
        if later.bounded() {
            lemma_lookup(u.names, name);
            let f = lookup_name(u.names, name)->0;
            assert(f < u.functions.len());
            assert(later.functions.take(u.functions.len() as int) =~= u.functions);
            if body[0] is Push {
                let inner = u.functions[f as int].body;
                assert(fits(u.table(), f as nat, inner[0]));
            }
        }
    }
}

/// Whether compiling an operand left a well-formed unit that holds what
/// `u` held, with the operand as the last function of its table.
pub open spec fn operand_well(u: Unit, r: Result<(Unit, usize), crate::error::CompileFault>) -> bool {
    match r {
        Ok((later, f)) => later.bounded() ==> {
            &&& later.well_formed()
            &&& u.grown(later)
            &&& f + 1 == later.functions.len()
        },
        Err(_) => true,
    }
}

proof fn lemma_operand(u: Unit, w: Word)
    requires
        u.well_formed(),
    ensures
        operand_well(u, crate::compile::compile_operand(u, w)),
    decreases w, 1nat,
{
    if let Ok((later, f)) = crate::compile::compile_operand(u, w) {
        if later.bounded() {
            let (u1, body) = compile_word(u, w)->Ok_0;
            lemma_word(u, w);
            lemma_define(u1, body);
            lemma_grown_on(u, u1, later);
        }
    }
}

proof fn lemma_apply_modifier(u: Unit, base: Unit, m: crate::primitive::Primitive, f: usize, g: usize)
    requires
        u.well_formed(),
        base.grown(u),
        m.operands() > 0,
        f < u.functions.len(),
        g < u.functions.len(),
    ensures
        compiled_well(base, u.modified(m, f, g)),
{
    if u.accepts(m, f, g) {
        lemma_modifier_fits(u, m, f, g);
    }
}

proof fn lemma_modified(u: Unit, m: crate::primitive::Primitive, ops: Vec<Word>)
    requires
        u.well_formed(),
    ensures
        compiled_well(u, compile_word(u, Word::Modified(m, ops))),
    decreases ops, 2nat,
{
    let w = Word::Modified(m, ops);
    if let Ok((later, body)) = compile_word(u, w) {
        if later.bounded() {
            let (u1, f) = crate::compile::compile_operand(u, ops@[0])->Ok_0;
            if m.operands() == 1 {
                lemma_operand(u, ops@[0]);
                lemma_apply_modifier(u1, u, m, f, f);
            } else {
                let (u2, g) = crate::compile::compile_operand(u1, ops@[1])->Ok_0;
                lemma_operand_grows(u1, ops@[1]);
                lemma_operand(u, ops@[0]);
                lemma_operand(u1, ops@[1]);
                lemma_grown_on(u, u1, u2);
                lemma_apply_modifier(u2, u, m, f, g);
            }
        }
    }
}

proof fn lemma_operand_grows(u: Unit, w: Word)
    ensures
        match crate::compile::compile_operand(u, w) {
            Ok((later, _)) => u.functions.len() <= later.functions.len() && u.constants.len()
                <= later.constants.len(),
            Err(_) => true,
        },
{
    lemma_word_grows(u, w);
}

/// Compiling a word in a well-formed unit leaves a well-formed unit and
/// instructions that are in place at its end.
pub proof fn lemma_word(u: Unit, w: Word)
    requires
        u.well_formed(),
    ensures
        compiled_well(u, compile_word(u, w)),
    decreases w, 0nat,
{
    match w {
        Word::Number(n) => lemma_constant(u, crate::value::Array::scalar(crate::value::Cell::Num(n))),
        Word::Character(c) => lemma_constant(
            u,
            crate::value::Array::scalar(crate::value::Cell::Char(c)),
        ),
        Word::Text(t) => lemma_constant(u, crate::value::Array::string(t@)),
        Word::Ident(name) => lemma_refer(u, name@),
        Word::Prim(_) => {
            assert(u.functions.take(u.functions.len() as int) =~= u.functions);
        },
        Word::Func(ws) => {
            lemma_words(u, ws, 0);
        },
        Word::Array(ws) => {
            lemma_words(u, ws, 0);
        },
        Word::Modified(m, ops) => {
            lemma_modified(u, m, ops);
        },
    }
}

/// Compiling only adds to the tables.
pub proof fn lemma_word_grows(u: Unit, w: Word)
    ensures
        match compile_word(u, w) {
            Ok((later, _)) => u.functions.len() <= later.functions.len() && u.constants.len()
                <= later.constants.len(),
            Err(_) => true,
        },
    decreases w, 0nat,
{
    if let Ok((later, body)) = compile_word(u, w) {
        match w {
            Word::Func(ws) => lemma_words_grow(u, ws, 0),
            Word::Array(ws) => lemma_words_grow(u, ws, 0),
            Word::Modified(m, ops) => {
                lemma_word_grows(u, ops@[0]);
                let (u1, f) = crate::compile::compile_operand(u, ops@[0])->Ok_0;
                if m.operands() != 1 {
                    lemma_word_grows(u1, ops@[1]);
                }
            },
            _ => {},
        }
    }
}

pub proof fn lemma_words_grow(u: Unit, ws: Vec<Word>, k: nat)
    ensures
        match compile_from(u, ws, k) {
            Ok((later, _)) => u.functions.len() <= later.functions.len() && u.constants.len()
                <= later.constants.len(),
            Err(_) => true,
        },
    decreases ws, ws@.len() - k,
{
    if k < ws@.len() {
        lemma_words_grow(u, ws, k + 1);
        if let Ok((u1, tail)) = compile_from(u, ws, k + 1) {
            lemma_word_grows(u1, ws@[k as int]);
        }
    }
}

/// Compiling words in a well-formed unit leaves a well-formed unit and
/// instructions that are in place at its end.
pub proof fn lemma_words(u: Unit, ws: Vec<Word>, k: nat)
    requires
        u.well_formed(),
    ensures
        compiled_well(u, compile_from(u, ws, k)),
    decreases ws, ws@.len() - k,
{
    if let Ok((later, body)) = compile_from(u, ws, k) {
        if later.bounded() {
            if k >= ws@.len() {
                assert(later.functions.take(u.functions.len() as int) =~= u.functions);
            } else {
                let (u1, tail) = compile_from(u, ws, k + 1)->Ok_0;
                lemma_word_grows(u1, ws@[k as int]);
                lemma_words(u, ws, k + 1);
                lemma_word(u1, ws@[k as int]);
                let (u2, head) = compile_word(u1, ws@[k as int])->Ok_0;
                lemma_grown_on(u, u1, u2);
                lemma_body_grow(
                    u1.table(),
                    u2.table(),
                    u1.functions.len(),
                    u2.functions.len(),
                    tail,
                    0,
                );
                assert forall|i: int| 0 <= i < body.len() implies fits(
                    later.table(),
                    later.functions.len(),
                    #[trigger] body[i],
                ) by {
                    if i < tail.len() {
                        assert(body[i] == tail[i]);
                    } else {
                        assert(body[i] == head[i - tail.len()]);
                    }
                }
            }
        }
    }
}

/// A name that is bound is bound to one of the functions listed.
pub proof fn lemma_lookup(names: Seq<(Seq<char>, nat)>, name: Seq<char>)
    ensures
        match lookup_name(names, name) {
            Some(f) => exists|i: int| 0 <= i < names.len() && f == (#[trigger] names[i]).1 as usize,
            None => true,
        },
    decreases names.len(),
{
    if names.len() > 0 && names.last().0 != name {
        lemma_lookup(names.drop_last(), name);
        if let Some(f) = lookup_name(names.drop_last(), name) {
            let i = choose|i: int|
                0 <= i < names.drop_last().len() && f == (#[trigger] names.drop_last()[i]).1 as usize;
            assert(names[i] == names.drop_last()[i]);
        }
    }
}

/// Compiling an item in a well-formed unit leaves a well-formed unit.
pub proof fn lemma_item(u: Unit, item: Item)
    requires
        u.well_formed(),
    ensures
        match compile_item(u, item) {
            Ok(later) => later.bounded() ==> later.well_formed(),
            Err(_) => true,
        },
{
    if let Ok(later) = compile_item(u, item) {
        if later.bounded() {
            match item {
                Item::Binding(name, ws) => {
                    let (u1, body) = compile_from(u, ws, 0)->Ok_0;
                    let (u2, f) = u1.define(body)->Ok_0;
                    lemma_words(u, ws, 0);
                    lemma_define(u1, body);
                    assert forall|i: int| 0 <= i < later.names.len() implies (
                    #[trigger] later.names[i]).1 < later.functions.len() by {
                        if i < u2.names.len() {
                            assert(later.names[i] == u.names[i]);
                        }
                    }
                },
                Item::Words(ws) => {
                    let (u1, body) = compile_from(u, ws, 0)->Ok_0;
                    lemma_words(u, ws, 0);
                    assert forall|i: int| 0 <= i < later.main.len() implies fits(
                        later.table(),
                        later.functions.len(),
                        #[trigger] later.main[i],
                    ) by {
                        if i < u1.main.len() {
                            assert(later.main[i] == u1.main[i]);
                        } else {
                            assert(later.main[i] == body[i - u1.main.len()]);
                        }
                    }
                },
            }
        }
    }
}

/// Compiling an item only adds to the tables.
pub proof fn lemma_item_grows(u: Unit, item: Item)
    ensures
        match compile_item(u, item) {
            Ok(later) => u.functions.len() <= later.functions.len() && u.constants.len()
                <= later.constants.len(),
            Err(_) => true,
        },
{
    match item {
        Item::Binding(_, ws) => lemma_words_grow(u, ws, 0),
        Item::Words(ws) => lemma_words_grow(u, ws, 0),
    }
}

/// Compiling items only adds to the tables.
pub proof fn lemma_items_grow(u: Unit, items: Seq<Item>, n: nat)
    ensures
        match compile_items(u, items, n) {
            Ok(later) => u.functions.len() <= later.functions.len() && u.constants.len()
                <= later.constants.len(),
            Err(_) => true,
        },
    decreases n,
{
    if n > 0 && n <= items.len() {
        lemma_items_grow(u, items, (n - 1) as nat);
        if let Ok(u1) = compile_items(u, items, (n - 1) as nat) {
            lemma_item_grows(u1, items[n - 1]);
        }
    }
}

/// Whether a unit is well formed if it is bounded.
pub closed spec fn well_if_bounded(u: Unit) -> bool {
    u.bounded() ==> u.well_formed()
}

proof fn lemma_item_step(u1: Unit, item: Item)
    requires
        well_if_bounded(u1),
    ensures
        match compile_item(u1, item) {
            Ok(later) => well_if_bounded(later),
            Err(_) => true,
        },
{
    lemma_item_grows(u1, item);
    if let Ok(later) = compile_item(u1, item) {
        if later.bounded() {
            lemma_item(u1, item);
        }
    }
}

/// Compiling items in a well-formed unit leaves a well-formed unit.
pub proof fn lemma_items(u: Unit, items: Seq<Item>, n: nat)
    requires
        well_if_bounded(u),
    ensures
        match compile_items(u, items, n) {
            Ok(later) => well_if_bounded(later),
            Err(_) => true,
        },
    decreases n,
{
    if n > 0 && n <= items.len() {
        lemma_items(u, items, (n - 1) as nat);
        if let Ok(u1) = compile_items(u, items, (n - 1) as nat) {
            lemma_item_step(u1, items[n - 1]);
        }
    }
}

/// What a well-formed unit makes of a source is well formed, where the
/// tables stay of a size that machine words can index.
pub proof fn lemma_source(u: Unit, source: Source, path: Seq<char>)
    requires
        u.well_formed(),
    ensures
        match compile_source(u, source, path) {
            Ok(later) => later.bounded() ==> later.well_formed(),
            Err(_) => true,
        },
{
    if let Source::Parsed(items) = source {
        lemma_items(u, items@, items@.len());
        if let Ok(u1) = compile_items(u, items@, items@.len()) {
            let later = Unit { paths: u1.paths.push(path), ..u1 };
            assert(later.table() == u1.table());
        }
    }
}

/// A well-formed unit whose top-level instructions take nothing from the
/// stack never finds the stack short when it runs.
pub proof fn lemma_unit_never_short(u: Unit)
    requires
        u.well_formed(),
        infer(u.functions, u.main, u.main.len()) matches Some(sig) && sig.0 == 0,
    ensures
        crate::soundness::kept(
            u.table().run(u.main),
            0,
            infer(u.functions, u.main, u.main.len())->0,
        ),
{
    crate::soundness::lemma_never_short(u.table(), u.main);
}

} // verus!
