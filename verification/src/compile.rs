//! The compiler: lowers parsed source into a flat assembly.
//!
//! Words of a line run from right to left, so the compiler emits the
//! instructions of the rightmost word first. Every function that a modifier
//! applies becomes an entry of the function table, put there before the
//! instruction that names it.
use crate::assembly::{
    function_models, lookup_name, Assembly, Binding, Function, FunctionModel, Instr, Modifier,
};
use crate::error::{CompileError, CompileFault};
use crate::optimize::{fuse, optimize, pass};
use crate::primitive::Primitive;
use crate::signature::{infer, infer_signature};
use crate::value::{lemma_views_push, views, Array, Cell, Elem, Value};
use vstd::prelude::*;

verus! {

/// One word of parsed source.
pub enum Word {
    /// A number literal.
    Number(i64),
    /// A character literal.
    Character(char),
    /// A string literal.
    Text(String),
    /// A name that a binding gave to a function or constant.
    Ident(String),
    /// A built-in function.
    Prim(Primitive),
    /// A modifier with the functions it applies.
    Modified(Primitive, Vec<Word>),
    /// An inline function: words in parentheses.
    Func(Vec<Word>),
    /// A stack-to-array literal: words in square brackets.
    Array(Vec<Word>),
}

/// One top-level item of parsed source.
pub enum Item {
    /// A name bound to the words after it.
    Binding(String, Vec<Word>),
    /// A line of words to run.
    Words(Vec<Word>),
}

/// What the parser made of a source text.
pub enum Source {
    Parsed(Vec<Item>),
    /// The parser rejected the text; carries its message.
    Failed(String),
}

/// What a compiler holds, as mathematics sees it.
pub struct Unit {
    pub functions: Seq<FunctionModel>,
    pub constants: Seq<Array>,
    pub names: Seq<(Seq<char>, nat)>,
    pub main: Seq<Instr>,
    pub paths: Seq<Seq<char>>,
}

pub type Compiled = Result<(Unit, Seq<Instr>), CompileFault>;

impl Unit {
    /// An empty compiler.
    pub open spec fn empty() -> Unit {
        Unit {
            functions: Seq::empty(),
            constants: Seq::empty(),
            names: Seq::empty(),
            main: Seq::empty(),
            paths: Seq::empty(),
        }
    }

    /// With one more constant, the instruction that pushes it.
    pub open spec fn constant(self, a: Array) -> Compiled {
        Ok(
            (
                Unit { constants: self.constants.push(a), ..self },
                seq![Instr::Push(self.constants.len() as usize)],
            ),
        )
    }

    /// With `body` as one more function, and its place in the table; fails
    /// where the body has no signature.
    pub open spec fn define(self, body: Seq<Instr>) -> Result<(Unit, usize), CompileFault> {
        match infer(self.functions, body, body.len()) {
            Some((inputs, outputs)) => Ok(
                (
                    Unit {
                        functions: self.functions.push(FunctionModel { body, inputs, outputs }),
                        ..self
                    },
                    self.functions.len() as usize,
                ),
            ),
            None => Err(CompileFault::SignatureMismatch),
        }
    }

    /// The instruction for a name: a bound constant is pushed in place, any
    /// other bound function is called.
    pub open spec fn refer(self, name: Seq<char>) -> Compiled {
        match lookup_name(self.names, name) {
            None => Err(CompileFault::UnknownIdentifier(name)),
            Some(f) => if f < self.functions.len() && self.functions[f as int].body.len() == 1
                && self.functions[f as int].body[0] is Push {
                Ok((self, seq![self.functions[f as int].body[0]]))
            } else {
                Ok((self, seq![Instr::Call(f)]))
            },
        }
    }

    /// The instruction that applies modifier `m` to the functions `f` and
    /// `g`, where it accepts them.
    pub open spec fn modified(self, m: Primitive, f: usize, g: usize) -> Compiled {
        if self.accepts(m, f, g) {
            Ok((self, seq![Instr::Modifier(modifier_of(m, f, g))]))
        } else {
            Err(CompileFault::SignatureMismatch)
        }
    }

    /// Whether modifier `m` accepts functions `f` and `g` of the table
    /// (`g` counts only where `m` takes two).
    pub open spec fn accepts(self, m: Primitive, f: usize, g: usize) -> bool {
        let a = (self.functions[f as int].inputs, self.functions[f as int].outputs);
        let b = (self.functions[g as int].inputs, self.functions[g as int].outputs);
        match m {
            Primitive::Reduce | Primitive::Scan => a == (2nat, 1nat),
            Primitive::Table => a.0 == 2,
            Primitive::Rows | Primitive::Each => a.0 == 1,
            Primitive::Try => a == b,
            _ => true,
        }
    }
}

/// The modifier instruction for `m` applied to the functions `f` and `g`.
pub open spec fn modifier_of(m: Primitive, f: usize, g: usize) -> Modifier {
    match m {
        Primitive::Reduce => Modifier::Reduce(f),
        Primitive::Scan => Modifier::Scan(f),
        Primitive::Table => Modifier::Table(f),
        Primitive::Rows => Modifier::Rows(f),
        Primitive::Each => Modifier::Each(f),
        Primitive::Gap => Modifier::Gap(f),
        Primitive::Fork => Modifier::Fork(f, g),
        Primitive::Bracket => Modifier::Bracket(f, g),
        Primitive::Try => Modifier::Try(f, g),
        _ => Modifier::Dip(f),
    }
}

/// The instructions for one word, and the compiler after it.
pub open spec fn compile_word(u: Unit, w: Word) -> Compiled
    decreases w, 0nat,
{
    match w {
        Word::Number(n) => u.constant(Array::scalar(Cell::Num(n))),
        Word::Character(c) => u.constant(Array::scalar(Cell::Char(c))),
        Word::Text(s) => u.constant(Array::string(s@)),
        Word::Ident(name) => u.refer(name@),
        Word::Prim(p) => if p.signature_spec() is Some {
            Ok((u, seq![Instr::Prim(p)]))
        } else {
            Err(CompileFault::SignatureMismatch)
        },
        Word::Func(ws) => compile_from(u, ws, 0),
        Word::Array(ws) => match compile_from(u, ws, 0) {
            Ok((u1, body)) => match infer(u1.functions, body, body.len()) {
                Some((inputs, outputs)) => if inputs == 0 {
                    Ok((u1, body.push(Instr::MakeArray(outputs as usize))))
                } else {
                    Err(CompileFault::SignatureMismatch)
                },
                None => Err(CompileFault::SignatureMismatch),
            },
            Err(e) => Err(e),
        },
        Word::Modified(m, ops) => if m.operands() == 0 || ops@.len() != m.operands() {
            Err(CompileFault::SignatureMismatch)
        } else {
            match compile_operand(u, ops@[0]) {
                Ok((u1, f)) => if m.operands() == 1 {
                    u1.modified(m, f, f)
                } else {
                    match compile_operand(u1, ops@[1]) {
                        Ok((u2, g)) => u2.modified(m, f, g),
                        Err(e) => Err(e),
                    }
                },
                Err(e) => Err(e),
            }
        },
    }
}

/// The function that a modifier is to apply, compiled from one word and
/// put into the table; and its place there.
pub open spec fn compile_operand(u: Unit, w: Word) -> Result<(Unit, usize), CompileFault>
    decreases w, 1nat,
{
    match compile_word(u, w) {
        Ok((u1, body)) => u1.define(body),
        Err(e) => Err(e),
    }
}

/// The instructions for the words from place `k` on: those of the
/// rightmost word first.
pub open spec fn compile_from(u: Unit, ws: Vec<Word>, k: nat) -> Compiled
    decreases ws, ws@.len() - k,
{
    if k >= ws@.len() {
        Ok((u, Seq::empty()))
    } else {
        match compile_from(u, ws, k + 1) {
            Ok((u1, tail)) => match compile_word(u1, ws@[k as int]) {
                Ok((u2, head)) => Ok((u2, tail + head)),
                Err(e) => Err(e),
            },
            Err(e) => Err(e),
        }
    }
}

/// The compiler after one item: a binding becomes a function under its
/// name, a line of words goes to the end of the top-level instructions.
pub open spec fn compile_item(u: Unit, item: Item) -> Result<Unit, CompileFault> {
    match item {
        Item::Binding(name, ws) => match compile_from(u, ws, 0) {
            Ok((u1, body)) => match u1.define(body) {
                Ok((u2, f)) => Ok(Unit { names: u2.names.push((name@, f as nat)), ..u2 }),
                Err(e) => Err(e),
            },
            Err(e) => Err(e),
        },
        Item::Words(ws) => match compile_from(u, ws, 0) {
            Ok((u1, body)) => Ok(Unit { main: u1.main + body, ..u1 }),
            Err(e) => Err(e),
        },
    }
}

/// The compiler after the first `n` items, taken in order.
pub open spec fn compile_items(u: Unit, items: Seq<Item>, n: nat) -> Result<Unit, CompileFault>
    decreases n,
{
    if n == 0 || n > items.len() {
        Ok(u)
    } else {
        match compile_items(u, items, (n - 1) as nat) {
            Ok(u1) => compile_item(u1, items[n - 1]),
            Err(e) => Err(e),
        }
    }
}

/// The compiler after a whole source read from `path`.
pub open spec fn compile_source(u: Unit, source: Source, path: Seq<char>) -> Result<
    Unit,
    CompileFault,
> {
    match source {
        Source::Failed(message) => Err(CompileFault::Syntax(message@)),
        Source::Parsed(items) => match compile_items(u, items@, items@.len()) {
            Ok(u1) => Ok(Unit { paths: u1.paths.push(path), ..u1 }),
            Err(e) => Err(e),
        },
    }
}

/// The compiler: gathers functions, constants and bindings from the
/// sources it loads.
pub struct Compiler {
    functions: Vec<Function>,
    constants: Vec<Value>,
    bindings: Vec<Binding>,
    main: Vec<Instr>,
    paths: Vec<String>,
}

/// The names that stored bindings bind.
pub open spec fn binding_names(bindings: Seq<Binding>) -> Seq<(Seq<char>, nat)> {
    Seq::new(bindings.len(), |i: int| (bindings[i].name@, bindings[i].function as nat))
}

/// The texts of stored strings.
pub open spec fn texts(strings: Seq<String>) -> Seq<Seq<char>> {
    Seq::new(strings.len(), |i: int| strings[i]@)
}

impl View for Compiler {
    type V = Unit;

    closed spec fn view(&self) -> Unit {
        Unit {
            functions: function_models(self.functions@),
            constants: views(self.constants@),
            names: binding_names(self.bindings@),
            main: self.main@,
            paths: texts(self.paths@),
        }
    }
}

/// Whether an outcome of the compiler is the one asked for.
pub open spec fn compiled(r: Result<Vec<Instr>, CompileError>, after: Unit, want: Compiled) -> bool {
    match r {
        Ok(body) => want == Ok::<(Unit, Seq<Instr>), CompileFault>((after, body@)),
        Err(e) => want == Err::<(Unit, Seq<Instr>), CompileFault>(e@),
    }
}

impl Compiler {
    /// A compiler that has loaded nothing.
    pub fn new() -> (r: Compiler)
        ensures
            r@ == Unit::empty(),
            r@.well_formed(),
    {
        let r = Compiler {
            functions: Vec::new(),
            constants: Vec::new(),
            bindings: Vec::new(),
            main: Vec::new(),
            paths: Vec::new(),
        };
        assert(r@.functions =~= Seq::<FunctionModel>::empty());
        assert(r@.constants =~= Seq::<Array>::empty());
        assert(r@.names =~= Seq::<(Seq<char>, nat)>::empty());
        assert(r@.paths =~= Seq::<Seq<char>>::empty());
        r
    }

    /// Whether this compiler holds the functions and constants that
    /// `before` held, in place, and perhaps more; and the same bindings,
    /// top-level instructions and paths.
    closed spec fn grown_from(self, before: Compiler) -> bool {
        &&& before.functions@.len() <= self.functions@.len()
        &&& self.functions@.take(before.functions@.len() as int) == before.functions@
        &&& before.constants@.len() <= self.constants@.len()
        &&& self.constants@.take(before.constants@.len() as int) == before.constants@
        &&& self.bindings@ == before.bindings@
        &&& self.main@ == before.main@
        &&& self.paths@ == before.paths@
    }

    fn add_constant(&mut self, v: Value) -> (body: Vec<Instr>)
        ensures
            old(self)@.constant(v@) == Ok::<(Unit, Seq<Instr>), CompileFault>((final(self)@, body@)),
            final(self).grown_from(*old(self)),
    {
        let k = self.constants.len();
        proof {
            lemma_views_push(self.constants@, v);
        }
        self.constants.push(v);
        let mut body: Vec<Instr> = Vec::new();
        body.push(Instr::Push(k));
        assert(body@ =~= seq![Instr::Push(k)]);
        assert(self.constants@.take(k as int) =~= old(self).constants@);
        assert(self.functions@.take(self.functions@.len() as int) =~= self.functions@);
        body
    }

    fn define(&mut self, body: Vec<Instr>) -> (r: Result<usize, CompileError>)
        ensures
            match r {
                Ok(f) => old(self)@.define(body@) == Ok::<(Unit, usize), CompileFault>(
                    (final(self)@, f),
                ) && f < final(self)@.functions.len(),
                Err(e) => old(self)@.define(body@) == Err::<(Unit, usize), CompileFault>(e@),
            },
            final(self).grown_from(*old(self)),
    {
        assert(self.functions@.take(self.functions@.len() as int) =~= self.functions@);
        assert(self.constants@.take(self.constants@.len() as int) =~= self.constants@);
        match infer_signature(&self.functions, &body) {
            Some((inputs, outputs)) => {
                let f = self.functions.len();
                let ghost model = FunctionModel {
                    body: body@,
                    inputs: inputs as nat,
                    outputs: outputs as nat,
                };
                self.functions.push(Function { body, inputs, outputs });
                assert(function_models(self.functions@) =~= function_models(
                    old(self).functions@,
                ).push(model));
                assert(self.functions@.take(f as int) =~= old(self).functions@);
                Ok(f)
            },
            None => Err(CompileError::SignatureMismatch),
        }
    }

    fn refer(&self, name: &String) -> (r: Result<Vec<Instr>, CompileError>)
        ensures
            compiled(r, self@, self@.refer(name@)),
    {
        let mut i: usize = self.bindings.len();
        let ghost names = binding_names(self.bindings@);
        assert(names.take(i as int) =~= names);
        let mut found: Option<usize> = None;
        while i > 0 && found.is_none()
            invariant
                i <= self.bindings@.len(),
                names == binding_names(self.bindings@),
                match found {
                    Some(f) => lookup_name(names, name@) == Some(f),
                    None => lookup_name(names, name@) == lookup_name(names.take(i as int), name@),
                },
            decreases i + (if found is None { 1int } else { 0int }),
        {
            i -= 1;
            proof {
                assert(names.take(i + 1).drop_last() =~= names.take(i as int));
            }
            if self.bindings[i].name == *name {
                found = Some(self.bindings[i].function);
            }
        }
        let mut body: Vec<Instr> = Vec::new();
        match found {
            None => Err(CompileError::UnknownIdentifier(name.clone())),
            Some(f) => {
                if f < self.functions.len() && self.functions[f].body.len() == 1 {
                    match self.functions[f].body[0] {
                        Instr::Push(k) => {
                            body.push(Instr::Push(k));
                            assert(body@ =~= seq![self@.functions[f as int].body[0]]);
                            return Ok(body);
                        },
                        _ => {},
                    }
                }
                body.push(Instr::Call(f));
                assert(body@ =~= seq![Instr::Call(f)]);
                Ok(body)
            },
        }
    }

    fn accepts(&self, m: Primitive, f: usize, g: usize) -> (r: bool)
        requires
            f < self@.functions.len(),
            g < self@.functions.len(),
        ensures
            r == self@.accepts(m, f, g),
    {
        let a = (self.functions[f].inputs, self.functions[f].outputs);
        let b = (self.functions[g].inputs, self.functions[g].outputs);
        match m {
            Primitive::Reduce | Primitive::Scan => a.0 == 2 && a.1 == 1,
            Primitive::Table => a.0 == 2,
            Primitive::Rows | Primitive::Each => a.0 == 1,
            Primitive::Try => a.0 == b.0 && a.1 == b.1,
            _ => true,
        }
    }

    /// Compiles one word. After a failure the compiler holds what it held
    /// before and perhaps more functions and constants.
    fn word(&mut self, w: &Word) -> (r: Result<Vec<Instr>, CompileError>)
        ensures
            compiled(r, final(self)@, compile_word(old(self)@, *w)),
            final(self).grown_from(*old(self)),
        decreases w, 0nat,
    {
        assert(self.functions@.take(self.functions@.len() as int) =~= self.functions@);
        assert(self.constants@.take(self.constants@.len() as int) =~= self.constants@);
        match w {
            Word::Number(n) => Ok(self.add_constant(Value::scalar(Elem::Num(*n)))),
            Word::Character(c) => Ok(self.add_constant(Value::scalar(Elem::Char(*c)))),
            Word::Text(s) => Ok(self.add_constant(Value::text(s.as_str()))),
            Word::Ident(name) => self.refer(name),
            Word::Prim(p) => {
                if p.signature().is_some() {
                    let mut body: Vec<Instr> = Vec::new();
                    body.push(Instr::Prim(*p));
                    assert(body@ =~= seq![Instr::Prim(*p)]);
                    Ok(body)
                } else {
                    Err(CompileError::SignatureMismatch)
                }
            },
            Word::Func(ws) => self.words(ws, 0),
            Word::Array(ws) => {
                let mut body = match self.words(ws, 0) {
                    Ok(body) => body,
                    Err(e) => {
                        return Err(e);
                    },
                };
                match infer_signature(&self.functions, &body) {
                    Some((inputs, outputs)) => {
                        if inputs == 0 {
                            body.push(Instr::MakeArray(outputs));
                            Ok(body)
                        } else {
                            Err(CompileError::SignatureMismatch)
                        }
                    },
                    None => Err(CompileError::SignatureMismatch),
                }
            },
            Word::Modified(m, ops) => {
                let n = m.modifier_args();
                if n == 0 || ops.len() != n {
                    return Err(CompileError::SignatureMismatch);
                }
                let ghost u0 = self@;
                let ghost c0 = *self;
                let fb = match self.word(&ops[0]) {
                    Ok(fb) => fb,
                    Err(e) => {
                        return Err(e);
                    },
                };
                let ghost c1 = *self;
                let f = match self.define(fb) {
                    Ok(f) => f,
                    Err(e) => {
                        proof {
                            Self::lemma_grown(c0, c1, *self);
                        }
                        return Err(e);
                    },
                };
                proof {
                    Self::lemma_grown(c0, c1, *self);
                }
                let ghost c2 = *self;
                let g = if n == 1 {
                    f
                } else {
                    let gb = match self.word(&ops[1]) {
                        Ok(gb) => gb,
                        Err(e) => {
                            proof {
                                Self::lemma_grown(c0, c2, *self);
                            }
                            return Err(e);
                        },
                    };
                    proof {
                        Self::lemma_grown(c0, c2, *self);
                    }
                    let ghost c3 = *self;
                    match self.define(gb) {
                        Ok(g) => {
                            proof {
                                Self::lemma_grown(c0, c3, *self);
                                assert(self.functions@[f as int] == c2.functions@[f as int]) by {
                                    Self::lemma_grown(c2, c3, *self);
                                    assert(self.functions@.take(c2.functions@.len() as int)[f as int]
                                        == self.functions@[f as int]);
                                }
                            }
                            g
                        },
                        Err(e) => {
                            proof {
                                Self::lemma_grown(c0, c3, *self);
                            }
                            return Err(e);
                        },
                    }
                };
                if !self.accepts(*m, f, g) {
                    return Err(CompileError::SignatureMismatch);
                }
                let modifier = match m {
                    Primitive::Reduce => Modifier::Reduce(f),
                    Primitive::Scan => Modifier::Scan(f),
                    Primitive::Table => Modifier::Table(f),
                    Primitive::Rows => Modifier::Rows(f),
                    Primitive::Each => Modifier::Each(f),
                    Primitive::Gap => Modifier::Gap(f),
                    Primitive::Fork => Modifier::Fork(f, g),
                    Primitive::Bracket => Modifier::Bracket(f, g),
                    Primitive::Try => Modifier::Try(f, g),
                    _ => Modifier::Dip(f),
                };
                let mut body: Vec<Instr> = Vec::new();
                body.push(Instr::Modifier(modifier));
                assert(body@ =~= seq![Instr::Modifier(modifier_of(*m, f, g))]);
                Ok(body)
            },
        }
    }

    /// Growth goes on: what has grown from a compiler that had grown from
    /// another has grown from that other.
    proof fn lemma_grown(a: Compiler, b: Compiler, c: Compiler)
        requires
            b.grown_from(a),
            c.grown_from(b),
        ensures
            c.grown_from(a),
    {
        assert(c.functions@.take(a.functions@.len() as int) =~= b.functions@.take(
            a.functions@.len() as int,
        ));
        assert(c.constants@.take(a.constants@.len() as int) =~= b.constants@.take(
            a.constants@.len() as int,
        ));
    }

    /// Compiles the words from place `k` on, the rightmost first.
    fn words(&mut self, ws: &Vec<Word>, k: usize) -> (r: Result<Vec<Instr>, CompileError>)
        ensures
            compiled(r, final(self)@, compile_from(old(self)@, *ws, k as nat)),
            final(self).grown_from(*old(self)),
        decreases ws, ws@.len() - k,
    {
        assert(self.functions@.take(self.functions@.len() as int) =~= self.functions@);
        assert(self.constants@.take(self.constants@.len() as int) =~= self.constants@);
        if k >= ws.len() {
            return Ok(Vec::new());
        }
        let ghost c0 = *self;
        let mut tail = match self.words(ws, k + 1) {
            Ok(tail) => tail,
            Err(e) => {
                return Err(e);
            },
        };
        let ghost c1 = *self;
        let ghost before = tail@;
        match self.word(&ws[k]) {
            Ok(head) => {
                proof {
                    Self::lemma_grown(c0, c1, *self);
                }
                let mut head = head;
                let ghost h = head@;
                tail.append(&mut head);
                assert(tail@ =~= before + h);
                Ok(tail)
            },
            Err(e) => {
                proof {
                    Self::lemma_grown(c0, c1, *self);
                }
                Err(e)
            },
        }
    }

    /// Whether this compiler holds all that `before` held, in place, and
    /// perhaps more.
    closed spec fn extends(self, before: Compiler) -> bool {
        &&& before.functions@.len() <= self.functions@.len()
        &&& self.functions@.take(before.functions@.len() as int) == before.functions@
        &&& before.constants@.len() <= self.constants@.len()
        &&& self.constants@.take(before.constants@.len() as int) == before.constants@
        &&& before.bindings@.len() <= self.bindings@.len()
        &&& self.bindings@.take(before.bindings@.len() as int) == before.bindings@
        &&& before.main@.len() <= self.main@.len()
        &&& self.main@.take(before.main@.len() as int) == before.main@
        &&& self.paths@ == before.paths@
    }

    proof fn lemma_extends(a: Compiler, b: Compiler, c: Compiler)
        requires
            b.extends(a),
            c.extends(b),
        ensures
            c.extends(a),
    {
        assert(c.functions@.take(a.functions@.len() as int) =~= b.functions@.take(
            a.functions@.len() as int,
        ));
        assert(c.constants@.take(a.constants@.len() as int) =~= b.constants@.take(
            a.constants@.len() as int,
        ));
        assert(c.bindings@.take(a.bindings@.len() as int) =~= b.bindings@.take(
            a.bindings@.len() as int,
        ));
        assert(c.main@.take(a.main@.len() as int) =~= b.main@.take(a.main@.len() as int));
    }

    proof fn lemma_grown_extends(a: Compiler, b: Compiler)
        requires
            b.grown_from(a),
        ensures
            b.extends(a),
    {
        assert(b.bindings@.take(a.bindings@.len() as int) =~= a.bindings@);
        assert(b.main@.take(a.main@.len() as int) =~= a.main@);
    }

    /// Compiles one item. After a failure the compiler holds what it held
    /// before and perhaps more.
    fn item(&mut self, item: &Item) -> (r: Result<(), CompileError>)
        ensures
            match r {
                Ok(()) => compile_item(old(self)@, *item) == Ok::<Unit, CompileFault>(final(self)@),
                Err(e) => compile_item(old(self)@, *item) == Err::<Unit, CompileFault>(e@),
            },
            final(self).extends(*old(self)),
    {
        let ghost c0 = *self;
        match item {
            Item::Binding(name, ws) => {
                let body = match self.words(ws, 0) {
                    Ok(body) => body,
                    Err(e) => {
                        proof {
                            Self::lemma_grown_extends(c0, *self);
                        }
                        return Err(e);
                    },
                };
                let ghost c1 = *self;
                let f = match self.define(body) {
                    Ok(f) => f,
                    Err(e) => {
                        proof {
                            Self::lemma_grown(c0, c1, *self);
                            Self::lemma_grown_extends(c0, *self);
                        }
                        return Err(e);
                    },
                };
                proof {
                    Self::lemma_grown(c0, c1, *self);
                    Self::lemma_grown_extends(c0, *self);
                }
                let ghost c2 = *self;
                self.bindings.push(Binding { name: name.clone(), function: f });
                proof {
                    assert(binding_names(self.bindings@) =~= binding_names(c2.bindings@).push(
                        (name@, f as nat),
                    ));
                    assert(self.bindings@.take(c0.bindings@.len() as int) =~= c0.bindings@);
                }
                Ok(())
            },
            Item::Words(ws) => {
                let body = match self.words(ws, 0) {
                    Ok(body) => body,
                    Err(e) => {
                        proof {
                            Self::lemma_grown_extends(c0, *self);
                        }
                        return Err(e);
                    },
                };
                proof {
                    Self::lemma_grown_extends(c0, *self);
                }
                let mut body = body;
                let ghost b = body@;
                self.main.append(&mut body);
                proof {
                    assert(self.main@ =~= c0.main@ + b);
                    assert(self.main@.take(c0.main@.len() as int) =~= c0.main@);
                }
                Ok(())
            },
        }
    }

    /// Loads one source, as the parser left it, read from `path`.
    ///
    /// A source that the parser rejected is a syntax error. A parsed source
    /// is compiled item by item; the first failure is returned, and the
    /// compiler then holds exactly what it held before the call.
    pub fn load(&mut self, source: &Source, path: &str) -> (r: Result<(), CompileError>)
        ensures
            match r {
                Ok(()) => compile_source(old(self)@, *source, path@) == Ok::<Unit, CompileFault>(
                    final(self)@,
                ),
                Err(e) => compile_source(old(self)@, *source, path@) == Err::<Unit, CompileFault>(
                    e@,
                ) && final(self)@ == old(self)@,
            },
            old(self)@.well_formed() ==> final(self)@.well_formed(),
    {
        let items = match source {
            Source::Failed(message) => {
                return Err(CompileError::Syntax(message.clone()));
            },
            Source::Parsed(items) => items,
        };
        let marks = (
            self.functions.len(),
            self.constants.len(),
            self.bindings.len(),
            self.main.len(),
        );
        let ghost c0 = *self;
        let mut n: usize = 0;
        proof {
            assert(self.functions@.take(marks.0 as int) =~= c0.functions@);
            assert(self.constants@.take(marks.1 as int) =~= c0.constants@);
            assert(self.bindings@.take(marks.2 as int) =~= c0.bindings@);
            assert(self.main@.take(marks.3 as int) =~= c0.main@);
        }
        while n < items.len()
            invariant
                n <= items@.len(),
                c0 == *old(self),
                *source matches Source::Parsed(v) && v == *items,
                marks.0 == c0.functions@.len(),
                marks.1 == c0.constants@.len(),
                marks.2 == c0.bindings@.len(),
                marks.3 == c0.main@.len(),
                self.extends(c0),
                compile_items(c0@, items@, n as nat) == Ok::<Unit, CompileFault>(self@),
            decreases items@.len() - n,
        {
            let ghost c1 = *self;
            match self.item(&items[n]) {
                Ok(()) => {
                    proof {
                        Self::lemma_extends(c0, c1, *self);
                    }
                },
                Err(e) => {
                    proof {
                        Self::lemma_extends(c0, c1, *self);
                        assert(compile_items(c0@, items@, (n + 1) as nat) == Err::<
                            Unit,
                            CompileFault,
                        >(e@));
                        lemma_items_fail(c0@, items@, (n + 1) as nat, items@.len());
                    }
                    self.functions.truncate(marks.0);
                    self.constants.truncate(marks.1);
                    self.bindings.truncate(marks.2);
                    self.main.truncate(marks.3);
                    proof {
                        assert(self.functions@ =~= c0.functions@);
                        assert(self.constants@ =~= c0.constants@);
                        assert(self.bindings@ =~= c0.bindings@);
                        assert(self.main@ =~= c0.main@);
                        assert(self@ == c0@);
                    }
                    return Err(e);
                },
            }
            n += 1;
        }
        let ghost before = self.paths@;
        self.paths.push(path.to_owned());
        // The lengths of the two tables are machine words.
        let _ = (self.functions.len(), self.constants.len());
        proof {
            assert(texts(self.paths@) =~= texts(before).push(path@));
            if c0@.well_formed() {
                crate::wellformed::lemma_source(c0@, *source, path@);
            }
        }
        Ok(())
    }

    /// The assembly of all that was loaded, as compiled: no idiom is
    /// fused.
    pub fn assemble(self) -> (r: Assembly)
        ensures
            r@.functions == self@.functions,
            r@.constants == self@.constants,
            r.top() == self@.main,
            r.names() == self@.names,
            r@ == self@.table(),
    {
        let r = Assembly::new(self.functions, self.main, self.constants, self.bindings);
        assert(r.names() =~= self@.names);
        r
    }

    /// The assembly of all that was loaded, after the fusion pass. It turns
    /// every stack into the outcome that the assembly as compiled turns it
    /// into.
    pub fn finish(self) -> (r: Assembly)
        ensures
            r@.functions == crate::optimize::optimized(self@.functions, self@.functions.len()),
            r@.constants == self@.constants,
            r.top() == fuse(r@.functions, self@.functions.len(), self@.main, 0),
            r.names() == self@.names,
            r@.run(r.top()) == self@.table().run(self@.main),
            self@.well_formed() ==> (match infer(self@.functions, self@.main, self@.main.len()) {
                Some(sig) => sig.0 == 0 ==> crate::soundness::kept(r@.run(r.top()), 0, sig),
                None => true,
            }),
    {
        proof {
            if self@.well_formed() {
                if let Some(sig) = infer(self@.functions, self@.main, self@.main.len()) {
                    if sig.0 == 0 {
                        crate::wellformed::lemma_unit_never_short(self@);
                    }
                }
            }
        }
        let plain = self.assemble();
        optimize(&plain)
    }
}

/// Once the first items fail, so do all.
pub proof fn lemma_items_fail(u: Unit, items: Seq<Item>, n: nat, m: nat)
    requires
        n <= m <= items.len(),
        compile_items(u, items, n) is Err,
    ensures
        compile_items(u, items, m) == compile_items(u, items, n),
    decreases m,
{
    if n < m {
        lemma_items_fail(u, items, n, (m - 1) as nat);
    }
}

} // verus!
