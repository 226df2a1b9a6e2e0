//! Compiled programs: instructions, functions and the assembly that holds
//! them.
use crate::primitive::Primitive;
use crate::scalar::ScalarOp;
use crate::value::{views, Array, Value};
use vstd::prelude::*;

verus! {

/// A modifier with the functions it applies, each named by its place in the
/// assembly's function table.
#[derive(Clone, Copy, Debug, PartialEq, Eq, Structural)]
pub enum Modifier {
    Reduce(usize),
    Scan(usize),
    Table(usize),
    Rows(usize),
    Each(usize),
    Dip(usize),
    Gap(usize),
    Fork(usize, usize),
    Bracket(usize, usize),
    Try(usize, usize),
}

/// One instruction that stands for a longer idiom and does its work at
/// lower cost.
#[derive(Clone, Copy, Debug, PartialEq, Eq, Structural)]
pub enum Fused {
    /// Reverse, then first: the last row.
    Last,
    /// Rise or fall, then first: the index of the row that sorts first.
    GradeFirst { desc: bool },
    /// Rise or fall, reverse, then first: the index of the row that sorts
    /// last.
    GradeLast { desc: bool },
    /// Where, then first: the index of the first true cell.
    WhereFirst,
    /// Where, reverse, then first: the index of the last true cell.
    WhereLast,
    /// Duplicate, rise or fall, then select: the rows in sorted order.
    Sort { desc: bool },
    /// Transpose this many times over: one move of as many axes.
    Transposes(usize),
    /// Dips nested `depth` deep around one function.
    Dips { depth: usize, function: usize },
    /// Reduce by a function that is one pervasive primitive.
    ReduceOp(ScalarOp),
    /// Scan by a function that is one pervasive primitive.
    ScanOp(ScalarOp),
    /// Table by a function that is one pervasive primitive.
    TableOp(ScalarOp),
    /// Table by a function that is nothing but a join, or a couple where
    /// `couple` is set.
    TablePairs { couple: bool },
    /// Rows, each or table by a function that is nothing but a fork or a
    /// bracket, which is taken outward: its first function runs over all
    /// items and then its second, with the outcome of the modifier as it
    /// stands.
    Forked(Modifier),
    /// Rows of a transpose: every row transposed, in one pass.
    RowsTranspose,
    /// Rows of a reduce by one pervasive primitive: every row reduced, all
    /// rows at once, column by column.
    RowsReduce(ScalarOp),
    /// Windows, then rows of a reduce by one pervasive primitive: every
    /// window reduced, with no window made.
    WindowsReduce(ScalarOp),
    /// Table by one pervasive primitive, then reduce by another: the
    /// reduction of the table, one row of the table at a time. The first
    /// operation reduces, the second tabulates.
    ReduceTable(ScalarOp, ScalarOp),
    /// Table by a fork of two functions that are one pervasive primitive
    /// each: the fork of the two tables.
    TableFork(ScalarOp, ScalarOp),
    /// Rows, or each where `each` is set, of a function that drops its
    /// argument and pushes a constant: the constant once for every row or
    /// cell.
    Repeat { constant: usize, each: bool },
}

/// One instruction of an assembly.
#[derive(Clone, Copy, Debug, PartialEq, Eq, Structural)]
pub enum Instr {
    /// Pushes the constant at this place of the constant pool.
    Push(usize),
    /// Calls a built-in function.
    Prim(Primitive),
    /// Calls the function at this place of the function table.
    Call(usize),
    /// Closes a stack-to-array literal over this many values: they leave
    /// the stack and become the rows of one array, the top value first.
    MakeArray(usize),
    /// Applies a modifier.
    Modifier(Modifier),
    /// Runs a fused idiom.
    Fused(Fused),
}

/// A code block as mathematics sees it.
pub struct FunctionModel {
    pub body: Seq<Instr>,
    pub inputs: nat,
    pub outputs: nat,
}

/// What the instructions of an assembly refer to: its function table and
/// its constant pool, as mathematics sees them.
pub struct Program {
    pub functions: Seq<FunctionModel>,
    pub constants: Seq<Array>,
}

/// A code block: its instructions, and how many values it takes from the
/// stack and leaves on it.
#[derive(Debug)]
pub struct Function {
    pub body: Vec<Instr>,
    pub inputs: usize,
    pub outputs: usize,
}

impl View for Function {
    type V = FunctionModel;

    open spec fn view(&self) -> FunctionModel {
        FunctionModel {
            body: self.body@,
            inputs: self.inputs as nat,
            outputs: self.outputs as nat,
        }
    }
}

/// A name bound to a function of the assembly.
#[derive(Debug)]
pub struct Binding {
    pub name: String,
    pub function: usize,
}

/// The function models that stored functions stand for.
pub open spec fn function_models(fs: Seq<Function>) -> Seq<FunctionModel> {
    Seq::new(fs.len(), |i: int| fs[i]@)
}

/// A compiled program. Once made it never changes; any number of runs may
/// read it.
#[derive(Debug)]
pub struct Assembly {
    functions: Vec<Function>,
    main: Vec<Instr>,
    constants: Vec<Value>,
    bindings: Vec<Binding>,
}

impl View for Assembly {
    type V = Program;

    closed spec fn view(&self) -> Program {
        Program { functions: function_models(self.functions@), constants: views(self.constants@) }
    }
}

impl Assembly {
    /// The top-level instructions.
    pub closed spec fn top(self) -> Seq<Instr> {
        self.main@
    }

    /// The names bound in this assembly, with the function each names.
    pub closed spec fn names(self) -> Seq<(Seq<char>, nat)> {
        Seq::new(self.bindings@.len(), |i: int| (self.bindings@[i].name@, self.bindings@[i].function as nat))
    }

    /// Puts an assembly together from its parts.
    pub fn new(
        functions: Vec<Function>,
        main: Vec<Instr>,
        constants: Vec<Value>,
        bindings: Vec<Binding>,
    ) -> (r: Assembly)
        ensures
            r@ == (Program {
                functions: function_models(functions@),
                constants: views(constants@),
            }),
            r.top() == main@,
            r.names() == Seq::new(
                bindings@.len(),
                |i: int| (bindings@[i].name@, bindings@[i].function as nat),
            ),
    {
        Assembly { functions, main, constants, bindings }
    }

    /// The number of functions in the table.
    pub fn function_count(&self) -> (n: usize)
        ensures
            n == self@.functions.len(),
    {
        self.functions.len()
    }

    /// The function at place `f` of the table.
    pub fn function(&self, f: usize) -> (r: &Function)
        requires
            f < self@.functions.len(),
        ensures
            r@ == self@.functions[f as int],
    {
        &self.functions[f]
    }

    /// The top-level instructions.
    pub fn main(&self) -> (r: &Vec<Instr>)
        ensures
            r@ == self.top(),
    {
        &self.main
    }

    /// The number of constants in the pool.
    pub fn constant_count(&self) -> (n: usize)
        ensures
            n == self@.constants.len(),
    {
        self.constants.len()
    }

    /// The constant at place `c` of the pool.
    pub fn constant(&self, c: usize) -> (r: &Value)
        requires
            c < self@.constants.len(),
        ensures
            r@ == self@.constants[c as int],
            r@.valid(),
    {
        let r = &self.constants[c];
        proof {
            use_type_invariant(r);
            r.lemma_inv();
        }
        r
    }

    /// The bindings, copied out.
    pub fn bindings(&self) -> (r: Vec<Binding>)
        ensures
            r@.len() == self.names().len(),
            forall|i: int|
                0 <= i < r@.len() ==> (#[trigger] r@[i].name@, r@[i].function as nat)
                    == self.names()[i],
    {
        let mut r: Vec<Binding> = Vec::new();
        let mut i: usize = 0;
        while i < self.bindings.len()
            invariant
                i <= self.bindings@.len(),
                r@.len() == i,
                forall|j: int|
                    0 <= j < i ==> (#[trigger] r@[j].name@, r@[j].function as nat)
                        == self.names()[j],
            decreases self.bindings@.len() - i,
        {
            let b = &self.bindings[i];
            r.push(Binding { name: b.name.clone(), function: b.function });
            i += 1;
        }
        r
    }

    /// The function that `name` is bound to: the latest binding of that
    /// name wins.
    pub fn lookup(&self, name: &String) -> (r: Option<usize>)
        ensures
            r == lookup_name(self.names(), name@),
    {
        let mut i: usize = self.bindings.len();
        assert(self.names().take(i as int) =~= self.names());
        while i > 0
            invariant
                i <= self.bindings@.len(),
                lookup_name(self.names(), name@) == lookup_name(self.names().take(i as int), name@),
            decreases i,
        {
            i -= 1;
            proof {
                assert(self.names().take(i + 1).drop_last() =~= self.names().take(i as int));
            }
            if self.bindings[i].name == *name {
                return Some(self.bindings[i].function);
            }
        }
        None
    }
}

/// The function that the latest binding of `name` names.
pub open spec fn lookup_name(names: Seq<(Seq<char>, nat)>, name: Seq<char>) -> Option<usize>
    decreases names.len(),
{
    if names.len() == 0 {
        None
    } else if names.last().0 == name {
        Some(names.last().1 as usize)
    } else {
        lookup_name(names.drop_last(), name)
    }
}

} // verus!
