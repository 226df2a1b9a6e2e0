//! The built-in functions and modifiers: their catalog, and what each
//! function does to the stack.
use crate::arrayops::{
    couple, couple_value, disclose, disclose_value, enclose, enclose_value, first, first_value,
    indices_where, join, join_value, len, len_value, range, range_value, reverse,
    reverse_value, select, select_value, where_value,
};
use crate::error::{Fault, RuntimeError};
use crate::monadic::{negate, negate_value};
use crate::pervasive::{pervade, pervade_values};
use crate::scalar::ScalarOp;
use crate::show::{chars_of, push_chars, push_text, text};
use crate::sorting::{grade, grade_value};
use crate::value::{lemma_views_push, views, Array, Kind, Value};
use vstd::prelude::*;

verus! {

/// A built-in function or modifier.
#[derive(Clone, Copy, Debug, PartialEq, Eq, Structural)]
pub enum Primitive {
    Dup,
    Over,
    Flip,
    Pop,
    Identity,
    Add,
    Sub,
    Mul,
    Div,
    Mod,
    Eq,
    Ne,
    Lt,
    Le,
    Gt,
    Ge,
    Min,
    Max,
    Complex,
    Neg,
    Len,
    First,
    Reverse,
    Rise,
    Fall,
    Where,
    Range,
    Transpose,
    Select,
    Join,
    Couple,
    Windows,
    Box,
    Unbox,
    Assert,
    Reduce,
    Scan,
    Table,
    Rows,
    Each,
    Fork,
    Bracket,
    Dip,
    Gap,
    Try,
}

impl Primitive {
    /// The scalar function that a pervasive primitive applies cell by cell.
    pub open spec fn scalar_op(self) -> Option<ScalarOp> {
        match self {
            Primitive::Add => Some(ScalarOp::Add),
            Primitive::Sub => Some(ScalarOp::Sub),
            Primitive::Mul => Some(ScalarOp::Mul),
            Primitive::Div => Some(ScalarOp::Div),
            Primitive::Mod => Some(ScalarOp::Mod),
            Primitive::Eq => Some(ScalarOp::Eq),
            Primitive::Ne => Some(ScalarOp::Ne),
            Primitive::Lt => Some(ScalarOp::Lt),
            Primitive::Le => Some(ScalarOp::Le),
            Primitive::Gt => Some(ScalarOp::Gt),
            Primitive::Ge => Some(ScalarOp::Ge),
            Primitive::Min => Some(ScalarOp::Min),
            Primitive::Max => Some(ScalarOp::Max),
            Primitive::Complex => Some(ScalarOp::Complex),
            _ => None,
        }
    }

    /// How many functions a modifier takes; zero for a function.
    pub open spec fn operands(self) -> nat {
        match self {
            Primitive::Reduce | Primitive::Scan | Primitive::Table | Primitive::Rows
            | Primitive::Each | Primitive::Dip | Primitive::Gap => 1,
            Primitive::Fork | Primitive::Bracket | Primitive::Try => 2,
            _ => 0,
        }
    }

    pub open spec fn is_modifier_spec(self) -> bool {
        self.operands() > 0
    }

    /// How many values a function takes from the stack and how many it
    /// leaves; `None` for a modifier, whose signature depends on its
    /// operands.
    pub open spec fn signature_spec(self) -> Option<(nat, nat)> {
        match self {
            Primitive::Dup => Some((1, 2)),
            Primitive::Over => Some((2, 3)),
            Primitive::Flip => Some((2, 2)),
            Primitive::Pop => Some((1, 0)),
            Primitive::Identity => Some((1, 1)),
            Primitive::Neg | Primitive::Len | Primitive::First | Primitive::Reverse
            | Primitive::Rise | Primitive::Fall | Primitive::Where | Primitive::Range
            | Primitive::Transpose | Primitive::Box | Primitive::Unbox => Some((1, 1)),
            Primitive::Select | Primitive::Join | Primitive::Couple | Primitive::Windows => Some(
                (2, 1),
            ),
            Primitive::Assert => Some((2, 0)),
            _ => if self.scalar_op() is Some {
                Some((2, 1))
            } else {
                None
            },
        }
    }

    pub fn pervasive_op(self) -> (r: Option<ScalarOp>)
        ensures
            r == self.scalar_op(),
    {
        match self {
            Primitive::Add => Some(ScalarOp::Add),
            Primitive::Sub => Some(ScalarOp::Sub),
            Primitive::Mul => Some(ScalarOp::Mul),
            Primitive::Div => Some(ScalarOp::Div),
            Primitive::Mod => Some(ScalarOp::Mod),
            Primitive::Eq => Some(ScalarOp::Eq),
            Primitive::Ne => Some(ScalarOp::Ne),
            Primitive::Lt => Some(ScalarOp::Lt),
            Primitive::Le => Some(ScalarOp::Le),
            Primitive::Gt => Some(ScalarOp::Gt),
            Primitive::Ge => Some(ScalarOp::Ge),
            Primitive::Min => Some(ScalarOp::Min),
            Primitive::Max => Some(ScalarOp::Max),
            Primitive::Complex => Some(ScalarOp::Complex),
            _ => None,
        }
    }

    /// Whether the primitive is a function of two arrays that applies cell
    /// by cell, broadcasting over shape.
    pub fn is_pervasive(self) -> (r: bool)
        ensures
            r == self.scalar_op() is Some,
    {
        self.pervasive_op().is_some()
    }

    /// How many functions a modifier takes; zero for a function.
    pub fn modifier_args(self) -> (n: usize)
        ensures
            n == self.operands(),
    {
        match self {
            Primitive::Reduce | Primitive::Scan | Primitive::Table | Primitive::Rows
            | Primitive::Each | Primitive::Dip | Primitive::Gap => 1,
            Primitive::Fork | Primitive::Bracket | Primitive::Try => 2,
            _ => 0,
        }
    }

    pub fn is_modifier(self) -> (r: bool)
        ensures
            r == self.is_modifier_spec(),
    {
        self.modifier_args() > 0
    }

    /// Inputs and outputs of a function; `None` for a modifier.
    pub fn signature(self) -> (r: Option<(usize, usize)>)
        ensures
            match r {
                Some((i, o)) => self.signature_spec() == Some((i as nat, o as nat)),
                None => self.signature_spec() is None,
            },
    {
        match self {
            Primitive::Dup => Some((1, 2)),
            Primitive::Over => Some((2, 3)),
            Primitive::Flip => Some((2, 2)),
            Primitive::Pop => Some((1, 0)),
            Primitive::Identity => Some((1, 1)),
            Primitive::Neg | Primitive::Len | Primitive::First | Primitive::Reverse
            | Primitive::Rise | Primitive::Fall | Primitive::Where | Primitive::Range
            | Primitive::Transpose | Primitive::Box | Primitive::Unbox => Some((1, 1)),
            Primitive::Select | Primitive::Join | Primitive::Couple | Primitive::Windows => Some(
                (2, 1),
            ),
            Primitive::Assert => Some((2, 0)),
            _ => if self.is_pervasive() {
                Some((2, 1))
            } else {
                None
            },
        }
    }

    /// How many values a function takes; `None` for a modifier.
    pub fn args(self) -> (r: Option<usize>)
        ensures
            match r {
                Some(i) => self.signature_spec() matches Some(sig) && sig.0 == i,
                None => self.signature_spec() is None,
            },
    {
        match self.signature() {
            Some((i, _)) => Some(i),
            None => None,
        }
    }

    /// The name that source text spells each primitive with.
    pub open spec fn name_text(self) -> Seq<char> {
        match self {
            Primitive::Dup => "duplicate"@,
            Primitive::Over => "over"@,
            Primitive::Flip => "flip"@,
            Primitive::Pop => "pop"@,
            Primitive::Identity => "identity"@,
            Primitive::Add => "add"@,
            Primitive::Sub => "subtract"@,
            Primitive::Mul => "multiply"@,
            Primitive::Div => "divide"@,
            Primitive::Mod => "modulus"@,
            Primitive::Eq => "equals"@,
            Primitive::Ne => "not equals"@,
            Primitive::Lt => "less than"@,
            Primitive::Le => "less or equal"@,
            Primitive::Gt => "greater than"@,
            Primitive::Ge => "greater or equal"@,
            Primitive::Min => "minimum"@,
            Primitive::Max => "maximum"@,
            Primitive::Complex => "complex"@,
            Primitive::Neg => "negate"@,
            Primitive::Len => "length"@,
            Primitive::First => "first"@,
            Primitive::Reverse => "reverse"@,
            Primitive::Rise => "rise"@,
            Primitive::Fall => "fall"@,
            Primitive::Where => "where"@,
            Primitive::Range => "range"@,
            Primitive::Transpose => "transpose"@,
            Primitive::Select => "select"@,
            Primitive::Join => "join"@,
            Primitive::Couple => "couple"@,
            Primitive::Windows => "windows"@,
            Primitive::Box => "box"@,
            Primitive::Unbox => "unbox"@,
            Primitive::Assert => "assert"@,
            Primitive::Reduce => "reduce"@,
            Primitive::Scan => "scan"@,
            Primitive::Table => "table"@,
            Primitive::Rows => "rows"@,
            Primitive::Each => "each"@,
            Primitive::Fork => "fork"@,
            Primitive::Bracket => "bracket"@,
            Primitive::Dip => "dip"@,
            Primitive::Gap => "gap"@,
            Primitive::Try => "try"@,
        }
    }

    /// The glyph that formatted source text shows each primitive as.
    pub open spec fn glyph_of(self) -> char {
        match self {
            Primitive::Dup => '.',
            Primitive::Over => ',',
            Primitive::Flip => ':',
            Primitive::Pop => '◌',
            Primitive::Identity => '∘',
            Primitive::Add => '+',
            Primitive::Sub => '-',
            Primitive::Mul => '×',
            Primitive::Div => '÷',
            Primitive::Mod => '◿',
            Primitive::Eq => '=',
            Primitive::Ne => '≠',
            Primitive::Lt => '<',
            Primitive::Le => '≤',
            Primitive::Gt => '>',
            Primitive::Ge => '≥',
            Primitive::Min => '↧',
            Primitive::Max => '↥',
            Primitive::Complex => 'ℂ',
            Primitive::Neg => '¯',
            Primitive::Len => '⧻',
            Primitive::First => '⊢',
            Primitive::Reverse => '⇌',
            Primitive::Rise => '⍏',
            Primitive::Fall => '⍖',
            Primitive::Where => '⊚',
            Primitive::Range => '⇡',
            Primitive::Transpose => '⍉',
            Primitive::Select => '⊏',
            Primitive::Join => '⊂',
            Primitive::Couple => '⊟',
            Primitive::Windows => '◫',
            Primitive::Box => '□',
            Primitive::Unbox => '⊔',
            Primitive::Assert => '⍤',
            Primitive::Reduce => '/',
            Primitive::Scan => '\\',
            Primitive::Table => '⊞',
            Primitive::Rows => '≡',
            Primitive::Each => '∵',
            Primitive::Fork => '⊃',
            Primitive::Bracket => '⊓',
            Primitive::Dip => '⊙',
            Primitive::Gap => '⋅',
            Primitive::Try => '⍣',
        }
    }

    /// Every primitive, in the order of the catalog.
    pub open spec fn catalog() -> Seq<Primitive> {
        seq![
            Primitive::Dup,
            Primitive::Over,
            Primitive::Flip,
            Primitive::Pop,
            Primitive::Identity,
            Primitive::Add,
            Primitive::Sub,
            Primitive::Mul,
            Primitive::Div,
            Primitive::Mod,
            Primitive::Eq,
            Primitive::Ne,
            Primitive::Lt,
            Primitive::Le,
            Primitive::Gt,
            Primitive::Ge,
            Primitive::Min,
            Primitive::Max,
            Primitive::Complex,
            Primitive::Neg,
            Primitive::Len,
            Primitive::First,
            Primitive::Reverse,
            Primitive::Rise,
            Primitive::Fall,
            Primitive::Where,
            Primitive::Range,
            Primitive::Transpose,
            Primitive::Select,
            Primitive::Join,
            Primitive::Couple,
            Primitive::Windows,
            Primitive::Box,
            Primitive::Unbox,
            Primitive::Assert,
            Primitive::Reduce,
            Primitive::Scan,
            Primitive::Table,
            Primitive::Rows,
            Primitive::Each,
            Primitive::Fork,
            Primitive::Bracket,
            Primitive::Dip,
            Primitive::Gap,
            Primitive::Try,
        ]
    }

    /// The name that source text spells the primitive with.
    pub fn name(self) -> (r: &'static str)
        ensures
            r@ == self.name_text(),
    {
        match self {
            Primitive::Dup => "duplicate",
            Primitive::Over => "over",
            Primitive::Flip => "flip",
            Primitive::Pop => "pop",
            Primitive::Identity => "identity",
            Primitive::Add => "add",
            Primitive::Sub => "subtract",
            Primitive::Mul => "multiply",
            Primitive::Div => "divide",
            Primitive::Mod => "modulus",
            Primitive::Eq => "equals",
            Primitive::Ne => "not equals",
            Primitive::Lt => "less than",
            Primitive::Le => "less or equal",
            Primitive::Gt => "greater than",
            Primitive::Ge => "greater or equal",
            Primitive::Min => "minimum",
            Primitive::Max => "maximum",
            Primitive::Complex => "complex",
            Primitive::Neg => "negate",
            Primitive::Len => "length",
            Primitive::First => "first",
            Primitive::Reverse => "reverse",
            Primitive::Rise => "rise",
            Primitive::Fall => "fall",
            Primitive::Where => "where",
            Primitive::Range => "range",
            Primitive::Transpose => "transpose",
            Primitive::Select => "select",
            Primitive::Join => "join",
            Primitive::Couple => "couple",
            Primitive::Windows => "windows",
            Primitive::Box => "box",
            Primitive::Unbox => "unbox",
            Primitive::Assert => "assert",
            Primitive::Reduce => "reduce",
            Primitive::Scan => "scan",
            Primitive::Table => "table",
            Primitive::Rows => "rows",
            Primitive::Each => "each",
            Primitive::Fork => "fork",
            Primitive::Bracket => "bracket",
            Primitive::Dip => "dip",
            Primitive::Gap => "gap",
            Primitive::Try => "try",
        }
    }

    /// The glyph that formatted source text shows the primitive as.
    pub fn glyph(self) -> (r: char)
        ensures
            r == self.glyph_of(),
    {
        match self {
            Primitive::Dup => '.',
            Primitive::Over => ',',
            Primitive::Flip => ':',
            Primitive::Pop => '◌',
            Primitive::Identity => '∘',
            Primitive::Add => '+',
            Primitive::Sub => '-',
            Primitive::Mul => '×',
            Primitive::Div => '÷',
            Primitive::Mod => '◿',
            Primitive::Eq => '=',
            Primitive::Ne => '≠',
            Primitive::Lt => '<',
            Primitive::Le => '≤',
            Primitive::Gt => '>',
            Primitive::Ge => '≥',
            Primitive::Min => '↧',
            Primitive::Max => '↥',
            Primitive::Complex => 'ℂ',
            Primitive::Neg => '¯',
            Primitive::Len => '⧻',
            Primitive::First => '⊢',
            Primitive::Reverse => '⇌',
            Primitive::Rise => '⍏',
            Primitive::Fall => '⍖',
            Primitive::Where => '⊚',
            Primitive::Range => '⇡',
            Primitive::Transpose => '⍉',
            Primitive::Select => '⊏',
            Primitive::Join => '⊂',
            Primitive::Couple => '⊟',
            Primitive::Windows => '◫',
            Primitive::Box => '□',
            Primitive::Unbox => '⊔',
            Primitive::Assert => '⍤',
            Primitive::Reduce => '/',
            Primitive::Scan => '\\',
            Primitive::Table => '⊞',
            Primitive::Rows => '≡',
            Primitive::Each => '∵',
            Primitive::Fork => '⊃',
            Primitive::Bracket => '⊓',
            Primitive::Dip => '⊙',
            Primitive::Gap => '⋅',
            Primitive::Try => '⍣',
        }
    }

    /// Every primitive, in the order of the catalog.
    #[verifier::rlimit(40)]
    pub fn all() -> (r: Vec<Primitive>)
        ensures
            r@ == Primitive::catalog(),
    {
        let mut r: Vec<Primitive> = Vec::new();
        r.push(Primitive::Dup);
        r.push(Primitive::Over);
        r.push(Primitive::Flip);
        r.push(Primitive::Pop);
        r.push(Primitive::Identity);
        r.push(Primitive::Add);
        r.push(Primitive::Sub);
        r.push(Primitive::Mul);
        r.push(Primitive::Div);
        r.push(Primitive::Mod);
        r.push(Primitive::Eq);
        r.push(Primitive::Ne);
        r.push(Primitive::Lt);
        r.push(Primitive::Le);
        r.push(Primitive::Gt);
        r.push(Primitive::Ge);
        r.push(Primitive::Min);
        r.push(Primitive::Max);
        r.push(Primitive::Complex);
        r.push(Primitive::Neg);
        r.push(Primitive::Len);
        r.push(Primitive::First);
        r.push(Primitive::Reverse);
        r.push(Primitive::Rise);
        r.push(Primitive::Fall);
        r.push(Primitive::Where);
        r.push(Primitive::Range);
        r.push(Primitive::Transpose);
        r.push(Primitive::Select);
        r.push(Primitive::Join);
        r.push(Primitive::Couple);
        r.push(Primitive::Windows);
        r.push(Primitive::Box);
        r.push(Primitive::Unbox);
        r.push(Primitive::Assert);
        r.push(Primitive::Reduce);
        r.push(Primitive::Scan);
        r.push(Primitive::Table);
        r.push(Primitive::Rows);
        r.push(Primitive::Each);
        r.push(Primitive::Fork);
        r.push(Primitive::Bracket);
        r.push(Primitive::Dip);
        r.push(Primitive::Gap);
        r.push(Primitive::Try);
        r
    }

    /// The catalog lists every primitive.
    pub proof fn lemma_catalog_complete(p: Primitive)
        ensures
            Primitive::catalog().contains(p),
    {
        let c = Primitive::catalog();
        match p {
            Primitive::Dup => {
                assert(c[0] == p);
            },
            Primitive::Over => {
                assert(c[1] == p);
            },
            Primitive::Flip => {
                assert(c[2] == p);
            },
            Primitive::Pop => {
                assert(c[3] == p);
            },
            Primitive::Identity => {
                assert(c[4] == p);
            },
            Primitive::Add => {
                assert(c[5] == p);
            },
            Primitive::Sub => {
                assert(c[6] == p);
            },
            Primitive::Mul => {
                assert(c[7] == p);
            },
            Primitive::Div => {
                assert(c[8] == p);
            },
            Primitive::Mod => {
                assert(c[9] == p);
            },
            Primitive::Eq => {
                assert(c[10] == p);
            },
            Primitive::Ne => {
                assert(c[11] == p);
            },
            Primitive::Lt => {
                assert(c[12] == p);
            },
            Primitive::Le => {
                assert(c[13] == p);
            },
            Primitive::Gt => {
                assert(c[14] == p);
            },
            Primitive::Ge => {
                assert(c[15] == p);
            },
            Primitive::Min => {
                assert(c[16] == p);
            },
            Primitive::Max => {
                assert(c[17] == p);
            },
            Primitive::Complex => {
                assert(c[18] == p);
            },
            Primitive::Neg => {
                assert(c[19] == p);
            },
            Primitive::Len => {
                assert(c[20] == p);
            },
            Primitive::First => {
                assert(c[21] == p);
            },
            Primitive::Reverse => {
                assert(c[22] == p);
            },
            Primitive::Rise => {
                assert(c[23] == p);
            },
            Primitive::Fall => {
                assert(c[24] == p);
            },
            Primitive::Where => {
                assert(c[25] == p);
            },
            Primitive::Range => {
                assert(c[26] == p);
            },
            Primitive::Transpose => {
                assert(c[27] == p);
            },
            Primitive::Select => {
                assert(c[28] == p);
            },
            Primitive::Join => {
                assert(c[29] == p);
            },
            Primitive::Couple => {
                assert(c[30] == p);
            },
            Primitive::Windows => {
                assert(c[31] == p);
            },
            Primitive::Box => {
                assert(c[32] == p);
            },
            Primitive::Unbox => {
                assert(c[33] == p);
            },
            Primitive::Assert => {
                assert(c[34] == p);
            },
            Primitive::Reduce => {
                assert(c[35] == p);
            },
            Primitive::Scan => {
                assert(c[36] == p);
            },
            Primitive::Table => {
                assert(c[37] == p);
            },
            Primitive::Rows => {
                assert(c[38] == p);
            },
            Primitive::Each => {
                assert(c[39] == p);
            },
            Primitive::Fork => {
                assert(c[40] == p);
            },
            Primitive::Bracket => {
                assert(c[41] == p);
            },
            Primitive::Dip => {
                assert(c[42] == p);
            },
            Primitive::Gap => {
                assert(c[43] == p);
            },
            Primitive::Try => {
                assert(c[44] == p);
            },
        }
    }
}

/// The value `k` places below the top of the stack.
pub open spec fn peek(s: Seq<Array>, k: int) -> Array {
    s[s.len() - 1 - k]
}

/// The stack with its top `n` values replaced by the outcome `r`.
pub open spec fn settle(s: Seq<Array>, n: int, r: Result<Array, Fault>) -> Result<
    Seq<Array>,
    Fault,
> {
    match r {
        Ok(v) => Ok(s.take(s.len() - n).push(v)),
        Err(e) => Err(e),
    }
}

/// Whether an assertion's condition holds: a single byte or number that is
/// not zero.
pub open spec fn holds(cond: Array) -> bool {
    cond.shape.len() == 0 && (cond.kind is Byte || cond.kind is Number) && cond.cells.len() == 1
        && cond.cells[0].integer() != 0
}

/// The text of an assertion's message: the characters of a character array,
/// the printed form of any other.
pub open spec fn message_text(m: Array) -> Seq<char> {
    if m.kind is Character {
        chars_of(m.cells)
    } else {
        text(m)
    }
}

/// What the function `p` makes of the stack `s`, whose top is its last
/// value. A stack with fewer values than `p` takes is an underflow, and so
/// is a modifier in the place of a function.
pub open spec fn prim_step(p: Primitive, s: Seq<Array>) -> Result<Seq<Array>, Fault> {
    match p.signature_spec() {
        None => Err(Fault::StackUnderflow),
        Some((inputs, _)) => if s.len() < inputs {
            Err(Fault::StackUnderflow)
        } else {
            match p {
                Primitive::Dup => Ok(s.push(peek(s, 0))),
                Primitive::Over => Ok(s.push(peek(s, 1))),
                Primitive::Flip => Ok(s.take(s.len() - 2).push(peek(s, 0)).push(peek(s, 1))),
                Primitive::Pop => Ok(s.drop_last()),
                Primitive::Identity => Ok(s),
                Primitive::Neg => settle(s, 1, negate(peek(s, 0))),
                Primitive::Len => settle(s, 1, len(peek(s, 0))),
                Primitive::First => settle(s, 1, first(peek(s, 0))),
                Primitive::Reverse => settle(s, 1, Ok(reverse(peek(s, 0)))),
                Primitive::Rise => settle(s, 1, grade(peek(s, 0), false)),
                Primitive::Fall => settle(s, 1, grade(peek(s, 0), true)),
                Primitive::Where => settle(s, 1, indices_where(peek(s, 0))),
                Primitive::Range => settle(s, 1, range(peek(s, 0))),
                Primitive::Transpose => settle(s, 1, Ok(crate::transpose::transpose(peek(s, 0)))),
                Primitive::Box => settle(s, 1, Ok(enclose(peek(s, 0)))),
                Primitive::Unbox => settle(s, 1, Ok(disclose(peek(s, 0)))),
                Primitive::Select => settle(s, 2, select(peek(s, 0), peek(s, 1))),
                Primitive::Join => settle(s, 2, join(peek(s, 0), peek(s, 1))),
                Primitive::Couple => settle(s, 2, couple(peek(s, 0), peek(s, 1))),
                Primitive::Windows => settle(s, 2, crate::windows::windows(peek(s, 0), peek(s, 1))),
                Primitive::Assert => if holds(peek(s, 1)) {
                    Ok(s.take(s.len() - 2))
                } else {
                    Err(Fault::UserAssertFailed(message_text(peek(s, 0))))
                },
                _ => match p.scalar_op() {
                    Some(op) => settle(s, 2, pervade(op, peek(s, 0), peek(s, 1))),
                    None => Err(Fault::StackUnderflow),
                },
            }
        },
    }
}

/// Takes the top value off the stack.
pub fn pop_value(stack: &mut Vec<Value>) -> (v: Value)
    requires
        old(stack)@.len() > 0,
    ensures
        v@ == peek(views(old(stack)@), 0),
        v@.valid(),
        final(stack)@ == old(stack)@.drop_last(),
        views(final(stack)@) == views(old(stack)@).drop_last(),
{
    let v = stack.pop().unwrap();
    proof {
        use_type_invariant(&v);
        v.lemma_inv();
        assert(views(stack@) =~= views(old(stack)@).drop_last());
    }
    v
}

/// Puts a value on top of the stack.
pub fn push_value(stack: &mut Vec<Value>, v: Value)
    ensures
        final(stack)@ == old(stack)@.push(v),
        views(final(stack)@) == views(old(stack)@).push(v@),
{
    proof {
        lemma_views_push(stack@, v);
    }
    stack.push(v);
}

/// Whether an assertion's condition holds.
pub fn condition_holds(cond: &Value) -> (r: bool)
    ensures
        r == holds(cond@),
{
    let kind = cond.kind();
    if cond.rank() != 0 || !(kind == Kind::Byte || kind == Kind::Number) {
        return false;
    }
    let n = cond.count();
    assert(crate::shape::product(cond@.shape) == 1);
    cond.cell(0).integer() != 0
}

/// The text of an assertion's message.
pub fn message_of(m: &Value) -> (s: String)
    ensures
        s@ == message_text(m@),
{
    let mut out = String::new();
    if m.kind() == Kind::Character {
        push_chars(&mut out, m);
        assert(out@ =~= message_text(m@));
    } else {
        push_text(&mut out, m);
        assert(out@ =~= message_text(m@));
    }
    out
}

pub fn settle_value(stack: &mut Vec<Value>, r: Result<Value, RuntimeError>) -> (out: Result<
    (),
    RuntimeError,
>)
    ensures
        match out {
            Ok(()) => r matches Ok(v) && views(final(stack)@) == views(old(stack)@).push(v@),
            Err(e) => r matches Err(e0) && e0@ == e@,
        },
{
    match r {
        Ok(v) => {
            push_value(stack, v);
            Ok(())
        },
        Err(e) => Err(e),
    }
}

/// Applies the function `p` to the stack. After a failure the stack holds
/// no particular values.
pub fn apply_primitive(p: Primitive, stack: &mut Vec<Value>) -> (r: Result<(), RuntimeError>)
    ensures
        match r {
            Ok(()) => prim_step(p, views(old(stack)@)) == Ok::<Seq<Array>, Fault>(
                views(final(stack)@),
            ),
            Err(e) => prim_step(p, views(old(stack)@)) == Err::<Seq<Array>, Fault>(e@),
        },
{
    let ghost s = views(stack@);
    let inputs = match p.signature() {
        None => {
            return Err(RuntimeError::StackUnderflow);
        },
        Some((inputs, _)) => inputs,
    };
    if stack.len() < inputs {
        return Err(RuntimeError::StackUnderflow);
    }
    match p {
        Primitive::Identity => Ok(()),
        Primitive::Pop => {
            let _ = pop_value(stack);
            Ok(())
        },
        Primitive::Dup => {
            let a = pop_value(stack);
            push_value(stack, a.share());
            push_value(stack, a);
            assert(views(stack@) =~= s.push(peek(s, 0)));
            Ok(())
        },
        Primitive::Over => {
            let a = pop_value(stack);
            let b = pop_value(stack);
            push_value(stack, b.share());
            push_value(stack, a);
            push_value(stack, b);
            assert(views(stack@) =~= s.push(peek(s, 1)));
            Ok(())
        },
        Primitive::Flip => {
            let a = pop_value(stack);
            let b = pop_value(stack);
            push_value(stack, a);
            push_value(stack, b);
            assert(views(stack@) =~= s.take(s.len() - 2).push(peek(s, 0)).push(peek(s, 1)));
            Ok(())
        },
        Primitive::Assert => {
            let message = pop_value(stack);
            let cond = pop_value(stack);
            assert(views(stack@) =~= s.take(s.len() - 2));
            if condition_holds(&cond) {
                Ok(())
            } else {
                Err(RuntimeError::UserAssertFailed(message_of(&message)))
            }
        },
        Primitive::Neg | Primitive::Len | Primitive::First | Primitive::Reverse
        | Primitive::Rise | Primitive::Fall | Primitive::Where | Primitive::Range
        | Primitive::Transpose | Primitive::Box | Primitive::Unbox => {
            let a = pop_value(stack);
            assert(views(stack@) =~= s.take(s.len() - 1));
            let r = match p {
                Primitive::Neg => negate_value(&a),
                Primitive::Len => len_value(&a),
                Primitive::First => first_value(&a),
                Primitive::Reverse => Ok(reverse_value(&a)),
                Primitive::Rise => grade_value(&a, false),
                Primitive::Fall => grade_value(&a, true),
                Primitive::Where => where_value(&a),
                Primitive::Transpose => Ok(crate::transpose::transpose_value(&a)),
                Primitive::Box => Ok(enclose_value(&a)),
                Primitive::Unbox => Ok(disclose_value(&a)),
                _ => range_value(&a),
            };
            settle_value(stack, r)
        },
        _ => {
            let a = pop_value(stack);
            let b = pop_value(stack);
            assert(views(stack@) =~= s.take(s.len() - 2));
            let r = match p {
                Primitive::Select => select_value(&a, &b),
                Primitive::Join => join_value(&a, &b),
                Primitive::Couple => couple_value(&a, &b),
                Primitive::Windows => crate::windows::windows_value(&a, &b),
                _ => match p.pervasive_op() {
                    Some(op) => pervade_values(op, &a, &b),
                    None => Err(RuntimeError::StackUnderflow),
                },
            };
            settle_value(stack, r)
        },
    }
}

} // verus!
