//! The functions that apply cell by cell, and what they make of each pair
//! of cells.
//!
//! Of the two operands, `a` is the one on top of the stack and `b` the one
//! below it; `Sub` is `b - a`, `Div` is `b / a`, `Lt` is `b < a`.
use crate::error::{Fault, RuntimeError};
use crate::value::{Cell, Elem, Kind};
use vstd::prelude::*;

verus! {

/// A function of two cells.
#[derive(Clone, Copy, Debug, PartialEq, Eq, Structural)]
pub enum ScalarOp {
    Add,
    Sub,
    Mul,
    Div,
    Mod,
    Eq,
    Ne,
    Lt,
    Le,
    Gt,
    Ge,
    Min,
    Max,
    Complex,
}

impl ScalarOp {
    /// Equality and ordering tests.
    pub open spec fn is_comparison(self) -> bool {
        self is Eq || self is Ne || self is Lt || self is Le || self is Gt || self is Ge
    }

    /// Operations that take truth values to truth values.
    pub open spec fn is_boolean(self) -> bool {
        self.is_comparison() || self is Min || self is Max
    }

    /// Operations by which a reduce runs as one fused loop.
    pub open spec fn folds(self) -> bool {
        self is Add || self is Sub || self is Mul || self is Div || self is Mod || self is Min
            || self is Max
    }

    /// Operations by which a scan runs as one fused loop.
    pub open spec fn scans(self) -> bool {
        self.folds() || self is Eq || self is Ne
    }

    pub fn is_folding(self) -> (r: bool)
        ensures
            r == self.folds(),
    {
        match self {
            ScalarOp::Add | ScalarOp::Sub | ScalarOp::Mul | ScalarOp::Div | ScalarOp::Mod | ScalarOp::Min | ScalarOp::Max => true,
            _ => false,
        }
    }

    pub fn is_scanning(self) -> (r: bool)
        ensures
            r == self.scans(),
    {
        match self {
            ScalarOp::Eq | ScalarOp::Ne => true,
            _ => self.is_folding(),
        }
    }

    pub fn comparison(self) -> (r: bool)
        ensures
            r == self.is_comparison(),
    {
        match self {
            ScalarOp::Eq | ScalarOp::Ne | ScalarOp::Lt | ScalarOp::Le | ScalarOp::Gt | ScalarOp::Ge => true,
            _ => false,
        }
    }

    pub fn boolean(self) -> (r: bool)
        ensures
            r == self.is_boolean(),
    {
        match self {
            ScalarOp::Min | ScalarOp::Max => true,
            _ => self.comparison(),
        }
    }
}

/// The kind of the result when `op` meets cells of kinds `a` and `b`, or
/// `None` where the operation is not defined on them.
///
/// Boxes never take part. Characters take part only in comparisons with
/// characters. Otherwise the result is of the wider operand kind, in the
/// order byte, number, complex; but arithmetic on two bytes gives a number,
/// `Complex` pairs two reals, and complex numbers have no quotient.
pub open spec fn result_kind(op: ScalarOp, a: Kind, b: Kind) -> Option<Kind> {
    if a is Box || b is Box {
        None
    } else if a is Character || b is Character {
        if a is Character && b is Character && op.is_comparison() {
            Some(Kind::Byte)
        } else {
            None
        }
    } else if op is Complex {
        if a is Complex || b is Complex {
            None
        } else {
            Some(Kind::Complex)
        }
    } else if a is Complex || b is Complex {
        if op is Div || op is Mod {
            None
        } else {
            Some(Kind::Complex)
        }
    } else if a is Byte && b is Byte && op.is_boolean() {
        Some(Kind::Byte)
    } else {
        Some(Kind::Number)
    }
}

pub open spec fn truth(b: bool) -> int {
    if b {
        1
    } else {
        0
    }
}

/// `op` on two integers, or `None` for a division by zero. Quotient and
/// remainder are Euclidean: the remainder is never negative.
pub open spec fn int_op(op: ScalarOp, a: int, b: int) -> Option<int> {
    match op {
        ScalarOp::Add => Some(b + a),
        ScalarOp::Sub => Some(b - a),
        ScalarOp::Mul => Some(b * a),
        ScalarOp::Div => if a == 0 {
            None
        } else {
            Some(b / a)
        },
        ScalarOp::Mod => if a == 0 {
            None
        } else {
            Some(b % a)
        },
        ScalarOp::Eq => Some(truth(b == a)),
        ScalarOp::Ne => Some(truth(b != a)),
        ScalarOp::Lt => Some(truth(b < a)),
        ScalarOp::Le => Some(truth(b <= a)),
        ScalarOp::Gt => Some(truth(b > a)),
        ScalarOp::Ge => Some(truth(b >= a)),
        ScalarOp::Min => Some(if b <= a {
            b
        } else {
            a
        }),
        ScalarOp::Max => Some(if b >= a {
            b
        } else {
            a
        }),
        ScalarOp::Complex => None,
    }
}

/// `op` on two complex numbers with integer parts, as real and imaginary
/// part. Sums and products are those of the Gaussian integers; equality
/// gives one or zero; ordering tests, minimum and maximum go part by part;
/// `Complex` takes `b` as the real and `a` as the imaginary part.
pub open spec fn complex_op(op: ScalarOp, a: (int, int), b: (int, int)) -> Option<(int, int)> {
    match op {
        ScalarOp::Add => Some((b.0 + a.0, b.1 + a.1)),
        ScalarOp::Sub => Some((b.0 - a.0, b.1 - a.1)),
        ScalarOp::Mul => Some((b.0 * a.0 - b.1 * a.1, b.0 * a.1 + b.1 * a.0)),
        ScalarOp::Div => None,
        ScalarOp::Mod => None,
        ScalarOp::Eq => Some((truth(b == a), 0)),
        ScalarOp::Ne => Some((truth(b != a), 0)),
        ScalarOp::Complex => Some((b.0, a.0)),
        _ => match (int_op(op, a.0, b.0), int_op(op, a.1, b.1)) {
            (Some(re), Some(im)) => Some((re, im)),
            _ => None,
        },
    }
}

pub open spec fn fits(x: int) -> bool {
    i64::MIN <= x <= i64::MAX
}

impl Cell {
    /// The integer that a byte, number or character cell stands for.
    pub open spec fn integer(self) -> int {
        match self {
            Cell::Byte(b) => b as int,
            Cell::Num(n) => n as int,
            Cell::Char(c) => c as int,
            _ => 0,
        }
    }

    /// The complex number that a byte, number or complex cell stands for.
    pub open spec fn complex(self) -> (int, int) {
        match self {
            Cell::Cpx(re, im) => (re as int, im as int),
            _ => (self.integer(), 0),
        }
    }
}

/// What `op` makes of the cells `a` (from the top operand) and `b` (from the
/// one below). Fails with a domain error where `result_kind` has no answer,
/// on a division by zero, and where a result does not fit a 64-bit integer.
pub open spec fn apply(op: ScalarOp, a: Cell, b: Cell) -> Result<Cell, Fault> {
    match result_kind(op, a.kind(), b.kind()) {
        None => Err(Fault::DomainError),
        Some(Kind::Complex) => match complex_op(op, a.complex(), b.complex()) {
            Some((re, im)) if fits(re) && fits(im) => Ok(Cell::Cpx(re as i64, im as i64)),
            _ => Err(Fault::DomainError),
        },
        Some(Kind::Byte) => match int_op(op, a.integer(), b.integer()) {
            Some(x) => Ok(Cell::Byte(x as u8)),
            None => Err(Fault::DomainError),
        },
        Some(_) => match int_op(op, a.integer(), b.integer()) {
            Some(x) if fits(x) => Ok(Cell::Num(x as i64)),
            _ => Err(Fault::DomainError),
        },
    }
}

/// A successful application yields a cell of the kind that `result_kind`
/// names, and a failure is always a domain error.
pub proof fn lemma_apply_kind(op: ScalarOp, a: Cell, b: Cell)
    ensures
        match apply(op, a, b) {
            Ok(c) => result_kind(op, a.kind(), b.kind()) == Some(c.kind()) && !(c is Boxed),
            Err(e) => e == Fault::DomainError,
        },
{
}

/// `result_kind`, computed.
pub fn kind_of_result(op: ScalarOp, a: Kind, b: Kind) -> (r: Option<Kind>)
    ensures
        r == result_kind(op, a, b),
{
    if a == Kind::Box || b == Kind::Box {
        None
    } else if a == Kind::Character || b == Kind::Character {
        if a == Kind::Character && b == Kind::Character && op.comparison() {
            Some(Kind::Byte)
        } else {
            None
        }
    } else if op == ScalarOp::Complex {
        if a == Kind::Complex || b == Kind::Complex {
            None
        } else {
            Some(Kind::Complex)
        }
    } else if a == Kind::Complex || b == Kind::Complex {
        if op == ScalarOp::Div || op == ScalarOp::Mod {
            None
        } else {
            Some(Kind::Complex)
        }
    } else if a == Kind::Byte && b == Kind::Byte && op.boolean() {
        Some(Kind::Byte)
    } else {
        Some(Kind::Number)
    }
}

fn flag(b: bool) -> (r: i64)
    ensures
        r == truth(b),
{
    if b {
        1
    } else {
        0
    }
}

/// `int_op` on 64-bit integers: `None` where it has no answer or the answer
/// does not fit.
pub fn int_op_checked(op: ScalarOp, a: i64, b: i64) -> (r: Option<i64>)
    ensures
        match int_op(op, a as int, b as int) {
            Some(x) if fits(x) => r == Some(x as i64),
            _ => r is None,
        },
{
    match op {
        ScalarOp::Add => b.checked_add(a),
        ScalarOp::Sub => b.checked_sub(a),
        ScalarOp::Mul => b.checked_mul(a),
        ScalarOp::Div => b.checked_div_euclid(a),
        ScalarOp::Mod => {
            if a == -1 {
                assert((b as int) % (-1int) == 0) by (nonlinear_arith);
                Some(0)
            } else {
                assert(a != 0 ==> i64::MIN <= (b as int) % (a as int) <= i64::MAX) by (nonlinear_arith)
                    requires
                        i64::MIN <= a <= i64::MAX,
                ;
                b.checked_rem_euclid(a)
            }
        },
        ScalarOp::Eq => Some(flag(b == a)),
        ScalarOp::Ne => Some(flag(b != a)),
        ScalarOp::Lt => Some(flag(b < a)),
        ScalarOp::Le => Some(flag(b <= a)),
        ScalarOp::Gt => Some(flag(b > a)),
        ScalarOp::Ge => Some(flag(b >= a)),
        ScalarOp::Min => Some(if b <= a {
            b
        } else {
            a
        }),
        ScalarOp::Max => Some(if b >= a {
            b
        } else {
            a
        }),
        ScalarOp::Complex => None,
    }
}

fn narrow(x: i128) -> (r: Option<i64>)
    ensures
        r == (if fits(x as int) {
            Some(x as i64)
        } else {
            None::<i64>
        }),
{
    if x < -0x8000_0000_0000_0000i128 || x > 0x7fff_ffff_ffff_ffffi128 {
        None
    } else {
        Some(x as i64)
    }
}

/// `complex_op` on 64-bit parts: `None` where it has no answer or a part of
/// the answer does not fit.
pub fn complex_op_checked(op: ScalarOp, a: (i64, i64), b: (i64, i64)) -> (r: Option<(i64, i64)>)
    ensures
        match complex_op(op, (a.0 as int, a.1 as int), (b.0 as int, b.1 as int)) {
            Some((re, im)) if fits(re) && fits(im) => r == Some((re as i64, im as i64)),
            _ => r is None,
        },
{
    match op {
        ScalarOp::Mul => {
            let (ar, ai): (i128, i128) = (a.0 as i128, a.1 as i128);
            let (br, bi): (i128, i128) = (b.0 as i128, b.1 as i128);
            proof {
                lemma_product_bound(br as int, ar as int);
                lemma_product_bound(bi as int, ai as int);
                lemma_product_bound(br as int, ai as int);
                lemma_product_bound(bi as int, ar as int);
            }
            let re = br * ar - bi * ai;
            match (br * ai).checked_add(bi * ar) {
                Some(im) => match (narrow(re), narrow(im)) {
                    (Some(re), Some(im)) => Some((re, im)),
                    _ => None,
                },
                None => None,
            }
        },
        ScalarOp::Div => None,
        ScalarOp::Mod => None,
        ScalarOp::Eq => Some((flag(b.0 == a.0 && b.1 == a.1), 0)),
        ScalarOp::Ne => Some((flag(!(b.0 == a.0 && b.1 == a.1)), 0)),
        ScalarOp::Complex => Some((b.0, a.0)),
        _ => match (int_op_checked(op, a.0, b.0), int_op_checked(op, a.1, b.1)) {
            (Some(re), Some(im)) => Some((re, im)),
            _ => None,
        },
    }
}

proof fn lemma_product_bound(x: int, y: int)
    requires
        fits(x),
        fits(y),
    ensures
        -0x4000_0000_0000_0000_0000_0000_0000_0000 < x * y <= 0x4000_0000_0000_0000_0000_0000_0000_0000,
{
    assert(-0x4000_0000_0000_0000_0000_0000_0000_0000 < x * y
        <= 0x4000_0000_0000_0000_0000_0000_0000_0000) by (nonlinear_arith)
        requires
            -0x8000_0000_0000_0000 <= x <= 0x7fff_ffff_ffff_ffff,
            -0x8000_0000_0000_0000 <= y <= 0x7fff_ffff_ffff_ffff,
    ;
}

impl Elem {
    /// The integer in a byte, number or character cell.
    pub fn integer(&self) -> (r: i64)
        ensures
            r == self@.integer(),
    {
        match self {
            Elem::Byte(b) => *b as i64,
            Elem::Num(n) => *n,
            Elem::Char(c) => *c as u32 as i64,
            _ => 0,
        }
    }

    /// The complex number in a byte, number or complex cell.
    pub fn complex(&self) -> (r: (i64, i64))
        ensures
            r.0 == self@.complex().0,
            r.1 == self@.complex().1,
    {
        match self {
            Elem::Cpx(re, im) => (*re, *im),
            _ => (self.integer(), 0),
        }
    }
}

/// Applies `op` to one pair of cells.
pub fn apply_elems(op: ScalarOp, a: &Elem, b: &Elem) -> (r: Result<Elem, RuntimeError>)
    ensures
        match r {
            Ok(e) => apply(op, a@, b@) == Ok::<Cell, Fault>(e@),
            Err(e) => apply(op, a@, b@) == Err::<Cell, Fault>(e@),
        },
{
    match kind_of_result(op, a.kind(), b.kind()) {
        None => Err(RuntimeError::DomainError),
        Some(Kind::Complex) => match complex_op_checked(op, a.complex(), b.complex()) {
            Some((re, im)) => Ok(Elem::Cpx(re, im)),
            None => Err(RuntimeError::DomainError),
        },
        Some(Kind::Byte) => match int_op_checked(op, a.integer(), b.integer()) {
            Some(x) => {
                assert(0 <= x <= 255);
                Ok(Elem::Byte(x as u8))
            },
            None => Err(RuntimeError::DomainError),
        },
        Some(_) => match int_op_checked(op, a.integer(), b.integer()) {
            Some(x) => Ok(Elem::Num(x)),
            None => Err(RuntimeError::DomainError),
        },
    }
}

} // verus!
