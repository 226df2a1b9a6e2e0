//! Negation, cell by cell.
use crate::error::{Fault, RuntimeError};
use crate::value::{models, Array, Cell, Elem, Kind, Value};
use vstd::prelude::*;

verus! {

/// The negative of a cell. A byte gives a number; a complex number has
/// both parts negated. A negative that does not fit in 64 bits, a
/// character and a box are outside the domain.
pub open spec fn negated(c: Cell) -> Result<Cell, Fault> {
    match c {
        Cell::Byte(b) => Ok(Cell::Num((0 - b) as i64)),
        Cell::Num(n) => if n == i64::MIN {
            Err(Fault::DomainError)
        } else {
            Ok(Cell::Num((0 - n) as i64))
        },
        Cell::Cpx(re, im) => if re == i64::MIN || im == i64::MIN {
            Err(Fault::DomainError)
        } else {
            Ok(Cell::Cpx((0 - re) as i64, (0 - im) as i64))
        },
        _ => Err(Fault::DomainError),
    }
}

/// The kind of the negatives of cells of kind `kind`, where they have any.
pub open spec fn negated_kind(kind: Kind) -> Option<Kind> {
    match kind {
        Kind::Byte | Kind::Number => Some(Kind::Number),
        Kind::Complex => Some(Kind::Complex),
        _ => None,
    }
}

/// The array of the negatives of the cells of `a`, in the shape of `a`.
/// An array of characters or boxes is outside the domain, and so is an
/// array with a cell whose negative is.
pub open spec fn negate(a: Array) -> Result<Array, Fault> {
    match negated_kind(a.kind) {
        None => Err(Fault::DomainError),
        Some(kind) => if exists|i: int| 0 <= i < a.cells.len() && !(#[trigger] negated(a.cells[i]) is Ok) {
            Err(Fault::DomainError)
        } else {
            Ok(
                Array {
                    kind,
                    shape: a.shape,
                    cells: Seq::new(a.cells.len(), |i: int| negated(a.cells[i])->Ok_0),
                },
            )
        },
    }
}

/// The negation of a valid array is a valid array.
pub proof fn lemma_negate_valid(a: Array)
    requires
        a.valid(),
    ensures
        negate(a) matches Ok(r) ==> r.valid(),
{
    if let Ok(r) = negate(a) {
        assert forall|i: int| 0 <= i < r.cells.len() implies (#[trigger] r.cells[i]).kind() == r.kind
            && !(r.cells[i] is Boxed) by {
            assert(a.cells[i].kind() == a.kind);
            assert(negated(a.cells[i]) is Ok);
        }
    }
}

fn negate_elem(e: &Elem) -> (r: Option<Elem>)
    ensures
        match r {
            Some(x) => negated(e@) == Ok::<Cell, Fault>(x@),
            None => negated(e@) is Err,
        },
{
    match e {
        Elem::Byte(b) => {
            let n: i64 = *b as i64;
            Some(Elem::Num(0 - n))
        },
        Elem::Num(n) => if *n == i64::MIN {
            None
        } else {
            Some(Elem::Num(0 - *n))
        },
        Elem::Cpx(re, im) => if *re == i64::MIN || *im == i64::MIN {
            None
        } else {
            Some(Elem::Cpx(0 - *re, 0 - *im))
        },
        _ => None,
    }
}

/// The negation of `a`.
pub fn negate_value(a: &Value) -> (r: Result<Value, RuntimeError>)
    ensures
        match r {
            Ok(v) => negate(a@) == Ok::<Array, Fault>(v@) && v@.valid(),
            Err(e) => negate(a@) == Err::<Array, Fault>(e@),
        },
{
    let kind = match a.kind() {
        Kind::Byte | Kind::Number => Kind::Number,
        Kind::Complex => Kind::Complex,
        _ => {
            return Err(RuntimeError::DomainError);
        },
    };
    let n = a.count();
    let mut cells: Vec<Elem> = Vec::new();
    let mut i: usize = 0;
    while i < n
        invariant
            i <= n,
            n == a@.cells.len(),
            a@.valid(),
            negated_kind(a@.kind) == Some(kind),
            cells@.len() == i,
            forall|k: int| 0 <= k < i ==> negated(a@.cells[k]) == Ok::<Cell, Fault>(#[trigger] cells@[k]@),
        decreases n - i,
    {
        match negate_elem(a.cell(i)) {
            Some(x) => {
                cells.push(x);
            },
            None => {
                return Err(RuntimeError::DomainError);
            },
        }
        i += 1;
    }
    proof {
        lemma_negate_valid(a@);
        assert forall|k: int| 0 <= k < a@.cells.len() implies (#[trigger] negated(a@.cells[k])) is Ok by {
            assert(negated(a@.cells[k]) == Ok::<Cell, Fault>(cells@[k]@));
        }
        let want = negate(a@)->Ok_0.cells;
        assert forall|k: int| 0 <= k < want.len() implies models(cells@)[k] == want[k] by {
            assert(negated(a@.cells[k]) == Ok::<Cell, Fault>(cells@[k]@));
        }
        assert(models(cells@) =~= want);
    }
    Ok(Value::assemble(kind, a.shape(), cells))
}

} // verus!
