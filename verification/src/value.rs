//! Array values: a kind, a shape and row-major cells.
use crate::cowslice::{CowSlice, Dup};
use crate::error::RuntimeError;
use crate::shape::{checked_product, lemma_row_bounds, product, row_count, row_len, row_shape};
use vstd::prelude::*;

verus! {

/// What the cells of an array hold.
#[derive(Clone, Copy, Debug, PartialEq, Eq, Structural)]
pub enum Kind {
    Byte,
    Number,
    Complex,
    Character,
    Box,
}

/// One cell of an array, as mathematics sees it.
pub enum Cell {
    Byte(u8),
    Num(i64),
    Cpx(i64, i64),
    Char(char),
    Boxed(Array),
}

/// An array as mathematics sees it: what a [`Value`] stands for.
pub struct Array {
    pub kind: Kind,
    pub shape: Seq<usize>,
    pub cells: Seq<Cell>,
}

/// The cell that holds the character `c`.
pub open spec fn char_cell(c: char) -> Cell {
    Cell::Char(c)
}

impl Cell {
    pub open spec fn kind(self) -> Kind {
        match self {
            Cell::Byte(_) => Kind::Byte,
            Cell::Num(_) => Kind::Number,
            Cell::Cpx(_, _) => Kind::Complex,
            Cell::Char(_) => Kind::Character,
            Cell::Boxed(_) => Kind::Box,
        }
    }
}

impl Array {
    /// The shape accounts for every cell, every cell is of the array's kind,
    /// and boxed arrays are valid in turn.
    pub open spec fn valid(self) -> bool
        decreases self,
    {
        &&& product(self.shape) == self.cells.len()
        &&& forall|i: int|
            0 <= i < self.cells.len() ==> (#[trigger] self.cells[i]).kind() == self.kind
        &&& forall|i: int|
            0 <= i < self.cells.len() ==> (#[trigger] self.cells[i] matches Cell::Boxed(inner)
                ==> inner.valid())
    }
}

/// One stored cell.
#[derive(Debug)]
pub enum Elem {
    Byte(u8),
    Num(i64),
    Cpx(i64, i64),
    Char(char),
    Boxed(Value),
}

/// An array value. Cloning shares the cells; writing copies them first if
/// they are shared.
#[derive(Debug)]
pub struct Value {
    kind: Kind,
    shape: CowSlice<usize>,
    data: CowSlice<Elem>,
}

/// A span of rows of a valid array is a valid array, and its rows are the
/// rows it spans.
pub proof fn lemma_span(a: Array, from: int, count: int)
    requires
        a.valid(),
        a.shape.len() >= 1,
        0 <= from,
        0 <= count,
        from + count <= a.rows(),
    ensures
        a.span(from, count).valid(),
        a.span(from, count).rows() == count,
        0 <= from * row_len(a.shape) <= (from + count) * row_len(a.shape) <= a.cells.len(),
        forall|j: int| 0 <= j < count ==> #[trigger] a.span(from, count).row(j) == a.row(from + j),
{
    let len = row_len(a.shape) as int;
    let n = a.rows() as int;
    let sp = a.span(from, count);
    assert(0 <= from * len <= (from + count) * len <= n * len) by (nonlinear_arith)
        requires
            0 <= from,
            0 <= count,
            from + count <= n,
            0 <= len,
    ;
    assert((from + count) * len - from * len == count * len) by (nonlinear_arith);
    assert(sp.shape.drop_first() =~= row_shape(a.shape));
    assert(row_shape(sp.shape) =~= row_shape(a.shape));
    assert(product(sp.shape) == count * len);
    assert forall|i: int| 0 <= i < sp.cells.len() implies (#[trigger] sp.cells[i]).kind() == sp.kind
        && (sp.cells[i] matches Cell::Boxed(inner) ==> inner.valid()) by {
        assert(sp.cells[i] == a.cells[from * len + i]);
    }
    assert forall|j: int| 0 <= j < count implies #[trigger] sp.row(j) == a.row(from + j) by {
        assert((from + j) * len == from * len + j * len) by (nonlinear_arith);
        assert(0 <= j * len && j * len + len <= count * len) by (nonlinear_arith)
            requires
                0 <= j < count,
                0 <= len,
        ;
        assert(sp.row(j).cells =~= a.row(from + j).cells);
    }
}

/// The cells that stored elements stand for.
pub open spec fn models(elems: Seq<Elem>) -> Seq<Cell> {
    Seq::new(elems.len(), |i: int| elems[i].model())
}

pub proof fn lemma_models_push(elems: Seq<Elem>, e: Elem)
    ensures
        models(elems.push(e)) == models(elems).push(e.model()),
{
    assert(models(elems.push(e)) =~= models(elems).push(e.model()));
}

/// Every cell is of kind `kind`, and boxed arrays are valid.
pub open spec fn cells_fit(kind: Kind, cells: Seq<Cell>) -> bool {
    &&& forall|i: int| 0 <= i < cells.len() ==> (#[trigger] cells[i]).kind() == kind
    &&& forall|i: int|
        0 <= i < cells.len() ==> (#[trigger] cells[i] matches Cell::Boxed(inner) ==> inner.valid())
}

impl Array {
    /// Row `i`: the `i`-th block of `row_len` cells, shaped like a row.
    pub open spec fn row(self, i: int) -> Array {
        let len = row_len(self.shape) as int;
        Array {
            kind: self.kind,
            shape: row_shape(self.shape),
            cells: self.cells.subrange(i * len, i * len + len),
        }
    }

    pub open spec fn rows(self) -> nat {
        row_count(self.shape)
    }

    /// The `count` rows from row `from` on, as an array of their own.
    pub open spec fn span(self, from: int, count: int) -> Array {
        let len = row_len(self.shape) as int;
        Array {
            kind: self.kind,
            shape: seq![count as usize] + row_shape(self.shape),
            cells: self.cells.subrange(from * len, (from + count) * len),
        }
    }

    pub open spec fn scalar(cell: Cell) -> Array {
        Array { kind: cell.kind(), shape: Seq::empty(), cells: seq![cell] }
    }

    /// The vector of the given characters.
    pub open spec fn string(chars: Seq<char>) -> Array {
        Array {
            kind: Kind::Character,
            shape: seq![chars.len() as usize],
            cells: Seq::new(chars.len(), |i: int| char_cell(chars[i])),
        }
    }

    /// The vector of the given numbers.
    pub open spec fn numbers(items: Seq<i64>) -> Array {
        Array {
            kind: Kind::Number,
            shape: seq![items.len() as usize],
            cells: Seq::new(items.len(), |i: int| Cell::Num(items[i])),
        }
    }
}

/// In a valid array with rows, every row is a valid array.
pub proof fn lemma_row_valid(a: Array, i: int)
    requires
        a.valid(),
        0 <= i < a.rows(),
    ensures
        a.row(i).valid(),
        a.row(i).cells.len() == row_len(a.shape),
        i * row_len(a.shape) + row_len(a.shape) <= a.cells.len(),
{
    lemma_row_bounds(i as nat, row_count(a.shape), row_len(a.shape));
}

impl Elem {
    pub open spec fn model(self) -> Cell
        decreases self,
    {
        match self {
            Elem::Byte(b) => Cell::Byte(b),
            Elem::Num(n) => Cell::Num(n),
            Elem::Cpx(re, im) => Cell::Cpx(re, im),
            Elem::Char(c) => Cell::Char(c),
            Elem::Boxed(v) => Cell::Boxed(v.model()),
        }
    }
}

impl Elem {
    /// The kind of array this cell belongs in.
    pub fn kind(&self) -> (k: Kind)
        ensures
            k == self@.kind(),
            self@ matches Cell::Boxed(inner) ==> inner.valid(),
    {
        match self {
            Elem::Byte(_) => Kind::Byte,
            Elem::Num(_) => Kind::Number,
            Elem::Cpx(_, _) => Kind::Complex,
            Elem::Char(_) => Kind::Character,
            Elem::Boxed(v) => {
                proof {
                    use_type_invariant(v);
                }
                Kind::Box
            },
        }
    }
}

impl Value {
    pub closed spec fn model(self) -> Array
        decreases self,
    {
        Array {
            kind: self.kind,
            shape: self.shape@,
            cells: if self.data.wf() {
                Seq::new(
                    self.data@.len(),
                    |i: int|
                        if 0 <= i < self.data@.len() {
                            proof {
                                self.data.lemma_elem_smaller(i);
                            }
                            self.data@[i].model()
                        } else {
                            Cell::Byte(0)
                        },
                )
            } else {
                Seq::empty()
            },
        }
    }

    /// The model reads off the stored parts cell by cell.
    proof fn lemma_model(self)
        requires
            self.data.wf(),
        ensures
            self.model().kind == self.kind,
            self.model().shape == self.shape@,
            self.model().cells == models(self.data@),
    {
        assert(self.model().cells =~= models(self.data@));
    }

    /// What every value that code can hold satisfies.
    #[verifier::type_invariant]
    pub closed spec fn inv(self) -> bool {
        self.model().valid() && self.data.wf()
    }

    /// Builds a value from parts that are known to fit.
    pub(crate) fn assemble(kind: Kind, shape: Vec<usize>, cells: Vec<Elem>) -> (r: Value)
        requires
            product(shape@) == cells@.len(),
            cells_fit(kind, models(cells@)),
        ensures
            r@ == (Array { kind, shape: shape@, cells: models(cells@) }),
            r@.valid(),
    {
        let ghost want = Array { kind, shape: shape@, cells: models(cells@) };
        let data = CowSlice::new(cells);
        let shape = CowSlice::new(shape);
        proof {
            use_type_invariant(&data);
            (Value { kind, shape, data }).lemma_model();
        }
        Value { kind, shape, data }
    }

    /// Builds a value after checking that the parts fit: the shape must
    /// account for every cell, and every cell must be of kind `kind`.
    pub fn new(kind: Kind, shape: Vec<usize>, cells: Vec<Elem>) -> (r: Result<Value, RuntimeError>)
        ensures
            match r {
                Ok(v) => {
                    &&& v@ == (Array { kind, shape: shape@, cells: models(cells@) })
                    &&& v@.valid()
                },
                Err(RuntimeError::ShapeMismatch) => product(shape@) != cells@.len(),
                Err(RuntimeError::DomainError) => {
                    &&& product(shape@) == cells@.len()
                    &&& exists|i: int| 0 <= i < cells@.len() && cells@[i]@.kind() != kind
                },
                Err(_) => false,
            },
    {
        let count = cells.len();
        match checked_product(&shape) {
            Some(n) => {
                if n != cells.len() {
                    return Err(RuntimeError::ShapeMismatch);
                }
            },
            None => {
                return Err(RuntimeError::ShapeMismatch);
            },
        }
        let mut i: usize = 0;
        while i < cells.len()
            invariant
                i <= cells@.len(),
                product(shape@) == cells@.len(),
                cells_fit(kind, models(cells@).take(i as int)),
            decreases cells@.len() - i,
        {
            if cells[i].kind() != kind {
                assert(cells@[i as int]@.kind() != kind);
                return Err(RuntimeError::DomainError);
            }
            proof {
                let before = models(cells@).take(i as int);
                let after = models(cells@).take(i + 1);
                assert forall|j: int| 0 <= j < after.len() implies (#[trigger] after[j]).kind()
                    == kind by {
                    if j < i {
                        assert(after[j] == before[j]);
                    }
                }
                assert forall|j: int| 0 <= j < after.len() implies (#[trigger] after[j] matches Cell::Boxed(
                    inner,
                ) ==> inner.valid()) by {
                    if j < i {
                        assert(after[j] == before[j]);
                    }
                }
            }
            i += 1;
        }
        assert(models(cells@).take(cells@.len() as int) =~= models(cells@));
        Ok(Value::assemble(kind, shape, cells))
    }
}

impl Value {
    /// Unfolds what every held value satisfies.
    pub proof fn lemma_inv(self)
        requires
            self.inv(),
        ensures
            self@.valid(),
    {
    }

    /// Another handle on the same array. No cell is copied.
    pub fn share(&self) -> (r: Value)
        ensures
            r == *self,
            r@.valid(),
    {
        proof {
            use_type_invariant(self);
        }
        Value { kind: self.kind, shape: self.shape.share(), data: self.data.share() }
    }

    /// The array that holds `cell` alone, with no dimensions.
    pub fn scalar(cell: Elem) -> (r: Value)
        ensures
            r@ == Array::scalar(cell@),
            r@.valid(),
    {
        let kind = cell.kind();
        let mut cells: Vec<Elem> = Vec::new();
        cells.push(cell);
        let shape: Vec<usize> = Vec::new();
        assert(models(cells@) =~= seq![cell@]);
        Value::assemble(kind, shape, cells)
    }

    /// The vector of the characters of `s`.
    pub fn text(s: &str) -> (r: Value)
        ensures
            r@ == Array::string(s@),
            r@.valid(),
    {
        let n = s.unicode_len();
        let mut cells: Vec<Elem> = Vec::new();
        let mut i: usize = 0;
        while i < n
            invariant
                i <= n,
                n == s@.len(),
                cells@.len() == i,
                forall|k: int| 0 <= k < i ==> cells@[k] == Elem::Char(s@[k]),
            decreases n - i,
        {
            cells.push(Elem::Char(s.get_char(i)));
            i += 1;
        }
        let mut shape: Vec<usize> = Vec::new();
        shape.push(n);
        proof {
            assert(models(cells@) =~= Array::string(s@).cells);
            assert(shape@ =~= Array::string(s@).shape);
            assert(shape@.drop_first() =~= Seq::<usize>::empty());
            assert(product(Seq::<usize>::empty()) == 1);
            assert(product(shape@) == n * product(shape@.drop_first()));
            assert(cells_fit(Kind::Character, models(cells@)));
        }
        Value::assemble(Kind::Character, shape, cells)
    }

    /// The vector of the given numbers.
    pub fn numbers(items: &Vec<i64>) -> (r: Value)
        ensures
            r@ == Array::numbers(items@),
            r@.valid(),
    {
        let n = items.len();
        let mut cells: Vec<Elem> = Vec::new();
        let mut i: usize = 0;
        while i < n
            invariant
                i <= n,
                n == items@.len(),
                cells@.len() == i,
                forall|k: int| 0 <= k < i ==> cells@[k] == Elem::Num(items@[k]),
            decreases n - i,
        {
            cells.push(Elem::Num(items[i]));
            i += 1;
        }
        let mut shape: Vec<usize> = Vec::new();
        shape.push(n);
        proof {
            assert(models(cells@) =~= Array::numbers(items@).cells);
            assert(shape@ =~= Array::numbers(items@).shape);
            assert(shape@.drop_first() =~= Seq::<usize>::empty());
            assert(product(Seq::<usize>::empty()) == 1);
            assert(product(shape@) == n * product(shape@.drop_first()));
            assert(cells_fit(Kind::Number, models(cells@)));
        }
        Value::assemble(Kind::Number, shape, cells)
    }

    pub fn kind(&self) -> (k: Kind)
        ensures
            k == self@.kind,
            self@.valid(),
    {
        proof {
            use_type_invariant(self);
        }
        self.kind
    }

    /// The number of dimensions.
    pub fn rank(&self) -> (n: usize)
        ensures
            n == self@.shape.len(),
            self@.valid(),
    {
        proof {
            use_type_invariant(self);
        }
        self.shape.len()
    }

    /// The size of dimension `i`.
    pub fn dim(&self, i: usize) -> (d: usize)
        requires
            i < self@.shape.len(),
        ensures
            d == self@.shape[i as int],
    {
        *self.shape.get(i)
    }

    /// The dimensions, copied out.
    pub fn shape(&self) -> (dims: Vec<usize>)
        ensures
            dims@ == self@.shape,
            self@.valid(),
    {
        proof {
            use_type_invariant(self);
        }
        self.shape.to_vec()
    }

    /// The dimensions of each row, copied out.
    pub fn row_dims(&self) -> (dims: Vec<usize>)
        ensures
            dims@ == row_shape(self@.shape),
            self@.valid(),
    {
        proof {
            use_type_invariant(self);
        }
        if self.shape.len() == 0 {
            Vec::new()
        } else {
            let tail = self.shape.slice(1, self.shape.len());
            assert(tail@ =~= self@.shape.drop_first());
            tail.to_vec()
        }
    }

    /// The number of cells.
    pub fn count(&self) -> (n: usize)
        ensures
            n == self@.cells.len(),
            n == product(self@.shape),
            self@.valid(),
    {
        proof {
            use_type_invariant(self);
            self.lemma_model();
        }
        self.data.len()
    }

    /// Cell `i` in row-major order.
    pub fn cell(&self, i: usize) -> (e: &Elem)
        requires
            i < self@.cells.len(),
        ensures
            e@ == self@.cells[i as int],
            e@.kind() == self@.kind,
            self@.valid(),
    {
        proof {
            use_type_invariant(self);
            self.lemma_model();
            assert(self@.cells[i as int].kind() == self@.kind);
        }
        self.data.get(i)
    }

    /// The number of rows: the leading dimension, or one for a scalar.
    pub fn row_count(&self) -> (n: usize)
        ensures
            n == self@.rows(),
            self@.valid(),
    {
        proof {
            use_type_invariant(self);
        }
        if self.shape.len() == 0 {
            1
        } else {
            *self.shape.get(0)
        }
    }

    /// The number of cells in each row of an array that has rows.
    pub fn row_len(&self) -> (n: usize)
        requires
            self@.rows() > 0,
        ensures
            n == row_len(self@.shape),
            self@.valid(),
    {
        proof {
            use_type_invariant(self);
            self.lemma_model();
        }
        if self.shape.len() == 0 {
            1
        } else {
            let rows = *self.shape.get(0);
            let total = self.data.len();
            proof {
                let len = row_len(self@.shape) as int;
                let r = rows as int;
                assert(total == r * len);
                assert(r > 0 ==> (r * len) / r == len) by (nonlinear_arith);
            }
            total / rows
        }
    }

    /// Row `i`, as a window into this array's cells. No cell is copied.
    pub fn row(&self, i: usize) -> (r: Value)
        requires
            i < self@.rows(),
        ensures
            r@ == self@.row(i as int),
            r@.valid(),
            self@.valid(),
            r.cell_buffer() == self.cell_buffer(),
    {
        proof {
            use_type_invariant(self);
            self.lemma_model();
            lemma_row_valid(self@, i as int);
        }
        let len = self.row_len();
        let total = self.data.len();
        proof {
            lemma_row_bounds(i as nat, self@.rows(), len as nat);
            assert(self@.rows() * len == total);
            assert(0 <= i * len) by (nonlinear_arith)
                requires
                    0 <= i,
                    0 <= len,
            ;
        }
        let data = self.data.slice(i * len, i * len + len);
        let shape = if self.shape.len() == 0 {
            self.shape.share()
        } else {
            self.shape.slice(1, self.shape.len())
        };
        proof {
            use_type_invariant(&data);
            let cand = Value { kind: self.kind, shape, data };
            cand.lemma_model();
            assert(cand.model().cells =~= self@.row(i as int).cells);
            assert(cand.model().shape =~= self@.row(i as int).shape);
        }
        Value { kind: self.kind, shape, data }
    }

    /// The same cells under other dimensions that account for as many.
    pub fn reshaped(self, shape: Vec<usize>) -> (r: Value)
        requires
            product(shape@) == self@.cells.len(),
        ensures
            r@ == (Array { kind: self@.kind, shape: shape@, cells: self@.cells }),
            r@.valid(),
    {
        proof {
            use_type_invariant(&self);
            self.lemma_model();
        }
        let shape = CowSlice::new(shape);
        proof {
            (Value { kind: self.kind, shape, data: self.data }).lemma_model();
        }
        Value { kind: self.kind, shape, data: self.data }
    }

    /// Whether this value and `other` stand for the same array: the same
    /// kind, the same shape and the same cells, boxed arrays compared in
    /// the same way.
    pub fn same(&self, other: &Value) -> (r: bool)
        ensures
            r == (self@ == other@),
        decreases self@,
    {
        if self.kind() != other.kind() {
            return false;
        }
        let rank = self.rank();
        if rank != other.rank() {
            assert(self@.shape.len() != other@.shape.len());
            return false;
        }
        let mut d: usize = 0;
        while d < rank
            invariant
                d <= rank,
                rank == self@.shape.len(),
                rank == other@.shape.len(),
                forall|k: int| 0 <= k < d ==> self@.shape[k] == other@.shape[k],
            decreases rank - d,
        {
            if self.dim(d) != other.dim(d) {
                return false;
            }
            d += 1;
        }
        assert(self@.shape =~= other@.shape);
        let n = self.count();
        let m = other.count();
        let mut i: usize = 0;
        while i < n
            invariant
                i <= n,
                n == self@.cells.len(),
                n == other@.cells.len(),
                self@.kind == other@.kind,
                self@.shape == other@.shape,
                forall|k: int| 0 <= k < i ==> self@.cells[k] == other@.cells[k],
            decreases n - i,
        {
            let same = match (self.cell(i), other.cell(i)) {
                (Elem::Byte(a), Elem::Byte(b)) => *a == *b,
                (Elem::Num(a), Elem::Num(b)) => *a == *b,
                (Elem::Cpx(a, b), Elem::Cpx(c, d)) => *a == *c && *b == *d,
                (Elem::Char(a), Elem::Char(b)) => *a == *b,
                (Elem::Boxed(a), Elem::Boxed(b)) => {
                    assert(self@.cells[i as int] == Cell::Boxed(a@));
                    a.same(b)
                },
                _ => false,
            };
            if !same {
                assert(self@.cells[i as int] != other@.cells[i as int]);
                return false;
            }
            i += 1;
        }
        assert(self@.cells =~= other@.cells);
        true
    }

    /// The `count` rows from row `from` on, as a window into this array's
    /// cells. No cell is copied.
    pub fn span(&self, from: usize, count: usize) -> (r: Value)
        requires
            self@.shape.len() >= 1,
            from + count <= self@.rows(),
        ensures
            r@ == self@.span(from as int, count as int),
            r@.valid(),
            r.cell_buffer() == self.cell_buffer(),
    {
        proof {
            use_type_invariant(self);
            self.lemma_model();
            lemma_span(self@, from as int, count as int);
        }
        let total = self.data.len();
        let len = if count == 0 {
            0
        } else {
            self.row_len()
        };
        proof {
            if count == 0 {
                assert(from * row_len(self@.shape) == (from + count) * row_len(self@.shape));
                assert(from * 0 == 0 && (from + count) * 0 == 0);
            }
            assert(0 <= from * len) by (nonlinear_arith)
                requires
                    0 <= from,
                    0 <= len,
            ;
            assert(0 <= (from + count) * len) by (nonlinear_arith)
                requires
                    0 <= from + count,
                    0 <= len,
            ;
        }
        let data = if count == 0 {
            self.data.slice(0, 0)
        } else {
            self.data.slice(from * len, (from + count) * len)
        };
        let mut dims: Vec<usize> = Vec::new();
        dims.push(count);
        let rank = self.shape.len();
        let mut d: usize = 1;
        while d < rank
            invariant
                1 <= d <= rank,
                rank == self.shape@.len(),
                dims@ == seq![count] + self.shape@.subrange(1, d as int),
            decreases rank - d,
        {
            dims.push(*self.shape.get(d));
            d += 1;
            assert(dims@ =~= seq![count] + self.shape@.subrange(1, d as int));
        }
        let shape = CowSlice::new(dims);
        proof {
            use_type_invariant(&data);
            assert(self.shape@.subrange(1, rank as int) =~= self.shape@.drop_first());
            let cand = Value { kind: self.kind, shape, data };
            cand.lemma_model();
            let want = self@.span(from as int, count as int);
            if count == 0 {
                assert(want.cells =~= Seq::<Cell>::empty());
            }
            assert(cand.model().cells =~= want.cells);
            assert(cand.model().shape =~= want.shape);
        }
        Value { kind: self.kind, shape, data }
    }

    /// True only if both values are windows into one cell buffer.
    pub fn shares_cells_with(&self, other: &Value) -> (r: bool)
        ensures
            r ==> self.cell_buffer() == other.cell_buffer(),
    {
        self.data.same_buffer(&other.data)
    }

    /// The whole cell buffer into which this value is a window.
    pub closed spec fn cell_buffer(self) -> Seq<Elem> {
        self.data.buffer()
    }
}

impl Dup for Elem {
    fn dup(&self) -> (r: Elem) {
        match self {
            Elem::Byte(b) => Elem::Byte(*b),
            Elem::Num(n) => Elem::Num(*n),
            Elem::Cpx(re, im) => Elem::Cpx(*re, *im),
            Elem::Char(c) => Elem::Char(*c),
            Elem::Boxed(v) => Elem::Boxed(v.share()),
        }
    }
}

impl Clone for Elem {
    fn clone(&self) -> (r: Elem)
        ensures
            r == *self,
    {
        self.dup()
    }
}

impl Clone for Value {
    fn clone(&self) -> (r: Value)
        ensures
            r == *self,
    {
        self.share()
    }
}

/// The arrays that stored values stand for.
pub open spec fn views(values: Seq<Value>) -> Seq<Array> {
    Seq::new(values.len(), |i: int| values[i].model())
}

pub proof fn lemma_views_push(values: Seq<Value>, v: Value)
    ensures
        views(values.push(v)) == views(values).push(v.model()),
{
    assert(views(values.push(v)) =~= views(values).push(v.model()));
}

impl View for Elem {
    type V = Cell;

    open spec fn view(&self) -> Cell {
        self.model()
    }
}

impl View for Value {
    type V = Array;

    open spec fn view(&self) -> Array {
        self.model()
    }
}

} // verus!
