//! The printed form of arrays.
use crate::value::{Array, Cell, Elem, Kind, Value};
use vstd::prelude::*;

verus! {

pub open spec fn digit(d: int) -> char {
    if d == 0 {
        '0'
    } else if d == 1 {
        '1'
    } else if d == 2 {
        '2'
    } else if d == 3 {
        '3'
    } else if d == 4 {
        '4'
    } else if d == 5 {
        '5'
    } else if d == 6 {
        '6'
    } else if d == 7 {
        '7'
    } else if d == 8 {
        '8'
    } else {
        '9'
    }
}

/// The decimal digits of a natural number, without leading zeros.
pub open spec fn digits(n: nat) -> Seq<char>
    decreases n,
{
    if n < 10 {
        seq![digit(n as int)]
    } else {
        digits(n / 10).push(digit((n % 10) as int))
    }
}

/// An integer in decimal, with a minus sign in front where it is negative.
pub open spec fn decimal(x: int) -> Seq<char> {
    if x < 0 {
        seq!['-'] + digits((-x) as nat)
    } else {
        digits(x as nat)
    }
}

/// One cell: a byte or number in decimal; a complex number as real part,
/// sign, imaginary part and `i`; a character after `@`; a box as `□`.
pub open spec fn cell_text(c: Cell) -> Seq<char> {
    match c {
        Cell::Byte(b) => decimal(b as int),
        Cell::Num(n) => decimal(n as int),
        Cell::Cpx(re, im) => decimal(re as int) + (if im < 0 {
            seq!['-'] + digits((-im) as nat)
        } else {
            seq!['+'] + digits(im as nat)
        }).push('i'),
        Cell::Char(c) => seq!['@', c],
        Cell::Boxed(_) => seq!['□'],
    }
}

/// The characters in the cells of a character array, in order.
pub open spec fn chars_of(cells: Seq<Cell>) -> Seq<char> {
    Seq::new(cells.len(), |i: int| cells[i]->Char_0)
}

/// The first `n` rows in printed form, with a space between neighbours.
pub open spec fn rows_text(a: Array, n: nat) -> Seq<char>
    decreases a.shape.len(), n, 0nat,
{
    if a.shape.len() == 0 || n == 0 {
        Seq::empty()
    } else if n == 1 {
        text(a.row(0))
    } else {
        rows_text(a, (n - 1) as nat).push(' ') + text(a.row(n - 1))
    }
}

/// The printed form of an array: a scalar as its cell, a vector of
/// characters between double quotes, any other array as its rows between
/// square brackets.
pub open spec fn text(a: Array) -> Seq<char>
    decreases a.shape.len(), usize::MAX + 1, 1nat,
{
    if a.shape.len() == 0 {
        if a.cells.len() > 0 {
            cell_text(a.cells[0])
        } else {
            Seq::empty()
        }
    } else if a.shape.len() == 1 && a.kind is Character {
        seq!['"'] + chars_of(a.cells).push('"')
    } else {
        seq!['['] + rows_text(a, a.rows()).push(']')
    }
}

/// Appends `c` to `s`.
///
/// Calls `String::push`, which appends the given character to the end of
/// the string.
#[verifier::external_body]
pub(crate) fn push_char(s: &mut String, c: char)
    ensures
        final(s)@ == old(s)@.push(c),
{
    s.push(c)
}

fn digit_char(d: u64) -> (c: char)
    requires
        d < 10,
    ensures
        c == digit(d as int),
{
    if d == 0 {
        '0'
    } else if d == 1 {
        '1'
    } else if d == 2 {
        '2'
    } else if d == 3 {
        '3'
    } else if d == 4 {
        '4'
    } else if d == 5 {
        '5'
    } else if d == 6 {
        '6'
    } else if d == 7 {
        '7'
    } else if d == 8 {
        '8'
    } else {
        '9'
    }
}

/// Appends the decimal digits of `n` to `out`.
pub fn push_digits(out: &mut String, n: u64)
    ensures
        final(out)@ == old(out)@ + digits(n as nat),
    decreases n,
{
    if n < 10 {
        push_char(out, digit_char(n));
        assert(out@ =~= old(out)@ + digits(n as nat));
    } else {
        push_digits(out, n / 10);
        push_char(out, digit_char(n % 10));
        assert(out@ =~= old(out)@ + digits(n as nat));
    }
}

/// The magnitude of a 64-bit integer.
fn magnitude(x: i64) -> (m: u64)
    ensures
        m == (if x < 0 {
            -(x as int)
        } else {
            x as int
        }),
{
    if x >= 0 {
        x as u64
    } else if x == -0x8000_0000_0000_0000i64 {
        0x8000_0000_0000_0000u64
    } else {
        (-x) as u64
    }
}

/// Appends `x` in decimal to `out`.
pub fn push_decimal(out: &mut String, x: i64)
    ensures
        final(out)@ == old(out)@ + decimal(x as int),
{
    if x < 0 {
        push_char(out, '-');
        push_digits(out, magnitude(x));
        assert(out@ =~= old(out)@ + decimal(x as int));
    } else {
        push_digits(out, magnitude(x));
    }
}

/// Appends the printed form of one cell to `out`.
pub fn push_cell(out: &mut String, e: &Elem)
    ensures
        final(out)@ == old(out)@ + cell_text(e@),
{
    match e {
        Elem::Byte(b) => push_decimal(out, *b as i64),
        Elem::Num(n) => push_decimal(out, *n),
        Elem::Cpx(re, im) => {
            push_decimal(out, *re);
            if *im < 0 {
                push_char(out, '-');
            } else {
                push_char(out, '+');
            }
            push_digits(out, magnitude(*im));
            push_char(out, 'i');
            assert(out@ =~= old(out)@ + cell_text(e@));
        },
        Elem::Char(c) => {
            push_char(out, '@');
            push_char(out, *c);
            assert(out@ =~= old(out)@ + cell_text(e@));
        },
        Elem::Boxed(_) => {
            push_char(out, '□');
            assert(out@ =~= old(out)@ + cell_text(e@));
        },
    }
}

/// Appends the characters of a character array to `out`.
pub fn push_chars(out: &mut String, v: &Value)
    requires
        v@.kind is Character,
    ensures
        final(out)@ == old(out)@ + chars_of(v@.cells),
{
    let n = v.count();
    let mut i: usize = 0;
    assert(out@ =~= old(out)@ + chars_of(v@.cells).take(0));
    while i < n
        invariant
            i <= n,
            n == v@.cells.len(),
            v@.kind is Character,
            out@ == old(out)@ + chars_of(v@.cells).take(i as int),
        decreases n - i,
    {
        match v.cell(i) {
            Elem::Char(c) => {
                push_char(out, *c);
            },
            _ => {
                assert(false);
            },
        }
        i += 1;
        assert(out@ =~= old(out)@ + chars_of(v@.cells).take(i as int));
    }
    assert(chars_of(v@.cells).take(n as int) =~= chars_of(v@.cells));
}

/// Appends the printed form of `v` to `out`.
pub fn push_text(out: &mut String, v: &Value)
    ensures
        final(out)@ == old(out)@ + text(v@),
    decreases v@.shape.len(),
{
    let rank = v.rank();
    if rank == 0 {
        let n = v.count();
        assert(crate::shape::product(v@.shape) == 1);
        push_cell(out, v.cell(0));
    } else if rank == 1 && v.kind() == Kind::Character {
        push_char(out, '"');
        push_chars(out, v);
        push_char(out, '"');
        assert(out@ =~= old(out)@ + text(v@));
    } else {
        push_char(out, '[');
        let rows = v.row_count();
        let mut i: usize = 0;
        assert(out@ =~= old(out)@.push('[') + rows_text(v@, 0));
        while i < rows
            invariant
                i <= rows,
                rows == v@.rows(),
                v@.shape.len() == rank,
                rank >= 1,
                out@ == old(out)@.push('[') + rows_text(v@, i as nat),
            decreases rows - i,
        {
            if i > 0 {
                push_char(out, ' ');
            }
            let row = v.row(i);
            push_text(out, &row);
            i += 1;
            assert(out@ =~= old(out)@.push('[') + rows_text(v@, i as nat));
        }
        push_char(out, ']');
        assert(out@ =~= old(out)@ + text(v@));
    }
}

impl Value {
    /// The printed form of this array.
    pub fn show(&self) -> (s: String)
        ensures
            s@ == text(self@),
    {
        let mut out = String::new();
        push_text(&mut out, self);
        assert(out@ =~= text(self@));
        out
    }
}

/// The printed forms of the top `n` values of a stack one after
/// another, the top value first, with nothing between or after them.
pub open spec fn stack_text(s: Seq<Array>, n: nat) -> Seq<char>
    decreases n,
{
    if n == 0 || n > s.len() {
        Seq::empty()
    } else {
        stack_text(s, (n - 1) as nat) + text(s[s.len() - n])
    }
}

/// The printed form of a whole stack, the top value first.
pub fn show_stack(values: &Vec<Value>) -> (r: String)
    ensures
        r@ == stack_text(crate::value::views(values@), values@.len()),
{
    let ghost s = crate::value::views(values@);
    let len = values.len();
    let mut out = String::new();
    let mut n: usize = 0;
    assert(out@ =~= stack_text(s, 0));
    while n < len
        invariant
            n <= len,
            len == values@.len(),
            s == crate::value::views(values@),
            out@ == stack_text(s, n as nat),
        decreases len - n,
    {
        let ghost before = out@;
        push_text(&mut out, &values[len - 1 - n]);
        n += 1;
        assert(out@ =~= before + text(s[s.len() - n]));
    }
    out
}

} // verus!
