//! What a code editor in front of the engine computes: where an inserted
//! glyph goes, how a glyph's button is classed, which example comes next,
//! which key runs the code.
use crate::primitive::Primitive;
use crate::show::push_char;
use vstd::prelude::*;

verus! {

/// The lesser of two places, kept inside a text of `len` characters.
pub open spec fn low(a: int, b: int, len: int) -> int {
    let m = if a <= b {
        a
    } else {
        b
    };
    if m <= len {
        m
    } else {
        len
    }
}

/// The greater of two places, kept inside a text of `len` characters.
pub open spec fn high(a: int, b: int, len: int) -> int {
    let m = if a >= b {
        a
    } else {
        b
    };
    if m <= len {
        m
    } else {
        len
    }
}

/// `code` with the characters between the two ends of a selection
/// replaced by `insert`. The ends may come in either order, and an end
/// behind the text counts as the end of the text.
pub open spec fn spliced(code: Seq<char>, from: int, to: int, insert: Seq<char>) -> Seq<char> {
    code.take(low(from, to, code.len() as int)) + insert + code.skip(
        high(from, to, code.len() as int),
    )
}

pub(crate) fn push_range(out: &mut String, text: &str, from: usize, to: usize)
    requires
        from <= to <= text@.len(),
    ensures
        final(out)@ == old(out)@ + text@.subrange(from as int, to as int),
{
    let mut i: usize = from;
    assert(out@ =~= old(out)@ + text@.subrange(from as int, from as int));
    while i < to
        invariant
            from <= i <= to <= text@.len(),
            out@ == old(out)@ + text@.subrange(from as int, i as int),
        decreases to - i,
    {
        push_char(out, text.get_char(i));
        i += 1;
        assert(out@ =~= old(out)@ + text@.subrange(from as int, i as int));
    }
}

/// Replaces the selection between `from` and `to` in `code` by `insert`.
pub fn splice(code: &str, from: usize, to: usize, insert: &str) -> (r: String)
    ensures
        r@ == spliced(code@, from as int, to as int, insert@),
{
    let len = code.unicode_len();
    let (a, b) = if from <= to {
        (from, to)
    } else {
        (to, from)
    };
    let a = if a <= len {
        a
    } else {
        len
    };
    let b = if b <= len {
        b
    } else {
        len
    };
    let mut out = String::new();
    push_range(&mut out, code, 0, a);
    push_range(&mut out, insert, 0, insert.unicode_len());
    push_range(&mut out, code, b, len);
    proof {
        assert(code@.subrange(0, a as int) =~= code@.take(a as int));
        assert(insert@.subrange(0, insert@.len() as int) =~= insert@);
        assert(code@.subrange(b as int, len as int) =~= code@.skip(b as int));
        assert(out@ =~= spliced(code@, from as int, to as int, insert@));
    }
    out
}

/// The example that follows example `current` of `count`, going round.
pub fn next_example(current: usize, count: usize) -> (r: usize)
    requires
        count > 0,
    ensures
        r == (current as int + 1) % (count as int),
        r < count,
{
    let here = current % count;
    proof {
        vstd::arithmetic::div_mod::lemma_fundamental_div_mod(current as int, count as int);
        let q = (current as int) / (count as int);
        if here + 1 < count {
            assert(current + 1 == q * count + (here + 1)) by (nonlinear_arith)
                requires
                    current == count * q + here,
            ;
            vstd::arithmetic::div_mod::lemma_fundamental_div_mod_converse(
                current as int + 1,
                count as int,
                q,
                here as int + 1,
            );
        } else {
            assert(current + 1 == (q + 1) * count + 0) by (nonlinear_arith)
                requires
                    current == count * q + here,
                    here + 1 == count,
            ;
            vstd::arithmetic::div_mod::lemma_fundamental_div_mod_converse(
                current as int + 1,
                count as int,
                q + 1,
                0,
            );
        }
    }
    if here + 1 < count {
        here + 1
    } else {
        0
    }
}

/// How a glyph's button is classed: a modifier as such, a function by the
/// number of values it takes.
pub open spec fn class_text(p: Primitive) -> Seq<char> {
    if p.is_modifier_spec() {
        "modifier-button"@
    } else {
        match p.signature_spec() {
            Some(sig) => if sig.0 == 1 {
                "monadic-function-button"@
            } else if sig.0 == 2 {
                "dyadic-function-button"@
            } else if sig.0 == 3 {
                "triadic-function-button"@
            } else if sig.0 == 4 {
                "tetradic-function-button"@
            } else {
                "noadic-function-button"@
            },
            None => "noadic-function-button"@,
        }
    }
}

/// The class of the button for `p`.
pub fn button_class(p: Primitive) -> (r: &'static str)
    ensures
        r@ == class_text(p),
{
    if p.is_modifier() {
        "modifier-button"
    } else {
        match p.args() {
            Some(1) => "monadic-function-button",
            Some(2) => "dyadic-function-button",
            Some(3) => "triadic-function-button",
            Some(4) => "tetradic-function-button",
            _ => "noadic-function-button",
        }
    }
}

/// Whether a key press asks for the code to run: Enter together with
/// Control or Shift.
pub fn runs_code(key: &str, ctrl: bool, shift: bool) -> (r: bool)
    ensures
        r == (key@ == "Enter"@ && (ctrl || shift)),
{
    (ctrl || shift) && is_enter(key)
}

fn is_enter(key: &str) -> (r: bool)
    ensures
        r == (key@ == "Enter"@),
{
    proof {
        reveal_strlit("Enter");
    }
    if key.unicode_len() != 5 {
        return false;
    }
    let ok = key.get_char(0) == 'E' && key.get_char(1) == 'n' && key.get_char(2) == 't'
        && key.get_char(3) == 'e' && key.get_char(4) == 'r';
    proof {
        if ok {
            assert(key@ =~= "Enter"@);
        }
    }
    ok
}

} // verus!
