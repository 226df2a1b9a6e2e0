//! Laws that hold of the engine as a whole.
use crate::arrayops::{
    couple, first, indices_where, join, lemma_first_valid, lemma_first_where, lemma_join_valid,
    lemma_reverse_valid, lemma_select_valid, lemma_stack_valid, len, range, reverse, select,
    stack,
};
use crate::assembly::{Modifier, Program};
use crate::cowslice::CowSlice;
use crate::error::Fault;
use crate::order::lemma_order;
use crate::pervasive::{broadcast_shape, cell_at, lemma_pervade_valid, pervade};
use crate::primitive::{peek, prim_step, Primitive};
use crate::rows::{join_cells, lemma_index_vector};
use crate::scalar::{lemma_apply_kind, result_kind, ScalarOp};
use crate::shape::{is_suffix, lemma_row_bounds, product, row_len};
use crate::sorting::{gradable, grade};
use crate::value::{lemma_row_valid, Array, Cell};
use vstd::prelude::*;

verus! {

/// Copy-on-write isolation. Let `shared` be what `share` returned for
/// `before`, and `after` what `before` became when `set` wrote `value` at
/// `i`. Then `shared` shows every element that `before` showed, the one at
/// `i` included, and `after` differs from it at `i` alone. `share` and
/// `set` ensure what is required here, and `CowSlice::updated` runs the
/// two one after the other.
pub proof fn lemma_write_isolated<T>(
    before: CowSlice<T>,
    shared: CowSlice<T>,
    after: CowSlice<T>,
    i: int,
    value: T,
)
    requires
        shared == before,
        0 <= i < before@.len(),
        after@ == before@.update(i, value),
    ensures
        shared@ == before@,
        after@.len() == shared@.len(),
        after@[i] == value,
        forall|j: int| 0 <= j < shared@.len() && j != i ==> after@[j] == shared@[j],
{
}

/// Whether every array of a stack is valid.
pub open spec fn all_valid(s: Seq<Array>) -> bool {
    forall|i: int| 0 <= i < s.len() ==> (#[trigger] s[i]).valid()
}

proof fn lemma_settled(s: Seq<Array>, n: int, r: Result<Array, Fault>)
    requires
        all_valid(s),
        0 <= n <= s.len(),
        r matches Ok(v) ==> v.valid(),
    ensures
        crate::primitive::settle(s, n, r) matches Ok(t) ==> all_valid(t),
{
    if let Ok(t) = crate::primitive::settle(s, n, r) {
        assert forall|i: int| 0 <= i < t.len() implies (#[trigger] t[i]).valid() by {
            if i < s.len() - n {
                assert(t[i] == s[i]);
            }
        }
    }
}

proof fn lemma_grade_valid(a: Array, desc: bool)
    requires
        a.valid(),
    ensures
        grade(a, desc) matches Ok(g) ==> g.valid(),
{
    if gradable(a) {
        lemma_order(a, desc, a.rows());
        lemma_index_vector(a.order(desc, a.rows()));
    }
}

proof fn lemma_range_valid(a: Array)
    requires
        a.valid(),
    ensures
        range(a) matches Ok(r) ==> r.valid(),
{
    if let Ok(r) = range(a) {
        assert(r.shape.drop_first() =~= Seq::<usize>::empty());
        assert(product(Seq::<usize>::empty()) == 1);
        assert(product(r.shape) == r.shape[0] * product(r.shape.drop_first()));
    }
}

proof fn lemma_scalar_valid(c: Cell)
    requires
        c matches Cell::Boxed(inner) ==> inner.valid(),
    ensures
        Array::scalar(c).valid(),
{
    assert(product(Seq::<usize>::empty()) == 1);
}

proof fn lemma_monadic_valid(p: Primitive, s: Seq<Array>)
    requires
        all_valid(s),
        p.signature_spec() == Some((1nat, 1nat)),
    ensures
        prim_step(p, s) matches Ok(t) ==> all_valid(t),
{
    if s.len() >= 1 {
        let a = peek(s, 0);
        assert(a.valid());
        lemma_first_valid(a);
        lemma_reverse_valid(a);
        lemma_grade_valid(a, false);
        lemma_grade_valid(a, true);
        lemma_first_where(a);
        lemma_range_valid(a);
        lemma_scalar_valid(Cell::Num(a.rows() as i64));
        match p {
            Primitive::Identity => {},
            Primitive::Neg => {
                crate::monadic::lemma_negate_valid(a);
                lemma_settled(s, 1, crate::monadic::negate(a));
            },
            Primitive::Len => lemma_settled(s, 1, len(a)),
            Primitive::First => lemma_settled(s, 1, first(a)),
            Primitive::Reverse => lemma_settled(s, 1, Ok(reverse(a))),
            Primitive::Rise => lemma_settled(s, 1, grade(a, false)),
            Primitive::Fall => lemma_settled(s, 1, grade(a, true)),
            Primitive::Where => lemma_settled(s, 1, indices_where(a)),
            Primitive::Range => lemma_settled(s, 1, range(a)),
            Primitive::Transpose => {
                crate::transpose::lemma_transposed(a, 1);
                assert(crate::transpose::transposed(a, 1) == crate::transpose::transpose(a)) by {
                    reveal_with_fuel(crate::transpose::transposed, 2);
                }
                lemma_settled(s, 1, Ok(crate::transpose::transpose(a)));
            },
            Primitive::Box => {
                crate::arrayops::lemma_enclose_valid(a);
                lemma_settled(s, 1, Ok(crate::arrayops::enclose(a)));
            },
            Primitive::Unbox => {
                crate::arrayops::lemma_enclose_valid(a);
                lemma_settled(s, 1, Ok(crate::arrayops::disclose(a)));
            },
            _ => {},
        }
    }
}

proof fn lemma_dyadic_valid(p: Primitive, s: Seq<Array>)
    requires
        all_valid(s),
        p.signature_spec() == Some((2nat, 1nat)),
    ensures
        prim_step(p, s) matches Ok(t) ==> all_valid(t),
{
    if s.len() >= 2 {
        let a = peek(s, 0);
        let b = peek(s, 1);
        assert(a.valid() && b.valid());
        match p {
            Primitive::Select => {
                lemma_select_valid(a, b);
                lemma_settled(s, 2, select(a, b));
            },
            Primitive::Join => {
                lemma_join_valid(a, b);
                lemma_settled(s, 2, join(a, b));
            },
            Primitive::Windows => {
                if crate::windows::windows(a, b) is Ok {
                    crate::windows::lemma_windows(a, b);
                }
                lemma_settled(s, 2, crate::windows::windows(a, b));
            },
            Primitive::Couple => {
                let pair = seq![a, b];
                assert forall|j: int| 0 <= j < pair.len() implies (#[trigger] pair[j]).valid() by {}
                lemma_stack_valid(pair);
                lemma_settled(s, 2, couple(a, b));
            },
            _ => {
                if let Some(op) = p.scalar_op() {
                    lemma_pervade_valid(op, a, b);
                    lemma_settled(s, 2, pervade(op, a, b));
                }
            },
        }
    }
}

/// The shape invariant. Whatever a built-in function leaves on a stack of
/// valid arrays is a valid array: its shape accounts for every one of its
/// cells.
pub proof fn lemma_shape_invariant(p: Primitive, s: Seq<Array>)
    requires
        all_valid(s),
    ensures
        prim_step(p, s) matches Ok(t) ==> all_valid(t) && forall|i: int|
            0 <= i < t.len() ==> product((#[trigger] t[i]).shape) == t[i].cells.len(),
{
    if let Ok(t) = prim_step(p, s) {
        let n = s.len() as int;
        match p.signature_spec() {
            Some(sig) if sig == (1nat, 1nat) => lemma_monadic_valid(p, s),
            Some(sig) if sig == (2nat, 1nat) => lemma_dyadic_valid(p, s),
            _ => {
                assert forall|i: int| 0 <= i < t.len() implies (#[trigger] t[i]).valid() by {
                    match p {
                        Primitive::Dup => {
                            if i < n {
                                assert(t[i] == s[i]);
                            } else {
                                assert(t[i] == s[n - 1]);
                            }
                        },
                        Primitive::Over => {
                            if i < n {
                                assert(t[i] == s[i]);
                            } else {
                                assert(t[i] == s[n - 2]);
                            }
                        },
                        Primitive::Flip => {
                            if i < n - 2 {
                                assert(t[i] == s[i]);
                            } else if i == n - 2 {
                                assert(t[i] == s[n - 1]);
                            } else {
                                assert(t[i] == s[n - 2]);
                            }
                        },
                        _ => {
                            assert(t[i] == s[i]);
                        },
                    }
                }
            },
        }
        assert forall|i: int| 0 <= i < t.len() implies product((#[trigger] t[i]).shape)
            == t[i].cells.len() by {
            assert(t[i].valid());
        }
    }
}

/// Fork independence. Both branches of a fork are called on the same
/// arguments, unmodified: each on the top values of the stack as it stood,
/// as many as it takes. The outcome is that of the first branch followed by
/// that of the second, put back on what lay below the arguments.
pub proof fn lemma_fork_independent(p: Program, level: nat, f: usize, g: usize, s: Seq<Array>)
    requires
        p.has(level, f as nat),
        p.has(level, g as nat),
        s.len() >= p.functions[f as int].inputs,
        s.len() >= p.functions[g as int].inputs,
    ensures
        ({
            let fi = p.functions[f as int].inputs;
            let gi = p.functions[g as int].inputs;
            let k = if fi >= gi {
                fi
            } else {
                gi
            };
            p.modify(level, Modifier::Fork(f, g), s) == (match p.call(
                level,
                f as nat,
                s.skip(s.len() - fi),
            ) {
                Ok(fo) => match p.call(level, g as nat, s.skip(s.len() - gi)) {
                    Ok(go) => Ok(s.take(s.len() - k) + (go + fo)),
                    Err(e) => Err(e),
                },
                Err(e) => Err(e),
            })
        }),
{
}

/// The outcomes of `op` applied to the scalar `x` and to each of the first
/// `n` rows of `a`, or the first failure. With `flip`, the scalar is the
/// operand below.
pub open spec fn row_results(op: ScalarOp, x: Array, a: Array, flip: bool, n: nat) -> Result<
    Seq<Array>,
    Fault,
>
    decreases n,
{
    if n == 0 {
        Ok(Seq::empty())
    } else {
        match row_results(op, x, a, flip, (n - 1) as nat) {
            Ok(outs) => match (if flip {
                pervade(op, a.row(n - 1), x)
            } else {
                pervade(op, x, a.row(n - 1))
            }) {
                Ok(out) => Ok(outs.push(out)),
                Err(e) => Err(e),
            },
            Err(e) => Err(e),
        }
    }
}

/// `op` applied to the scalar `x` and to every row of `a` by itself, the
/// results put together as the rows of one array.
pub open spec fn map_rows(op: ScalarOp, x: Array, a: Array, flip: bool) -> Result<Array, Fault> {
    match row_results(op, x, a, flip, a.rows()) {
        Ok(outs) => stack(outs),
        Err(e) => Err(e),
    }
}

/// The first `n` rows of an array, joined, are the cells before row `n`.
proof fn lemma_rows_join(a: Array, n: nat)
    requires
        a.valid(),
        n <= a.rows(),
    ensures
        join_cells(Seq::new(n, |j: int| a.row(j).cells)) == a.cells.take((n * row_len(a.shape)) as int),
    decreases n,
{
    let len = row_len(a.shape);
    let parts = Seq::new(n, |j: int| a.row(j).cells);
    if n == 0 {
        assert(0 * len == 0);
        assert(a.cells.take(0) =~= Seq::<Cell>::empty());
    } else {
        let m = (n - 1) as nat;
        lemma_rows_join(a, m);
        lemma_row_valid(a, m as int);
        lemma_row_bounds(m, a.rows(), len);
        let front = Seq::new(m, |j: int| a.row(j).cells);
        assert(parts.drop_last() =~= front);
        assert(n * len == m * len + len) by (nonlinear_arith)
            requires
                n == m + 1,
        ;
        assert(a.cells.take((m * len) as int) + a.cells.subrange(
            (m * len) as int,
            (m * len + len) as int,
        ) =~= a.cells.take((n * len) as int));
    }
}

/// The rows of a valid array that has rows, stacked, are the array.
pub proof fn lemma_stack_rows(a: Array)
    requires
        a.valid(),
        a.shape.len() >= 1,
        a.rows() >= 1,
    ensures
        stack(Seq::new(a.rows(), |j: int| a.row(j))) == Ok::<Array, Fault>(a),
{
    let rows = Seq::new(a.rows(), |j: int| a.row(j));
    let parts = Seq::new(rows.len(), |j: int| rows[j].cells);
    lemma_rows_join(a, a.rows());
    assert(parts =~= Seq::new(a.rows(), |j: int| a.row(j).cells));
    assert(a.cells.take((a.rows() * row_len(a.shape)) as int) =~= a.cells);
    assert(seq![rows.len() as usize] + rows[0].shape =~= a.shape);
}

/// What `op` makes of a scalar and one row is the matching row of what it
/// makes of the scalar and the whole array.
proof fn lemma_row_of_pervade(op: ScalarOp, x: Array, a: Array, flip: bool, j: int)
    requires
        x.valid(),
        a.valid(),
        x.shape.len() == 0,
        a.shape.len() >= 1,
        0 <= j < a.rows(),
    ensures
        ({
            let whole = if flip {
                pervade(op, a, x)
            } else {
                pervade(op, x, a)
            };
            let part = if flip {
                pervade(op, a.row(j), x)
            } else {
                pervade(op, x, a.row(j))
            };
            &&& whole matches Ok(w) ==> part == Ok::<Array, Fault>(w.row(j)) && w.shape == a.shape
            &&& whole is Err ==> whole == Err::<Array, Fault>(Fault::DomainError)
            &&& part is Err ==> whole == part
        }),
{
    let len = row_len(a.shape) as int;
    let row = a.row(j);
    lemma_row_valid(a, j);
    assert(product(x.shape) == 1);
    assert(is_suffix(x.shape, a.shape)) by {
        assert(a.shape.skip(a.shape.len() - 0) =~= x.shape);
    }
    assert(is_suffix(x.shape, row.shape)) by {
        assert(row.shape.skip(row.shape.len() - 0) =~= x.shape);
    }
    assert(broadcast_shape(x.shape, a.shape) == Some(a.shape));
    assert(broadcast_shape(a.shape, x.shape) == Some(a.shape)) by {
        if is_suffix(a.shape, x.shape) {
            assert(a.shape.len() <= 0);
        }
    }
    assert(broadcast_shape(x.shape, row.shape) == Some(row.shape));
    assert(broadcast_shape(row.shape, x.shape) == Some(row.shape)) by {
        if is_suffix(row.shape, x.shape) {
            assert(row.shape =~= x.shape);
        }
    }
    let (top, below) = if flip {
        (a, x)
    } else {
        (x, a)
    };
    let (rtop, rbelow) = if flip {
        (row, x)
    } else {
        (x, row)
    };
    let whole = pervade(op, top, below);
    let part = pervade(op, rtop, rbelow);
    lemma_row_bounds(j as nat, a.rows(), len as nat);
    assert(0 <= j * len) by (nonlinear_arith)
        requires
            0 <= j,
            0 <= len,
    ;
    assert forall|k: int| 0 <= k < len implies #[trigger] cell_at(op, rtop, rbelow, k) == cell_at(
        op,
        top,
        below,
        j * len + k,
    ) by {
        assert(row.cells[k] == a.cells[j * len + k]);
        vstd::arithmetic::div_mod::lemma_small_mod(k as nat, len as nat);
        vstd::arithmetic::div_mod::lemma_small_mod((j * len + k) as nat, a.cells.len());
        assert(k % 1 == 0 && (j * len + k) % 1 == 0);
    }
    match result_kind(op, top.kind, below.kind) {
        None => {},
        Some(kind) => {
            if let Ok(w) = whole {
                assert forall|k: int| 0 <= k < len implies (#[trigger] cell_at(
                    op,
                    rtop,
                    rbelow,
                    k,
                )) is Ok by {
                    assert(cell_at(op, top, below, j * len + k) is Ok);
                }
                assert(part is Ok);
                assert(part->Ok_0.cells =~= w.row(j).cells);
            } else {
                if let Err(e) = part {
                    let k = choose|k: int|
                        0 <= k < len && !((#[trigger] cell_at(op, rtop, rbelow, k)) is Ok);
                    lemma_apply_kind(op, rtop.cells[k % (rtop.cells.len() as int)], rbelow.cells[k % (
                    rbelow.cells.len() as int)]);
                }
            }
            if let Err(e) = part {
                let k = choose|k: int|
                    0 <= k < len && !((#[trigger] cell_at(op, rtop, rbelow, k)) is Ok);
                assert(!(cell_at(op, top, below, j * len + k) is Ok));
            }
        },
    }
}

/// The broadcast law. A pervasive function applied to a scalar and an
/// array that has rows gives what it gives applied to the scalar and each
/// row by itself, the results put together as rows; and it fails exactly
/// if it fails on some row, with the same failure. This holds with the
/// scalar as either operand.
pub proof fn lemma_broadcast(op: ScalarOp, x: Array, a: Array, flip: bool)
    requires
        x.valid(),
        a.valid(),
        x.shape.len() == 0,
        a.shape.len() >= 1,
        a.rows() >= 1,
    ensures
        (if flip {
            pervade(op, a, x)
        } else {
            pervade(op, x, a)
        }) == map_rows(op, x, a, flip),
{
    let whole = if flip {
        pervade(op, a, x)
    } else {
        pervade(op, x, a)
    };
    lemma_rows_agree(op, x, a, flip, a.rows());
    match whole {
        Ok(w) => {
            lemma_row_of_pervade(op, x, a, flip, 0);
            lemma_pervade_valid(op, x, a);
            lemma_pervade_valid(op, a, x);
            lemma_stack_rows(w);
            assert(row_results(op, x, a, flip, a.rows())->Ok_0 =~= Seq::new(
                w.rows(),
                |j: int| w.row(j),
            ));
        },
        Err(e) => {
            lemma_row_of_pervade(op, x, a, flip, 0);
            if let Ok(outs) = row_results(op, x, a, flip, a.rows()) {
                lemma_some_row_fails(op, x, a, flip);
            }
        },
    }
}

/// Row by row: while the whole succeeds, so does every row, with the rows
/// of the whole as results; and a row that fails fails as the whole does.
proof fn lemma_rows_agree(op: ScalarOp, x: Array, a: Array, flip: bool, n: nat)
    requires
        x.valid(),
        a.valid(),
        x.shape.len() == 0,
        a.shape.len() >= 1,
        n <= a.rows(),
    ensures
        ({
            let whole = if flip {
                pervade(op, a, x)
            } else {
                pervade(op, x, a)
            };
            &&& whole matches Ok(w) ==> row_results(op, x, a, flip, n) == Ok::<Seq<Array>, Fault>(
                Seq::new(n, |j: int| w.row(j)),
            )
            &&& row_results(op, x, a, flip, n) is Err ==> row_results(op, x, a, flip, n) == Err::<
                Seq<Array>,
                Fault,
            >(Fault::DomainError) && whole == Err::<Array, Fault>(Fault::DomainError)
        }),
    decreases n,
{
    let whole = if flip {
        pervade(op, a, x)
    } else {
        pervade(op, x, a)
    };
    if n > 0 {
        lemma_rows_agree(op, x, a, flip, (n - 1) as nat);
        lemma_row_of_pervade(op, x, a, flip, n - 1);
        if let Ok(w) = whole {
            assert(Seq::new((n - 1) as nat, |j: int| w.row(j)).push(w.row(n - 1)) =~= Seq::new(
                n,
                |j: int| w.row(j),
            ));
        }
    } else {
        if let Ok(w) = whole {
            assert(Seq::new(0, |j: int| w.row(j)) =~= Seq::<Array>::empty());
        }
    }
}

/// Where the whole fails, some row fails.
proof fn lemma_some_row_fails(op: ScalarOp, x: Array, a: Array, flip: bool)
    requires
        x.valid(),
        a.valid(),
        x.shape.len() == 0,
        a.shape.len() >= 1,
        a.rows() >= 1,
        (if flip {
            pervade(op, a, x)
        } else {
            pervade(op, x, a)
        }) is Err,
    ensures
        row_results(op, x, a, flip, a.rows()) is Err,
{
    let (top, below) = if flip {
        (a, x)
    } else {
        (x, a)
    };
    let len = row_len(a.shape) as int;
    lemma_row_of_pervade(op, x, a, flip, 0);
    if result_kind(op, top.kind, below.kind) is Some {
        let i = choose|i: int|
            0 <= i < product(a.shape) && !((#[trigger] cell_at(op, top, below, i)) is Ok);
        assert(len > 0) by {
            if len == 0 {
                assert(a.rows() * len == 0) by (nonlinear_arith)
                    requires
                        len == 0,
                ;
            }
        }
        let j = i / len;
        let k = i % len;
        vstd::arithmetic::div_mod::lemma_fundamental_div_mod(i, len);
        assert(0 <= j < a.rows()) by (nonlinear_arith)
            requires
                0 <= i < a.rows() * len,
                len > 0,
                j == i / len,
                i == len * j + k,
                0 <= k < len,
        ;
        lemma_row_fails(op, x, a, flip, j, k);
        lemma_results_fail(op, x, a, flip, (j + 1) as nat, a.rows());
    } else {
        lemma_results_fail(op, x, a, flip, 1, a.rows());
    }
}

/// A row with a cell on which `op` fails is a row on which it fails.
proof fn lemma_row_fails(op: ScalarOp, x: Array, a: Array, flip: bool, j: int, k: int)
    requires
        x.valid(),
        a.valid(),
        x.shape.len() == 0,
        a.shape.len() >= 1,
        0 <= j < a.rows(),
        0 <= k < row_len(a.shape),
        !((if flip {
            cell_at(op, a, x, row_len(a.shape) * j + k)
        } else {
            cell_at(op, x, a, row_len(a.shape) * j + k)
        }) is Ok),
    ensures
        (if flip {
            pervade(op, a.row(j), x)
        } else {
            pervade(op, x, a.row(j))
        }) is Err,
{
    let len = row_len(a.shape) as int;
    let row = a.row(j);
    lemma_row_valid(a, j);
    lemma_row_bounds(j as nat, a.rows(), len as nat);
    assert(len * j == j * len) by (nonlinear_arith);
    assert(0 <= j * len) by (nonlinear_arith)
        requires
            0 <= j,
            0 <= len,
    ;
    assert(product(x.shape) == 1);
    assert(row.cells[k] == a.cells[j * len + k]);
    vstd::arithmetic::div_mod::lemma_small_mod(k as nat, len as nat);
    vstd::arithmetic::div_mod::lemma_small_mod((j * len + k) as nat, a.cells.len());
    assert(k % 1 == 0 && (j * len + k) % 1 == 0);
    if flip {
        assert(!(cell_at(op, row, x, k) is Ok));
    } else {
        assert(!(cell_at(op, x, row, k) is Ok));
    }
}

/// Once a row has failed, the results stay a failure.
proof fn lemma_results_fail(op: ScalarOp, x: Array, a: Array, flip: bool, n: nat, m: nat)
    requires
        1 <= n <= m,
        (if flip {
            pervade(op, a.row(n - 1), x)
        } else {
            pervade(op, x, a.row(n - 1))
        }) is Err,
    ensures
        row_results(op, x, a, flip, m) is Err,
    decreases m,
{
    if n < m {
        lemma_results_fail(op, x, a, flip, n, (m - 1) as nat);
    }
}

} // verus!
