//! The order of cells and rows, and the stable ordering of the rows of an
//! array by insertion.

use crate::value::{lemma_row_valid, Array, Cell};
use vstd::prelude::*;

verus! {

/// The pair of integers by which a cell is ordered: a complex number by its
/// real part and then its imaginary part, any other cell by its integer. All
/// boxes count as equal.
pub open spec fn cell_key(c: Cell) -> (int, int) {
    match c {
        Cell::Cpx(re, im) => (re as int, im as int),
        Cell::Boxed(_) => (0, 0),
        _ => (c.integer(), 0),
    }
}

pub open spec fn key_lt(p: (int, int), q: (int, int)) -> bool {
    p.0 < q.0 || (p.0 == q.0 && p.1 < q.1)
}

/// Whether `x` comes strictly before `y`, cell by cell from the front.
pub open spec fn lex_lt(x: Seq<Cell>, y: Seq<Cell>) -> bool
    decreases x.len(),
{
    if x.len() == 0 || y.len() == 0 {
        false
    } else if key_lt(cell_key(x[0]), cell_key(y[0])) {
        true
    } else if key_lt(cell_key(y[0]), cell_key(x[0])) {
        false
    } else {
        lex_lt(x.drop_first(), y.drop_first())
    }
}

pub proof fn lemma_lex_transitive(x: Seq<Cell>, y: Seq<Cell>, z: Seq<Cell>)
    requires
        x.len() == y.len() == z.len(),
        lex_lt(x, y),
        lex_lt(y, z),
    ensures
        lex_lt(x, z),
    decreases x.len(),
{
    if x.len() > 0 {
        let (a, b, c) = (cell_key(x[0]), cell_key(y[0]), cell_key(z[0]));
        if !key_lt(a, b) && !key_lt(b, a) && !key_lt(b, c) && !key_lt(c, b) {
            lemma_lex_transitive(x.drop_first(), y.drop_first(), z.drop_first());
        }
    }
}

pub proof fn lemma_lex_irreflexive(x: Seq<Cell>)
    ensures
        !lex_lt(x, x),
    decreases x.len(),
{
    if x.len() > 0 {
        lemma_lex_irreflexive(x.drop_first());
    }
}

/// If `x` is not before `y` and `y` is not before `z`, `x` is not before
/// `z`: rows of one length are totally ordered up to equal keys.
pub proof fn lemma_lex_negative_transitive(x: Seq<Cell>, y: Seq<Cell>, z: Seq<Cell>)
    requires
        x.len() == y.len() == z.len(),
        !lex_lt(x, y),
        !lex_lt(y, z),
    ensures
        !lex_lt(x, z),
    decreases x.len(),
{
    if x.len() > 0 {
        let (a, b, c) = (cell_key(x[0]), cell_key(y[0]), cell_key(z[0]));
        if !key_lt(a, b) && !key_lt(b, a) && !key_lt(b, c) && !key_lt(c, b) {
            lemma_lex_negative_transitive(x.drop_first(), y.drop_first(), z.drop_first());
        }
    }
}

impl Array {
    /// Whether row `i` sorts strictly before row `j`: by rising keys, or by
    /// falling keys where `desc` is set.
    pub open spec fn before(self, desc: bool, i: int, j: int) -> bool {
        if desc {
            lex_lt(self.row(j).cells, self.row(i).cells)
        } else {
            lex_lt(self.row(i).cells, self.row(j).cells)
        }
    }

    /// `sorted` with row `i` put in front of the first row that it sorts
    /// strictly before, or at the end.
    pub open spec fn insert(self, desc: bool, sorted: Seq<int>, i: int) -> Seq<int>
        decreases sorted.len(),
    {
        if sorted.len() == 0 {
            seq![i]
        } else if self.before(desc, i, sorted[0]) {
            seq![i] + sorted
        } else {
            seq![sorted[0]] + self.insert(desc, sorted.drop_first(), i)
        }
    }

    /// The first `n` row indices in stable sorted order: rows with equal
    /// keys stay in index order.
    pub open spec fn order(self, desc: bool, n: nat) -> Seq<int>
        decreases n,
    {
        if n == 0 {
            Seq::empty()
        } else {
            self.insert(desc, self.order(desc, (n - 1) as nat), n - 1)
        }
    }

    /// Among the first `n` rows, the one that sorts first; of rows with
    /// equal keys, the one with the least index.
    pub open spec fn foremost(self, desc: bool, n: nat) -> int
        decreases n,
    {
        if n <= 1 {
            0
        } else {
            let m = self.foremost(desc, (n - 1) as nat);
            if self.before(desc, n - 1, m) {
                n - 1
            } else {
                m
            }
        }
    }

    /// Among the first `n` rows, the one that sorts last; of rows with
    /// equal keys, the one with the greatest index.
    pub open spec fn hindmost(self, desc: bool, n: nat) -> int
        decreases n,
    {
        if n <= 1 {
            0
        } else {
            let m = self.hindmost(desc, (n - 1) as nat);
            if self.before(desc, n - 1, m) {
                m
            } else {
                n - 1
            }
        }
    }

    /// No row comes strictly before a row listed ahead of it.
    pub open spec fn is_sorted(self, desc: bool, s: Seq<int>) -> bool {
        forall|p: int, q: int| 0 <= p < q < s.len() ==> !self.before(desc, s[q], s[p])
    }
}

/// Inserting after `p` rows that the new row does not come before, and in
/// front of one that it does, puts it at position `p`.
pub proof fn lemma_insert_at(a: Array, desc: bool, s: Seq<int>, i: int, p: int)
    requires
        0 <= p <= s.len(),
        forall|k: int| 0 <= k < p ==> !a.before(desc, i, #[trigger] s[k]),
        p < s.len() ==> a.before(desc, i, s[p]),
    ensures
        a.insert(desc, s, i) == s.take(p).push(i) + s.skip(p),
    decreases p,
{
    if s.len() == 0 {
        assert(a.insert(desc, s, i) =~= s.take(p).push(i) + s.skip(p));
    } else if p == 0 {
        assert(a.insert(desc, s, i) =~= s.take(p).push(i) + s.skip(p));
    } else {
        let rest = s.drop_first();
        assert(!a.before(desc, i, s[0]));
        assert forall|k: int| 0 <= k < p - 1 implies !a.before(desc, i, #[trigger] rest[k]) by {
            assert(rest[k] == s[k + 1]);
        }
        lemma_insert_at(a, desc, rest, i, p - 1);
        assert(a.insert(desc, s, i) =~= s.take(p).push(i) + s.skip(p));
    }
}

/// Where an insertion lands: some position `p` as `lemma_insert_at` takes.
pub proof fn lemma_insert_position(a: Array, desc: bool, s: Seq<int>, i: int) -> (p: int)
    ensures
        0 <= p <= s.len(),
        forall|k: int| 0 <= k < p ==> !a.before(desc, i, #[trigger] s[k]),
        p < s.len() ==> a.before(desc, i, s[p]),
        a.insert(desc, s, i) == s.take(p).push(i) + s.skip(p),
    decreases s.len(),
{
    if s.len() == 0 || a.before(desc, i, s[0]) {
        lemma_insert_at(a, desc, s, i, 0);
        0
    } else {
        let rest = s.drop_first();
        let q = lemma_insert_position(a, desc, rest, i);
        assert forall|k: int| 0 <= k < q + 1 implies !a.before(desc, i, #[trigger] s[k]) by {
            if k > 0 {
                assert(s[k] == rest[k - 1]);
            }
        }
        lemma_insert_at(a, desc, s, i, q + 1);
        q + 1
    }
}

/// The order of the first `n` rows lists each of them once, sorted.
pub proof fn lemma_order(a: Array, desc: bool, n: nat)
    requires
        a.valid(),
        n <= a.rows(),
    ensures
        a.order(desc, n).len() == n,
        forall|k: int| 0 <= k < n ==> 0 <= #[trigger] a.order(desc, n)[k] < n,
        a.is_sorted(desc, a.order(desc, n)),
    decreases n,
{
    if n > 0 {
        let s = a.order(desc, (n - 1) as nat);
        let i = n - 1;
        lemma_order(a, desc, (n - 1) as nat);
        let p = lemma_insert_position(a, desc, s, i);
        let t = a.order(desc, n);
        assert(t == s.take(p).push(i) + s.skip(p));
        assert forall|x: int, y: int| 0 <= x < y < t.len() implies !a.before(desc, t[y], t[x]) by {
            lemma_row_valid(a, t[x]);
            lemma_row_valid(a, t[y]);
            lemma_row_valid(a, i);
            if y < p {
                assert(t[x] == s[x] && t[y] == s[y]);
            } else if y == p {
                assert(t[x] == s[x]);
            } else if x < p {
                assert(t[x] == s[x] && t[y] == s[y - 1]);
            } else if x == p {
                // Row i comes before s[p]; s[y - 1] does not come before s[p].
                lemma_row_valid(a, s[p]);
                assert(t[y] == s[y - 1]);
                if y - 1 > p {
                    assert(!a.before(desc, s[y - 1], s[p]));
                }
                if a.before(desc, s[y - 1], i) {
                    if desc {
                        lemma_lex_transitive(
                            a.row(s[p]).cells,
                            a.row(i).cells,
                            a.row(s[y - 1]).cells,
                        );
                    } else {
                        lemma_lex_transitive(
                            a.row(s[y - 1]).cells,
                            a.row(i).cells,
                            a.row(s[p]).cells,
                        );
                    }
                    assert(a.before(desc, s[y - 1], s[p]));
                    lemma_lex_irreflexive(a.row(s[p]).cells);
                    assert(false);
                }
            } else {
                assert(t[x] == s[x - 1] && t[y] == s[y - 1]);
            }
        }
    }
}

/// The sorted order starts with the foremost row.
pub proof fn lemma_order_head(a: Array, desc: bool, n: nat)
    requires
        n >= 1,
    ensures
        a.order(desc, n).len() >= 1,
        a.order(desc, n)[0] == a.foremost(desc, n),
    decreases n,
{
    if n > 1 {
        lemma_order_head(a, desc, (n - 1) as nat);
    } else {
        assert(a.order(desc, 0) =~= Seq::<int>::empty());
    }
}

/// The sorted order ends with the hindmost row.
pub proof fn lemma_order_last(a: Array, desc: bool, n: nat)
    requires
        a.valid(),
        1 <= n <= a.rows(),
    ensures
        a.order(desc, n).len() == n,
        a.order(desc, n).last() == a.hindmost(desc, n),
    decreases n,
{
    lemma_order(a, desc, n);
    if n > 1 {
        let s = a.order(desc, (n - 1) as nat);
        let i = n - 1;
        lemma_order_last(a, desc, (n - 1) as nat);
        lemma_order(a, desc, (n - 1) as nat);
        let p = lemma_insert_position(a, desc, s, i);
        let m = s.last();
        if a.before(desc, i, m) {
            assert(p < s.len());
        } else {
            if p < s.len() {
                // Row i comes before s[p], and m does not come before s[p]
                // unless it is s[p] itself; so i would come before m.
                lemma_row_valid(a, i);
                lemma_row_valid(a, m);
                lemma_row_valid(a, s[p]);
                if p < s.len() - 1 {
                    assert(!a.before(desc, s[s.len() - 1], s[p]));
                    if desc {
                        lemma_lex_negative_transitive(
                            a.row(s[p]).cells,
                            a.row(m).cells,
                            a.row(i).cells,
                        );
                    } else {
                        lemma_lex_negative_transitive(
                            a.row(i).cells,
                            a.row(m).cells,
                            a.row(s[p]).cells,
                        );
                    }
                }
                assert(false);
            }
        }
    } else {
        assert(a.order(desc, 0) =~= Seq::<int>::empty());
    }
}

/// The order of the first `n` rows is a stable permutation of them: it
/// holds each of them, none twice, and of two rows neither of which sorts
/// before the other, the one with the lesser index comes first.
pub proof fn lemma_order_stable(a: Array, desc: bool, n: nat)
    requires
        a.valid(),
        n <= a.rows(),
    ensures
        a.order(desc, n).len() == n,
        forall|k: int| 0 <= k < n ==> a.order(desc, n).contains(k),
        forall|p: int, q: int|
            0 <= p < q < n ==> a.order(desc, n)[p] != a.order(desc, n)[q],
        forall|p: int, q: int|
            0 <= p < q < n && !a.before(desc, a.order(desc, n)[p], a.order(desc, n)[q])
                ==> a.order(desc, n)[p] < a.order(desc, n)[q],
    decreases n,
{
    lemma_order(a, desc, n);
    if n > 0 {
        let s = a.order(desc, (n - 1) as nat);
        let i = n - 1;
        lemma_order(a, desc, (n - 1) as nat);
        lemma_order_stable(a, desc, (n - 1) as nat);
        let p = lemma_insert_position(a, desc, s, i);
        let t = a.order(desc, n);
        assert(t == s.take(p).push(i) + s.skip(p));
        assert(t[p] == i);
        assert forall|k: int| 0 <= k < n implies t.contains(k) by {
            if k < n - 1 {
                assert(s.contains(k));
                let at = choose|at: int| 0 <= at < s.len() && s[at] == k;
                if at < p {
                    assert(t[at] == k);
                } else {
                    assert(t[at + 1] == k);
                }
            }
        }
        assert forall|x: int, y: int| 0 <= x < y < n implies t[x] != t[y] && (!a.before(
            desc,
            t[x],
            t[y],
        ) ==> t[x] < t[y]) by {
            if y < p {
                assert(t[x] == s[x] && t[y] == s[y]);
            } else if y == p {
                assert(t[x] == s[x]);
            } else if x < p {
                assert(t[x] == s[x] && t[y] == s[y - 1]);
            } else if x == p {
                assert(t[y] == s[y - 1]);
                lemma_row_valid(a, i);
                lemma_row_valid(a, s[p]);
                lemma_row_valid(a, s[y - 1]);
                if y - 1 > p && !a.before(desc, i, s[y - 1]) {
                    assert(!a.before(desc, s[y - 1], s[p]));
                    if desc {
                        lemma_lex_negative_transitive(
                            a.row(s[p]).cells,
                            a.row(s[y - 1]).cells,
                            a.row(i).cells,
                        );
                    } else {
                        lemma_lex_negative_transitive(
                            a.row(i).cells,
                            a.row(s[y - 1]).cells,
                            a.row(s[p]).cells,
                        );
                    }
                    assert(false);
                }
            } else {
                assert(t[x] == s[x - 1] && t[y] == s[y - 1]);
            }
        }
    }
}

} // verus!
