use crate::tile::Connection;
use vstd::prelude::*;

verus! {

/// How many cells of `row` still hold two or more candidates.
pub open spec fn row_undecided(row: Seq<Seq<Connection>>) -> nat
    decreases row.len(),
{
    if row.len() == 0 {
        0
    } else {
        row_undecided(row.drop_last()) + if row.last().len() >= 2 {
            1nat
        } else {
            0nat
        }
    }
}

/// How many cells of the grid `g` still hold two or more candidates.
pub open spec fn undecided_count(g: Seq<Seq<Seq<Connection>>>) -> nat
    decreases g.len(),
{
    if g.len() == 0 {
        0
    } else {
        undecided_count(g.drop_last()) + row_undecided(g.last())
    }
}

/// `b` has the shape of `a`, and every cell undecided in `b` is undecided in
/// `a`.
pub open spec fn no_new_undecided(a: Seq<Seq<Seq<Connection>>>, b: Seq<Seq<Seq<Connection>>>) -> bool {
    &&& a.len() == b.len()
    &&& forall|i: int| 0 <= i < a.len() ==> (#[trigger] a[i]).len() == b[i].len()
    &&& forall|i: int, j: int|
        0 <= i < a.len() && 0 <= j < a[i].len() && (#[trigger] b[i][j]).len() >= 2 ==> a[i][j].len()
            >= 2
}

proof fn lemma_row_le(a: Seq<Seq<Connection>>, b: Seq<Seq<Connection>>, x: int)
    requires
        a.len() == b.len(),
        forall|j: int| 0 <= j < a.len() && (#[trigger] b[j]).len() >= 2 ==> a[j].len() >= 2,
    ensures
        row_undecided(b) <= row_undecided(a),
        0 <= x < a.len() && a[x].len() >= 2 && b[x].len() < 2 ==> row_undecided(b) < row_undecided(a),
    decreases a.len(),
{
    if a.len() > 0 {
        let x2 = if x == a.len() - 1 { -1 } else { x };
        lemma_row_le(a.drop_last(), b.drop_last(), x2);
    }
}

proof fn lemma_row_le_width(a: Seq<Seq<Connection>>)
    ensures
        row_undecided(a) <= a.len(),
    decreases a.len(),
{
    if a.len() > 0 {
        lemma_row_le_width(a.drop_last());
    }
}

/// The count of undecided cells never grows from `a` to `b`, and shrinks when
/// the cell `(y, x)` was undecided in `a` and is not in `b`.
pub proof fn lemma_count_decreases(
    a: Seq<Seq<Seq<Connection>>>,
    b: Seq<Seq<Seq<Connection>>>,
    y: int,
    x: int,
)
    requires
        no_new_undecided(a, b),
    ensures
        undecided_count(b) <= undecided_count(a),
        0 <= y < a.len() && 0 <= x < a[y].len() && a[y][x].len() >= 2 && b[y][x].len() < 2
            ==> undecided_count(b) < undecided_count(a),
    decreases a.len(),
{
    if a.len() > 0 {
        let n = a.len() - 1;
        assert(no_new_undecided(a.drop_last(), b.drop_last()));
        let y2 = if y == n { -1 } else { y };
        lemma_count_decreases(a.drop_last(), b.drop_last(), y2, x);
        assert(a[n].len() == b[n].len());
        assert forall|j: int| 0 <= j < a[n].len() && (#[trigger] b[n][j]).len() >= 2 implies a[n][j].len() >= 2 by {
            assert(b[n][j] == b[n][j]);
        }
        lemma_row_le(a.last(), b.last(), if y == n { x } else { -1 });
    }
}

/// A grid of `g.len()` rows of `w` cells has at most `g.len() * w` undecided
/// cells.
pub proof fn lemma_count_bounded(g: Seq<Seq<Seq<Connection>>>, w: int)
    requires
        forall|i: int| 0 <= i < g.len() ==> (#[trigger] g[i]).len() == w,
    ensures
        undecided_count(g) <= g.len() * w,
    decreases g.len(),
{
    if g.len() > 0 {
        lemma_count_bounded(g.drop_last(), w);
        lemma_row_le_width(g.last());
        assert((g.len() - 1) * w + w == g.len() * w) by (nonlinear_arith);
    }
}

} // verus!
