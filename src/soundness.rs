use crate::filter::{boundary_pred, facing_filtered, facing_pred, fits_boundary};
use crate::grid::{after_propagate, contradiction_at, narrowed, toward};
use crate::tile::{catalog, lemma_catalog_complete, opposite, side_of, Connection, Side};
use vstd::prelude::*;

verus! {

/// The cell across side `d` of `(i, j)`.
pub open spec fn neighbor(i: int, j: int, d: Side) -> (int, int) {
    match d {
        Side::North => (i - 1, j),
        Side::South => (i + 1, j),
        Side::East => (i, j + 1),
        Side::West => (i, j - 1),
    }
}

pub open spec fn inside(i: int, j: int, w: int, h: int) -> bool {
    0 <= i < h && 0 <= j < w
}

/// Where the neighbour across side `d` of `(i, j)` was fixed by a round, `t`
/// shows on side `d` the connector that the neighbour shows facing it.
pub open spec fn agrees(
    g: Seq<Seq<Seq<Connection>>>,
    fixed: Set<(int, int)>,
    i: int,
    j: int,
    d: Side,
    t: Connection,
) -> bool {
    fixed.contains(neighbor(i, j, d)) ==> side_of(t, d) == side_of(
        g[neighbor(i, j, d).0][neighbor(i, j, d).1][0],
        opposite(d),
    )
}

/// `t` agrees with every fixed neighbour of `(i, j)`.
pub open spec fn allowed(
    g: Seq<Seq<Seq<Connection>>>,
    fixed: Set<(int, int)>,
    i: int,
    j: int,
    t: Connection,
) -> bool {
    &&& agrees(g, fixed, i, j, Side::North, t)
    &&& agrees(g, fixed, i, j, Side::South, t)
    &&& agrees(g, fixed, i, j, Side::East, t)
    &&& agrees(g, fixed, i, j, Side::West, t)
}

pub open spec fn allowed_pred(
    g: Seq<Seq<Seq<Connection>>>,
    fixed: Set<(int, int)>,
    i: int,
    j: int,
) -> spec_fn(Connection) -> bool {
    |t: Connection| allowed(g, fixed, i, j, t)
}

/// The state that rounds of the collapse keep, starting from a fresh grid:
/// `fixed` holds the cells that rounds fixed, each to a variant that fits the
/// edge; every other cell holds exactly the catalog's variants that agree
/// with its fixed neighbours.
pub open spec fn consistent(
    g: Seq<Seq<Seq<Connection>>>,
    fixed: Set<(int, int)>,
    w: int,
    h: int,
) -> bool {
    &&& g.len() == h
    &&& forall|i: int| 0 <= i < h ==> (#[trigger] g[i]).len() == w
    &&& forall|p: (int, int)|
        #[trigger] fixed.contains(p) ==> inside(p.0, p.1, w, h) && g[p.0][p.1].len() == 1
            && fits_boundary(g[p.0][p.1][0], p.0, p.1, w, h)
    &&& forall|i: int, j: int|
        inside(i, j, w, h) && !fixed.contains((i, j)) ==> #[trigger] g[i][j] == catalog().filter(
            allowed_pred(g, fixed, i, j),
        )
}

proof fn lemma_filter_and(
    s: Seq<Connection>,
    p: spec_fn(Connection) -> bool,
    q: spec_fn(Connection) -> bool,
    pq: spec_fn(Connection) -> bool,
)
    requires
        forall|t: Connection| #[trigger] pq(t) == (p(t) && q(t)),
    ensures
        s.filter(p).filter(q) == s.filter(pq),
    decreases s.len(),
{
    reveal(Seq::filter);
    if s.len() > 0 {
        lemma_filter_and(s.drop_last(), p, q, pq);
        let sub = s.drop_last().filter(p);
        if p(s.last()) {
            assert(sub.push(s.last()).drop_last() =~= sub);
        }
    }
}

proof fn lemma_filter_all(s: Seq<Connection>, p: spec_fn(Connection) -> bool)
    requires
        forall|t: Connection| #[trigger] p(t),
    ensures
        s.filter(p) == s,
    decreases s.len(),
{
    reveal(Seq::filter);
    if s.len() > 0 {
        lemma_filter_all(s.drop_last(), p);
        assert(s.drop_last().push(s.last()) =~= s);
    }
}

/// A fresh grid, with no cell fixed, is consistent.
pub proof fn lemma_fresh_consistent(g: Seq<Seq<Seq<Connection>>>, w: int, h: int)
    requires
        g.len() == h,
        forall|i: int| 0 <= i < h ==> (#[trigger] g[i]).len() == w,
        forall|i: int, j: int| inside(i, j, w, h) ==> #[trigger] g[i][j] == catalog(),
    ensures
        consistent(g, Set::empty(), w, h),
{
    assert forall|i: int, j: int| inside(i, j, w, h) && !Set::<(int, int)>::empty().contains((i, j))
        implies #[trigger] g[i][j] == catalog().filter(allowed_pred(g, Set::empty(), i, j)) by {
        lemma_filter_all(catalog(), allowed_pred(g, Set::empty(), i, j));
    }
}

/// The flag that the fixed neighbour across `d` asks of `(i, j)`, or `free`
/// where that neighbour is not fixed.
spec fn wanted(
    g: Seq<Seq<Seq<Connection>>>,
    fixed: Set<(int, int)>,
    i: int,
    j: int,
    d: Side,
    free: bool,
) -> bool {
    if fixed.contains(neighbor(i, j, d)) {
        side_of(g[neighbor(i, j, d).0][neighbor(i, j, d).1][0], opposite(d))
    } else {
        free
    }
}

proof fn lemma_variant_with(
    g: Seq<Seq<Seq<Connection>>>,
    fixed: Set<(int, int)>,
    i: int,
    j: int,
    d: Side,
    v: bool,
) -> (t: Connection)
    requires
        !fixed.contains(neighbor(i, j, d)),
    ensures
        catalog().contains(t),
        allowed(g, fixed, i, j, t),
        side_of(t, d) == v,
        forall|e: Side| e != d && !fixed.contains(#[trigger] neighbor(i, j, e)) ==> !side_of(t, e),
{
    let n = wanted(g, fixed, i, j, Side::North, d == Side::North && v);
    let s = wanted(g, fixed, i, j, Side::South, d == Side::South && v);
    let e = wanted(g, fixed, i, j, Side::East, d == Side::East && v);
    let w = wanted(g, fixed, i, j, Side::West, d == Side::West && v);
    lemma_catalog_complete(n, s, e, w);
    let k = choose|k: int|
        0 <= k < catalog().len() && #[trigger] catalog()[k].north == n && catalog()[k].south == s
            && catalog()[k].east == e && catalog()[k].west == w;
    let t = catalog()[k];
    assert(catalog().contains(t));
    t
}

/// Every cell that is not fixed has a variant in the catalog that agrees with
/// its fixed neighbours and fits the edge.
pub proof fn lemma_some_allowed(
    g: Seq<Seq<Seq<Connection>>>,
    fixed: Set<(int, int)>,
    w: int,
    h: int,
    i: int,
    j: int,
) -> (t: Connection)
    requires
        consistent(g, fixed, w, h),
        inside(i, j, w, h),
    ensures
        catalog().contains(t),
        allowed(g, fixed, i, j, t),
        fits_boundary(t, i, j, w, h),
{
    let n = wanted(g, fixed, i, j, Side::North, false);
    let s = wanted(g, fixed, i, j, Side::South, false);
    let e = wanted(g, fixed, i, j, Side::East, false);
    let w2 = wanted(g, fixed, i, j, Side::West, false);
    lemma_catalog_complete(n, s, e, w2);
    let k = choose|k: int|
        0 <= k < catalog().len() && #[trigger] catalog()[k].north == n && catalog()[k].south == s
            && catalog()[k].east == e && catalog()[k].west == w2;
    let t = catalog()[k];
    assert(catalog().contains(t));
    assert(fixed.contains(neighbor(i, j, Side::North)) ==> inside(i - 1, j, w, h));
    assert(fixed.contains(neighbor(i, j, Side::South)) ==> inside(i + 1, j, w, h));
    assert(fixed.contains(neighbor(i, j, Side::East)) ==> inside(i, j + 1, w, h));
    assert(fixed.contains(neighbor(i, j, Side::West)) ==> inside(i, j - 1, w, h));
    t
}

/// A cell with a neighbour that is not fixed (or with a side on the edge)
/// keeps at least two variants: the free side may be open or closed.
pub proof fn lemma_two_allowed(
    g: Seq<Seq<Seq<Connection>>>,
    fixed: Set<(int, int)>,
    i: int,
    j: int,
    d: Side,
)
    requires
        !fixed.contains(neighbor(i, j, d)),
    ensures
        catalog().filter(allowed_pred(g, fixed, i, j)).len() >= 2,
{
    broadcast use vstd::seq_lib::group_filter_ensures;

    let p = allowed_pred(g, fixed, i, j);
    let a = lemma_variant_with(g, fixed, i, j, d, false);
    let b = lemma_variant_with(g, fixed, i, j, d, true);
    let ka = choose|k: int| 0 <= k < catalog().len() && catalog()[k] == a;
    let kb = choose|k: int| 0 <= k < catalog().len() && catalog()[k] == b;
    catalog().lemma_filter_contains(p, ka);
    catalog().lemma_filter_contains(p, kb);
    let f = catalog().filter(p);
    if f.len() < 2 {
        assert(f[0] == a);
        assert(f[0] == b);
    }
}

/// Where neither cell is fixed, narrowing by the newly fixed cell is the same
/// as filtering the catalog by the extended agreement.
pub proof fn lemma_agreement_step(
    g: Seq<Seq<Seq<Connection>>>,
    fixed: Set<(int, int)>,
    w: int,
    h: int,
    y: int,
    x: int,
    t: Connection,
)
    requires
        consistent(g, fixed, w, h),
        inside(y, x, w, h),
        g[y][x].len() >= 2,
        fits_boundary(t, y, x, w, h),
    ensures
        consistent(
            after_propagate(g.update(y, g[y].update(x, seq![t])), y, x, t),
            fixed.insert((y, x)),
            w,
            h,
        ),
{
    broadcast use vstd::seq_lib::group_filter_ensures;

    let g1 = g.update(y, g[y].update(x, seq![t]));
    let g2 = after_propagate(g1, y, x, t);
    let fixed2 = fixed.insert((y, x));
    assert(!fixed.contains((y, x)));
    // fixed cells keep their single candidate
    assert forall|p: (int, int)| #[trigger] fixed.contains(p) implies g2[p.0][p.1] == g[p.0][p.1] by {
        assert(p != (y, x));
        assert(g1[p.0][p.1] == g[p.0][p.1]);
    }
    assert(g2[y][x] == seq![t]);
    assert(g2.len() == h);
    assert forall|i: int| 0 <= i < h implies (#[trigger] g2[i]).len() == w by {
        assert(g1[i].len() == g[i].len());
    }
    assert forall|p: (int, int)| #[trigger] fixed2.contains(p) implies inside(p.0, p.1, w, h)
        && g2[p.0][p.1].len() == 1 && fits_boundary(g2[p.0][p.1][0], p.0, p.1, w, h) by {
        if p != (y, x) {
            assert(fixed.contains(p));
        }
    }
    assert forall|i: int, j: int| inside(i, j, w, h) && !fixed2.contains((i, j)) implies #[trigger] g2[i][j]
        == catalog().filter(allowed_pred(g2, fixed2, i, j)) by {
        assert((i, j) != (y, x));
        assert(!fixed.contains((i, j)));
        assert(g1[i][j] == g[i][j]);
        let pold = allowed_pred(g, fixed, i, j);
        let pnew = allowed_pred(g2, fixed2, i, j);
        assert(g[i][j] == catalog().filter(pold));
        assert forall|e: Side| neighbor(i, j, e) != (y, x) implies forall|u: Connection|
            #[trigger] agrees(g2, fixed2, i, j, e, u) == agrees(g, fixed, i, j, e, u) by {
            let nb = neighbor(i, j, e);
            if fixed.contains(nb) {
                assert(g2[nb.0][nb.1] == g[nb.0][nb.1]);
            }
        }
        match toward(y, x, i, j) {
            None => {
                assert(neighbor(i, j, Side::North) != (y, x));
                assert(neighbor(i, j, Side::South) != (y, x));
                assert(neighbor(i, j, Side::East) != (y, x));
                assert(neighbor(i, j, Side::West) != (y, x));
                assert(pnew =~= pold) by {
                    assert forall|u: Connection| #[trigger] pnew(u) == pold(u) by {
                        assert(agrees(g2, fixed2, i, j, Side::North, u) == agrees(g, fixed, i, j, Side::North, u));
                        assert(agrees(g2, fixed2, i, j, Side::South, u) == agrees(g, fixed, i, j, Side::South, u));
                        assert(agrees(g2, fixed2, i, j, Side::East, u) == agrees(g, fixed, i, j, Side::East, u));
                        assert(agrees(g2, fixed2, i, j, Side::West, u) == agrees(g, fixed, i, j, Side::West, u));
                    }
                }
            },
            Some(d) => {
                let back = opposite(d);
                assert(neighbor(i, j, back) == (y, x));
                lemma_two_allowed(g, fixed, i, j, back);
                let q = facing_pred(back, side_of(t, d));
                assert(g2[i][j] == catalog().filter(pold).filter(q));
                assert forall|u: Connection| #[trigger] pnew(u) == (pold(u) && q(u)) by {
                    assert forall|e: Side| e != back implies neighbor(i, j, e) != (y, x) by {}
                    assert(agrees(g2, fixed2, i, j, back, u) == q(u));
                    assert(agrees(g, fixed, i, j, back, u));
                    if d != Side::North { assert(agrees(g2, fixed2, i, j, Side::South, u) == agrees(g, fixed, i, j, Side::South, u)); }
                    if d != Side::South { assert(agrees(g2, fixed2, i, j, Side::North, u) == agrees(g, fixed, i, j, Side::North, u)); }
                    if d != Side::East { assert(agrees(g2, fixed2, i, j, Side::West, u) == agrees(g, fixed, i, j, Side::West, u)); }
                    if d != Side::West { assert(agrees(g2, fixed2, i, j, Side::East, u) == agrees(g, fixed, i, j, Side::East, u)); }
                }
                lemma_filter_and(catalog(), pold, q, pnew);
            },
        }
    }
}

/// In a consistent grid every cell that is not fixed has a candidate, so a
/// cell that is not collapsed is undecided.
pub proof fn lemma_consistent_undecided(
    g: Seq<Seq<Seq<Connection>>>,
    fixed: Set<(int, int)>,
    w: int,
    h: int,
    i: int,
    j: int,
)
    requires
        consistent(g, fixed, w, h),
        inside(i, j, w, h),
        g[i][j].len() != 1,
    ensures
        g[i][j].len() >= 2,
        !fixed.contains((i, j)),
{
    let t = lemma_some_allowed(g, fixed, w, h, i, j);
    let k = choose|k: int| 0 <= k < catalog().len() && catalog()[k] == t;
    catalog().lemma_filter_contains(allowed_pred(g, fixed, i, j), k);
}

/// In a consistent grid an undecided cell keeps a candidate that fits the
/// edge.
pub proof fn lemma_consistent_fits_some(
    g: Seq<Seq<Seq<Connection>>>,
    fixed: Set<(int, int)>,
    w: int,
    h: int,
    y: int,
    x: int,
)
    requires
        consistent(g, fixed, w, h),
        inside(y, x, w, h),
        g[y][x].len() >= 2,
    ensures
        g[y][x].filter(boundary_pred(y, x, w, h)).len() > 0,
{
    broadcast use vstd::seq_lib::group_filter_ensures;

    assert(!fixed.contains((y, x)));
    let t = lemma_some_allowed(g, fixed, w, h, y, x);
    let k = choose|k: int| 0 <= k < catalog().len() && catalog()[k] == t;
    catalog().lemma_filter_contains(allowed_pred(g, fixed, y, x), k);
    let k2 = choose|k2: int| 0 <= k2 < g[y][x].len() && g[y][x][k2] == t;
    g[y][x].lemma_filter_contains(boundary_pred(y, x, w, h), k2);
}

/// In a consistent grid, fixing an undecided cell to a variant that fits the
/// edge never empties a neighbour.
pub proof fn lemma_consistent_no_contradiction(
    g: Seq<Seq<Seq<Connection>>>,
    fixed: Set<(int, int)>,
    w: int,
    h: int,
    y: int,
    x: int,
    t: Connection,
    i: int,
    j: int,
)
    requires
        consistent(g, fixed, w, h),
        inside(y, x, w, h),
        g[y][x].len() >= 2,
        fits_boundary(t, y, x, w, h),
    ensures
        !contradiction_at(g.update(y, g[y].update(x, seq![t])), y, x, t, i, j),
{
    let g1 = g.update(y, g[y].update(x, seq![t]));
    let g2 = after_propagate(g1, y, x, t);
    if contradiction_at(g1, y, x, t, i, j) {
        lemma_agreement_step(g, fixed, w, h, y, x, t);
        assert((i, j) != (y, x));
        assert(g1[i][j] == g[i][j]);
        assert(g2[i][j] == narrowed(g1[i][j], toward(y, x, i, j)->0, t));
        assert(!fixed.insert((y, x)).contains((i, j)));
        lemma_consistent_undecided(g2, fixed.insert((y, x)), w, h, i, j);
    }
}

/// When every cell of a consistent grid is collapsed, every cell's variant
/// fits the edge: a cell on the edge that was never fixed would still have
/// two candidates.
pub proof fn lemma_consistent_done_fits(
    g: Seq<Seq<Seq<Connection>>>,
    fixed: Set<(int, int)>,
    w: int,
    h: int,
)
    requires
        consistent(g, fixed, w, h),
        forall|r: int, c: int| inside(r, c, w, h) ==> (#[trigger] g[r][c]).len() == 1,
    ensures
        forall|r: int, c: int|
            inside(r, c, w, h) ==> fits_boundary(#[trigger] g[r][c][0], r, c, w, h),
{
    assert forall|r: int, c: int| inside(r, c, w, h) implies fits_boundary(
        #[trigger] g[r][c][0],
        r,
        c,
        w,
        h,
    ) by {
        assert(g[r][c].len() == 1);
        if !fixed.contains((r, c)) {
            assert(g[r][c] == catalog().filter(allowed_pred(g, fixed, r, c)));
            if r == 0 {
                assert(!fixed.contains(neighbor(r, c, Side::North)));
                lemma_two_allowed(g, fixed, r, c, Side::North);
            } else if r == h - 1 {
                assert(!fixed.contains(neighbor(r, c, Side::South)));
                lemma_two_allowed(g, fixed, r, c, Side::South);
            } else if c == 0 {
                assert(!fixed.contains(neighbor(r, c, Side::West)));
                lemma_two_allowed(g, fixed, r, c, Side::West);
            } else if c == w - 1 {
                assert(!fixed.contains(neighbor(r, c, Side::East)));
                lemma_two_allowed(g, fixed, r, c, Side::East);
            }
        }
    }
}

} // verus!
