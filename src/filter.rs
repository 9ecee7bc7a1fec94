use crate::tile::{catalog, side_of, Connection, Side};
use vstd::prelude::*;

verus! {

/// `t` opens no connector across the edge of a `width × height` grid when it
/// stands at `(row, col)`.
pub open spec fn fits_boundary(t: Connection, row: int, col: int, width: int, height: int) -> bool {
    &&& !(row == 0 && t.north)
    &&& !(row == height - 1 && t.south)
    &&& !(col == 0 && t.west)
    &&& !(col == width - 1 && t.east)
}

pub open spec fn boundary_pred(row: int, col: int, width: int, height: int) -> spec_fn(
    Connection,
) -> bool {
    |t: Connection| fits_boundary(t, row, col, width, height)
}

/// The candidates of `s` that open nothing across the grid's edge, in order.
pub open spec fn boundary_filtered(
    s: Seq<Connection>,
    row: int,
    col: int,
    width: int,
    height: int,
) -> Seq<Connection> {
    s.filter(boundary_pred(row, col, width, height))
}

pub open spec fn facing_pred(d: Side, want: bool) -> spec_fn(Connection) -> bool {
    |t: Connection| side_of(t, d) == want
}

/// The candidates of `s` whose connector on side `d` is `want`, in order.
pub open spec fn facing_filtered(s: Seq<Connection>, d: Side, want: bool) -> Seq<Connection> {
    s.filter(facing_pred(d, want))
}

proof fn lemma_filter_step(s: Seq<Connection>, i: int, p: spec_fn(Connection) -> bool)
    requires
        0 <= i < s.len(),
    ensures
        s.subrange(0, i + 1).filter(p) == (if p(s[i]) {
            s.subrange(0, i).filter(p).push(s[i])
        } else {
            s.subrange(0, i).filter(p)
        }),
{
    reveal(Seq::filter);
    assert(s.subrange(0, i + 1).drop_last() =~= s.subrange(0, i));
}

/// Filtering twice by the same predicate keeps what filtering once keeps.
proof fn lemma_filter_twice(s: Seq<Connection>, p: spec_fn(Connection) -> bool)
    ensures
        s.filter(p).filter(p) == s.filter(p),
    decreases s.len(),
{
    reveal(Seq::filter);
    if s.len() > 0 {
        lemma_filter_twice(s.drop_last(), p);
        let sub = s.drop_last().filter(p);
        if p(s.last()) {
            assert(sub.push(s.last()).drop_last() =~= sub);
        }
    }
}

/// Boundary filtering is idempotent: a second pass over a cell removes
/// nothing more.
pub proof fn lemma_boundary_filter_idempotent(
    s: Seq<Connection>,
    row: int,
    col: int,
    width: int,
    height: int,
)
    ensures
        boundary_filtered(boundary_filtered(s, row, col, width, height), row, col, width, height)
            == boundary_filtered(s, row, col, width, height),
{
    lemma_filter_twice(s, boundary_pred(row, col, width, height));
}

/// The candidates of `cands` that open no connector off the edge of a
/// `width × height` grid at `(row, col)`, in the order they had.
pub fn boundary_filter(cands: &Vec<Connection>, row: usize, col: usize, width: usize, height: usize) -> (r: Vec<Connection>)
    ensures
        r@ == boundary_filtered(cands@, row as int, col as int, width as int, height as int),
{
    let ghost p = boundary_pred(row as int, col as int, width as int, height as int);
    let mut r: Vec<Connection> = Vec::new();
    let mut i: usize = 0;
    while i < cands.len()
        invariant
            p == boundary_pred(row as int, col as int, width as int, height as int),
            i <= cands@.len(),
            r@ == cands@.subrange(0, i as int).filter(p),
        decreases cands@.len() - i,
    {
        let t = cands[i];
        proof {
            lemma_filter_step(cands@, i as int, p);
        }
        let keep = !(row == 0 && t.north) && !(row as u128 + 1 == height as u128 && t.south) && !(
        col == 0 && t.west) && !(col as u128 + 1 == width as u128 && t.east);
        assert(p(t) == keep);
        if keep {
            r.push(t);
        }
        i += 1;
    }
    assert(cands@.subrange(0, cands@.len() as int) =~= cands@);
    r
}

/// The candidates of `cands` whose connector on side `d` equals `want`, in
/// the order they had.
pub fn facing_filter(cands: &Vec<Connection>, d: Side, want: bool) -> (r: Vec<Connection>)
    ensures
        r@ == facing_filtered(cands@, d, want),
{
    let ghost p = facing_pred(d, want);
    let mut r: Vec<Connection> = Vec::new();
    let mut i: usize = 0;
    while i < cands.len()
        invariant
            p == facing_pred(d, want),
            i <= cands@.len(),
            r@ == cands@.subrange(0, i as int).filter(p),
        decreases cands@.len() - i,
    {
        let t = cands[i];
        proof {
            lemma_filter_step(cands@, i as int, p);
        }
        let keep = t.has_side(d) == want;
        assert(p(t) == keep);
        if keep {
            r.push(t);
        }
        i += 1;
    }
    assert(cands@.subrange(0, cands@.len() as int) =~= cands@);
    r
}

proof fn lemma_lone_cell_prefix(k: int)
    requires
        0 <= k <= 16,
    ensures
        catalog().subrange(0, k).filter(boundary_pred(0, 0, 1, 1)) == (if k <= 11 {
            Seq::<Connection>::empty()
        } else {
            seq![catalog()[11]]
        }),
    decreases k,
{
    let p = boundary_pred(0, 0, 1, 1);
    if k == 0 {
        reveal(Seq::filter);
        assert(catalog().subrange(0, 0).filter(p) =~= Seq::<Connection>::empty());
    } else {
        lemma_lone_cell_prefix(k - 1);
        lemma_filter_step(catalog(), k - 1, p);
        if k == 12 {
            assert(Seq::<Connection>::empty().push(catalog()[11]) =~= seq![catalog()[11]]);
        }
    }
}

/// On a grid of a single cell every side is an edge: of the whole catalog only
/// the variant with no connector fits there.
pub proof fn lemma_lone_cell_fits_only_blank()
    ensures
        boundary_filtered(catalog(), 0, 0, 1, 1) == seq![catalog()[11]],
        catalog()[11] == (Connection { index: 11, north: false, south: false, east: false, west: false }),
{
    lemma_lone_cell_prefix(16);
    assert(catalog().subrange(0, 16) =~= catalog());
}

/// Every candidate that boundary filtering keeps fits the edge.
pub proof fn lemma_fitting_fits(
    s: Seq<Connection>,
    row: int,
    col: int,
    width: int,
    height: int,
    t: Connection,
)
    requires
        boundary_filtered(s, row, col, width, height).contains(t),
    ensures
        fits_boundary(t, row, col, width, height),
{
    broadcast use vstd::seq_lib::group_filter_ensures;

    let f = boundary_filtered(s, row, col, width, height);
    let k = choose|k: int| 0 <= k < f.len() && f[k] == t;
    s.lemma_filter_pred(boundary_pred(row, col, width, height), k);
}

} // verus!
