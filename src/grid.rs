use crate::entropy::{
    get_min_enthropy, has_undecided, in_grid, is_collapsed, min_entropy_at, size_at, undecided,
    unique_min_at,
};
use crate::error::WfcError;
use crate::filter::{
    boundary_filter, boundary_filtered, facing_filter, facing_filtered, fits_boundary,
    lemma_fitting_fits, lemma_lone_cell_fits_only_blank,
};
use crate::progress::{lemma_count_bounded, lemma_count_decreases, no_new_undecided, undecided_count};
use crate::random::random_below;
use crate::soundness::{
    consistent, lemma_agreement_step, lemma_consistent_done_fits, lemma_consistent_fits_some,
    lemma_consistent_no_contradiction, lemma_consistent_undecided, lemma_fresh_consistent,
};
use crate::tile::{all_variants, catalog, opposite, side_of, Connection, Side};
use rand::rngs::StdRng;
use vstd::prelude::*;

verus! {

/// A `width × height` grid of candidate sets, stored as rows of cells.
pub struct Grid {
    pub width: usize,
    pub height: usize,
    pub cells: Vec<Vec<Vec<Connection>>>,
}

impl View for Grid {
    /// Rows of cells, each cell the sequence of its candidates.
    type V = Seq<Seq<Seq<Connection>>>;

    open spec fn view(&self) -> Seq<Seq<Seq<Connection>>> {
        Seq::new(
            self.cells@.len(),
            |r: int| Seq::new(self.cells@[r]@.len(), |c: int| self.cells@[r]@[c]@),
        )
    }
}

/// The side of `(r, c)` on which `(i, j)` lies, if the two cells share an edge.
pub open spec fn toward(r: int, c: int, i: int, j: int) -> Option<Side> {
    if i == r - 1 && j == c {
        Some(Side::North)
    } else if i == r + 1 && j == c {
        Some(Side::South)
    } else if i == r && j == c + 1 {
        Some(Side::East)
    } else if i == r && j == c - 1 {
        Some(Side::West)
    } else {
        None
    }
}

/// The candidates of a neighbour lying on side `d` of a cell fixed to
/// `chosen`: a cell with more than one candidate keeps those whose facing
/// connector matches; any other cell is left as it is.
pub open spec fn narrowed(s: Seq<Connection>, d: Side, chosen: Connection) -> Seq<Connection> {
    if s.len() > 1 {
        facing_filtered(s, opposite(d), side_of(chosen, d))
    } else {
        s
    }
}

/// The grid `g` after the cell at `(r, c)` was fixed to `chosen` and its four
/// neighbours narrowed.
pub open spec fn after_propagate(
    g: Seq<Seq<Seq<Connection>>>,
    r: int,
    c: int,
    chosen: Connection,
) -> Seq<Seq<Seq<Connection>>> {
    Seq::new(
        g.len(),
        |i: int|
            Seq::new(
                g[i].len(),
                |j: int|
                    match toward(r, c, i, j) {
                        Some(d) => narrowed(g[i][j], d, chosen),
                        None => g[i][j],
                    },
            ),
    )
}

/// Narrowing the neighbour `(i, j)` of `(r, c)` would leave it empty.
pub open spec fn contradiction_at(
    g: Seq<Seq<Seq<Connection>>>,
    r: int,
    c: int,
    chosen: Connection,
    i: int,
    j: int,
) -> bool {
    &&& 0 <= i < g.len()
    &&& 0 <= j < g[i].len()
    &&& toward(r, c, i, j) is Some
    &&& g[i][j].len() > 1
    &&& narrowed(g[i][j], toward(r, c, i, j)->0, chosen).len() == 0
}

impl Grid {
    /// Every row holds `width` cells and there are `height` rows.
    pub open spec fn wf(&self) -> bool {
        &&& self.cells@.len() == self.height
        &&& forall|r: int| 0 <= r < self.height ==> (#[trigger] self.cells@[r])@.len() == self.width
    }

    pub open spec fn all_single(g: Seq<Seq<Seq<Connection>>>) -> bool {
        forall|r: int, c: int|
            0 <= r < g.len() && 0 <= c < g[r].len() ==> (#[trigger] g[r][c]).len() == 1
    }

    proof fn lemma_view_sizes(&self)
        ensures
            self@.len() == self.cells@.len(),
            forall|r: int|
                0 <= r < self@.len() ==> (#[trigger] self@[r]).len() == self.cells@[r]@.len(),
            forall|r: int, c: int|
                in_grid(self.cells@, r, c) ==> #[trigger] size_at(self.cells@, r, c)
                    == self@[r][c].len(),
    {
    }

    /// A grid whose every cell holds all sixteen variants.
    pub fn new(width: usize, height: usize) -> (g: Grid)
        ensures
            g.wf(),
            g.width == width,
            g.height == height,
            forall|r: int, c: int|
                0 <= r < height && 0 <= c < width ==> #[trigger] g@[r][c] == catalog(),
    {
        let mut cells: Vec<Vec<Vec<Connection>>> = Vec::new();
        let mut y: usize = 0;
        while y < height
            invariant
                y <= height,
                cells@.len() == y,
                forall|r: int| 0 <= r < y ==> (#[trigger] cells@[r])@.len() == width,
                forall|r: int, c: int|
                    0 <= r < y && 0 <= c < width ==> #[trigger] cells@[r]@[c]@ == catalog(),
            decreases height - y,
        {
            let mut row: Vec<Vec<Connection>> = Vec::new();
            let mut x: usize = 0;
            while x < width
                invariant
                    x <= width,
                    row@.len() == x,
                    forall|c: int| 0 <= c < x ==> #[trigger] row@[c]@ == catalog(),
                decreases width - x,
            {
                row.push(all_variants());
                x += 1;
            }
            cells.push(row);
            y += 1;
        }
        Grid { width, height, cells }
    }

    /// True iff every cell holds exactly one candidate.
    pub fn is_done(&self) -> (r: bool)
        requires
            self.wf(),
        ensures
            r == Self::all_single(self@),
    {
        let r = is_collapsed(&self.cells);
        proof {
            self.lemma_view_sizes();
            if r {
                assert forall|i: int, j: int|
                    0 <= i < self@.len() && 0 <= j < self@[i].len() implies (
                    #[trigger] self@[i][j]).len() == 1 by {
                    assert(size_at(self.cells@, i, j) == 1);
                }
            } else {
                let (i, j) = choose|i: int, j: int|
                    in_grid(self.cells@, i, j) && #[trigger] size_at(self.cells@, i, j) != 1;
                assert(self@[i][j].len() != 1);
            }
        }
        r
    }

    fn set_cell(&mut self, row: usize, col: usize, v: Vec<Connection>)
        requires
            old(self).wf(),
            row < old(self).height,
            col < old(self).width,
        ensures
            final(self).wf(),
            final(self).width == old(self).width,
            final(self).height == old(self).height,
            final(self)@ == old(self)@.update(row as int, old(self)@[row as int].update(col as int, v@)),
    {
        let ghost before = self@;
        self.cells[row].set(col, v);
        assert(self@ =~~= before.update(row as int, before[row as int].update(col as int, v@)));
    }

    /// The candidates of `(row, col)` that open no connector off the grid.
    pub open spec fn fitting(&self, row: int, col: int) -> Seq<Connection> {
        boundary_filtered(self@[row][col], row, col, self.width as int, self.height as int)
    }

    /// Picks, uniformly at random, one of the undecided cells with the fewest
    /// candidates.
    pub fn select_cell(&self, rng: &mut StdRng) -> (res: Result<(usize, usize), WfcError>)
        requires
            self.wf(),
        ensures
            res is Ok <==> has_undecided(self.cells@),
            res matches Ok((y, x)) ==> y < self.height && x < self.width && min_entropy_at(
                self.cells@,
                y as int,
                x as int,
            ),
            res matches Err(e) ==> e == WfcError::NoUndecidedCell,
            forall|r: int, c: int| #[trigger]
                unique_min_at(self.cells@, r, c) ==> (res matches Ok((y, x)) && y == r && x == c),
    {
        get_min_enthropy(&self.cells, rng)
    }

    /// Drops the candidates of `(row, col)` that point off the grid, then fixes
    /// the cell to one of the rest, drawn uniformly at random, and returns it.
    pub fn collapse_cell(&mut self, row: usize, col: usize, rng: &mut StdRng) -> (res: Result<
        Connection,
        WfcError,
    >)
        requires
            old(self).wf(),
            row < old(self).height,
            col < old(self).width,
        ensures
            final(self).wf(),
            final(self).width == old(self).width,
            final(self).height == old(self).height,
            res is Err <==> old(self).fitting(row as int, col as int).len() == 0,
            res matches Err(e) ==> e == (WfcError::UnsatisfiableCell { row, col }) && final(self)@
                == old(self)@,
            res matches Ok(t) ==> {
                &&& final(self)@[row as int][col as int].len() == 1
                &&& old(self).fitting(row as int, col as int).contains(t)
                &&& fits_boundary(
                    t,
                    row as int,
                    col as int,
                    old(self).width as int,
                    old(self).height as int,
                )
                &&& final(self)@ == old(self)@.update(
                    row as int,
                    old(self)@[row as int].update(col as int, seq![t]),
                )
            },
    {
        let fits = boundary_filter(&self.cells[row][col], row, col, self.width, self.height);
        if fits.len() == 0 {
            return Err(WfcError::UnsatisfiableCell { row, col });
        }
        let i = random_below(rng, fits.len());
        let t = fits[i];
        proof {
            broadcast use vstd::seq_lib::group_filter_ensures;

            assert(fits@[i as int] == t);
            assert(fits@.contains(t));
        }
        let mut single: Vec<Connection> = Vec::new();
        single.push(t);
        assert(single@ =~= seq![t]);
        self.set_cell(row, col, single);
        Ok(t)
    }

    /// The narrowed candidates of `(i, j)`, seen as lying on side `d` of a cell
    /// fixed to `chosen`; `None` where the cell is left as it is.
    fn narrow(&self, i: usize, j: usize, d: Side, chosen: Connection) -> (r: Option<
        Vec<Connection>,
    >)
        requires
            self.wf(),
            i < self.height,
            j < self.width,
        ensures
            r is None <==> self@[i as int][j as int].len() <= 1,
            r matches Some(v) ==> v@ == narrowed(self@[i as int][j as int], d, chosen),
    {
        if self.cells[i][j].len() > 1 {
            Some(facing_filter(&self.cells[i][j], d.opposite(), chosen.has_side(d)))
        } else {
            None
        }
    }

    /// Narrows each neighbour of `(row, col)` that still has more than one
    /// candidate to the candidates whose facing connector matches `chosen`'s
    /// connector on that side. Fails, leaving the grid as it was, when that
    /// would empty a neighbour.
    pub fn propagate(&mut self, row: usize, col: usize, chosen: Connection) -> (res: Result<
        (),
        WfcError,
    >)
        requires
            old(self).wf(),
            row < old(self).height,
            col < old(self).width,
        ensures
            final(self).wf(),
            final(self).width == old(self).width,
            final(self).height == old(self).height,
            res is Err <==> exists|i: int, j: int|
                #[trigger] contradiction_at(old(self)@, row as int, col as int, chosen, i, j),
            res matches Err(e) ==> final(self)@ == old(self)@ && (e matches WfcError::Contradiction {
                row: i,
                col: j,
            } && contradiction_at(old(self)@, row as int, col as int, chosen, i as int, j as int)),
            res is Ok ==> final(self)@ == after_propagate(old(self)@, row as int, col as int, chosen),
    {
        let ghost g = self@;
        let north = if row > 0 {
            self.narrow(row - 1, col, Side::North, chosen)
        } else {
            None
        };
        let south = if row + 1 < self.height {
            self.narrow(row + 1, col, Side::South, chosen)
        } else {
            None
        };
        let east = if col + 1 < self.width {
            self.narrow(row, col + 1, Side::East, chosen)
        } else {
            None
        };
        let west = if col > 0 {
            self.narrow(row, col - 1, Side::West, chosen)
        } else {
            None
        };
        if let Some(v) = &north {
            if v.len() == 0 {
                assert(contradiction_at(g, row as int, col as int, chosen, row - 1, col as int));
                return Err(WfcError::Contradiction { row: row - 1, col });
            }
        }
        if let Some(v) = &south {
            if v.len() == 0 {
                assert(contradiction_at(g, row as int, col as int, chosen, row + 1, col as int));
                return Err(WfcError::Contradiction { row: row + 1, col });
            }
        }
        if let Some(v) = &east {
            if v.len() == 0 {
                assert(contradiction_at(g, row as int, col as int, chosen, row as int, col + 1));
                return Err(WfcError::Contradiction { row, col: col + 1 });
            }
        }
        if let Some(v) = &west {
            if v.len() == 0 {
                assert(contradiction_at(g, row as int, col as int, chosen, row as int, col - 1));
                return Err(WfcError::Contradiction { row, col: col - 1 });
            }
        }
        assert forall|i: int, j: int|
            !#[trigger] contradiction_at(g, row as int, col as int, chosen, i, j) by {
            if contradiction_at(g, row as int, col as int, chosen, i, j) {
                if i == row - 1 && j == col {
                } else if i == row + 1 && j == col {
                } else if i == row && j == col + 1 {
                } else {
                }
            }
        }
        if let Some(v) = north {
            self.set_cell(row - 1, col, v);
        }
        if let Some(v) = south {
            self.set_cell(row + 1, col, v);
        }
        if let Some(v) = east {
            self.set_cell(row, col + 1, v);
        }
        if let Some(v) = west {
            self.set_cell(row, col - 1, v);
        }
        assert(self@ =~~= after_propagate(g, row as int, col as int, chosen));
        Ok(())
    }

    /// One round of the collapse: picks an undecided cell of fewest candidates,
    /// fixes it to a variant that fits the grid's edge, and narrows its
    /// neighbours. Returns the cell and the variant it was fixed to.
    pub fn step(&mut self, rng: &mut StdRng) -> (res: Result<(usize, usize, Connection), WfcError>)
        requires
            old(self).wf(),
        ensures
            final(self).wf(),
            final(self).width == old(self).width,
            final(self).height == old(self).height,
            (res matches Err(WfcError::NoUndecidedCell)) <==> !has_undecided(old(self).cells@),
            res matches Err(WfcError::UnsatisfiableCell { row, col }) ==> min_entropy_at(
                old(self).cells@,
                row as int,
                col as int,
            ) && old(self).fitting(row as int, col as int).len() == 0,
            res matches Err(WfcError::Contradiction { row: i, col: j }) ==> exists|
                y: int,
                x: int,
                t: Connection,
            |
                #![trigger old(self)@[y].update(x, seq![t])]
                min_entropy_at(old(self).cells@, y, x) && old(self).fitting(y, x).contains(t)
                    && contradiction_at(
                    old(self)@.update(y, old(self)@[y].update(x, seq![t])),
                    y,
                    x,
                    t,
                    i as int,
                    j as int,
                ),
            res matches Ok((y, x, t)) ==> {
                &&& min_entropy_at(old(self).cells@, y as int, x as int)
                &&& old(self).fitting(y as int, x as int).contains(t)
                &&& fits_boundary(
                    t,
                    y as int,
                    x as int,
                    old(self).width as int,
                    old(self).height as int,
                )
                &&& final(self)@ == after_propagate(
                    old(self)@.update(y as int, old(self)@[y as int].update(x as int, seq![t])),
                    y as int,
                    x as int,
                    t,
                )
            },
    {
        let (y, x) = self.select_cell(rng)?;
        proof {
            self.lemma_view_sizes();
        }
        let t = self.collapse_cell(y, x, rng)?;
        match self.propagate(y, x, t) {
            Ok(()) => Ok((y, x, t)),
            Err(e) => Err(e),
        }
    }

    /// Runs rounds until every cell holds one candidate, and returns how many
    /// rounds were run; stops at the first round that fails.
    pub fn run(&mut self, rng: &mut StdRng) -> (res: Result<usize, WfcError>)
        requires
            old(self).wf(),
            old(self).width * old(self).height <= usize::MAX,
        ensures
            final(self).wf(),
            final(self).width == old(self).width,
            final(self).height == old(self).height,
            res matches Ok(n) ==> {
                &&& Self::all_single(final(self)@)
                &&& n <= undecided_count(old(self)@)
                &&& n <= old(self).width * old(self).height
                &&& (n == 0 <==> Self::all_single(old(self)@))
            },
            old(self).width == 1 && old(self).height == 1 && old(self)@[0][0] == catalog() ==> {
                &&& res == Ok::<usize, WfcError>(1)
                &&& final(self)@[0][0] == seq![catalog()[11]]
            },
            (forall|r: int, c: int|
                0 <= r < old(self).height && 0 <= c < old(self).width ==> #[trigger] old(self)@[r][c]
                    == catalog()) ==> {
                &&& res is Ok
                &&& forall|r: int, c: int|
                    0 <= r < old(self).height && 0 <= c < old(self).width ==> fits_boundary(
                        #[trigger] final(self)@[r][c][0],
                        r,
                        c,
                        old(self).width as int,
                        old(self).height as int,
                    )
            },
    {
        let ghost start = self@;
        let ghost lone = self.width == 1 && self.height == 1 && self@[0][0] == catalog();
        let ghost fresh = forall|r: int, c: int|
            0 <= r < self.height && 0 <= c < self.width ==> #[trigger] self@[r][c] == catalog();
        let ghost w = self.width as int;
        let ghost h = self.height as int;
        let ghost mut fixed: Set<(int, int)> = Set::empty();
        proof {
            self.lemma_view_sizes();
            if fresh {
                lemma_fresh_consistent(start, w, h);
            }
            lemma_count_bounded(start, self.width as int);
            assert(self.width * self.height == self.height * self.width) by (nonlinear_arith);
            if lone {
                lemma_lone_cell_fits_only_blank();
            }
        }
        let mut steps: usize = 0;
        while !self.is_done()
            invariant
                self.wf(),
                self.width == old(self).width,
                self.height == old(self).height,
                start == old(self)@,
                lone == (old(self).width == 1 && old(self).height == 1 && old(self)@[0][0] == catalog()),
                lone ==> boundary_filtered(catalog(), 0, 0, 1, 1) == seq![catalog()[11]],
                undecided_count(start) <= usize::MAX,
                steps + undecided_count(self@) <= undecided_count(start),
                steps == 0 ==> self@ == start,
                steps > 0 ==> !Self::all_single(start),
                lone ==> (steps == 0 || (steps == 1 && self@[0][0] == seq![catalog()[11]])),
                w == self.width,
                h == self.height,
                fresh == (forall|r: int, c: int|
                    0 <= r < h && 0 <= c < w ==> #[trigger] old(self)@[r][c] == catalog()),
                fresh ==> consistent(self@, fixed, w, h),
            decreases undecided_count(self@),
        {
            let ghost before = self@;
            proof {
                self.lemma_view_sizes();
                if lone && steps == 1 {
                    assert(Self::all_single(self@));
                }
                if lone {
                    assert(catalog().len() == 16);
                    assert(size_at(self.cells@, 0, 0) == 16);
                    assert(undecided(self.cells@, 0, 0));
                    assert(self.fitting(0, 0) == seq![catalog()[11]]);
                }
            }
            let ghost before_cells = self.cells@;
            proof {
                if fresh {
                    let (i, j) = choose|i: int, j: int|
                        0 <= i < before.len() && 0 <= j < before[i].len() && (#[trigger] before[i][j]).len() != 1;
                    lemma_consistent_undecided(before, fixed, w, h, i, j);
                    assert(size_at(before_cells, i, j) >= 2);
                    assert(undecided(before_cells, i, j));
                }
            }
            match self.step(rng) {
                Ok((y, x, t)) => {
                    proof {
                        lemma_step_progress(before, y as int, x as int, t);
                        lemma_count_decreases(before, self@, y as int, x as int);
                        if lone {
                            assert(before[0][0].len() == 16);
                            assert(t == catalog()[11]);
                        }
                        if fresh {
                            lemma_agreement_step(before, fixed, w, h, y as int, x as int, t);
                            fixed = fixed.insert((y as int, x as int));
                        }
                    }
                },
                Err(e) => {
                    proof {
                        if fresh {
                            match e {
                                WfcError::NoUndecidedCell => {},
                                WfcError::UnsatisfiableCell { row, col } => {
                                    assert(in_grid(before_cells, row as int, col as int));
                                    lemma_consistent_fits_some(before, fixed, w, h, row as int, col as int);
                                },
                                WfcError::Contradiction { row: i, col: j } => {
                                    let (y, x, t) = choose|y: int, x: int, t: Connection|
                                        #![trigger before[y].update(x, seq![t])]
                                        min_entropy_at(before_cells, y, x) && boundary_filtered(
                                            before[y][x],
                                            y,
                                            x,
                                            w,
                                            h,
                                        ).contains(t) && contradiction_at(
                                            before.update(y, before[y].update(x, seq![t])),
                                            y,
                                            x,
                                            t,
                                            i as int,
                                            j as int,
                                        );
                                    assert(in_grid(before_cells, y, x));
                                    lemma_fitting_fits(before[y][x], y, x, w, h, t);
                                    lemma_consistent_no_contradiction(before, fixed, w, h, y, x, t, i as int, j as int);
                                },
                            }
                        }
                        if lone {
                            assert(has_undecided(before_cells));
                            assert(seq![catalog()[11]].len() == 1);
                            match e {
                                WfcError::NoUndecidedCell => {},
                                WfcError::UnsatisfiableCell { row, col } => {
                                    assert(in_grid(before_cells, row as int, col as int));
                                },
                                WfcError::Contradiction { row: i, col: j } => {
                                    let (y, x, t) = choose|y: int, x: int, t: Connection|
                                        #![trigger before[y].update(x, seq![t])]
                                        min_entropy_at(before_cells, y, x) && contradiction_at(
                                            before.update(y, before[y].update(x, seq![t])),
                                            y,
                                            x,
                                            t,
                                            i as int,
                                            j as int,
                                        );
                                    assert(in_grid(before_cells, y, x));
                                },
                            }
                        }
                    }
                    return Err(e);
                },
            }
            steps += 1;
        }
        proof {
            if fresh {
                lemma_consistent_done_fits(self@, fixed, w, h);
            }
        }
        Ok(steps)
    }
}

/// After a round that fixed `(y, x)` to `t`, no cell is undecided that was
/// not before, and `(y, x)` itself is decided.
proof fn lemma_step_progress(g: Seq<Seq<Seq<Connection>>>, y: int, x: int, t: Connection)
    requires
        0 <= y < g.len(),
        0 <= x < g[y].len(),
    ensures
        no_new_undecided(
            g,
            after_propagate(g.update(y, g[y].update(x, seq![t])), y, x, t),
        ),
        after_propagate(g.update(y, g[y].update(x, seq![t])), y, x, t)[y][x].len() == 1,
{
    broadcast use vstd::seq_lib::group_filter_ensures;

    let g1 = g.update(y, g[y].update(x, seq![t]));
    let g2 = after_propagate(g1, y, x, t);
    assert forall|i: int, j: int|
        0 <= i < g.len() && 0 <= j < g[i].len() && (#[trigger] g2[i][j]).len() >= 2 implies g[i][j].len()
        >= 2 by {
        if i == y && j == x {
        } else {
            assert(g1[i][j] == g[i][j]);
        }
    }
}

/// Propagation never adds a candidate: each neighbour of the fixed cell keeps
/// a sub-collection of its candidates. A neighbour that was narrowed (it had
/// more than one candidate) keeps only candidates whose connector facing the
/// fixed cell equals the fixed cell's connector on that side.
pub proof fn lemma_propagate_narrows(
    g: Seq<Seq<Seq<Connection>>>,
    r: int,
    c: int,
    chosen: Connection,
    i: int,
    j: int,
)
    requires
        0 <= i < g.len(),
        0 <= j < g[i].len(),
        toward(r, c, i, j) is Some,
    ensures
        forall|k: int|
            0 <= k < after_propagate(g, r, c, chosen)[i][j].len() ==> g[i][j].contains(
                #[trigger] after_propagate(g, r, c, chosen)[i][j][k],
            ),
        g[i][j].len() > 1 ==> forall|k: int|
            0 <= k < after_propagate(g, r, c, chosen)[i][j].len() ==> side_of(
                #[trigger] after_propagate(g, r, c, chosen)[i][j][k],
                opposite(toward(r, c, i, j)->0),
            ) == side_of(chosen, toward(r, c, i, j)->0),
{
    broadcast use vstd::seq_lib::group_filter_ensures, Seq::lemma_filter_contains_rev;

    let d = toward(r, c, i, j)->0;
    let a = after_propagate(g, r, c, chosen)[i][j];
    assert(a == narrowed(g[i][j], d, chosen));
    assert forall|k: int| 0 <= k < a.len() implies g[i][j].contains(#[trigger] a[k]) by {
        assert(a.contains(a[k]));
    }
}

} // verus!
