use crate::error::WfcError;
use crate::random::random_below;
use rand::rngs::StdRng;
use vstd::prelude::*;

verus! {

/// `(r, c)` addresses a cell of the rows `g`.
pub open spec fn in_grid<T>(g: Seq<Vec<Vec<T>>>, r: int, c: int) -> bool {
    0 <= r < g.len() && 0 <= c < g[r]@.len()
}

/// The number of candidates of the cell at `(r, c)`.
pub open spec fn size_at<T>(g: Seq<Vec<Vec<T>>>, r: int, c: int) -> int {
    g[r]@[c]@.len() as int
}

/// Every cell holds exactly one candidate.
pub open spec fn all_collapsed<T>(g: Seq<Vec<Vec<T>>>) -> bool {
    forall|r: int, c: int| in_grid(g, r, c) ==> #[trigger] size_at(g, r, c) == 1
}

/// The cell at `(r, c)` still holds two or more candidates.
pub open spec fn undecided<T>(g: Seq<Vec<Vec<T>>>, r: int, c: int) -> bool {
    in_grid(g, r, c) && size_at(g, r, c) >= 2
}

pub open spec fn has_undecided<T>(g: Seq<Vec<Vec<T>>>) -> bool {
    exists|r: int, c: int| #[trigger] undecided(g, r, c)
}

/// The cell at `(r, c)` is undecided and no undecided cell has fewer
/// candidates.
pub open spec fn min_entropy_at<T>(g: Seq<Vec<Vec<T>>>, r: int, c: int) -> bool {
    &&& undecided(g, r, c)
    &&& forall|r2: int, c2: int| #[trigger]
        undecided(g, r2, c2) ==> size_at(g, r, c) <= size_at(g, r2, c2)
}

/// The cell at `(r, c)` is undecided and every other undecided cell has
/// strictly more candidates.
pub open spec fn unique_min_at<T>(g: Seq<Vec<Vec<T>>>, r: int, c: int) -> bool {
    &&& undecided(g, r, c)
    &&& forall|r2: int, c2: int| #[trigger]
        undecided(g, r2, c2) && (r2 != r || c2 != c) ==> size_at(g, r, c) < size_at(g, r2, c2)
}

/// `a` comes before `b` in row-major order.
pub open spec fn row_major_before(a: (usize, usize), b: (usize, usize)) -> bool {
    a.0 < b.0 || (a.0 == b.0 && a.1 < b.1)
}

/// The cell `(r, c)` was scanned before the scan reached `(y, x)`.
spec fn scanned(y: int, x: int, r: int, c: int) -> bool {
    r < y || (r == y && c < x)
}

/// True iff every cell holds exactly one candidate; an empty grid is
/// collapsed.
pub fn is_collapsed<T>(grid: &Vec<Vec<Vec<T>>>) -> (r: bool)
    ensures
        r == all_collapsed(grid@),
        (exists|y: int, x: int| in_grid(grid@, y, x) && #[trigger] size_at(grid@, y, x) > 1)
            ==> !r,
{
    let mut y: usize = 0;
    while y < grid.len()
        invariant
            y <= grid@.len(),
            forall|r: int, c: int|
                0 <= r < y && in_grid(grid@, r, c) ==> #[trigger] size_at(grid@, r, c) == 1,
        decreases grid@.len() - y,
    {
        let row = &grid[y];
        let mut x: usize = 0;
        while x < row.len()
            invariant
                y < grid@.len(),
                *row == grid@[y as int],
                x <= row@.len(),
                forall|r: int, c: int|
                    scanned(y as int, x as int, r, c) && in_grid(grid@, r, c) ==> #[trigger] size_at(
                        grid@,
                        r,
                        c,
                    ) == 1,
            decreases row@.len() - x,
        {
            if row[x].len() != 1 {
                assert(size_at(grid@, y as int, x as int) != 1);
                return false;
            }
            x += 1;
        }
        y += 1;
    }
    true
}

/// The smallest candidate count among undecided cells, if there is one.
fn min_undecided_size<T>(grid: &Vec<Vec<Vec<T>>>) -> (m: Option<usize>)
    ensures
        m is None <==> !has_undecided(grid@),
        m matches Some(m) ==> (exists|r: int, c: int|
            #[trigger] undecided(grid@, r, c) && size_at(grid@, r, c) == m),
        m matches Some(m) ==> (forall|r: int, c: int|
            #[trigger] undecided(grid@, r, c) ==> m <= size_at(grid@, r, c)),
{
    let mut best: Option<usize> = None;
    let mut y: usize = 0;
    while y < grid.len()
        invariant
            y <= grid@.len(),
            best is None ==> forall|r: int, c: int|
                #[trigger] undecided(grid@, r, c) ==> r >= y,
            best matches Some(m) ==> (exists|r: int, c: int|
                #[trigger] undecided(grid@, r, c) && size_at(grid@, r, c) == m),
            best matches Some(m) ==> (forall|r: int, c: int|
                #[trigger] undecided(grid@, r, c) && r < y ==> m <= size_at(grid@, r, c)),
        decreases grid@.len() - y,
    {
        let row = &grid[y];
        let mut x: usize = 0;
        while x < row.len()
            invariant
                y < grid@.len(),
                *row == grid@[y as int],
                x <= row@.len(),
                best is None ==> forall|r: int, c: int|
                    #[trigger] undecided(grid@, r, c) ==> !scanned(y as int, x as int, r, c),
                best matches Some(m) ==> (exists|r: int, c: int|
                    #[trigger] undecided(grid@, r, c) && size_at(grid@, r, c) == m),
                best matches Some(m) ==> (forall|r: int, c: int|
                    #[trigger] undecided(grid@, r, c) && scanned(y as int, x as int, r, c) ==> m
                        <= size_at(grid@, r, c)),
            decreases row@.len() - x,
        {
            let n = row[x].len();
            if n >= 2 {
                assert(undecided(grid@, y as int, x as int));
                match best {
                    None => {
                        best = Some(n);
                    },
                    Some(m) => {
                        if n < m {
                            best = Some(n);
                        }
                    },
                }
            }
            x += 1;
        }
        y += 1;
    }
    best
}

/// Every undecided cell of minimal candidate count, each once, in row-major
/// order.
pub fn min_entropy_cells<T>(grid: &Vec<Vec<Vec<T>>>) -> (cells: Vec<(usize, usize)>)
    ensures
        cells@.len() == 0 <==> !has_undecided(grid@),
        forall|i: int|
            0 <= i < cells@.len() ==> min_entropy_at(
                grid@,
                #[trigger] cells@[i].0 as int,
                cells@[i].1 as int,
            ),
        forall|r: int, c: int| #[trigger]
            min_entropy_at(grid@, r, c) ==> exists|i: int|
                0 <= i < cells@.len() && (#[trigger] cells@[i]).0 as int == r && cells@[i].1 as int == c,
        forall|i: int, j: int|
            0 <= i < j < cells@.len() ==> row_major_before(#[trigger] cells@[i], #[trigger] cells@[j]),
{
    let mut cells: Vec<(usize, usize)> = Vec::new();
    let m = match min_undecided_size(grid) {
        None => {
            return cells;
        },
        Some(m) => m,
    };
    assert(m >= 2);
    let ghost g = grid@;
    let mut y: usize = 0;
    while y < grid.len()
        invariant
            g == grid@,
            m >= 2,
            y <= g.len(),
            forall|r: int, c: int| #[trigger] undecided(g, r, c) ==> m <= size_at(g, r, c),
            forall|i: int|
                0 <= i < cells@.len() ==> (#[trigger] cells@[i]).0 < y && undecided(
                    g,
                    cells@[i].0 as int,
                    cells@[i].1 as int,
                ) && size_at(g, cells@[i].0 as int, cells@[i].1 as int) == m,
            forall|r: int, c: int|
                #[trigger] undecided(g, r, c) && size_at(g, r, c) == m && r < y ==> exists|i: int|
                    0 <= i < cells@.len() && (#[trigger] cells@[i]).0 as int == r && cells@[i].1 as int == c,
            forall|i: int, j: int|
                0 <= i < j < cells@.len() ==> row_major_before(
                    #[trigger] cells@[i],
                    #[trigger] cells@[j],
                ),
        decreases g.len() - y,
    {
        let row = &grid[y];
        let mut x: usize = 0;
        while x < row.len()
            invariant
                g == grid@,
                m >= 2,
                y < g.len(),
                *row == g[y as int],
                x <= row@.len(),
                forall|r: int, c: int| #[trigger] undecided(g, r, c) ==> m <= size_at(g, r, c),
                forall|i: int|
                    0 <= i < cells@.len() ==> scanned(
                        y as int,
                        x as int,
                        (#[trigger] cells@[i]).0 as int,
                        cells@[i].1 as int,
                    ) && undecided(g, cells@[i].0 as int, cells@[i].1 as int) && size_at(
                        g,
                        cells@[i].0 as int,
                        cells@[i].1 as int,
                    ) == m,
                forall|r: int, c: int|
                    #[trigger] undecided(g, r, c) && size_at(g, r, c) == m && scanned(
                        y as int,
                        x as int,
                        r,
                        c,
                    ) ==> exists|i: int|
                        0 <= i < cells@.len() && (#[trigger] cells@[i]).0 as int == r && cells@[i].1 as int == c,
                forall|i: int, j: int|
                    0 <= i < j < cells@.len() ==> row_major_before(
                        #[trigger] cells@[i],
                        #[trigger] cells@[j],
                    ),
            decreases row@.len() - x,
        {
            if row[x].len() == m {
                assert(undecided(g, y as int, x as int));
                let ghost old_cells = cells@;
                cells.push((y, x));
                assert forall|r: int, c: int|
                    #[trigger] undecided(g, r, c) && size_at(g, r, c) == m && scanned(
                        y as int,
                        x as int + 1,
                        r,
                        c,
                    ) implies exists|i: int|
                    0 <= i < cells@.len() && (#[trigger] cells@[i]).0 as int == r && cells@[i].1 as int == c by {
                    if r == y && c == x {
                        assert(cells@[old_cells.len() as int] == (y, x));
                    } else {
                        let i = choose|i: int|
                            0 <= i < old_cells.len() && (#[trigger] old_cells[i]).0 as int == r
                                && old_cells[i].1 as int == c;
                        assert(cells@[i] == old_cells[i]);
                    }
                }
            }
            x += 1;
        }
        y += 1;
    }
    assert forall|r: int, c: int| #[trigger] min_entropy_at(g, r, c) implies exists|i: int|
        0 <= i < cells@.len() && (#[trigger] cells@[i]).0 as int == r && cells@[i].1 as int == c by {
        let (r0, c0) = choose|r0: int, c0: int| #[trigger]
            undecided(g, r0, c0) && size_at(g, r0, c0) == m;
        assert(size_at(g, r, c) <= size_at(g, r0, c0));
    }
    cells
}

/// Picks, uniformly at random, one of the undecided cells with the fewest
/// candidates, as `(row, col)`.
pub fn get_min_enthropy<T>(grid: &Vec<Vec<Vec<T>>>, rng: &mut StdRng) -> (res: Result<
    (usize, usize),
    WfcError,
>)
    ensures
        res is Ok <==> has_undecided(grid@),
        res matches Ok((y, x)) ==> min_entropy_at(grid@, y as int, x as int),
        res matches Err(e) ==> e == WfcError::NoUndecidedCell,
        forall|r: int, c: int| #[trigger]
            unique_min_at(grid@, r, c) ==> (res matches Ok((y, x)) && y == r && x == c),
{
    let cells = min_entropy_cells(grid);
    if cells.len() == 0 {
        return Err(WfcError::NoUndecidedCell);
    }
    let i = random_below(rng, cells.len());
    let (y, x) = cells[i];
    assert(min_entropy_at(grid@, y as int, x as int));
    assert forall|r: int, c: int| #[trigger] unique_min_at(grid@, r, c) implies (y as int == r
        && x as int == c) by {
        if y as int != r || x as int != c {
            assert(undecided(grid@, y as int, x as int));
            assert(undecided(grid@, r, c));
        }
    }
    Ok((y, x))
}

} // verus!
