use crate::grid::Grid;
use crate::tile::Connection;
use vstd::prelude::*;

verus! {

/// The character shown for a cell: a blank while it is undecided, else the
/// glyph of its one candidate.
pub open spec fn glyph_of(cell: Seq<Connection>, chars: Seq<char>) -> char {
    if cell.len() > 1 {
        ' '
    } else {
        chars[cell[0].index as int]
    }
}

/// One line of text: a character per cell, then a newline.
pub open spec fn rendered_row(row: Seq<Seq<Connection>>, chars: Seq<char>) -> Seq<char> {
    Seq::new(row.len(), |j: int| glyph_of(row[j], chars)).push('\n')
}

/// The text of the rows `g`, one line each.
pub open spec fn rendered(g: Seq<Seq<Seq<Connection>>>, chars: Seq<char>) -> Seq<char>
    decreases g.len(),
{
    if g.len() == 0 {
        Seq::empty()
    } else {
        rendered(g.drop_last(), chars) + rendered_row(g.last(), chars)
    }
}

/// Every cell has a candidate, and the glyph table covers every collapsed
/// cell's variant.
pub open spec fn renderable(g: Seq<Seq<Seq<Connection>>>, chars: Seq<char>) -> bool {
    forall|r: int, c: int|
        0 <= r < g.len() && 0 <= c < g[r].len() ==> {
            &&& (#[trigger] g[r][c]).len() >= 1
            &&& g[r][c].len() == 1 ==> g[r][c][0].index < chars.len()
        }
}

/// The grid as text, row by row: a blank for each undecided cell and the
/// glyph `chars[index]` for each collapsed one, each row ended by a newline.
pub fn render(grid: &Grid, chars: &[char]) -> (out: Vec<char>)
    requires
        grid.wf(),
        renderable(grid@, chars@),
    ensures
        out@ == rendered(grid@, chars@),
{
    let ghost g = grid@;
    let mut out: Vec<char> = Vec::new();
    let mut y: usize = 0;
    while y < grid.cells.len()
        invariant
            g == grid@,
            grid.wf(),
            renderable(g, chars@),
            y <= g.len(),
            out@ == rendered(g.subrange(0, y as int), chars@),
        decreases g.len() - y,
    {
        let row = &grid.cells[y];
        let ghost before = out@;
        let mut x: usize = 0;
        while x < row.len()
            invariant
                g == grid@,
                y < g.len(),
                *row == grid.cells@[y as int],
                renderable(g, chars@),
                x <= row@.len(),
                out@ == before + Seq::new(x as nat, |j: int| glyph_of(g[y as int][j], chars@)),
            decreases row@.len() - x,
        {
            let cell = &row[x];
            assert(cell@ == g[y as int][x as int]);
            let ch = if cell.len() > 1 {
                ' '
            } else {
                chars[cell[0].index]
            };
            out.push(ch);
            assert(out@ =~= before + Seq::new((x + 1) as nat, |j: int| glyph_of(g[y as int][j], chars@)));
            x += 1;
        }
        out.push('\n');
        proof {
            let sub = g.subrange(0, y + 1);
            assert(sub.drop_last() =~= g.subrange(0, y as int));
            assert(Seq::new(x as nat, |j: int| glyph_of(g[y as int][j], chars@)).push('\n')
                =~= rendered_row(g[y as int], chars@));
            assert(out@ =~= rendered(sub, chars@));
        }
        y += 1;
    }
    assert(g.subrange(0, g.len() as int) =~= g);
    out
}

} // verus!
