use vstd::prelude::*;

verus! {

/// A tile variant: an index into the glyph table and one flag per side,
/// set where the tile has an open connector on that side.
#[derive(Clone, Copy, Debug, PartialEq, Eq, Structural)]
pub struct Connection {
    pub index: usize,
    pub north: bool,
    pub south: bool,
    pub east: bool,
    pub west: bool,
}

/// A side of a cell.
#[derive(Clone, Copy, Debug, PartialEq, Eq, Structural)]
pub enum Side {
    North,
    South,
    East,
    West,
}

/// The side that faces `d` across a shared edge.
pub open spec fn opposite(d: Side) -> Side {
    match d {
        Side::North => Side::South,
        Side::South => Side::North,
        Side::East => Side::West,
        Side::West => Side::East,
    }
}

/// Whether `t` has an open connector on side `d`.
pub open spec fn side_of(t: Connection, d: Side) -> bool {
    match d {
        Side::North => t.north,
        Side::South => t.south,
        Side::East => t.east,
        Side::West => t.west,
    }
}

impl Side {
    pub fn opposite(self) -> (r: Side)
        ensures
            r == opposite(self),
    {
        match self {
            Side::North => Side::South,
            Side::South => Side::North,
            Side::East => Side::West,
            Side::West => Side::East,
        }
    }
}

impl Connection {
    /// Whether this variant has an open connector on side `d`.
    pub fn has_side(&self, d: Side) -> (r: bool)
        ensures
            r == side_of(*self, d),
    {
        match d {
            Side::North => self.north,
            Side::South => self.south,
            Side::East => self.east,
            Side::West => self.west,
        }
    }

    pub fn new(index: usize, north: bool, south: bool, east: bool, west: bool) -> (r: Self)
        ensures
            r == (Connection { index, north, south, east, west }),
    {
        Connection { index, north, south, east, west }
    }
}

/// The sixteen variants, one for each combination of the four flags, in glyph
/// table order.
pub open spec fn catalog() -> Seq<Connection> {
    seq![
        Connection { index: 0, north: true, south: false, east: false, west: true },
        Connection { index: 1, north: false, south: true, east: false, west: true },
        Connection { index: 2, north: false, south: true, east: true, west: false },
        Connection { index: 3, north: true, south: false, east: true, west: false },
        Connection { index: 4, north: true, south: true, east: false, west: true },
        Connection { index: 5, north: true, south: false, east: true, west: true },
        Connection { index: 6, north: false, south: true, east: true, west: true },
        Connection { index: 7, north: true, south: true, east: true, west: false },
        Connection { index: 8, north: false, south: false, east: true, west: true },
        Connection { index: 9, north: true, south: true, east: false, west: false },
        Connection { index: 10, north: true, south: true, east: true, west: true },
        Connection { index: 11, north: false, south: false, east: false, west: false },
        Connection { index: 12, north: false, south: true, east: false, west: false },
        Connection { index: 13, north: false, south: false, east: true, west: false },
        Connection { index: 14, north: false, south: false, east: false, west: true },
        Connection { index: 15, north: true, south: false, east: false, west: false },
    ]
}

/// The full candidate set of a fresh cell.
pub fn all_variants() -> (r: Vec<Connection>)
    ensures
        r@ == catalog(),
{
    let r = vec![
        Connection::new(0, true, false, false, true),
        Connection::new(1, false, true, false, true),
        Connection::new(2, false, true, true, false),
        Connection::new(3, true, false, true, false),
        Connection::new(4, true, true, false, true),
        Connection::new(5, true, false, true, true),
        Connection::new(6, false, true, true, true),
        Connection::new(7, true, true, true, false),
        Connection::new(8, false, false, true, true),
        Connection::new(9, true, true, false, false),
        Connection::new(10, true, true, true, true),
        Connection::new(11, false, false, false, false),
        Connection::new(12, false, true, false, false),
        Connection::new(13, false, false, true, false),
        Connection::new(14, false, false, false, true),
        Connection::new(15, true, false, false, false),
    ];
    assert(r@ =~= catalog());
    r
}

/// Every combination of the four flags occurs in the catalog.
pub proof fn lemma_catalog_complete(north: bool, south: bool, east: bool, west: bool)
    ensures
        exists|i: int|
            0 <= i < catalog().len() && #[trigger] catalog()[i].north == north
                && catalog()[i].south == south && catalog()[i].east == east
                && catalog()[i].west == west,
{
    let c = catalog();
    if north && !south && !east && west { assert(c[0].north == north); }
    else if !north && south && !east && west { assert(c[1].north == north); }
    else if !north && south && east && !west { assert(c[2].north == north); }
    else if north && !south && east && !west { assert(c[3].north == north); }
    else if north && south && !east && west { assert(c[4].north == north); }
    else if north && !south && east && west { assert(c[5].north == north); }
    else if !north && south && east && west { assert(c[6].north == north); }
    else if north && south && east && !west { assert(c[7].north == north); }
    else if !north && !south && east && west { assert(c[8].north == north); }
    else if north && south && !east && !west { assert(c[9].north == north); }
    else if north && south && east && west { assert(c[10].north == north); }
    else if !north && !south && !east && !west { assert(c[11].north == north); }
    else if !north && south && !east && !west { assert(c[12].north == north); }
    else if !north && !south && east && !west { assert(c[13].north == north); }
    else if !north && !south && !east && west { assert(c[14].north == north); }
    else { assert(c[15].north == north); }
}

} // verus!
