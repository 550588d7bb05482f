use vstd::prelude::*;

verus! {

/// A player cell on the 9×9 board: `x` is the column, `y` the row.
#[derive(Clone, Copy, PartialEq, Eq, Structural, Debug, Hash)]
pub struct PCoord {
    pub x: i32,
    pub y: i32,
}

/// A barricade slot on the 8×8 lattice of crossings between cells.
/// Slot `(x, y)` is the crossing below and to the right of cell `(x, y)`.
#[derive(Clone, Copy, PartialEq, Eq, Structural, Debug, Hash)]
pub struct BCoord {
    pub x: i32,
    pub y: i32,
}

impl PCoord {
    pub open spec fn in_bounds(self) -> bool {
        0 <= self.x < 9 && 0 <= self.y < 9
    }

    /// Row-major index of an in-bounds cell.
    pub open spec fn index(self) -> int {
        self.x + self.y * 9
    }

    pub open spec fn spec_from_index(index: usize) -> PCoord {
        PCoord { x: (index % 9) as i32, y: (index / 9) as i32 }
    }

    /// The cell at column `x`, row `y`.
    pub fn new(x: i32, y: i32) -> (r: PCoord)
        ensures
            r.x == x,
            r.y == y,
    {
        PCoord { x, y }
    }

    /// The cell whose row-major index is `index`: column `index % 9`, row `index / 9`
    /// (the row truncated to `i32`).
    pub fn from_index(index: usize) -> (r: PCoord)
        ensures
            r == PCoord::spec_from_index(index),
    {
        PCoord { x: (index % 9) as i32, y: (index / 9) as i32 }
    }

    /// Row-major index of the cell, or `usize::MAX` for a cell off the board.
    pub fn to_index(&self) -> (r: usize)
        ensures
            self.in_bounds() ==> r == self.index(),
            !self.in_bounds() ==> r == usize::MAX,
    {
        if !self.is_in_bounds() {
            return usize::MAX;
        }
        (self.x + self.y * 9) as usize
    }

    /// The barricade slot with the same coordinates.
    pub fn to_bcoord(&self) -> (r: BCoord)
        ensures
            r.x == self.x,
            r.y == self.y,
    {
        BCoord { x: self.x, y: self.y }
    }

    /// Whether the cell lies on the 9×9 board.
    pub fn is_in_bounds(&self) -> (r: bool)
        ensures
            r == self.in_bounds(),
    {
        self.x >= 0 && self.x < 9 && self.y >= 0 && self.y < 9
    }
}

impl BCoord {
    pub open spec fn in_bounds(self) -> bool {
        0 <= self.x < 8 && 0 <= self.y < 8
    }

    /// Row-major index of an in-bounds slot.
    pub open spec fn index(self) -> int {
        self.x + self.y * 8
    }

    pub open spec fn spec_from_index(index: usize) -> BCoord {
        BCoord { x: (index % 8) as i32, y: (index / 8) as i32 }
    }

    /// The slot at column `x`, row `y`.
    pub fn new(x: i32, y: i32) -> (r: BCoord)
        ensures
            r.x == x,
            r.y == y,
    {
        BCoord { x, y }
    }

    /// The slot whose row-major index is `index`: column `index % 8`, row `index / 8`
    /// (the row truncated to `i32`).
    pub fn from_index(index: usize) -> (r: BCoord)
        ensures
            r == BCoord::spec_from_index(index),
    {
        BCoord { x: (index % 8) as i32, y: (index / 8) as i32 }
    }

    /// Row-major index of the slot, or `usize::MAX` for a slot off the lattice.
    pub fn to_index(&self) -> (r: usize)
        ensures
            self.in_bounds() ==> r == self.index(),
            !self.in_bounds() ==> r == usize::MAX,
    {
        if !self.is_in_bounds() {
            return usize::MAX;
        }
        (self.x + self.y * 8) as usize
    }

    /// The player cell with the same coordinates.
    pub fn to_pcoord(&self) -> (r: PCoord)
        ensures
            r.x == self.x,
            r.y == self.y,
    {
        PCoord { x: self.x, y: self.y }
    }

    /// Whether the slot lies on the 8×8 lattice.
    pub fn is_in_bounds(&self) -> (r: bool)
        ensures
            r == self.in_bounds(),
    {
        self.x >= 0 && self.x < 8 && self.y >= 0 && self.y < 8
    }
}

/// Indexing a cell and reading the index back gives the cell again, and every
/// index of the board names exactly one cell.
pub proof fn lemma_pcoord_index_roundtrip(c: PCoord, i: usize)
    ensures
        c.in_bounds() ==> 0 <= c.index() < 81 && PCoord::spec_from_index(c.index() as usize) == c,
        i < 81 ==> PCoord::spec_from_index(i).in_bounds() && PCoord::spec_from_index(i).index() == i,
{
}

/// Indexing a slot and reading the index back gives the slot again, and every
/// index of the lattice names exactly one slot.
pub proof fn lemma_bcoord_index_roundtrip(c: BCoord, i: usize)
    ensures
        c.in_bounds() ==> 0 <= c.index() < 64 && BCoord::spec_from_index(c.index() as usize) == c,
        i < 64 ==> BCoord::spec_from_index(i).in_bounds() && BCoord::spec_from_index(i).index() == i,
{
}

} // verus!
