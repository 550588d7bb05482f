use vstd::prelude::*;
use crate::coord::{BCoord, PCoord};
use crate::map::GameMap;
use crate::path::Path;
use crate::types::{Barricade, Orientation, Team};

verus! {

/// How a drawn path passes through a cell.
#[derive(Clone, Copy, PartialEq, Eq, Structural, Debug)]
pub enum TrailShape {
    /// From left to right.
    Across,
    LeftUp,
    LeftDown,
    RightUp,
    RightDown,
    /// From top to bottom.
    Down,
    /// The last cell of the path.
    End,
    /// No shape fits: nothing is drawn.
    Blank,
}

/// One piece of the text drawing of a board.
#[derive(Clone, Copy, PartialEq, Eq, Structural, Debug)]
pub enum Glyph {
    Space,
    /// The letter of a column, counted from `a`.
    ColumnLabel(u8),
    /// Tick marks between column labels, above and below the board.
    TopTick,
    BottomTick,
    /// The number of a row, counted from 1.
    RowLabel(u8),
    /// Tick marks at the ends of a line between two rows.
    LeftTick,
    RightTick,
    NewLine,
    /// A player's token.
    Player(Team),
    /// A cell with nothing on it.
    EmptyCell,
    /// A cell the drawn path passes.
    Trail(TrailShape),
    /// The line between two cells side by side, with the team of a barricade on it.
    VerticalWall(Option<Team>),
    /// The line between two cells one above the other, with the team of a barricade on it.
    HorizontalWall(Option<Team>),
    /// A crossing of lines, with the barricade whose slot it is.
    Crossing(Option<Barricade>),
}

/// The first position of `c` on `p`, searching from `i`.
pub open spec fn position_from(p: Seq<PCoord>, c: PCoord, i: int) -> Option<int>
    decreases p.len() - i,
{
    if i >= p.len() || i < 0 {
        None
    } else if p[i] == c {
        Some(i)
    } else {
        position_from(p, c, i + 1)
    }
}

/// The barricade of slot `(x, y)` if the slot is on the lattice, holds one, and
/// that one has orientation `o`.
pub open spec fn wall_of(m: GameMap, x: int, y: int, o: Orientation) -> Option<Team> {
    if 0 <= x < 8 && 0 <= y < 8 {
        match m.barricade_grid@[x + y * 8] {
            Some(b) => if b.orientation == o { Some(b.team) } else { None },
            None => None,
        }
    } else {
        None
    }
}

/// The shape of a path through a cell, given the offsets to the cells before and
/// after it.
pub open spec fn trail_shape(pdx: int, pdy: int, ndx: int, ndy: int) -> TrailShape {
    let left = pdx == -1 || ndx == -1;
    let right = pdx == 1 || ndx == 1;
    let up = pdy == -1 || ndy == -1;
    let down = pdy == 1 || ndy == 1;
    if left && right {
        TrailShape::Across
    } else if left && up {
        TrailShape::LeftUp
    } else if left && down {
        TrailShape::LeftDown
    } else if right && up {
        TrailShape::RightUp
    } else if right && down {
        TrailShape::RightDown
    } else if up && down {
        TrailShape::Down
    } else {
        TrailShape::Blank
    }
}

/// What is drawn at column `x`, row `y` of the 17×17 drawing of board `m` with
/// `path` on it: cells where both are even (a player, a piece of the path or
/// nothing), the lines between cells where one is odd (the later of the two slots
/// beside a line wins), and the crossings where both are odd.
pub open spec fn cell_glyph(m: GameMap, path: Seq<PCoord>, x: int, y: int) -> Glyph {
    if x % 2 == 0 && y % 2 == 0 {
        let c = PCoord { x: (x / 2) as i32, y: (y / 2) as i32 };
        if m.red_coord == c {
            Glyph::Player(Team::Red)
        } else if m.blue_coord == c {
            Glyph::Player(Team::Blue)
        } else {
            match position_from(path, c, 0) {
                Some(i) => if i + 1 < path.len() {
                    Glyph::Trail(trail_shape(
                        path[i - 1].x - c.x,
                        path[i - 1].y - c.y,
                        path[i + 1].x - c.x,
                        path[i + 1].y - c.y,
                    ))
                } else {
                    Glyph::Trail(TrailShape::End)
                },
                None => Glyph::EmptyCell,
            }
        }
    } else if x % 2 == 1 && y % 2 == 0 {
        let below = wall_of(m, (x - 1) / 2, y / 2, Orientation::Vertical);
        if below is Some {
            Glyph::VerticalWall(below)
        } else {
            Glyph::VerticalWall(wall_of(m, (x - 1) / 2, y / 2 - 1, Orientation::Vertical))
        }
    } else if x % 2 == 0 && y % 2 == 1 {
        let right = wall_of(m, x / 2, (y - 1) / 2, Orientation::Horizontal);
        if right is Some {
            Glyph::HorizontalWall(right)
        } else {
            Glyph::HorizontalWall(wall_of(m, x / 2 - 1, (y - 1) / 2, Orientation::Horizontal))
        }
    } else {
        Glyph::Crossing(m.barricade_grid@[(x - 1) / 2 + (y - 1) / 2 * 8])
    }
}

/// The labels above the board: a space, then the column letters with ticks between,
/// a line break, and the number of the first row.
pub open spec fn header_glyphs() -> Seq<Glyph> {
    seq![Glyph::Space] + Seq::new(17, |x: int| if x % 2 == 0 { Glyph::ColumnLabel((x / 2) as u8) } else { Glyph::TopTick })
        + seq![Glyph::NewLine, Glyph::RowLabel(1)]
}

/// The labels below the board: the column letters with ticks between.
pub open spec fn footer_glyphs() -> Seq<Glyph> {
    Seq::new(17, |x: int| if x % 2 == 0 { Glyph::ColumnLabel((x / 2) as u8) } else { Glyph::BottomTick })
}

/// The end of drawing row `y`: for a row of cells its number, a line break and the
/// tick that starts the next line (a space after the last row); for a row of lines
/// a tick, a line break and the number of the next row of cells.
pub open spec fn row_end(y: int) -> Seq<Glyph> {
    if y % 2 == 0 {
        seq![Glyph::RowLabel(((y + 1) / 2 + 1) as u8), Glyph::NewLine, if y != 16 { Glyph::LeftTick } else { Glyph::Space }]
    } else {
        seq![Glyph::RightTick, Glyph::NewLine, Glyph::RowLabel(((y + 1) / 2 + 1) as u8)]
    }
}

/// Drawing row `y`: its 17 glyphs and its end.
pub open spec fn row_glyphs(m: GameMap, path: Seq<PCoord>, y: int) -> Seq<Glyph> {
    Seq::new(17, |x: int| cell_glyph(m, path, x, y)) + row_end(y)
}

/// The first `k` drawing rows.
pub open spec fn rows_upto(m: GameMap, path: Seq<PCoord>, k: nat) -> Seq<Glyph>
    decreases k,
{
    if k == 0 { Seq::empty() } else { rows_upto(m, path, (k - 1) as nat) + row_glyphs(m, path, k - 1) }
}

/// The whole drawing.
pub open spec fn board_glyphs(m: GameMap, path: Seq<PCoord>) -> Seq<Glyph> {
    header_glyphs() + rows_upto(m, path, 17) + footer_glyphs()
}

/// A path can be drawn unless its first cell is on the board with no player on it
/// (the drawing looks at the cell before each drawn one).
pub open spec fn drawable(m: GameMap, path: Seq<PCoord>) -> bool {
    path.len() > 0 && path[0].in_bounds() ==> m.red_coord == path[0] || m.blue_coord == path[0]
}

} // verus!

verus! {

proof fn lemma_position_from(p: Seq<PCoord>, c: PCoord, j: int)
    ensures
        position_from(p, c, j) matches Some(i) ==> 0 <= j <= i < p.len() && p[i] == c,
    decreases p.len() - j,
{
    if 0 <= j < p.len() && p[j] != c {
        lemma_position_from(p, c, j + 1);
    }
}

/// The first position of `c` on `p`.
fn position_of(p: &Path, c: PCoord) -> (r: Option<usize>)
    ensures
        match position_from(p@, c, 0) {
            Some(i) => r == Some(i as usize),
            None => r is None,
        },
{
    let mut i: usize = 0;
    while i < p.len()
        invariant
            i <= p@.len(),
            position_from(p@, c, 0) == position_from(p@, c, i as int),
        decreases p@.len() - i,
    {
        if p.at(i) == c {
            return Some(i);
        }
        i = i + 1;
    }
    None
}

/// The team of the barricade in slot `(x, y)` when it has orientation `o`.
fn wall_at(map: &GameMap, x: i32, y: i32, o: Orientation) -> (r: Option<Team>)
    ensures
        r == wall_of(*map, x as int, y as int, o),
{
    let slot = BCoord::new(x, y);
    if !slot.is_in_bounds() {
        return None;
    }
    match map.barricade_grid.get(slot.to_index()) {
        Some(b) => if b.orientation == o { Some(b.team) } else { None },
        None => None,
    }
}

fn shape_of(pdx: i64, pdy: i64, ndx: i64, ndy: i64) -> (r: TrailShape)
    ensures
        r == trail_shape(pdx as int, pdy as int, ndx as int, ndy as int),
{
    let left = pdx == -1 || ndx == -1;
    let right = pdx == 1 || ndx == 1;
    let up = pdy == -1 || ndy == -1;
    let down = pdy == 1 || ndy == 1;
    if left && right {
        TrailShape::Across
    } else if left && up {
        TrailShape::LeftUp
    } else if left && down {
        TrailShape::LeftDown
    } else if right && up {
        TrailShape::RightUp
    } else if right && down {
        TrailShape::RightDown
    } else if up && down {
        TrailShape::Down
    } else {
        TrailShape::Blank
    }
}

/// What is drawn at column `x`, row `y` of the drawing.
fn glyph_at(map: &GameMap, path: &Path, x: i32, y: i32) -> (r: Glyph)
    requires
        0 <= x < 17,
        0 <= y < 17,
        drawable(*map, path@),
    ensures
        r == cell_glyph(*map, path@, x as int, y as int),
{
    proof {
        map.barricade_grid.lemma_len();
    }
    if x % 2 == 0 && y % 2 == 0 {
        let c = PCoord::new(x / 2, y / 2);
        match map.get_team_at(c) {
            Some(team) => Glyph::Player(team),
            None => match position_of(path, c) {
                Some(i) => {
                    let n = path.len();
                    proof {
                        lemma_position_from(path@, c, 0);
                        let pos = position_from(path@, c, 0);
                        assert(pos is Some);
                        let j = pos->0;
                        assert(0 <= j < path@.len() && path@[j] == c);
                        assert(i == j as usize);
                        assert(i as int == j);
                    }
                    if i == 0 {
                        assert(path@[0] == c);
                        assert(false);
                    }
                    if i + 1 < path.len() {
                        let prev = path.at(i - 1);
                        let next = path.at(i + 1);
                        Glyph::Trail(shape_of(
                            prev.x as i64 - c.x as i64,
                            prev.y as i64 - c.y as i64,
                            next.x as i64 - c.x as i64,
                            next.y as i64 - c.y as i64,
                        ))
                    } else {
                        Glyph::Trail(TrailShape::End)
                    }
                },
                None => Glyph::EmptyCell,
            },
        }
    } else if x % 2 == 1 && y % 2 == 0 {
        let below = wall_at(map, (x - 1) / 2, y / 2, Orientation::Vertical);
        if below.is_some() {
            Glyph::VerticalWall(below)
        } else {
            Glyph::VerticalWall(wall_at(map, (x - 1) / 2, y / 2 - 1, Orientation::Vertical))
        }
    } else if x % 2 == 0 && y % 2 == 1 {
        let right = wall_at(map, x / 2, (y - 1) / 2, Orientation::Horizontal);
        if right.is_some() {
            Glyph::HorizontalWall(right)
        } else {
            Glyph::HorizontalWall(wall_at(map, x / 2 - 1, (y - 1) / 2, Orientation::Horizontal))
        }
    } else {
        let slot = BCoord::new((x - 1) / 2, (y - 1) / 2);
        Glyph::Crossing(map.barricade_grid.get(slot.to_index()))
    }
}

/// The text drawing of the board with `path` on it (an empty path for the bare
/// board), as a sequence of glyphs: column labels, then each drawing row with its
/// row labels and ticks, then the column labels again.
pub fn render_board(map: &GameMap, path: &Path) -> (r: Vec<Glyph>)
    requires
        drawable(*map, path@),
    ensures
        r@ == board_glyphs(*map, path@),
{
    let mut out: Vec<Glyph> = Vec::new();
    out.push(Glyph::Space);
    let mut x: i32 = 0;
    while x < 17
        invariant
            0 <= x <= 17,
            out@ == seq![Glyph::Space] + Seq::new(17, |x: int| if x % 2 == 0 { Glyph::ColumnLabel((x / 2) as u8) } else { Glyph::TopTick }).subrange(0, x as int),
        decreases 17 - x,
    {
        if x % 2 == 0 {
            out.push(Glyph::ColumnLabel((x / 2) as u8));
        } else {
            out.push(Glyph::TopTick);
        }
        proof {
            assert(out@ =~= seq![Glyph::Space] + Seq::new(17, |x: int| if x % 2 == 0 { Glyph::ColumnLabel((x / 2) as u8) } else { Glyph::TopTick }).subrange(0, x + 1));
        }
        x = x + 1;
    }
    out.push(Glyph::NewLine);
    out.push(Glyph::RowLabel(1));
    assert(out@ =~= header_glyphs());
    let mut y: i32 = 0;
    while y < 17
        invariant
            0 <= y <= 17,
            drawable(*map, path@),
            out@ == header_glyphs() + rows_upto(*map, path@, y as nat),
        decreases 17 - y,
    {
        let ghost before = out@;
        let mut x: i32 = 0;
        while x < 17
            invariant
                0 <= x <= 17,
                0 <= y < 17,
                drawable(*map, path@),
                out@ == before + Seq::new(17, |x: int| cell_glyph(*map, path@, x, y as int)).subrange(0, x as int),
            decreases 17 - x,
        {
            let g = glyph_at(map, path, x, y);
            out.push(g);
            proof {
                assert(out@ =~= before + Seq::new(17, |x: int| cell_glyph(*map, path@, x, y as int)).subrange(0, x + 1));
            }
            x = x + 1;
        }
        if y % 2 == 0 {
            out.push(Glyph::RowLabel(((y + 1) / 2 + 1) as u8));
            out.push(Glyph::NewLine);
            if y != 16 {
                out.push(Glyph::LeftTick);
            } else {
                out.push(Glyph::Space);
            }
        } else {
            out.push(Glyph::RightTick);
            out.push(Glyph::NewLine);
            out.push(Glyph::RowLabel(((y + 1) / 2 + 1) as u8));
        }
        proof {
            assert(Seq::new(17, |x: int| cell_glyph(*map, path@, x, y as int)).subrange(0, 17)
                =~= Seq::new(17, |x: int| cell_glyph(*map, path@, x, y as int)));
            assert(out@ =~= before + row_glyphs(*map, path@, y as int));
            assert(rows_upto(*map, path@, (y + 1) as nat) == rows_upto(*map, path@, y as nat) + row_glyphs(*map, path@, y as int));
            assert(out@ =~= header_glyphs() + rows_upto(*map, path@, (y + 1) as nat));
        }
        y = y + 1;
    }
    let ghost body = out@;
    let mut x: i32 = 0;
    while x < 17
        invariant
            0 <= x <= 17,
            out@ == body + footer_glyphs().subrange(0, x as int),
        decreases 17 - x,
    {
        if x % 2 == 0 {
            out.push(Glyph::ColumnLabel((x / 2) as u8));
        } else {
            out.push(Glyph::BottomTick);
        }
        proof {
            assert(out@ =~= body + footer_glyphs().subrange(0, x + 1));
        }
        x = x + 1;
    }
    assert(footer_glyphs().subrange(0, 17) =~= footer_glyphs());
    out
}


proof fn lemma_rows_upto_index(m: GameMap, path: Seq<PCoord>, k: nat)
    ensures
        rows_upto(m, path, k).len() == 20 * k,
        forall|r: int, c: int| 0 <= r < k && 0 <= c < 17 ==> #[trigger] rows_upto(m, path, k)[20 * r + c] == cell_glyph(m, path, c, r),
    decreases k,
{
    if k > 0 {
        lemma_rows_upto_index(m, path, (k - 1) as nat);
        let prev = rows_upto(m, path, (k - 1) as nat);
        let row = row_glyphs(m, path, k - 1);
        assert(row.len() == 20);
        assert forall|r: int, c: int| 0 <= r < k && 0 <= c < 17 implies #[trigger] rows_upto(m, path, k)[20 * r + c] == cell_glyph(m, path, c, r) by {
            if r < k - 1 {
                assert(prev[20 * r + c] == cell_glyph(m, path, c, r));
            } else {
                assert(rows_upto(m, path, k)[20 * r + c] == row[c]);
            }
        }
    }
}

/// The glyph drawn at column `c`, row `r` of the 17 × 17 drawing sits at index
/// `20 + 20 * r + c` of the whole drawing (a 20-glyph header, then 20 glyphs a row).
pub proof fn lemma_board_glyph_index(m: GameMap, path: Seq<PCoord>, c: int, r: int)
    requires
        0 <= c < 17,
        0 <= r < 17,
    ensures
        board_glyphs(m, path)[20 + 20 * r + c] == cell_glyph(m, path, c, r),
        board_glyphs(m, path).len() == 377,
{
    lemma_rows_upto_index(m, path, 17);
    assert(header_glyphs().len() == 20);
    assert(board_glyphs(m, path)[20 + 20 * r + c] == rows_upto(m, path, 17)[20 * r + c]);
}

/// A barricade is drawn over its whole length: a horizontal barricade of team `t` in
/// slot `(x, y)` shows as that team's wall on both line segments it covers, columns
/// `2x` and `2x + 2` of drawing row `2y + 1` (the second one unless the next slot
/// along holds a horizontal barricade of its own); a vertical one likewise on rows
/// `2y` and `2y + 2` of drawing column `2x + 1`.
pub proof fn lemma_barricade_drawn_whole(m: GameMap, path: Seq<PCoord>, x: int, y: int)
    requires
        0 <= x < 8,
        0 <= y < 8,
        m.barricade_grid@[x + y * 8] is Some,
    ensures
        ({
            let b = m.barricade_grid@[x + y * 8]->0;
            let g = board_glyphs(m, path);
            &&& b.orientation == Orientation::Horizontal ==> {
                &&& g[20 + 20 * (2 * y + 1) + 2 * x] == Glyph::HorizontalWall(Some(b.team))
                &&& (x == 7 || !(m.barricade_grid@[x + 1 + y * 8] matches Some(n) && n.orientation == Orientation::Horizontal))
                    ==> g[20 + 20 * (2 * y + 1) + 2 * x + 2] == Glyph::HorizontalWall(Some(b.team))
            }
            &&& b.orientation == Orientation::Vertical ==> {
                &&& g[20 + 20 * (2 * y) + 2 * x + 1] == Glyph::VerticalWall(Some(b.team))
                &&& (y == 7 || !(m.barricade_grid@[x + (y + 1) * 8] matches Some(n) && n.orientation == Orientation::Vertical))
                    ==> g[20 + 20 * (2 * y + 2) + 2 * x + 1] == Glyph::VerticalWall(Some(b.team))
            }
        }),
{
    lemma_board_glyph_index(m, path, 2 * x, 2 * y + 1);
    lemma_board_glyph_index(m, path, 2 * x + 2, 2 * y + 1);
    lemma_board_glyph_index(m, path, 2 * x + 1, 2 * y);
    lemma_board_glyph_index(m, path, 2 * x + 1, 2 * y + 2);
    assert((2 * x) / 2 == x && (2 * y + 1 - 1) / 2 == y && (2 * x + 2) / 2 == x + 1);
    assert((2 * x + 1 - 1) / 2 == x && (2 * y) / 2 == y && (2 * y + 2) / 2 == y + 1);
}

/// Players are drawn on their cells, red over blue, and a cell with no player that
/// the path does not pass is drawn empty.
pub proof fn lemma_cells_drawn(m: GameMap, path: Seq<PCoord>, c: PCoord)
    requires
        c.in_bounds(),
    ensures
        ({
            let g = board_glyphs(m, path)[20 + 20 * (2 * c.y) + 2 * c.x];
            &&& m.red_coord == c ==> g == Glyph::Player(Team::Red)
            &&& m.blue_coord == c && m.red_coord != c ==> g == Glyph::Player(Team::Blue)
            &&& m.red_coord != c && m.blue_coord != c && !path.contains(c) ==> g == Glyph::EmptyCell
        }),
{
    lemma_board_glyph_index(m, path, 2 * c.x, 2 * c.y);
    let cc = PCoord { x: ((2 * c.x) / 2) as i32, y: ((2 * c.y) / 2) as i32 };
    assert(cc == c);
    lemma_position_from(path, c, 0);
}
} // verus!
