use vstd::prelude::*;
use crate::coord::{BCoord, PCoord};
use crate::graph::{astar_route, cells_of, is_route, is_shortest_route, is_walk, lemma_reachable_below_bound,
    lemma_reachable_refl, lemma_reachable_step, lemma_reachable_symmetric, lemma_reachable_trans, node_of, reachable};
use crate::grid::{BarricadeGrid, blocked, grid_edges, lemma_grid_edges_bound, lemma_grid_edges_same_shape,
    lemma_open_step_is_edge, no_shared_steps, slot_holds, slot_shape};
use crate::path::Path;
use crate::types::{Barricade, Orientation, Team};

verus! {

/// The board: the barricades and where the two players stand.
#[derive(Clone, Copy, Debug)]
pub struct GameMap {
    pub barricade_grid: BarricadeGrid,
    pub red_coord: PCoord,
    pub blue_coord: PCoord,
}

/// The row a team has to reach to win: red starts at the top and heads for row 8,
/// blue for row 0.
pub open spec fn goal_row(team: Team) -> int {
    match team {
        Team::Red => 8,
        Team::Blue => 0,
    }
}

/// The cells of a team's finish line, left to right.
pub open spec fn finish_line(team: Team) -> Seq<PCoord> {
    Seq::new(9, |i: int| PCoord { x: i as i32, y: goal_row(team) as i32 })
}

/// From `from`, a walk through the navigation graph of `slots` reaches a cell of row `row`.
pub open spec fn can_reach_row(slots: Seq<Option<Barricade>>, from: PCoord, row: int) -> bool {
    exists|m: int|
        0 <= m < 81 && #[trigger] reachable(grid_edges(slots), from.index(), m)
            && PCoord::spec_from_index(m as usize).y == row
}

/// The cell one step of `(dx, dy)` away from `c`.
pub open spec fn offset(c: PCoord, dx: int, dy: int) -> PCoord {
    PCoord { x: (c.x + dx) as i32, y: (c.y + dy) as i32 }
}

/// Whether a team's player can still walk to its finish line.
pub open spec fn has_route_to_finish(m: GameMap, team: Team) -> bool {
    exists|q: Seq<int>| #[trigger] is_route(grid_edges(m.barricade_grid@), node_of(m.player(team)), finish_line(team), q)
}

/// The placements the `s`-th slot offers: horizontal first, then vertical.
pub open spec fn slot_options(m: GameMap, s: int) -> Seq<(BCoord, Orientation)> {
    let c = BCoord { x: (s % 8) as i32, y: (s / 8) as i32 };
    (if m.barricade_allowed(c, Orientation::Horizontal) { seq![(c, Orientation::Horizontal)] } else { Seq::empty() })
        + (if m.barricade_allowed(c, Orientation::Vertical) { seq![(c, Orientation::Vertical)] } else { Seq::empty() })
}

/// The allowed placements in the first `k` slots, row by row.
pub open spec fn barricades_upto(m: GameMap, k: nat) -> Seq<(BCoord, Orientation)>
    decreases k,
{
    if k == 0 { Seq::empty() } else { barricades_upto(m, (k - 1) as nat) + slot_options(m, k - 1) }
}

/// The cells among the first `k`, row by row, that the player of `team` may move to.
pub open spec fn moves_upto(m: GameMap, team: Team, k: nat) -> Seq<PCoord>
    decreases k,
{
    if k == 0 {
        Seq::empty()
    } else {
        let c = PCoord { x: ((k - 1) % 9) as i32, y: ((k - 1) / 9) as i32 };
        moves_upto(m, team, (k - 1) as nat) + (if m.step_allowed(team, c) { seq![c] } else { Seq::empty() })
    }
}

impl GameMap {
    /// Both players stand on the board.
    pub open spec fn players_on_board(&self) -> bool {
        self.red_coord.in_bounds() && self.blue_coord.in_bounds()
    }

    pub open spec fn player(&self, team: Team) -> PCoord {
        match team {
            Team::Red => self.red_coord,
            Team::Blue => self.blue_coord,
        }
    }

    /// The cell is off the board or a player stands on it.
    pub open spec fn occupied(&self, c: PCoord) -> bool {
        !c.in_bounds() || self.red_coord == c || self.blue_coord == c
    }

    /// The lattice after a barricade of orientation `o` goes into slot `coord`.
    pub open spec fn with_barricade(&self, coord: BCoord, team: Team, o: Orientation) -> Seq<Option<Barricade>> {
        self.barricade_grid@.update(coord.index(), Some(Barricade { team, orientation: o }))
    }

    /// A slot beside `coord` along orientation `o` already holds a barricade of that
    /// orientation, so that the two would overlap.
    pub open spec fn overlaps(&self, coord: BCoord, o: Orientation) -> bool {
        match o {
            Orientation::Horizontal => slot_holds(self.barricade_grid@, coord.x - 1, coord.y as int, o)
                || slot_holds(self.barricade_grid@, coord.x + 1, coord.y as int, o),
            Orientation::Vertical => slot_holds(self.barricade_grid@, coord.x as int, coord.y - 1, o)
                || slot_holds(self.barricade_grid@, coord.x as int, coord.y + 1, o),
        }
    }

    /// A barricade of orientation `o` may go into slot `coord`: the slot is on the
    /// lattice and empty, it overlaps no barricade, and afterwards both players can
    /// still reach their goal rows.
    pub open spec fn barricade_allowed(&self, coord: BCoord, o: Orientation) -> bool {
        &&& coord.in_bounds()
        &&& self.barricade_grid@[coord.index()] is None
        &&& !self.overlaps(coord, o)
        &&& can_reach_row(self.with_barricade(coord, Team::Red, o), self.red_coord, goal_row(Team::Red))
        &&& can_reach_row(self.with_barricade(coord, Team::Red, o), self.blue_coord, goal_row(Team::Blue))
    }

    /// A jump over the other player standing in `between`, two cells in a straight line.
    pub open spec fn jump_allowed(&self, c: PCoord, between: PCoord, to: PCoord) -> bool {
        !blocked(self.barricade_grid@, c, between) && !blocked(self.barricade_grid@, between, to) && self.occupied(between)
    }

    /// A diagonal step past the other player standing in `first`, allowed only when
    /// the straight jump over them (to `behind`) is cut by the board's edge or a barricade.
    pub open spec fn side_step_allowed(&self, c: PCoord, first: PCoord, to: PCoord, behind: PCoord) -> bool {
        !behind.in_bounds() || blocked(self.barricade_grid@, first, behind)
    }

    pub open spec fn side_step_via(&self, c: PCoord, first: PCoord, to: PCoord) -> bool {
        self.occupied(first) && !blocked(self.barricade_grid@, c, first) && !blocked(self.barricade_grid@, first, to)
    }

    /// The player of `team` may move to `to`: onto a free cell one step away with no
    /// barricade between; or by jumping straight over the other player; or, where that
    /// jump is cut off, diagonally past them.
    pub open spec fn step_allowed(&self, team: Team, to: PCoord) -> bool {
        let c = self.player(team);
        let dx = to.x - c.x;
        let dy = to.y - c.y;
        if self.occupied(to) {
            false
        } else if dy == 0 {
            if dx == 1 || dx == -1 {
                !blocked(self.barricade_grid@, c, to)
            } else if dx == 2 || dx == -2 {
                self.jump_allowed(c, offset(c, dx / 2, 0), to)
            } else {
                false
            }
        } else if dx == 0 {
            if dy == 1 || dy == -1 {
                !blocked(self.barricade_grid@, c, to)
            } else if dy == 2 || dy == -2 {
                self.jump_allowed(c, offset(c, 0, dy / 2), to)
            } else {
                false
            }
        } else if (dy == 1 || dy == -1) && (dx == 1 || dx == -1) {
            if self.side_step_via(c, offset(c, 0, dy), to) {
                self.side_step_allowed(c, offset(c, 0, dy), to, offset(c, 0, 2 * dy))
            } else if self.side_step_via(c, offset(c, dx, 0), to) {
                self.side_step_allowed(c, offset(c, dx, 0), to, offset(c, 2 * dx, 0))
            } else {
                false
            }
        } else {
            false
        }
    }

    /// A board with no barricades and the players at the given cells.
    pub fn new(red_coord: PCoord, blue_coord: PCoord) -> (r: GameMap)
        ensures
            r.red_coord == red_coord,
            r.blue_coord == blue_coord,
            forall|i: int| 0 <= i < 64 ==> r.barricade_grid@[i] is None,
    {
        GameMap { barricade_grid: BarricadeGrid::new(), red_coord, blue_coord }
    }

    /// Whether the cell is off the board or a player stands on it.
    pub fn is_occupied(&self, coord: PCoord) -> (r: bool)
        ensures
            r == self.occupied(coord),
    {
        !coord.is_in_bounds() || self.red_coord == coord || self.blue_coord == coord
    }

    /// The team whose player stands on the cell, if any (red first).
    pub fn get_team_at(&self, coord: PCoord) -> (r: Option<Team>)
        ensures
            r == (if self.red_coord == coord {
                Some(Team::Red)
            } else if self.blue_coord == coord {
                Some(Team::Blue)
            } else {
                None
            }),
    {
        if self.red_coord == coord {
            return Some(Team::Red);
        } else if self.blue_coord == coord {
            return Some(Team::Blue);
        }
        None
    }

    /// Where the player of `team` stands.
    pub fn get_player_coord(&self, team: Team) -> (r: PCoord)
        ensures
            r == self.player(team),
    {
        match team {
            Team::Red => self.red_coord,
            Team::Blue => self.blue_coord,
        }
    }

    /// Whether a barricade of orientation `orientation` may go into slot `coord`.
    pub fn can_place_barricade(&self, coord: BCoord, orientation: Orientation) -> (r: bool)
        requires
            self.players_on_board(),
        ensures
            r == self.barricade_allowed(coord, orientation),
    {
        if !coord.is_in_bounds() {
            return false;
        }
        let index = coord.to_index();
        let in_place_occupied = self.barricade_grid.get(index).is_some();
        let neighbor_occupied = match orientation {
            Orientation::Horizontal => {
                let left_coord = BCoord::new(coord.x - 1, coord.y);
                let right_coord = BCoord::new(coord.x + 1, coord.y);
                self.barricade_grid.holds_at(left_coord, Orientation::Horizontal)
                    || self.barricade_grid.holds_at(right_coord, Orientation::Horizontal)
            },
            Orientation::Vertical => {
                let above_coord = BCoord::new(coord.x, coord.y - 1);
                let below_coord = BCoord::new(coord.x, coord.y + 1);
                self.barricade_grid.holds_at(above_coord, Orientation::Vertical)
                    || self.barricade_grid.holds_at(below_coord, Orientation::Vertical)
            },
        };
        let mut future_grid = self.barricade_grid;
        future_grid.set(index, Some(Barricade { team: Team::Red, orientation }));
        let navgraph = future_grid.get_navgraph();
        let red_can_finish = navgraph.can_reach_y_level(self.red_coord, 8);
        let blue_can_finish = navgraph.can_reach_y_level(self.blue_coord, 0);
        !in_place_occupied && !neighbor_occupied && red_can_finish && blue_can_finish
    }

    /// Whether the player of `team` may move to `to`.
    pub fn can_step(&self, player_team: Team, to: PCoord) -> (r: bool)
        ensures
            r == self.step_allowed(player_team, to),
    {
        if self.is_occupied(to) {
            return false;
        }
        let coord = self.get_player_coord(player_team);
        let dx: i64 = to.x as i64 - coord.x as i64;
        let dy: i64 = to.y as i64 - coord.y as i64;
        if dy == 0 {
            if dx == 1 || dx == -1 {
                if !self.barricade_grid.is_barricade_between(coord, to) {
                    return true;
                }
            } else if dx == 2 || dx == -2 {
                let between = PCoord::new((coord.x as i64 + dx / 2) as i32, coord.y);
                assert(between == offset(coord, dx as int / 2, 0));
                if !self.barricade_grid.is_barricade_between(coord, between)
                    && !self.barricade_grid.is_barricade_between(between, to)
                    && self.is_occupied(between)
                {
                    return true;
                }
            }
        } else if dx == 0 {
            if dy == 1 || dy == -1 {
                if !self.barricade_grid.is_barricade_between(coord, to) {
                    return true;
                }
            } else if dy == 2 || dy == -2 {
                let between = PCoord::new(coord.x, (coord.y as i64 + dy / 2) as i32);
                assert(between == offset(coord, 0, dy as int / 2));
                if !self.barricade_grid.is_barricade_between(coord, between)
                    && !self.barricade_grid.is_barricade_between(between, to)
                    && self.is_occupied(between)
                {
                    return true;
                }
            }
        } else if (dy == 1 || dy == -1) && (dx == 1 || dx == -1) {
            let vert_first_coord = PCoord::new(coord.x, (coord.y as i64 + dy) as i32);
            let hori_first_coord = PCoord::new((coord.x as i64 + dx) as i32, coord.y);
            assert(vert_first_coord == offset(coord, 0, dy as int));
            assert(hori_first_coord == offset(coord, dx as int, 0));
            if self.is_occupied(vert_first_coord)
                && !self.barricade_grid.is_barricade_between(coord, vert_first_coord)
                && !self.barricade_grid.is_barricade_between(vert_first_coord, to)
            {
                let behind = PCoord::new(coord.x, (coord.y as i64 + dy * 2) as i32);
                assert(behind == offset(coord, 0, 2 * dy as int));
                return !behind.is_in_bounds() || self.barricade_grid.is_barricade_between(vert_first_coord, behind);
            } else if self.is_occupied(hori_first_coord)
                && !self.barricade_grid.is_barricade_between(coord, hori_first_coord)
                && !self.barricade_grid.is_barricade_between(hori_first_coord, to)
            {
                let behind = PCoord::new((coord.x as i64 + dx * 2) as i32, coord.y);
                assert(behind == offset(coord, 2 * dx as int, 0));
                return !behind.is_in_bounds() || self.barricade_grid.is_barricade_between(hori_first_coord, behind);
            }
        }
        false
    }

    /// Moves the player of `team` to `to` when that is allowed.
    pub fn try_step(&mut self, team: Team, to: PCoord) -> (r: Result<(), ()>)
        ensures
            r is Ok <==> old(self).step_allowed(team, to),
            r is Ok ==> final(self).player(team) == to && final(self).player(team.rival()) == old(self).player(team.rival())
                && final(self).barricade_grid == old(self).barricade_grid,
            r is Err ==> *final(self) == *old(self),
    {
        if self.can_step(team, to) {
            self.move_player(team, to);
            return Ok(());
        }
        Err(())
    }

    /// Places a barricade of `team` into slot `coord` when that is allowed.
    pub fn try_place_barricade(&mut self, team: Team, coord: BCoord, orientation: Orientation) -> (r: Result<(), ()>)
        requires
            old(self).players_on_board(),
        ensures
            r is Ok <==> old(self).barricade_allowed(coord, orientation),
            r is Ok ==> final(self).barricade_grid@ == old(self).with_barricade(coord, team, orientation),
            r is Err ==> *final(self) == *old(self),
            final(self).red_coord == old(self).red_coord,
            final(self).blue_coord == old(self).blue_coord,
    {
        if self.can_place_barricade(coord, orientation) {
            let index = coord.to_index();
            self.barricade_grid.set(index, Some(Barricade { team, orientation }));
            return Ok(());
        }
        Err(())
    }

    /// A shortest route for the player of `team` to its finish line, from its own cell
    /// to the finish; the one A* search returns.
    pub fn find_shortest_path_to_win(&self, team: Team) -> (r: Path)
        requires
            has_route_to_finish(*self, team),
        ensures
            astar_route(grid_edges(self.barricade_grid@), node_of(self.player(team)), finish_line(team)) matches Some(p)
                && r@ == cells_of(p),
            exists|p: Seq<int>|
                is_shortest_route(grid_edges(self.barricade_grid@), node_of(self.player(team)), finish_line(team), p)
                    && r@ == cells_of(p),
    {
        let graph = self.barricade_grid.get_navgraph();
        let start = self.get_player_coord(team);
        let finish = finish_line_of(team);
        match graph.find_shortest_path(start, finish.as_slice()) {
            Some(path) => path,
            None => {
                proof {
                    let q = choose|q: Seq<int>| #[trigger] is_route(grid_edges(self.barricade_grid@), node_of(self.player(team)), finish_line(team), q);
                    assert(is_route(graph.edges(), node_of(start), finish@, q));
                }
                Path::empty()
            },
        }
    }

    /// Every allowed barricade placement, slot by slot in row-major order, the
    /// horizontal one before the vertical one.
    pub fn find_valid_barricades(&self) -> (r: Vec<(BCoord, Orientation)>)
        requires
            self.players_on_board(),
        ensures
            r@ == barricades_upto(*self, 64),
    {
        let mut result: Vec<(BCoord, Orientation)> = Vec::new();
        let mut y: i32 = 0;
        while y < 8
            invariant
                0 <= y <= 8,
                self.players_on_board(),
                result@ == barricades_upto(*self, (y * 8) as nat),
            decreases 8 - y,
        {
            let mut x: i32 = 0;
            while x < 8
                invariant
                    0 <= y < 8,
                    0 <= x <= 8,
                    self.players_on_board(),
                    result@ == barricades_upto(*self, (y * 8 + x) as nat),
                decreases 8 - x,
            {
                let ghost before = result@;
                let ghost s = y * 8 + x;
                let coord = BCoord::new(x, y);
                assert(s % 8 == x && s / 8 == y);
                if self.can_place_barricade(coord, Orientation::Horizontal) {
                    result.push((coord, Orientation::Horizontal));
                }
                if self.can_place_barricade(coord, Orientation::Vertical) {
                    result.push((coord, Orientation::Vertical));
                }
                proof {
                    assert(result@ =~= before + slot_options(*self, s));
                }
                x = x + 1;
            }
            y = y + 1;
        }
        result
    }

    /// Every cell the player of `team` may move to, in row-major order.
    pub fn find_valid_moves(&self, team: Team) -> (r: Vec<PCoord>)
        ensures
            r@ == moves_upto(*self, team, 81),
    {
        let mut result: Vec<PCoord> = Vec::new();
        let mut y: i32 = 0;
        while y < 9
            invariant
                0 <= y <= 9,
                result@ == moves_upto(*self, team, (y * 9) as nat),
            decreases 9 - y,
        {
            let mut x: i32 = 0;
            while x < 9
                invariant
                    0 <= y < 9,
                    0 <= x <= 9,
                        result@ == moves_upto(*self, team, (y * 9 + x) as nat),
                decreases 9 - x,
            {
                let ghost before = result@;
                let ghost s = y * 9 + x;
                let coord = PCoord::new(x, y);
                assert(s % 9 == x && s / 9 == y);
                if self.can_step(team, coord) {
                    result.push(coord);
                }
                proof {
                    assert(result@ =~= moves_upto(*self, team, (s + 1) as nat));
                }
                x = x + 1;
            }
            y = y + 1;
        }
        result
    }

    /// Puts the player of `team` on `coord`, with no check.
    pub fn move_player(&mut self, team: Team, coord: PCoord)
        ensures
            final(self).player(team) == coord,
            final(self).player(team.rival()) == old(self).player(team.rival()),
            final(self).barricade_grid == old(self).barricade_grid,
    {
        match team {
            Team::Red => self.red_coord = coord,
            Team::Blue => self.blue_coord = coord,
        }
    }
}

/// The finish line of a team: the nine cells of its goal row.
pub fn finish_line_of(team: Team) -> (r: Vec<PCoord>)
    ensures
        r@ == finish_line(team),
{
    let row: i32 = match team {
        Team::Red => 8,
        Team::Blue => 0,
    };
    let mut v: Vec<PCoord> = Vec::new();
    let mut i: i32 = 0;
    while i < 9
        invariant
            0 <= i <= 9,
            row == goal_row(team),
            v@ == finish_line(team).subrange(0, i as int),
        decreases 9 - i,
    {
        v.push(PCoord::new(i, row));
        proof {
            assert(v@ =~= finish_line(team).subrange(0, i + 1));
        }
        i = i + 1;
    }
    assert(v@ =~= finish_line(team));
    v
}

} // verus!

verus! {

/// For a cell on the board, reaching the goal row of `team` and having a route to
/// its finish line are the same thing.
pub proof fn lemma_row_iff_route(slots: Seq<Option<Barricade>>, c: PCoord, team: Team)
    requires
        slots.len() == 64,
        c.in_bounds(),
    ensures
        can_reach_row(slots, c, goal_row(team))
            <==> exists|q: Seq<int>| #[trigger] is_route(grid_edges(slots), node_of(c), finish_line(team), q),
{
    let edges = grid_edges(slots);
    let fl = finish_line(team);
    lemma_grid_edges_bound(slots);
    if can_reach_row(slots, c, goal_row(team)) {
        let m = choose|m: int|
            0 <= m < 81 && #[trigger] reachable(edges, c.index(), m) && PCoord::spec_from_index(m as usize).y == goal_row(team);
        let p = choose|p: Seq<int>| is_walk(edges, p) && p[0] == c.index() && p.last() == m;
        let cell = PCoord::spec_from_index(m as usize);
        assert(fl[m % 9] == cell);
        assert(fl.contains(cell));
        assert(is_route(edges, node_of(c), fl, p));
    }
    if exists|q: Seq<int>| #[trigger] is_route(edges, node_of(c), fl, q) {
        let q = choose|q: Seq<int>| #[trigger] is_route(edges, node_of(c), fl, q);
        let m = q.last();
        assert(reachable(edges, c.index(), m));
        lemma_reachable_below_bound(edges, 81, c.index(), m);
        let i = choose|i: int| 0 <= i < fl.len() && fl[i] == PCoord::spec_from_index(m as usize);
        assert(PCoord::spec_from_index(m as usize).y == goal_row(team));
        assert(0 <= m < 81 && reachable(edges, c.index(), m) && PCoord::spec_from_index(m as usize).y == goal_row(team));
    }
}

/// A move the rules allow leads along the navigation graph: one step, or two
/// through the cell jumped over or passed.
pub proof fn lemma_step_is_walk(m: GameMap, team: Team, to: PCoord)
    requires
        m.players_on_board(),
        m.step_allowed(team, to),
    ensures
        to.in_bounds(),
        reachable(grid_edges(m.barricade_grid@), m.player(team).index(), to.index()),
{
    let slots = m.barricade_grid@;
    let edges = grid_edges(slots);
    let c = m.player(team);
    let dx = to.x - c.x;
    let dy = to.y - c.y;
    lemma_reachable_refl(edges, c.index());
    if dy == 0 && (dx == 1 || dx == -1) || dx == 0 && (dy == 1 || dy == -1) {
        lemma_open_step_is_edge(slots, c, to);
        lemma_reachable_step(edges, c.index(), c.index(), to.index());
    } else {
        let mid = if dy == 0 {
            offset(c, dx / 2, 0)
        } else if dx == 0 {
            offset(c, 0, dy / 2)
        } else if m.side_step_via(c, offset(c, 0, dy), to) {
            offset(c, 0, dy)
        } else {
            offset(c, dx, 0)
        };
        assert(mid.in_bounds());
        lemma_open_step_is_edge(slots, c, mid);
        lemma_reachable_step(edges, c.index(), c.index(), mid.index());
        lemma_open_step_is_edge(slots, mid, to);
        lemma_reachable_step(edges, c.index(), mid.index(), to.index());
    }
}

/// Moving a player as the rules allow keeps both players on the board and able to
/// reach their finish lines.
pub proof fn lemma_step_keeps_routes(before: GameMap, after: GameMap, team: Team, to: PCoord)
    requires
        before.players_on_board(),
        has_route_to_finish(before, Team::Red),
        has_route_to_finish(before, Team::Blue),
        before.step_allowed(team, to),
        after.player(team) == to,
        after.player(team.rival()) == before.player(team.rival()),
        after.barricade_grid == before.barricade_grid,
    ensures
        after.players_on_board(),
        has_route_to_finish(after, Team::Red),
        has_route_to_finish(after, Team::Blue),
{
    let slots = before.barricade_grid@;
    let edges = grid_edges(slots);
    before.barricade_grid.lemma_len();
    lemma_step_is_walk(before, team, to);
    let c = before.player(team);
    assert(after.players_on_board()) by {
        match team {
            Team::Red => {},
            Team::Blue => {},
        }
    }
    lemma_row_iff_route(slots, c, team);
    lemma_row_iff_route(slots, to, team);
    let m = choose|m: int|
        0 <= m < 81 && #[trigger] reachable(edges, c.index(), m) && PCoord::spec_from_index(m as usize).y == goal_row(team);
    lemma_reachable_symmetric(edges, c.index(), to.index());
    lemma_reachable_trans(edges, to.index(), c.index(), m);
    assert(can_reach_row(slots, to, goal_row(team)));
    match team {
        Team::Red => {
            assert(after.player(Team::Blue) == before.player(Team::Blue));
        },
        Team::Blue => {
            assert(after.player(Team::Red) == before.player(Team::Red));
        },
    }
}

/// Placing an allowed barricade keeps both players able to reach their finish lines:
/// the test placement that allowed it differs only in whose barricade it is, which
/// no step depends on.
pub proof fn lemma_barricade_keeps_routes(before: GameMap, after: GameMap, team: Team, coord: BCoord, o: Orientation)
    requires
        before.players_on_board(),
        before.barricade_allowed(coord, o),
        after.barricade_grid@ == before.with_barricade(coord, team, o),
        after.red_coord == before.red_coord,
        after.blue_coord == before.blue_coord,
    ensures
        after.players_on_board(),
        has_route_to_finish(after, Team::Red),
        has_route_to_finish(after, Team::Blue),
{
    before.barricade_grid.lemma_len();
    after.barricade_grid.lemma_len();
    let tested = before.with_barricade(coord, Team::Red, o);
    let placed = after.barricade_grid@;
    assert forall|i: int| 0 <= i < 64 implies slot_shape(#[trigger] placed[i]) == slot_shape(tested[i]) by {}
    lemma_grid_edges_same_shape(placed, tested);
    assert(can_reach_row(placed, after.red_coord, goal_row(Team::Red)));
    assert(can_reach_row(placed, after.blue_coord, goal_row(Team::Blue)));
    lemma_row_iff_route(placed, after.red_coord, Team::Red);
    lemma_row_iff_route(placed, after.blue_coord, Team::Blue);
    assert(after.player(Team::Red) == after.red_coord);
    assert(after.player(Team::Blue) == after.blue_coord);
}

} // verus!

verus! {

/// On a board with no barricades, column 4 leads from row 0 to row `y`.
proof fn lemma_open_column(slots: Seq<Option<Barricade>>, y: int)
    requires
        slots.len() == 64,
        forall|i: int| 0 <= i < 64 ==> slots[i] is None,
        0 <= y < 9,
    ensures
        reachable(grid_edges(slots), 4, 4 + 9 * y),
    decreases y,
{
    if y == 0 {
        lemma_reachable_refl(grid_edges(slots), 4);
    } else {
        lemma_open_column(slots, y - 1);
        let a = PCoord { x: 4, y: (y - 1) as i32 };
        let b = PCoord { x: 4, y: y as i32 };
        assert(!blocked(slots, a, b));
        lemma_open_step_is_edge(slots, a, b);
        lemma_reachable_step(grid_edges(slots), 4, 4 + 9 * (y - 1), 4 + 9 * y);
    }
}

/// In the opening position, red at (4, 0) and blue at (4, 8) on an empty board, both
/// players can reach their finish lines.
pub proof fn lemma_opening_routes(m: GameMap)
    requires
        forall|i: int| 0 <= i < 64 ==> m.barricade_grid@[i] is None,
        m.red_coord == (PCoord { x: 4, y: 0 }),
        m.blue_coord == (PCoord { x: 4, y: 8 }),
    ensures
        m.players_on_board(),
        has_route_to_finish(m, Team::Red),
        has_route_to_finish(m, Team::Blue),
{
    let slots = m.barricade_grid@;
    m.barricade_grid.lemma_len();
    let edges = grid_edges(slots);
    lemma_open_column(slots, 8);
    lemma_reachable_symmetric(edges, 4, 76);
    lemma_reachable_refl(edges, 4);
    lemma_reachable_refl(edges, 76);
    assert(0 <= 76 < 81 && reachable(edges, m.red_coord.index(), 76) && PCoord::spec_from_index(76usize).y == goal_row(Team::Red));
    assert(can_reach_row(slots, m.red_coord, goal_row(Team::Red)));
    assert(0 <= 4 < 81 && reachable(edges, m.blue_coord.index(), 4) && PCoord::spec_from_index(4usize).y == goal_row(Team::Blue));
    assert(can_reach_row(slots, m.blue_coord, goal_row(Team::Blue)));
    lemma_row_iff_route(slots, m.red_coord, Team::Red);
    lemma_row_iff_route(slots, m.blue_coord, Team::Blue);
    assert(m.player(Team::Red) == m.red_coord);
    assert(m.player(Team::Blue) == m.blue_coord);
}

} // verus!

verus! {

/// Every placement that `find_valid_barricades` lists is allowed.
pub proof fn lemma_barricades_upto_allowed(m: GameMap, k: nat)
    ensures
        forall|i: int| 0 <= i < barricades_upto(m, k).len() ==> {
            let b = #[trigger] barricades_upto(m, k)[i];
            m.barricade_allowed(b.0, b.1)
        },
    decreases k,
{
    if k > 0 {
        lemma_barricades_upto_allowed(m, (k - 1) as nat);
        let prev = barricades_upto(m, (k - 1) as nat);
        let extra = slot_options(m, k - 1);
        assert forall|i: int| 0 <= i < barricades_upto(m, k).len() implies {
            let b = #[trigger] barricades_upto(m, k)[i];
            m.barricade_allowed(b.0, b.1)
        } by {
            if i >= prev.len() {
                assert(barricades_upto(m, k)[i] == extra[i - prev.len()]);
            } else {
                assert(barricades_upto(m, k)[i] == prev[i]);
            }
        }
    }
}

/// Every cell that `find_valid_moves` lists is a move the rules allow.
pub proof fn lemma_moves_upto_allowed(m: GameMap, team: Team, k: nat)
    ensures
        forall|i: int| 0 <= i < moves_upto(m, team, k).len() ==> m.step_allowed(team, #[trigger] moves_upto(m, team, k)[i]),
    decreases k,
{
    if k > 0 {
        lemma_moves_upto_allowed(m, team, (k - 1) as nat);
        let prev = moves_upto(m, team, (k - 1) as nat);
        assert forall|i: int| 0 <= i < moves_upto(m, team, k).len() implies m.step_allowed(team, #[trigger] moves_upto(m, team, k)[i]) by {
            if i < prev.len() {
                assert(moves_upto(m, team, k)[i] == prev[i]);
            }
        }
    }
}

} // verus!

verus! {

proof fn lemma_barricades_upto_has(m: GameMap, s: int, k: nat, e: (BCoord, Orientation))
    requires
        0 <= s < k,
        slot_options(m, s).contains(e),
    ensures
        barricades_upto(m, k).contains(e),
    decreases k,
{
    let prev = barricades_upto(m, (k - 1) as nat);
    if s < k - 1 {
        lemma_barricades_upto_has(m, s, (k - 1) as nat, e);
        let i = choose|i: int| 0 <= i < prev.len() && #[trigger] prev[i] == e;
        assert(barricades_upto(m, k)[i] == e);
    } else {
        let opts = slot_options(m, s);
        let i = choose|i: int| 0 <= i < opts.len() && #[trigger] opts[i] == e;
        assert(barricades_upto(m, k)[prev.len() + i] == e);
    }
}

/// `find_valid_barricades` lists exactly the placements the rules allow.
pub proof fn lemma_valid_barricades_exact(m: GameMap, c: BCoord, o: Orientation)
    ensures
        barricades_upto(m, 64).contains((c, o)) <==> m.barricade_allowed(c, o),
{
    lemma_barricades_upto_allowed(m, 64);
    if barricades_upto(m, 64).contains((c, o)) {
        let i = choose|i: int| 0 <= i < barricades_upto(m, 64).len() && #[trigger] barricades_upto(m, 64)[i] == (c, o);
        let b = barricades_upto(m, 64)[i];
        assert(m.barricade_allowed(b.0, b.1));
    }
    if m.barricade_allowed(c, o) {
        let s = c.index();
        assert(s % 8 == c.x && s / 8 == c.y);
        let cc = BCoord { x: (s % 8) as i32, y: (s / 8) as i32 };
        assert(cc == c);
        let opts = slot_options(m, s);
        match o {
            Orientation::Horizontal => {
                assert(opts[0] == (c, o));
            },
            Orientation::Vertical => {
                let first = if m.barricade_allowed(cc, Orientation::Horizontal) { 1int } else { 0int };
                assert(opts[first] == (c, o));
            },
        }
        lemma_barricades_upto_has(m, s, 64, (c, o));
    }
}

proof fn lemma_moves_upto_has(m: GameMap, team: Team, s: int, k: nat, c: PCoord)
    requires
        0 <= s < k,
        c == (PCoord { x: (s % 9) as i32, y: (s / 9) as i32 }),
        m.step_allowed(team, c),
    ensures
        moves_upto(m, team, k).contains(c),
    decreases k,
{
    let prev = moves_upto(m, team, (k - 1) as nat);
    if s < k - 1 {
        lemma_moves_upto_has(m, team, s, (k - 1) as nat, c);
        let i = choose|i: int| 0 <= i < prev.len() && #[trigger] prev[i] == c;
        assert(moves_upto(m, team, k)[i] == c);
    } else {
        assert(moves_upto(m, team, k)[prev.len() as int] == c);
    }
}

/// `find_valid_moves` lists exactly the cells the player of `team` may move to.
pub proof fn lemma_valid_moves_exact(m: GameMap, team: Team, c: PCoord)
    ensures
        moves_upto(m, team, 81).contains(c) <==> m.step_allowed(team, c),
{
    lemma_moves_upto_allowed(m, team, 81);
    if moves_upto(m, team, 81).contains(c) {
        let i = choose|i: int| 0 <= i < moves_upto(m, team, 81).len() && #[trigger] moves_upto(m, team, 81)[i] == c;
    }
    if m.step_allowed(team, c) {
        let s = c.index();
        assert(s % 9 == c.x && s / 9 == c.y);
        lemma_moves_upto_has(m, team, s, 81, c);
    }
}


proof fn lemma_moves_upto_distinct(m: GameMap, team: Team, k: nat)
    requires
        k <= 81,
    ensures
        moves_upto(m, team, k).no_duplicates(),
        forall|i: int| 0 <= i < moves_upto(m, team, k).len() ==> {
            let c = #[trigger] moves_upto(m, team, k)[i];
            &&& 0 <= c.x < 9
            &&& 0 <= c.y < 9
            &&& c.x + 9 * c.y < k
        },
    decreases k,
{
    if k > 0 {
        lemma_moves_upto_distinct(m, team, (k - 1) as nat);
        let prev = moves_upto(m, team, (k - 1) as nat);
        let all = moves_upto(m, team, k);
        let c = PCoord { x: ((k - 1) % 9) as i32, y: ((k - 1) / 9) as i32 };
        assert(c.x + 9 * c.y == k - 1);
        assert forall|i: int| 0 <= i < all.len() implies {
            let d = #[trigger] all[i];
            &&& 0 <= d.x < 9
            &&& 0 <= d.y < 9
            &&& d.x + 9 * d.y < k
        } by {
            if i < prev.len() {
                assert(all[i] == prev[i]);
            } else {
                assert(all[i] == c);
            }
        }
        assert forall|x: int, y: int| 0 <= x < y < all.len() implies all[x] != all[y] by {
            if y < prev.len() {
                assert(all[x] == prev[x] && all[y] == prev[y]);
            } else {
                assert(all[x] == prev[x] && all[y] == c);
                assert(prev[x].x + 9 * prev[x].y < k - 1);
            }
        }
    }
}

/// The cells a player on the board might move to: the three free straight steps
/// and either the jump over an adjacent other player or the two diagonals past
/// them; with no other player adjacent, the four straight steps.
spec fn move_candidates(m: GameMap, team: Team) -> Seq<PCoord> {
    let c = m.player(team);
    let o = m.player(team.rival());
    let ux = o.x - c.x;
    let uy = o.y - c.y;
    if (ux == 0 && (uy == 1 || uy == -1)) || (uy == 0 && (ux == 1 || ux == -1)) {
        let vx = uy;
        let vy = ux;
        let jump = offset(c, 2 * ux, 2 * uy);
        seq![offset(c, -ux, -uy), offset(c, vx, vy), offset(c, -vx, -vy)] + if m.step_allowed(team, jump) {
            seq![jump]
        } else {
            seq![offset(c, ux + vx, uy + vy), offset(c, ux - vx, uy - vy)]
        }
    } else {
        seq![offset(c, 1, 0), offset(c, -1, 0), offset(c, 0, 1), offset(c, 0, -1)]
    }
}

proof fn lemma_move_is_candidate(m: GameMap, team: Team, to: PCoord)
    requires
        m.player(team).in_bounds(),
        m.step_allowed(team, to),
    ensures
        move_candidates(m, team).contains(to),
{
    let c = m.player(team);
    let o = m.player(team.rival());
    let dx = to.x - c.x;
    let dy = to.y - c.y;
    let ux = o.x - c.x;
    let uy = o.y - c.y;
    let cands = move_candidates(m, team);
    assert(to.in_bounds());
    assert(o == m.red_coord || o == m.blue_coord);
    assert(c == m.red_coord || c == m.blue_coord);
    assert(c != o ==> (m.red_coord == c && m.blue_coord == o) || (m.blue_coord == c && m.red_coord == o));
    let adj = (ux == 0 && (uy == 1 || uy == -1)) || (uy == 0 && (ux == 1 || ux == -1));
    if (dy == 0 && (dx == 1 || dx == -1)) || (dx == 0 && (dy == 1 || dy == -1)) {
        assert(to == offset(c, dx, dy));
        if adj {
            assert(to != o);
            if dx == -ux && dy == -uy {
                assert(cands[0] == to);
            } else if dx == uy && dy == ux {
                assert(cands[1] == to);
            } else {
                assert(dx == -uy && dy == -ux);
                assert(cands[2] == to);
            }
        } else {
            if dx == 1 {
                assert(cands[0] == to);
            } else if dx == -1 {
                assert(cands[1] == to);
            } else if dy == 1 {
                assert(cands[2] == to);
            } else {
                assert(cands[3] == to);
            }
        }
    } else if (dy == 0 && (dx == 2 || dx == -2)) || (dx == 0 && (dy == 2 || dy == -2)) {
        let between = offset(c, dx / 2, dy / 2);
        assert(m.occupied(between));
        assert(between.in_bounds());
        assert(between != c);
        assert(between == o);
        assert(adj);
        assert(to == offset(c, 2 * ux, 2 * uy));
        assert(cands[3] == to);
    } else {
        assert((dy == 1 || dy == -1) && (dx == 1 || dx == -1));
        let vert = offset(c, 0, dy);
        let hori = offset(c, dx, 0);
        assert(vert.in_bounds() && hori.in_bounds());
        assert(vert != c && hori != c);
        if m.side_step_via(c, vert, to) {
            assert(vert == o);
            assert(ux == 0 && uy == dy);
            let jump = offset(c, 0, 2 * dy);
            assert(m.side_step_allowed(c, vert, to, jump));
            assert(!m.step_allowed(team, jump));
            if dx == uy {
                assert(cands[3] == to);
            } else {
                assert(cands[4] == to);
            }
        } else {
            assert(m.side_step_via(c, hori, to));
            assert(hori == o);
            assert(uy == 0 && ux == dx);
            let jump = offset(c, 2 * dx, 0);
            assert(m.side_step_allowed(c, hori, to, jump));
            assert(!m.step_allowed(team, jump));
            if dy == ux {
                assert(cands[3] == to);
            } else {
                assert(cands[4] == to);
            }
        }
    }
}

/// A player on the board has at most five valid moves: with the other player next
/// to it, three straight steps and either the jump over them or the two diagonals
/// past them; otherwise the four straight steps.
pub proof fn lemma_at_most_five_moves(m: GameMap, team: Team)
    requires
        m.player(team).in_bounds(),
    ensures
        moves_upto(m, team, 81).len() <= 5,
{
    let mv = moves_upto(m, team, 81);
    let cands = move_candidates(m, team);
    lemma_moves_upto_distinct(m, team, 81);
    lemma_moves_upto_allowed(m, team, 81);
    assert forall|x: PCoord| mv.to_set().contains(x) implies cands.to_set().contains(x) by {
        let i = choose|i: int| 0 <= i < mv.len() && mv[i] == x;
        lemma_move_is_candidate(m, team, x);
    }
    mv.unique_seq_to_set();
    cands.lemma_cardinality_of_set();
    vstd::set_lib::lemma_len_subset(mv.to_set(), cands.to_set());
    assert(cands.len() <= 5);
}

/// An allowed placement keeps every step blocked by at most one barricade.
pub proof fn lemma_placement_shares_no_step(m: GameMap, coord: BCoord, team: Team, o: Orientation)
    requires
        m.barricade_grid@.len() == 64,
        no_shared_steps(m.barricade_grid@),
        m.barricade_allowed(coord, o),
    ensures
        no_shared_steps(m.with_barricade(coord, team, o)),
{
    let s1 = m.barricade_grid@;
    let s2 = m.with_barricade(coord, team, o);
    let i = coord.index();
    assert forall|x: int, y: int, o2: Orientation| #[trigger] slot_holds(s2, x, y, o2)
        <==> slot_holds(s1, x, y, o2) || (x == coord.x && y == coord.y && o2 == o) by {
        if 0 <= x < 8 && 0 <= y < 8 {
            if x + y * 8 == i {
                assert(x == coord.x && y == coord.y);
            } else {
                assert(s2[x + y * 8] == s1[x + y * 8]);
            }
        }
    }
    assert forall|x: int, y: int| !(#[trigger] slot_holds(s2, x, y, Orientation::Horizontal)
        && slot_holds(s2, x + 1, y, Orientation::Horizontal)) by {
        assert(!(slot_holds(s1, x, y, Orientation::Horizontal) && slot_holds(s1, x + 1, y, Orientation::Horizontal)));
    }
    assert forall|x: int, y: int| !(#[trigger] slot_holds(s2, x, y, Orientation::Vertical)
        && slot_holds(s2, x, y + 1, Orientation::Vertical)) by {
        assert(!(slot_holds(s1, x, y, Orientation::Vertical) && slot_holds(s1, x, y + 1, Orientation::Vertical)));
    }
}

/// Jumps are allowed: when the other player stands right next to the mover, in a
/// row or a column, no barricade lies across either step, and the cell behind the
/// other player is a free cell of the board, the mover may jump onto it.
pub proof fn lemma_straight_jump_allowed(m: GameMap, team: Team, to: PCoord)
    requires
        m.player(team).in_bounds(),
        ({
            let c = m.player(team);
            let o = m.player(team.rival());
            let dx = o.x - c.x;
            let dy = o.y - c.y;
            &&& (dx == 0 && (dy == 1 || dy == -1)) || (dy == 0 && (dx == 1 || dx == -1))
            &&& to.x == c.x + 2 * dx && to.y == c.y + 2 * dy
            &&& to.in_bounds()
            &&& to != m.red_coord && to != m.blue_coord
            &&& !blocked(m.barricade_grid@, c, o)
            &&& !blocked(m.barricade_grid@, o, to)
        }),
    ensures
        m.step_allowed(team, to),
{
    let c = m.player(team);
    let o = m.player(team.rival());
    let dx = to.x - c.x;
    let dy = to.y - c.y;
    if dy == 0 {
        assert(offset(c, dx / 2, 0) == o);
    } else {
        assert(offset(c, 0, dy / 2) == o);
    }
    assert(m.occupied(o)) by {
        match team {
            Team::Red => {},
            Team::Blue => {},
        }
    }
}

/// Side-steps are allowed: when the other player stands right next to the mover and
/// the straight jump over them is cut off, by the board's edge or by a barricade
/// behind them, the mover may step diagonally past them onto a free cell of the
/// board that lies beside them, as long as no barricade lies across either step of
/// the way through their cell. This holds for a neighbour in the same row as for one
/// in the same column.
pub proof fn lemma_side_step_allowed(m: GameMap, team: Team, to: PCoord)
    requires
        m.player(team).in_bounds(),
        ({
            let c = m.player(team);
            let o = m.player(team.rival());
            let dx = o.x - c.x;
            let dy = o.y - c.y;
            let behind = PCoord { x: (c.x + 2 * dx) as i32, y: (c.y + 2 * dy) as i32 };
            &&& (dx == 0 && (dy == 1 || dy == -1)) || (dy == 0 && (dx == 1 || dx == -1))
            &&& !behind.in_bounds() || blocked(m.barricade_grid@, o, behind)
            &&& (dx == 0 ==> to.y == o.y && (to.x == o.x + 1 || to.x == o.x - 1))
            &&& (dy == 0 ==> to.x == o.x && (to.y == o.y + 1 || to.y == o.y - 1))
            &&& to.in_bounds()
            &&& to != m.red_coord && to != m.blue_coord
            &&& !blocked(m.barricade_grid@, c, o)
            &&& !blocked(m.barricade_grid@, o, to)
        }),
    ensures
        m.step_allowed(team, to),
{
    let c = m.player(team);
    let o = m.player(team.rival());
    let dx = to.x - c.x;
    let dy = to.y - c.y;
    let vert = offset(c, 0, dy);
    let hori = offset(c, dx, 0);
    assert(c != o);
    assert(m.occupied(o)) by {
        match team {
            Team::Red => {},
            Team::Blue => {},
        }
    }
    assert(c == m.red_coord || c == m.blue_coord);
    if o.x == c.x {
        assert(vert == o);
        assert(m.side_step_via(c, vert, to));
        assert(offset(c, 0, 2 * dy) == PCoord { x: (c.x + 2 * (o.x - c.x)) as i32, y: (c.y + 2 * (o.y - c.y)) as i32 });
    } else {
        assert(hori == o);
        assert(vert != o && vert != c && vert.in_bounds());
        assert(!m.occupied(vert));
        assert(!m.side_step_via(c, vert, to));
        assert(m.side_step_via(c, hori, to));
        assert(offset(c, 2 * dx, 0) == PCoord { x: (c.x + 2 * (o.x - c.x)) as i32, y: (c.y + 2 * (o.y - c.y)) as i32 });
    }
}

/// Placements are allowed unless the rules forbid them: a barricade may go into an
/// empty slot of the lattice when no barricade of the same orientation lies next to
/// it along its length (left or right of a horizontal one, above or below a vertical
/// one) and both players can still reach their goal rows with it in place.
/// Barricades of the other orientation in neighbouring slots never stand in the way.
pub proof fn lemma_placement_allowed(m: GameMap, coord: BCoord, team: Team, o: Orientation)
    requires
        m.barricade_grid@.len() == 64,
        coord.in_bounds(),
        m.barricade_grid@[coord.x + coord.y * 8] is None,
        o == Orientation::Horizontal ==> !slot_holds(m.barricade_grid@, coord.x - 1, coord.y as int, o)
            && !slot_holds(m.barricade_grid@, coord.x + 1, coord.y as int, o),
        o == Orientation::Vertical ==> !slot_holds(m.barricade_grid@, coord.x as int, coord.y - 1, o)
            && !slot_holds(m.barricade_grid@, coord.x as int, coord.y + 1, o),
        can_reach_row(m.with_barricade(coord, team, o), m.red_coord, 8),
        can_reach_row(m.with_barricade(coord, team, o), m.blue_coord, 0),
    ensures
        m.barricade_allowed(coord, o),
{
    let s1 = m.with_barricade(coord, team, o);
    let s2 = m.with_barricade(coord, Team::Red, o);
    assert forall|i: int| 0 <= i < 64 implies slot_shape(#[trigger] s1[i]) == slot_shape(s2[i]) by {}
    lemma_grid_edges_same_shape(s1, s2);
}

/// Plain steps are allowed: the mover may step onto a free cell of the board next to
/// it in its row or column when no barricade lies across the step.
pub proof fn lemma_plain_step_allowed(m: GameMap, team: Team, to: PCoord)
    requires
        ({
            let c = m.player(team);
            let dx = to.x - c.x;
            let dy = to.y - c.y;
            &&& (dx == 0 && (dy == 1 || dy == -1)) || (dy == 0 && (dx == 1 || dx == -1))
            &&& to.in_bounds()
            &&& to != m.red_coord && to != m.blue_coord
            &&& !blocked(m.barricade_grid@, c, to)
        }),
    ensures
        m.step_allowed(team, to),
{
}

/// Every allowed move is one of the three kinds: onto a free cell of the board that
/// is either a neighbour in a row or column with no barricade across the step, or
/// reached through the cell of the other player standing next to the mover, two
/// unit steps with no barricade across either, straight on or, when the straight
/// jump is cut off by the edge or a barricade, diagonally past them.
pub proof fn lemma_step_allowed_kinds(m: GameMap, team: Team, to: PCoord)
    requires
        m.player(team).in_bounds(),
        m.step_allowed(team, to),
    ensures
        ({
            let c = m.player(team);
            let o = m.player(team.rival());
            let dx = to.x - c.x;
            let dy = to.y - c.y;
            let ux = o.x - c.x;
            let uy = o.y - c.y;
            let next_to = (ux == 0 && (uy == 1 || uy == -1)) || (uy == 0 && (ux == 1 || ux == -1));
            let behind = PCoord { x: (c.x + 2 * ux) as i32, y: (c.y + 2 * uy) as i32 };
            &&& to.in_bounds()
            &&& to != m.red_coord && to != m.blue_coord
            &&& {
                ||| ((dx == 0 && (dy == 1 || dy == -1)) || (dy == 0 && (dx == 1 || dx == -1))) && !blocked(m.barricade_grid@, c, to)
                ||| next_to && dx == 2 * ux && dy == 2 * uy && !blocked(m.barricade_grid@, c, o) && !blocked(m.barricade_grid@, o, to)
                ||| next_to && (to.x - o.x) * (to.x - o.x) + (to.y - o.y) * (to.y - o.y) == 1
                    && (to.x - o.x) * ux + (to.y - o.y) * uy == 0
                    && !blocked(m.barricade_grid@, c, o) && !blocked(m.barricade_grid@, o, to)
                    && (!behind.in_bounds() || blocked(m.barricade_grid@, o, behind))
            }
        }),
{
    let c = m.player(team);
    let o = m.player(team.rival());
    let dx = to.x - c.x;
    let dy = to.y - c.y;
    assert(c == m.red_coord || c == m.blue_coord);
    assert(o == m.red_coord || o == m.blue_coord);
    if (dy == 0 && (dx == 2 || dx == -2)) || (dx == 0 && (dy == 2 || dy == -2)) {
        let between = offset(c, dx / 2, dy / 2);
        assert(between.in_bounds());
        assert(between != c);
        assert(between == o);
    } else if (dy == 1 || dy == -1) && (dx == 1 || dx == -1) {
        let vert = offset(c, 0, dy);
        let hori = offset(c, dx, 0);
        assert(vert.in_bounds() && hori.in_bounds());
        assert(vert != c && hori != c);
        if m.side_step_via(c, vert, to) {
            assert(vert == o);
            assert(offset(c, 0, 2 * dy) == PCoord { x: (c.x + 2 * (o.x - c.x)) as i32, y: (c.y + 2 * (o.y - c.y)) as i32 });
        } else {
            assert(hori == o);
            assert(offset(c, 2 * dx, 0) == PCoord { x: (c.x + 2 * (o.x - c.x)) as i32, y: (c.y + 2 * (o.y - c.y)) as i32 });
        }
    }
}

/// Every allowed placement is on an empty slot of the lattice, has no barricade of
/// the same orientation next to it along its length, and leaves both players able
/// to reach their goal rows.
pub proof fn lemma_placement_conditions(m: GameMap, coord: BCoord, team: Team, o: Orientation)
    requires
        m.barricade_grid@.len() == 64,
        m.barricade_allowed(coord, o),
    ensures
        coord.in_bounds(),
        m.barricade_grid@[coord.x + coord.y * 8] is None,
        o == Orientation::Horizontal ==> !slot_holds(m.barricade_grid@, coord.x - 1, coord.y as int, o)
            && !slot_holds(m.barricade_grid@, coord.x + 1, coord.y as int, o),
        o == Orientation::Vertical ==> !slot_holds(m.barricade_grid@, coord.x as int, coord.y - 1, o)
            && !slot_holds(m.barricade_grid@, coord.x as int, coord.y + 1, o),
        can_reach_row(m.with_barricade(coord, team, o), m.red_coord, 8),
        can_reach_row(m.with_barricade(coord, team, o), m.blue_coord, 0),
{
    let s1 = m.with_barricade(coord, team, o);
    let s2 = m.with_barricade(coord, Team::Red, o);
    assert forall|i: int| 0 <= i < 64 implies slot_shape(#[trigger] s1[i]) == slot_shape(s2[i]) by {}
    lemma_grid_edges_same_shape(s1, s2);
}
} // verus!
