use vstd::prelude::*;
use crate::bot::Context;
use crate::coord::{BCoord, PCoord};
use crate::map::{GameMap, finish_line, finish_line_of, has_route_to_finish, lemma_barricade_keeps_routes,
    lemma_opening_routes, lemma_step_keeps_routes};
use crate::grid::{count_placed, grid_edges, lemma_count_placed_empty, lemma_count_placed_fill, lemma_edge_count, no_shared_steps, slot_holds};
use crate::types::{Barricade, Orientation, Team};

verus! {

/// What a player does in a turn: move to a cell, or place a barricade into the slot
/// whose coordinates are the given cell's.
#[derive(Clone, Copy, PartialEq, Eq, Structural, Debug)]
pub enum Action {
    Move(PCoord),
    Barricade(PCoord, Orientation),
}

/// The slot named by a cell's coordinates.
pub open spec fn slot_of(p: PCoord) -> BCoord {
    BCoord { x: p.x, y: p.y }
}

/// The rules allow the player of `team`, with `inventory` barricades left, to take
/// `action` on board `m`: a move must be allowed; a barricade needs one in the
/// inventory and an allowed slot.
pub open spec fn action_allowed(m: GameMap, team: Team, inventory: int, action: Action) -> bool {
    match action {
        Action::Move(to) => m.step_allowed(team, to),
        Action::Barricade(p, o) => inventory > 0 && m.barricade_allowed(slot_of(p), o),
    }
}

/// A player and the number of barricades it still has.
#[derive(Clone, Copy, Debug)]
pub struct Player {
    team: Team,
    inventory: usize,
}

impl Player {
    pub closed spec fn spec_team(&self) -> Team {
        self.team
    }

    pub closed spec fn spec_inventory(&self) -> nat {
        self.inventory as nat
    }

    /// A player of `team` with ten barricades.
    pub fn new(team: Team) -> (r: Player)
        ensures
            r.spec_team() == team,
            r.spec_inventory() == 10,
    {
        Player { team, inventory: 10 }
    }

    /// The player's team.
    pub fn team(&self) -> (r: Team)
        ensures
            r == self.spec_team(),
    {
        self.team
    }

    /// How many barricades the player still has.
    pub fn inventory(&self) -> (r: usize)
        ensures
            r == self.spec_inventory(),
    {
        self.inventory
    }
}

/// A running game: the board and the two players.
pub struct Game {
    map: GameMap,
    red_player: Player,
    blue_player: Player,
}

/// The team whose turn it is: red on even turns, blue on odd ones.
pub open spec fn team_of_turn(turn: nat) -> Team {
    if turn % 2 == 0 { Team::Red } else { Team::Blue }
}

/// The team whose turn `turn` is.
pub fn team_for_turn(turn: usize) -> (r: Team)
    ensures
        r == team_of_turn(turn as nat),
{
    if turn % 2 == 0 { Team::Red } else { Team::Blue }
}

/// The ASCII code of `c` lowered to a small letter.
pub open spec fn lower_code(c: char) -> u32 {
    if 'A' as u32 <= c as u32 <= 'Z' as u32 { (c as u32 + 32) as u32 } else { c as u32 }
}

fn code_of(c: char) -> (r: u32)
    ensures
        r == c as u32,
        r <= 0x10FFFF,
{
    c as u32
}

fn lower(c: char) -> (r: u32)
    ensures
        r == lower_code(c),
        r <= 0x10FFFF,
{
    let code = c as u32;
    if 65 <= code && code <= 90 { code + 32 } else { code }
}

/// Reads a command of the form `<letter><column><row>`, as in `me5`, `vc3` or `hD7`:
/// `m` moves, `v` and `h` place a vertical or horizontal barricade; the column is a
/// letter counted from `a` (either case), the row a digit counted from `1`. Further
/// characters are ignored; `None` when there are fewer than three characters or the
/// command letter is unknown.
pub fn parse_command(chars: &[char]) -> (r: Option<Action>)
    ensures
        chars@.len() < 3 ==> r is None,
        chars@.len() >= 3 ==> {
            let coord = PCoord {
                x: (lower_code(chars@[1]) as int - 97) as i32,
                y: (chars@[2] as u32 as int - 49) as i32,
            };
            let cmd = lower_code(chars@[0]);
            r == if cmd == 109 {
                Some(Action::Move(coord))
            } else if cmd == 118 {
                Some(Action::Barricade(coord, Orientation::Vertical))
            } else if cmd == 104 {
                Some(Action::Barricade(coord, Orientation::Horizontal))
            } else {
                None
            }
        },
{
    if chars.len() < 3 {
        return None;
    }
    let cmd = lower(chars[0]);
    let x = lower(chars[1]) as i32 - 97;
    let y = code_of(chars[2]) as i32 - 49;
    let coord = PCoord::new(x, y);
    if cmd == 109 {
        Some(Action::Move(coord))
    } else if cmd == 118 {
        Some(Action::Barricade(coord, Orientation::Vertical))
    } else if cmd == 104 {
        Some(Action::Barricade(coord, Orientation::Horizontal))
    } else {
        None
    }
}

impl Game {
    /// Both players stand on the board and can still reach their finish lines, and
    /// each player record belongs to its team.
    #[verifier::type_invariant]
    spec fn well_formed(self) -> bool {
        &&& self.map.players_on_board()
        &&& has_route_to_finish(self.map, Team::Red)
        &&& has_route_to_finish(self.map, Team::Blue)
        &&& self.red_player.team == Team::Red
        &&& self.blue_player.team == Team::Blue
        &&& count_placed(self.map.barricade_grid@) + self.red_player.inventory + self.blue_player.inventory == 20
        &&& self.red_player.inventory <= 10
        &&& self.blue_player.inventory <= 10
        &&& no_shared_steps(self.map.barricade_grid@)
    }

    /// The board.
    pub closed spec fn spec_map(&self) -> GameMap {
        self.map
    }

    /// How many barricades the player of `team` still has.
    pub closed spec fn spec_inventory(&self, team: Team) -> nat {
        match team {
            Team::Red => self.red_player.inventory as nat,
            Team::Blue => self.blue_player.inventory as nat,
        }
    }

    /// The opening position: red at (4, 0), blue at (4, 8), no barricades, ten
    /// barricades each.
    pub fn new() -> (r: Game)
        ensures
            r.spec_map().red_coord == (PCoord { x: 4, y: 0 }),
            r.spec_map().blue_coord == (PCoord { x: 4, y: 8 }),
            forall|i: int| 0 <= i < 64 ==> r.spec_map().barricade_grid@[i] is None,
            r.spec_inventory(Team::Red) == 10,
            r.spec_inventory(Team::Blue) == 10,
    {
        let red_player = Player::new(Team::Red);
        let blue_player = Player::new(Team::Blue);
        let map = GameMap::new(PCoord::new(4, 0), PCoord::new(4, 8));
        proof {
            lemma_opening_routes(map);
            map.barricade_grid.lemma_len();
            lemma_count_placed_empty(map.barricade_grid@);
            assert forall|x: int, y: int, o: Orientation| !slot_holds(map.barricade_grid@, x, y, o) by {}
        }
        Game { map, red_player, blue_player }
    }

    /// The board; both players stand on it and can still reach their finish lines,
    /// and no step is blocked by two barricades, so its navigation graph has 144 edges
    /// less two per barricade.
    pub fn map(&self) -> (r: &GameMap)
        ensures
            *r == self.spec_map(),
            r.players_on_board(),
            has_route_to_finish(*r, Team::Red),
            has_route_to_finish(*r, Team::Blue),
            count_placed(r.barricade_grid@) + self.spec_inventory(Team::Red) + self.spec_inventory(Team::Blue) == 20,
            no_shared_steps(r.barricade_grid@),
            grid_edges(r.barricade_grid@).len() == 144 - 2 * count_placed(r.barricade_grid@),
    {
        proof {
            use_type_invariant(self);
            self.map.barricade_grid.lemma_len();
            lemma_edge_count(self.map.barricade_grid@);
        }
        &self.map
    }

    /// How many barricades the player of `team` still has: never more than the ten
    /// it started with.
    pub fn inventory(&self, team: Team) -> (r: usize)
        ensures
            r == self.spec_inventory(team),
            r <= 10,
    {
        proof {
            use_type_invariant(self);
        }
        match team {
            Team::Red => self.red_player.inventory,
            Team::Blue => self.blue_player.inventory,
        }
    }

    /// What the bot of `team` sees: the board, both inventories, the teams and the
    /// finish lines.
    pub fn context_for(&self, team: Team) -> (r: Context)
        ensures
            r.map == self.spec_map(),
            r.inventory == self.spec_inventory(team),
            r.enemy_inventory == self.spec_inventory(team.rival()),
            r.team == team,
            r.enemy_team == team.rival(),
            r.finish_line@ == finish_line(team),
            r.enemy_finish_line@ == finish_line(team.rival()),
    {
        let enemy = team.opponent();
        Context::new(
            self.map,
            self.inventory(team),
            self.inventory(enemy),
            team,
            enemy,
            finish_line_of(team),
            finish_line_of(enemy),
        )
    }

    /// The winner, if any: blue once it stands on row 0 (checked first), red once it
    /// stands on row 8.
    pub fn winner(&self) -> (r: Option<Team>)
        ensures
            r == (if self.spec_map().blue_coord.y == 0 {
                Some(Team::Blue)
            } else if self.spec_map().red_coord.y == 8 {
                Some(Team::Red)
            } else {
                None
            }),
    {
        if self.map.blue_coord.y == 0 {
            Some(Team::Blue)
        } else if self.map.red_coord.y == 8 {
            Some(Team::Red)
        } else {
            None
        }
    }

    /// Carries out `action` for `team` when the rules allow it and reports whether it
    /// did: a move must be allowed; a barricade needs one left in the player's
    /// inventory and an allowed slot, and uses one up. A refused action changes nothing.
    pub fn apply_action(&mut self, team: Team, action: Action) -> (ok: bool)
        ensures
            ok == action_allowed(old(self).spec_map(), team, old(self).spec_inventory(team) as int, action),
            match action {
                Action::Move(to) => {
                    &&& ok == old(self).spec_map().step_allowed(team, to)
                    &&& ok ==> final(self).spec_map().player(team) == to
                        && final(self).spec_map().player(team.rival()) == old(self).spec_map().player(team.rival())
                        && final(self).spec_map().barricade_grid == old(self).spec_map().barricade_grid
                    &&& final(self).spec_inventory(Team::Red) == old(self).spec_inventory(Team::Red)
                    &&& final(self).spec_inventory(Team::Blue) == old(self).spec_inventory(Team::Blue)
                },
                Action::Barricade(p, o) => {
                    &&& ok == (old(self).spec_inventory(team) > 0 && old(self).spec_map().barricade_allowed(slot_of(p), o))
                    &&& ok ==> final(self).spec_map().barricade_grid@ == old(self).spec_map().with_barricade(slot_of(p), team, o)
                        && final(self).spec_map().red_coord == old(self).spec_map().red_coord
                        && final(self).spec_map().blue_coord == old(self).spec_map().blue_coord
                        && final(self).spec_inventory(team) == old(self).spec_inventory(team) - 1
                        && final(self).spec_inventory(team.rival()) == old(self).spec_inventory(team.rival())
                },
            },
            !ok ==> final(self).spec_map() == old(self).spec_map()
                && final(self).spec_inventory(Team::Red) == old(self).spec_inventory(Team::Red)
                && final(self).spec_inventory(Team::Blue) == old(self).spec_inventory(Team::Blue),
    {
        proof {
            use_type_invariant(&*self);
        }
        let mut map = self.map;
        match action {
            Action::Move(to) => {
                let ok = map.try_step(team, to).is_ok();
                if ok {
                    proof {
                        lemma_step_keeps_routes(self.map, map, team, to);
                    }
                    self.map = map;
                }
                ok
            },
            Action::Barricade(p, orientation) => {
                let has_one = match team {
                    Team::Red => self.red_player.inventory > 0,
                    Team::Blue => self.blue_player.inventory > 0,
                };
                if !has_one {
                    return false;
                }
                let slot = p.to_bcoord();
                let ok = map.try_place_barricade(team, slot, orientation).is_ok();
                if ok {
                    proof {
                        lemma_barricade_keeps_routes(self.map, map, team, slot, orientation);
                        self.map.barricade_grid.lemma_len();
                        lemma_count_placed_fill(self.map.barricade_grid@, slot.index(), Barricade { team, orientation });
                        crate::map::lemma_placement_shares_no_step(self.map, slot, team, orientation);
                    }
                    let red = self.red_player;
                    let blue = self.blue_player;
                    match team {
                        Team::Red => {
                            *self = Game {
                                map,
                                red_player: Player { team: Team::Red, inventory: red.inventory - 1 },
                                blue_player: blue,
                            };
                        },
                        Team::Blue => {
                            *self = Game {
                                map,
                                red_player: red,
                                blue_player: Player { team: Team::Blue, inventory: blue.inventory - 1 },
                            };
                        },
                    }
                }
                ok
            },
        }
    }
}

} // verus!
