use vstd::prelude::*;
use crate::coord::{BCoord, PCoord};
use crate::game::{Action, action_allowed, slot_of};
use crate::graph::{astar_route, cells_of, node_of};
use crate::grid::{grid_edges, homotopy_entry, homotopy_search, grid_rays, target_nodes};
use crate::map::{GameMap, barricades_upto, can_reach_row, finish_line, goal_row, has_route_to_finish, moves_upto};
use crate::path::{BlockadeMetrics, Path, blockability_of, first_fork};
use crate::types::{Barricade, Orientation, Team};

verus! {

/// What a bot sees when it is its turn.
pub struct Context {
    pub map: GameMap,
    pub inventory: usize,
    pub enemy_inventory: usize,
    pub team: Team,
    pub enemy_team: Team,
    pub finish_line: Vec<PCoord>,
    pub enemy_finish_line: Vec<PCoord>,
}

impl Context {
    /// A context from its parts.
    pub fn new(
        map: GameMap,
        inventory: usize,
        enemy_inventory: usize,
        team: Team,
        enemy_team: Team,
        finish_line: Vec<PCoord>,
        enemy_finish_line: Vec<PCoord>,
    ) -> (r: Context)
        ensures
            r.map == map,
            r.inventory == inventory,
            r.enemy_inventory == enemy_inventory,
            r.team == team,
            r.enemy_team == enemy_team,
            r.finish_line@ == finish_line@,
            r.enemy_finish_line@ == enemy_finish_line@,
    {
        Context { map, inventory, enemy_inventory, team, enemy_team, finish_line, enemy_finish_line }
    }
}

/// The game would accept `action` from the player of `context.team`.
pub open spec fn legal_action(context: Context, action: Action) -> bool {
    action_allowed(context.map, context.team, context.inventory as int, action)
}

/// A player of the game.
pub trait Bot {
    /// The action the bot takes in a context where it can decide; the game accepts it.
    fn get_action(&mut self, context: Context) -> (action: Action)
        requires
            bot_can_decide(context),
        ensures
            legal_action(context, action),
    ;
}

} // verus!

verus! {

/// The number of cells on the route A* search finds for the player of `team`,
/// standing at `from`, to its finish line on the lattice `slots` (`0` without one).
pub open spec fn route_len(slots: Seq<Option<Barricade>>, from: PCoord, team: Team) -> int {
    way_len(slots, from, finish_line(team))
}

/// The number of cells on the route A* search finds from `from` to one of `finish`
/// on the lattice `slots` (`0` without one).
pub open spec fn way_len(slots: Seq<Option<Barricade>>, from: PCoord, finish: Seq<PCoord>) -> int {
    match astar_route(grid_edges(slots), node_of(from), finish) {
        Some(p) => p.len() as int,
        None => 0,
    }
}

/// How far ahead `team` is in the race on lattice `slots`: the enemy's route length
/// minus its own.
pub open spec fn race_rating(m: GameMap, slots: Seq<Option<Barricade>>, team: Team, enemy: Team) -> int {
    route_len(slots, m.player(enemy), enemy) - route_len(slots, m.player(team), team)
}

/// The race rating after the bot's team places barricade `b`.
pub open spec fn barricade_rating(ctx: Context, b: (BCoord, Orientation)) -> int {
    race_rating(ctx.map, ctx.map.with_barricade(b.0, ctx.team, b.1), ctx.team, ctx.enemy_team)
}

/// The contexts in which the race with barricades can be rated: both players stand
/// on the board and can reach their finish lines, and some barricade can be placed.
pub open spec fn race_ready(ctx: Context) -> bool {
    &&& ctx.map.players_on_board()
    &&& has_route_to_finish(ctx.map, ctx.team)
    &&& has_route_to_finish(ctx.map, ctx.enemy_team)
    &&& barricades_upto(ctx.map, 64).len() > 0
}

/// The bot has a barricade left and placing some valid barricade would put it
/// further ahead in the race than it is now.
pub open spec fn races(ctx: Context) -> bool {
    let vb = barricades_upto(ctx.map, 64);
    &&& ctx.inventory > 0
    &&& exists|j: int| 0 <= j < vb.len()
        && #[trigger] barricade_rating(ctx, vb[j]) > race_rating(ctx.map, ctx.map.barricade_grid@, ctx.team, ctx.enemy_team)
}

/// The contexts in which a bot is asked to decide: the race can be rated, and when
/// no barricade wins it, the bot's player can move and stands neither on its goal
/// row nor on a cell of the context's finish line.
pub open spec fn bot_can_decide(ctx: Context) -> bool {
    &&& race_ready(ctx)
    &&& !races(ctx) ==> {
        &&& moves_upto(ctx.map, ctx.team, 81).len() > 0
        &&& ctx.map.player(ctx.team).y != goal_row(ctx.team)
        &&& !target_nodes(ctx.finish_line@).contains(node_of(ctx.map.player(ctx.team)))
    }
}

/// Whether the player of `team` can still walk to its finish line.
fn route_exists(map: &GameMap, team: Team) -> (r: bool)
    requires
        map.players_on_board(),
    ensures
        r == has_route_to_finish(*map, team),
{
    let graph = map.barricade_grid.get_navgraph();
    let c = map.get_player_coord(team);
    let row: i32 = match team {
        Team::Red => 8,
        Team::Blue => 0,
    };
    proof {
        map.barricade_grid.lemma_len();
        crate::coord::lemma_pcoord_index_roundtrip(c, 0);
        crate::map::lemma_row_iff_route(map.barricade_grid@, c, team);
    }
    let r = graph.can_reach_y_level(c, row);
    proof {
        assert(r == can_reach_row(map.barricade_grid@, c, goal_row(team)));
    }
    r
}

/// Whether a bot may be asked to decide in `ctx` (see [`bot_can_decide`]).
pub fn can_decide(ctx: &Context) -> (r: bool)
    ensures
        r == bot_can_decide(*ctx),
{
    if !ctx.map.red_coord.is_in_bounds() || !ctx.map.blue_coord.is_in_bounds() {
        return false;
    }
    if !route_exists(&ctx.map, ctx.team) || !route_exists(&ctx.map, ctx.enemy_team) {
        return false;
    }
    let valid = ctx.map.find_valid_barricades();
    if valid.len() == 0 {
        return false;
    }
    let path = ctx.map.find_shortest_path_to_win(ctx.team);
    let enemy_path = ctx.map.find_shortest_path_to_win(ctx.enemy_team);
    let current_rating: i128 = enemy_path.len() as i128 - path.len() as i128;
    assert(current_rating == race_rating(ctx.map, ctx.map.barricade_grid@, ctx.team, ctx.enemy_team));
    let (best, best_rating) = best_barricade(ctx, &valid);
    if ctx.inventory > 0 && best_rating > current_rating {
        assert(barricade_rating(*ctx, valid@[best as int]) > race_rating(ctx.map, ctx.map.barricade_grid@, ctx.team, ctx.enemy_team));
        return true;
    }
    assert(!races(*ctx));
    let moves = ctx.map.find_valid_moves(ctx.team);
    if moves.len() == 0 {
        return false;
    }
    let own = ctx.map.get_player_coord(ctx.team);
    let row: i32 = match ctx.team {
        Team::Red => 8,
        Team::Blue => 0,
    };
    if own.y == row {
        return false;
    }
    let own_index = own.to_index();
    let mut i: usize = 0;
    while i < ctx.finish_line.len()
        invariant
            i <= ctx.finish_line@.len(),
            own_index == node_of(own),
            own == ctx.map.player(ctx.team),
            race_ready(*ctx),
            !races(*ctx),
            moves_upto(ctx.map, ctx.team, 81).len() > 0,
            ctx.map.player(ctx.team).y != goal_row(ctx.team),
            forall|t: int| 0 <= t < i ==> target_nodes(ctx.finish_line@)[t] != own_index,
        decreases ctx.finish_line@.len() - i,
    {
        if ctx.finish_line[i].to_index() == own_index {
            assert(target_nodes(ctx.finish_line@)[i as int] == own_index);
            return false;
        }
        i = i + 1;
    }
    true
}

/// A bot that places the barricade that most lengthens the enemy's way compared with
/// its own when that beats the current race, and otherwise walks a path that no
/// single barricade can push into another homotopy class.
pub struct EnemyPathMaximizerBot;

/// A bot that walks the first path it finds.
pub struct RandomBot;

/// The valid barricade with the best rating, the last among equals, and its rating.
fn best_barricade(ctx: &Context, valid: &Vec<(BCoord, Orientation)>) -> (r: (usize, i128))
    requires
        race_ready(*ctx),
        valid@ == barricades_upto(ctx.map, 64),
    ensures
        r.0 < valid@.len(),
        r.1 == barricade_rating(*ctx, valid@[r.0 as int]),
        forall|j: int| 0 <= j < valid@.len() ==> barricade_rating(*ctx, #[trigger] valid@[j]) <= r.1,
        forall|j: int| r.0 < j < valid@.len() ==> barricade_rating(*ctx, #[trigger] valid@[j]) < r.1,
{
    proof {
        crate::map::lemma_barricades_upto_allowed(ctx.map, 64);
    }
    let mut best: usize = 0;
    let mut best_rating: i128 = 0;
    let mut i: usize = 0;
    while i < valid.len()
        invariant
            race_ready(*ctx),
            valid@ == barricades_upto(ctx.map, 64),
            forall|t: int| 0 <= t < valid@.len() ==> {
                let b = #[trigger] valid@[t];
                ctx.map.barricade_allowed(b.0, b.1)
            },
            i <= valid@.len(),
            i > 0 ==> best < i && best_rating == barricade_rating(*ctx, valid@[best as int]),
            forall|j: int| 0 <= j < i ==> barricade_rating(*ctx, #[trigger] valid@[j]) <= best_rating,
            forall|j: int| best < j < i ==> barricade_rating(*ctx, #[trigger] valid@[j]) < best_rating,
        decreases valid@.len() - i,
    {
        let (coord, orientation) = valid[i];
        assert(valid@[i as int] == (coord, orientation));
        let mut test_map = ctx.map;
        let placed = test_map.try_place_barricade(ctx.team, coord, orientation);
        proof {
            crate::map::lemma_barricade_keeps_routes(ctx.map, test_map, ctx.team, coord, orientation);
            assert(has_route_to_finish(test_map, ctx.team)) by {
                match ctx.team { Team::Red => {}, Team::Blue => {} }
            }
            assert(has_route_to_finish(test_map, ctx.enemy_team)) by {
                match ctx.enemy_team { Team::Red => {}, Team::Blue => {} }
            }
            assert(test_map.player(ctx.team) == ctx.map.player(ctx.team));
            assert(test_map.player(ctx.enemy_team) == ctx.map.player(ctx.enemy_team));
        }
        let own = test_map.find_shortest_path_to_win(ctx.team);
        let enemy = test_map.find_shortest_path_to_win(ctx.enemy_team);
        let rating: i128 = enemy.len() as i128 - own.len() as i128;
        assert(rating == barricade_rating(*ctx, valid@[i as int]));
        if i == 0 || rating >= best_rating {
            best = i;
            best_rating = rating;
        }
        i = i + 1;
    }
    (best, best_rating)
}

/// Entry `i` of `moves` is the first with the shortest way on to the context's
/// finish line (counting `0` for a cell with none).
pub open spec fn is_closest(ctx: Context, moves: Seq<PCoord>, i: int) -> bool {
    let slots = ctx.map.barricade_grid@;
    let fl = ctx.finish_line@;
    &&& 0 <= i < moves.len()
    &&& forall|j: int| 0 <= j < moves.len() ==> way_len(slots, moves[i], fl) <= way_len(slots, #[trigger] moves[j], fl)
    &&& forall|j: int| 0 <= j < i ==> way_len(slots, moves[i], fl) < way_len(slots, #[trigger] moves[j], fl)
}

/// The first of `moves` with the shortest way on to the context's finish line.
pub open spec fn closest_of(ctx: Context, moves: Seq<PCoord>) -> PCoord {
    moves[choose|i: int| is_closest(ctx, moves, i)]
}

proof fn lemma_closest_unique(ctx: Context, moves: Seq<PCoord>, i: int, j: int)
    requires
        is_closest(ctx, moves, i),
        is_closest(ctx, moves, j),
    ensures
        i == j,
{
    let slots = ctx.map.barricade_grid@;
    let fl = ctx.finish_line@;
    if i < j {
        assert(way_len(slots, moves[j], fl) < way_len(slots, moves[i], fl));
    } else if j < i {
        assert(way_len(slots, moves[i], fl) < way_len(slots, moves[j], fl));
    }
}

/// Among `moves`, the first with the shortest way on to the finish line (counting
/// `0` for a cell with none).
fn closest_move(ctx: &Context, moves: &Vec<PCoord>) -> (r: PCoord)
    requires
        moves@.len() > 0,
    ensures
        r == closest_of(*ctx, moves@),
        exists|i: int| is_closest(*ctx, moves@, i) && r == moves@[i],
{
    let navgraph = ctx.map.barricade_grid.get_navgraph();
    let ghost slots = ctx.map.barricade_grid@;
    let ghost fl = ctx.finish_line@;
    let mut best: usize = 0;
    let mut best_len: usize = 0;
    let mut i: usize = 0;
    while i < moves.len()
        invariant
            moves@.len() > 0,
            i <= moves@.len(),
            best < moves@.len(),
            navgraph.bound() == 81,
            navgraph.edges() == grid_edges(slots),
            slots == ctx.map.barricade_grid@,
            fl == ctx.finish_line@,
            i > 0 ==> best < i && best_len == way_len(slots, moves@[best as int], fl),
            forall|j: int| 0 <= j < i ==> best_len <= way_len(slots, #[trigger] moves@[j], fl),
            forall|j: int| 0 <= j < best ==> best_len < way_len(slots, #[trigger] moves@[j], fl),
        decreases moves@.len() - i,
    {
        let len = match navgraph.find_shortest_path(moves[i], ctx.finish_line.as_slice()) {
            Some(p) => p.len(),
            None => 0,
        };
        assert(len == way_len(slots, moves@[i as int], fl));
        if i == 0 || len < best_len {
            best = i;
            best_len = len;
        }
        i = i + 1;
    }
    proof {
        assert(is_closest(*ctx, moves@, best as int));
        let k = choose|k: int| is_closest(*ctx, moves@, k);
        lemma_closest_unique(*ctx, moves@, best as int, k);
    }
    moves[best]
}

/// Entry `i` of `moves` is the first that lies on `path`.
pub open spec fn is_first_on(moves: Seq<PCoord>, path: Seq<PCoord>, i: int) -> bool {
    &&& 0 <= i < moves.len()
    &&& path.contains(moves[i])
    &&& forall|t: int| 0 <= t < i ==> !path.contains(#[trigger] moves[t])
}

/// The first of `moves` that lies on `path`, if any does.
pub open spec fn first_on_path(moves: Seq<PCoord>, path: Seq<PCoord>) -> Option<PCoord> {
    if exists|i: int| is_first_on(moves, path, i) {
        Some(moves[choose|i: int| is_first_on(moves, path, i)])
    } else {
        None
    }
}

proof fn lemma_first_on_unique(moves: Seq<PCoord>, path: Seq<PCoord>, i: int, j: int)
    requires
        is_first_on(moves, path, i),
        is_first_on(moves, path, j),
    ensures
        i == j,
{
    if i < j {
        assert(!path.contains(moves[i]));
    } else if j < i {
        assert(!path.contains(moves[j]));
    }
}

/// The first of `moves` that lies on `path`.
fn first_move_on(moves: &Vec<PCoord>, path: &Path) -> (r: Option<PCoord>)
    ensures
        r == first_on_path(moves@, path@),
{
    let mut i: usize = 0;
    while i < moves.len()
        invariant
            i <= moves@.len(),
            forall|t: int| 0 <= t < i ==> !path@.contains(#[trigger] moves@[t]),
        decreases moves@.len() - i,
    {
        let c = moves[i];
        let mut j: usize = 0;
        while j < path.len()
            invariant
                j <= path@.len(),
                i < moves@.len(),
                c == moves@[i as int],
                forall|t: int| 0 <= t < j ==> path@[t] != c,
                forall|t: int| 0 <= t < i ==> !path@.contains(#[trigger] moves@[t]),
            decreases path@.len() - j,
        {
            if path.at(j) == c {
                proof {
                    assert(path@.contains(c));
                    assert(is_first_on(moves@, path@, i as int));
                    let k = choose|k: int| is_first_on(moves@, path@, k);
                    lemma_first_on_unique(moves@, path@, i as int, k);
                }
                return Some(c);
            }
            j = j + 1;
        }
        i = i + 1;
    }
    assert(!exists|k: int| is_first_on(moves@, path@, k));
    None
}

} // verus!

verus! {

/// The move toward `step`, the next cell of `path`, when the bot's player may step
/// there; else the first valid move that lies on `path`; else the valid move with
/// the shortest way on to the context's finish line.
pub open spec fn follow_choice(ctx: Context, path: Seq<PCoord>, step: PCoord) -> Action {
    if ctx.map.step_allowed(ctx.team, step) {
        Action::Move(step)
    } else {
        let valid = moves_upto(ctx.map, ctx.team, 81);
        match first_on_path(valid, path) {
            Some(c) => Action::Move(c),
            None => Action::Move(closest_of(ctx, valid)),
        }
    }
}

/// The move to `step` when the bot's player may step there; else the valid move with
/// the shortest way on to the context's finish line.
pub open spec fn step_or_closest(ctx: Context, step: PCoord) -> Action {
    if ctx.map.step_allowed(ctx.team, step) {
        Action::Move(step)
    } else {
        Action::Move(closest_of(ctx, moves_upto(ctx.map, ctx.team, 81)))
    }
}

/// Step to `step` if allowed; else to the valid move closest to the finish line.
fn step_or_closest_move(ctx: &Context, step: PCoord) -> (r: Action)
    requires
        bot_can_decide(*ctx),
        !races(*ctx),
    ensures
        r == step_or_closest(*ctx, step),
        legal_action(*ctx, r),
{
    if ctx.map.can_step(ctx.team, step) {
        return Action::Move(step);
    }
    let valid_moves = ctx.map.find_valid_moves(ctx.team);
    proof {
        crate::map::lemma_moves_upto_allowed(ctx.map, ctx.team, 81);
    }
    let best_coord = closest_move(ctx, &valid_moves);
    proof {
        let i = choose|i: int| is_closest(*ctx, valid_moves@, i);
        assert(ctx.map.step_allowed(ctx.team, valid_moves@[i]));
    }
    Action::Move(best_coord)
}

/// Walk along `path` if its second cell can be stepped on; else to the first valid
/// move on it; else to the valid move closest to the finish line.
fn follow_path(ctx: &Context, path: &Path, step: PCoord) -> (r: Action)
    requires
        bot_can_decide(*ctx),
        !races(*ctx),
    ensures
        r == follow_choice(*ctx, path@, step),
        legal_action(*ctx, r),
        r is Move,
{
    if ctx.map.can_step(ctx.team, step) {
        return Action::Move(step);
    }
    let valid_moves = ctx.map.find_valid_moves(ctx.team);
    proof {
        crate::map::lemma_moves_upto_allowed(ctx.map, ctx.team, 81);
    }
    match first_move_on(&valid_moves, path) {
        Some(valid_step) => {
            proof {
                let i = choose|i: int| is_first_on(valid_moves@, path@, i);
                assert(ctx.map.step_allowed(ctx.team, valid_moves@[i]));
            }
            Action::Move(valid_step)
        },
        None => {
            let best_coord = closest_move(ctx, &valid_moves);
            proof {
                let i = choose|i: int| is_closest(*ctx, valid_moves@, i);
                assert(ctx.map.step_allowed(ctx.team, valid_moves@[i]));
            }
            Action::Move(best_coord)
        },
    }
}

/// Path `i` of the search cannot be pushed into another homotopy class by a single
/// barricade.
pub open spec fn is_stable(ms: Seq<Option<BlockadeMetrics>>, i: int) -> bool {
    !(ms[i] matches Some(m) && m.is_proper_detour)
}

/// The length of path `i` plus the length of the way on after its strongest
/// blockade (`0` without one).
pub open spec fn stable_score(ps: Seq<Path>, ms: Seq<Option<BlockadeMetrics>>, i: int) -> int {
    ps[i]@.len() + match ms[i] {
        Some(m) => m.length_increase as int,
        None => 0,
    }
}

/// Path `i` is the first stable path with the least score.
pub open spec fn is_best_stable(ps: Seq<Path>, ms: Seq<Option<BlockadeMetrics>>, i: int) -> bool {
    &&& 0 <= i < ps.len()
    &&& is_stable(ms, i)
    &&& forall|j: int| 0 <= j < ps.len() && #[trigger] is_stable(ms, j) ==> stable_score(ps, ms, i) <= stable_score(ps, ms, j)
    &&& forall|j: int| 0 <= j < i && #[trigger] is_stable(ms, j) ==> stable_score(ps, ms, i) < stable_score(ps, ms, j)
}

/// Path `i` is the last with the greatest length plus the length of the way on
/// after its strongest blockade.
pub open spec fn is_most_blockable(ps: Seq<Path>, ms: Seq<Option<BlockadeMetrics>>, i: int) -> bool {
    &&& 0 <= i < ps.len()
    &&& forall|j: int| 0 <= j < ps.len() ==> #[trigger] stable_score(ps, ms, j) <= stable_score(ps, ms, i)
    &&& forall|j: int| i < j < ps.len() ==> #[trigger] stable_score(ps, ms, j) < stable_score(ps, ms, i)
}

/// `ms` holds the strongest blockade against each of the paths `ps`.
pub open spec fn blockades_of(ctx: Context, ps: Seq<Path>, ms: Seq<Option<BlockadeMetrics>>) -> bool {
    &&& ms.len() == ps.len()
    &&& forall|i: int| 0 <= i < ps.len() ==> blockability_of(ctx.map, (#[trigger] ps[i])@, ctx.finish_line@, ms[i])
}

/// What the path-maximizing bot does when it does not race with a barricade, given
/// the paths `ps` of the homotopy search and their strongest blockades `ms`: follow
/// the best stable path; without one, at the paths' first fork and with a barricade
/// left, place the strongest blockade of the path it lengthens most; else step along
/// the shortest route to its goal row, or to the closest valid move where that step
/// is not allowed.
pub open spec fn path_stage(ctx: Context, ps: Seq<Path>, ms: Seq<Option<BlockadeMetrics>>) -> Action {
    let coord = ctx.map.player(ctx.team);
    if exists|i: int| is_best_stable(ps, ms, i) {
        let i = choose|i: int| is_best_stable(ps, ms, i);
        follow_choice(ctx, ps[i]@, ps[i]@[1])
    } else if first_fork(ps) == Some(coord) && ctx.inventory > 0 {
        let b = ms[choose|i: int| is_most_blockable(ps, ms, i)]->0.barricade;
        Action::Barricade(PCoord { x: b.0.x, y: b.0.y }, b.1)
    } else {
        let route = cells_of(astar_route(grid_edges(ctx.map.barricade_grid@), node_of(coord), finish_line(ctx.team))->0);
        step_or_closest(ctx, route[1])
    }
}

proof fn lemma_best_stable_unique(ps: Seq<Path>, ms: Seq<Option<BlockadeMetrics>>, i: int, j: int)
    requires
        is_best_stable(ps, ms, i),
        is_best_stable(ps, ms, j),
    ensures
        i == j,
{
    if i < j {
        assert(is_stable(ms, i));
    } else if j < i {
        assert(is_stable(ms, j));
    }
}

proof fn lemma_most_blockable_unique(ps: Seq<Path>, ms: Seq<Option<BlockadeMetrics>>, i: int, j: int)
    requires
        is_most_blockable(ps, ms, i),
        is_most_blockable(ps, ms, j),
    ensures
        i == j,
{
    if i < j {
        assert(stable_score(ps, ms, j) < stable_score(ps, ms, i));
        assert(stable_score(ps, ms, i) <= stable_score(ps, ms, j));
    } else if j < i {
        assert(stable_score(ps, ms, i) < stable_score(ps, ms, j));
        assert(stable_score(ps, ms, j) <= stable_score(ps, ms, i));
    }
}

impl Bot for EnemyPathMaximizerBot {
    /// First the race: when placing the best-rated valid barricade (the last among
    /// equals) would put the bot further ahead than it is now, and it has one left,
    /// it places that barricade. Otherwise it looks at the paths of
    /// [`BarricadeGrid::find_paths`](crate::grid::BarricadeGrid::find_paths) from
    /// its finish line to its player: it follows the stable one (no single barricade
    /// forces a detour of another homotopy class) with the least path length plus
    /// blockade length; without one, standing at the paths' first fork with a
    /// barricade left, it places the barricade that lengthens the longest path most;
    /// else it walks its shortest route. A blocked step on the stable path falls back
    /// to a valid move on that path, then to the valid move closest to the finish; a
    /// blocked step on the shortest route goes straight to the closest valid move.
    fn get_action(&mut self, ctx: Context) -> (action: Action)
        ensures
            ({
                let vb = barricades_upto(ctx.map, 64);
                exists|k: int| {
                    &&& 0 <= k < vb.len()
                    &&& forall|j: int| 0 <= j < vb.len() ==> barricade_rating(ctx, #[trigger] vb[j]) <= barricade_rating(ctx, vb[k])
                    &&& forall|j: int| k < j < vb.len() ==> barricade_rating(ctx, #[trigger] vb[j]) < barricade_rating(ctx, vb[k])
                    &&& if barricade_rating(ctx, vb[k]) > race_rating(ctx.map, ctx.map.barricade_grid@, ctx.team, ctx.enemy_team)
                        && ctx.inventory > 0 {
                        action == Action::Barricade(PCoord { x: vb[k].0.x, y: vb[k].0.y }, vb[k].1)
                    } else {
                        exists|ps: Seq<Path>, ms: Seq<Option<BlockadeMetrics>>| #![trigger path_stage(ctx, ps, ms)]
                            path_views(ps) == search_paths(ctx) && blockades_of(ctx, ps, ms) && action == path_stage(ctx, ps, ms)
                    }
                }
            }),
            ctx.inventory == 0 ==> action is Move,
    {
        proof {
            crate::map::lemma_barricades_upto_allowed(ctx.map, 64);
        }
        let valid_barricades = ctx.map.find_valid_barricades();
        let path = ctx.map.find_shortest_path_to_win(ctx.team);
        let enemy_path = ctx.map.find_shortest_path_to_win(ctx.enemy_team);
        let current_rating: i128 = enemy_path.len() as i128 - path.len() as i128;
        assert(current_rating == race_rating(ctx.map, ctx.map.barricade_grid@, ctx.team, ctx.enemy_team));
        let (best, best_rating) = best_barricade(&ctx, &valid_barricades);
        let ghost k = best as int;
        if best_rating > current_rating && ctx.inventory > 0 {
            let (best_coord, best_orientation) = valid_barricades[best];
            assert(valid_barricades@[k] == (best_coord, best_orientation));
            return Action::Barricade(best_coord.to_pcoord(), best_orientation);
        }
        assert(!races(ctx));
        let coord = ctx.map.get_player_coord(ctx.team);
        let entries = ctx.map.barricade_grid.find_paths(coord, ctx.finish_line.as_slice());
        let mut paths: Vec<Path> = Vec::new();
        let mut metrics: Vec<Option<BlockadeMetrics>> = Vec::new();
        let mut i: usize = 0;
        while i < entries.len()
            invariant
                bot_can_decide(ctx),
                !races(ctx),
                i <= entries@.len(),
                paths@.len() == i,
                metrics@.len() == i,
                forall|t: int| 0 <= t < entries@.len() ==>
                    homotopy_entry(grid_edges(ctx.map.barricade_grid@), grid_rays(ctx.map.barricade_grid@), node_of(coord),
                        target_nodes(ctx.finish_line@), (#[trigger] entries@[t]).0@, entries@[t].1@),
                coord == ctx.map.player(ctx.team),
                forall|t: int| 0 <= t < i ==> (#[trigger] paths@[t])@ == entries@[t].1@,
                forall|t: int| 0 <= t < i ==> (#[trigger] metrics@[t] matches Some(m) ==> ctx.map.barricade_allowed(m.barricade.0, m.barricade.1)),
                forall|t: int| 0 <= t < i ==> blockability_of(ctx.map, (#[trigger] paths@[t])@, ctx.finish_line@, metrics@[t]),
            decreases entries@.len() - i,
        {
            let p = entries[i].1.copy();
            let m = p.calculate_blockability(&ctx.map, ctx.finish_line.as_slice());
            proof {
                crate::path::lemma_path_blockades_allowed(ctx.map, p@);
            }
            paths.push(p);
            metrics.push(m);
            i = i + 1;
        }
        proof {
            assert(path_views(paths@) =~= search_paths(ctx));
            assert(blockades_of(ctx, paths@, metrics@));
        }
        // the stable paths: those that no single barricade detours into another class
        let mut stable_best: usize = 0;
        let mut stable_score_best: u128 = 0;
        let mut any_stable = false;
        let mut j: usize = 0;
        while j < paths.len()
            invariant
                j <= paths@.len(),
                paths@.len() == metrics@.len(),
                paths@.len() == entries@.len(),
                any_stable ==> {
                    &&& stable_best < j
                    &&& is_stable(metrics@, stable_best as int)
                    &&& stable_score_best == stable_score(paths@, metrics@, stable_best as int)
                    &&& forall|t: int| 0 <= t < j && #[trigger] is_stable(metrics@, t) ==>
                        stable_score(paths@, metrics@, stable_best as int) <= stable_score(paths@, metrics@, t)
                    &&& forall|t: int| 0 <= t < stable_best && #[trigger] is_stable(metrics@, t) ==>
                        stable_score(paths@, metrics@, stable_best as int) < stable_score(paths@, metrics@, t)
                },
                !any_stable ==> forall|t: int| 0 <= t < j ==> !#[trigger] is_stable(metrics@, t),
            decreases paths@.len() - j,
        {
            let (length_increase, is_proper_detour) = match metrics[j] {
                Some(m) => (m.length_increase, m.is_proper_detour),
                None => (0, false),
            };
            if !is_proper_detour {
                let score: u128 = length_increase as u128 + paths[j].len() as u128;
                assert(score == stable_score(paths@, metrics@, j as int));
                if !any_stable || score < stable_score_best {
                    stable_best = j;
                    stable_score_best = score;
                }
                any_stable = true;
            }
            j = j + 1;
        }
        if any_stable {
            let best_stable_path = &paths[stable_best];
            proof {
                let e = entries@[stable_best as int];
                assert(homotopy_entry(grid_edges(ctx.map.barricade_grid@), grid_rays(ctx.map.barricade_grid@), node_of(coord),
                    target_nodes(ctx.finish_line@), e.0@, e.1@));
                let nodes = choose|nodes: Seq<int>|
                    #[trigger] crate::graph::is_walk(grid_edges(ctx.map.barricade_grid@), nodes)
                        && target_nodes(ctx.finish_line@).contains(nodes[0]) && nodes.last() == node_of(coord)
                        && e.1@ == crate::graph::cells_of(nodes);
                assert(nodes.len() >= 2);
            }
            let step = best_stable_path.at(1);
            let action = follow_path(&ctx, best_stable_path, step);
            proof {
                assert(is_best_stable(paths@, metrics@, stable_best as int));
                let c = choose|c: int| is_best_stable(paths@, metrics@, c);
                lemma_best_stable_unique(paths@, metrics@, stable_best as int, c);
                assert(action == path_stage(ctx, paths@, metrics@));
            }
            return action;
        }
        proof {
            assert forall|c: int| !is_best_stable(paths@, metrics@, c) by {
                if 0 <= c < paths@.len() {
                    assert(!is_stable(metrics@, c));
                }
            }
        }
        let first_fork = Path::find_first_fork(paths.as_slice());
        let at_fork = match first_fork {
            Some(fork) => fork == coord,
            None => false,
        };
        if at_fork && ctx.inventory > 0 {
            // block the path that a barricade lengthens most
            let mut longest: usize = 0;
            let mut longest_score: u128 = 0;
            let mut t: usize = 0;
            assert(paths@.len() >= 2);
            while t < paths.len()
                invariant
                    t <= paths@.len(),
                    paths@.len() == metrics@.len(),
                    paths@.len() >= 2,
                    longest < paths@.len(),
                    forall|u: int| 0 <= u < paths@.len() ==> !#[trigger] is_stable(metrics@, u),
                    t > 0 ==> {
                        &&& longest < t
                        &&& longest_score == stable_score(paths@, metrics@, longest as int)
                        &&& forall|u: int| 0 <= u < t ==> #[trigger] stable_score(paths@, metrics@, u) <= longest_score
                        &&& forall|u: int| longest < u < t ==> #[trigger] stable_score(paths@, metrics@, u) < longest_score
                    },
                decreases paths@.len() - t,
            {
                assert(!is_stable(metrics@, t as int));
                let m = metrics[t].unwrap();
                let score: u128 = paths[t].len() as u128 + m.length_increase as u128;
                assert(score == stable_score(paths@, metrics@, t as int));
                if t == 0 || score >= longest_score {
                    longest = t;
                    longest_score = score;
                }
                t = t + 1;
            }
            assert(!is_stable(metrics@, longest as int));
            let chosen = metrics[longest].unwrap();
            let (slot, orientation) = chosen.barricade;
            let action = Action::Barricade(slot.to_pcoord(), orientation);
            proof {
                assert(is_most_blockable(paths@, metrics@, longest as int));
                let c = choose|c: int| is_most_blockable(paths@, metrics@, c);
                lemma_most_blockable_unique(paths@, metrics@, longest as int, c);
                assert(action == path_stage(ctx, paths@, metrics@));
            }
            return action;
        }
        let shortest_path = ctx.map.find_shortest_path_to_win(ctx.team);
        proof {
            let p = choose|p: Seq<int>|
                crate::graph::is_shortest_route(grid_edges(ctx.map.barricade_grid@), node_of(ctx.map.player(ctx.team)), finish_line(ctx.team), p)
                    && shortest_path@ == crate::graph::cells_of(p);
            if p.len() < 2 {
                let cell = PCoord::spec_from_index(p[0] as usize);
                let i = choose|i: int| 0 <= i < finish_line(ctx.team).len() && finish_line(ctx.team)[i] == cell;
                assert(cell == ctx.map.player(ctx.team));
            }
        }
        let step = shortest_path.at(1);
        let action = step_or_closest_move(&ctx, step);
        assert(action == path_stage(ctx, paths@, metrics@));
        action
    }
}

} // verus!

verus! {

/// The paths that the homotopy search returns for the bot's player, from the
/// context's finish line to the player's cell, in the order found.
pub open spec fn search_paths(ctx: Context) -> Seq<Seq<PCoord>> {
    homotopy_search(grid_edges(ctx.map.barricade_grid@), grid_rays(ctx.map.barricade_grid@),
        node_of(ctx.map.player(ctx.team)), target_nodes(ctx.finish_line@)).map_values(|e: (Seq<i32>, Seq<PCoord>)| e.1)
}

/// The cells of each of `ps`.
pub open spec fn path_views(ps: Seq<Path>) -> Seq<Seq<PCoord>> {
    ps.map_values(|p: Path| p@)
}

/// The move the random bot picks from the paths `ps` it found: the second cell of the
/// first path, when it does not stand at their first fork and may step there.
pub open spec fn random_choice(ctx: Context, ps: Seq<Path>) -> Option<Action> {
    let coord = ctx.map.player(ctx.team);
    if first_fork(ps) == Some(coord) || ps.len() == 0 || ps[0]@.len() < 2 {
        None
    } else if ctx.map.step_allowed(ctx.team, ps[0]@[1]) {
        Some(Action::Move(ps[0]@[1]))
    } else {
        None
    }
}

impl RandomBot {
    /// The move this bot makes: the second cell of the first path that
    /// [`BarricadeGrid::find_paths`](crate::grid::BarricadeGrid::find_paths) finds
    /// from the finish line to its player, when that is a legal move and the player
    /// does not stand at the paths' first fork. `None` where the bot has no move to
    /// make: at the fork, without a path of two cells, or when the step is not allowed.
    pub fn plan(&self, ctx: &Context) -> (r: Option<Action>)
        requires
            ctx.map.players_on_board(),
        ensures
            r matches Some(a) ==> a is Move && legal_action(*ctx, a),
            exists|ps: Seq<Path>| #[trigger] path_views(ps) == search_paths(*ctx) && r == random_choice(*ctx, ps),
    {
        let coord = ctx.map.get_player_coord(ctx.team);
        let entries = ctx.map.barricade_grid.find_paths(coord, ctx.finish_line.as_slice());
        let mut paths: Vec<Path> = Vec::new();
        let mut i: usize = 0;
        while i < entries.len()
            invariant
                i <= entries@.len(),
                paths@.len() == i,
                forall|t: int| 0 <= t < i ==> (#[trigger] paths@[t])@ == entries@[t].1@,
            decreases entries@.len() - i,
        {
            paths.push(entries[i].1.copy());
            i = i + 1;
        }
        proof {
            assert(path_views(paths@) =~= search_paths(*ctx));
        }
        let first_fork = Path::find_first_fork(paths.as_slice());
        let at_fork = match first_fork {
            Some(fork) => fork == coord,
            None => false,
        };
        let result = if at_fork || paths.len() == 0 || paths[0].len() < 2 {
            None
        } else {
            let next_step = paths[0].at(1);
            if ctx.map.can_step(ctx.team, next_step) {
                Some(Action::Move(next_step))
            } else {
                None
            }
        };
        proof {
            assert(result == random_choice(*ctx, paths@));
            assert(path_views(paths@) == search_paths(*ctx));
        }
        result
    }
}

} // verus!
