use barricade::bot::{can_decide, Bot, Context, EnemyPathMaximizerBot, RandomBot};
use barricade::coord::{BCoord, PCoord};
use barricade::game::{parse_command, team_for_turn, Action, Game, Player};
use barricade::map::{finish_line_of, GameMap};
use barricade::render::{render_board, Glyph, TrailShape};
use barricade::path::Path;
use barricade::types::{Barricade, Orientation, Team};

fn chars(s: &str) -> Vec<char> {
    s.chars().collect()
}

#[test]
fn new_players_hold_ten_barricades() {
    let p = Player::new(Team::Blue);
    assert_eq!(p.team(), Team::Blue);
    assert_eq!(p.inventory(), 10);
}

#[test]
fn opening_position() {
    let game = Game::new();
    assert_eq!(game.map().red_coord, PCoord::new(4, 0));
    assert_eq!(game.map().blue_coord, PCoord::new(4, 8));
    assert_eq!(game.inventory(Team::Red), 10);
    assert_eq!(game.inventory(Team::Blue), 10);
    assert_eq!(game.winner(), None);
}

#[test]
fn moves_and_barricades_in_a_game() {
    let mut game = Game::new();
    assert!(game.apply_action(Team::Red, Action::Move(PCoord::new(4, 1))));
    assert_eq!(game.map().red_coord, PCoord::new(4, 1));
    // an illegal move changes nothing
    assert!(!game.apply_action(Team::Blue, Action::Move(PCoord::new(4, 6))));
    assert_eq!(game.map().blue_coord, PCoord::new(4, 8));
    // a barricade uses up one from the inventory
    assert!(game.apply_action(Team::Blue, Action::Barricade(PCoord::new(3, 1), Orientation::Horizontal)));
    assert_eq!(game.inventory(Team::Blue), 9);
    assert_eq!(game.inventory(Team::Red), 10);
    assert_eq!(
        game.map().barricade_grid.get(BCoord::new(3, 1).to_index()),
        Some(Barricade { team: Team::Blue, orientation: Orientation::Horizontal })
    );
    // an overlapping one is refused and costs nothing
    assert!(!game.apply_action(Team::Red, Action::Barricade(PCoord::new(4, 1), Orientation::Horizontal)));
    assert_eq!(game.inventory(Team::Red), 10);
    // red cannot step down through the barricade
    assert!(!game.apply_action(Team::Red, Action::Move(PCoord::new(4, 2))));
}

#[test]
fn inventory_runs_out() {
    let mut game = Game::new();
    let mut placed = 0;
    for y in [1, 3, 5] {
        for x in [0, 3, 6] {
            if game.apply_action(Team::Red, Action::Barricade(PCoord::new(x, y), Orientation::Horizontal)) {
                placed += 1;
            }
        }
    }
    assert_eq!(placed, 9);
    assert!(game.apply_action(Team::Red, Action::Barricade(PCoord::new(0, 7), Orientation::Vertical)));
    assert_eq!(game.inventory(Team::Red), 0);
    // no barricades left: refused although the slot is free
    assert!(game.map().can_place_barricade(BCoord::new(4, 7), Orientation::Vertical));
    assert!(!game.apply_action(Team::Red, Action::Barricade(PCoord::new(4, 7), Orientation::Vertical)));
}

#[test]
fn winner_is_decided_by_rows() {
    let mut game = Game::new();
    // walk blue up column 0
    assert!(game.apply_action(Team::Blue, Action::Move(PCoord::new(3, 8))));
    assert!(game.apply_action(Team::Blue, Action::Move(PCoord::new(2, 8))));
    assert!(game.apply_action(Team::Blue, Action::Move(PCoord::new(1, 8))));
    assert!(game.apply_action(Team::Blue, Action::Move(PCoord::new(0, 8))));
    for y in (0..8).rev() {
        assert!(game.apply_action(Team::Blue, Action::Move(PCoord::new(0, y))));
    }
    assert_eq!(game.winner(), Some(Team::Blue));
}

#[test]
fn turns_alternate() {
    assert_eq!(team_for_turn(0), Team::Red);
    assert_eq!(team_for_turn(1), Team::Blue);
    assert_eq!(team_for_turn(10), Team::Red);
}

#[test]
fn commands_are_parsed() {
    assert_eq!(parse_command(&chars("me2")), Some(Action::Move(PCoord::new(4, 1))));
    assert_eq!(parse_command(&chars("ME2")), Some(Action::Move(PCoord::new(4, 1))));
    assert_eq!(parse_command(&chars("vc3")), Some(Action::Barricade(PCoord::new(2, 2), Orientation::Vertical)));
    assert_eq!(parse_command(&chars("Ha1xyz")), Some(Action::Barricade(PCoord::new(0, 0), Orientation::Horizontal)));
    assert_eq!(parse_command(&chars("xa1")), None);
    assert_eq!(parse_command(&chars("m1")), None);
    assert_eq!(parse_command(&chars("")), None);
    // coordinates off the board are read as they are
    assert_eq!(parse_command(&chars("mz9")), Some(Action::Move(PCoord::new(25, 8))));
}

#[test]
fn context_for_a_team() {
    let game = Game::new();
    let ctx = game.context_for(Team::Blue);
    assert_eq!(ctx.team, Team::Blue);
    assert_eq!(ctx.enemy_team, Team::Red);
    assert_eq!(ctx.inventory, 10);
    assert_eq!(ctx.finish_line, finish_line_of(Team::Blue));
    assert_eq!(ctx.enemy_finish_line, finish_line_of(Team::Red));
}

fn is_legal(game: &Game, team: Team, action: Action) -> bool {
    match action {
        Action::Move(to) => game.map().can_step(team, to),
        Action::Barricade(p, o) => game.inventory(team) > 0 && game.map().can_place_barricade(p.to_bcoord(), o),
    }
}

#[test]
fn maximizer_plays_legal_actions() {
    let mut game = Game::new();
    let mut bot = EnemyPathMaximizerBot;
    for turn in 0..6 {
        let team = team_for_turn(turn);
        let ctx = game.context_for(team);
        let action = bot.get_action(ctx);
        assert!(is_legal(&game, team, action));
        assert!(game.apply_action(team, action));
    }
}

#[test]
fn maximizer_blocks_when_it_gains() {
    // red is far ahead of blue on column 0; blue's bot should barricade red
    let map = GameMap::new(PCoord::new(0, 6), PCoord::new(8, 7));
    let ctx = Context::new(map, 10, 10, Team::Blue, Team::Red, finish_line_of(Team::Blue), finish_line_of(Team::Red));
    let mut bot = EnemyPathMaximizerBot;
    match bot.get_action(ctx) {
        Action::Barricade(p, o) => assert!(map.can_place_barricade(p.to_bcoord(), o)),
        Action::Move(_) => panic!("expected a barricade"),
    }
}

#[test]
fn maximizer_without_barricades_moves() {
    let map = GameMap::new(PCoord::new(0, 6), PCoord::new(8, 7));
    let ctx = Context::new(map, 0, 10, Team::Blue, Team::Red, finish_line_of(Team::Blue), finish_line_of(Team::Red));
    let mut bot = EnemyPathMaximizerBot;
    match bot.get_action(ctx) {
        Action::Move(to) => assert!(map.can_step(Team::Blue, to)),
        Action::Barricade(..) => panic!("expected a move"),
    }
}

#[test]
fn random_bot_plan_is_legal_or_none() {
    let game = Game::new();
    let ctx = game.context_for(Team::Red);
    let bot = RandomBot;
    match bot.plan(&ctx) {
        Some(Action::Move(to)) => assert!(game.map().can_step(Team::Red, to)),
        Some(Action::Barricade(..)) => panic!("the random bot only moves"),
        None => {},
    }
}

#[test]
fn board_drawing_layout() {
    let map = GameMap::new(PCoord::new(4, 0), PCoord::new(4, 8));
    let glyphs = render_board(&map, &Path::empty());
    // header 20, 17 rows of 20, footer 17
    assert_eq!(glyphs.len(), 20 + 17 * 20 + 17);
    assert_eq!(glyphs[0], Glyph::Space);
    assert_eq!(glyphs[1], Glyph::ColumnLabel(0));
    assert_eq!(glyphs[2], Glyph::TopTick);
    assert_eq!(glyphs[19], Glyph::RowLabel(1));
    // first drawing row: cells of row 0 at even columns
    assert_eq!(glyphs[20], Glyph::EmptyCell);
    assert_eq!(glyphs[20 + 8], Glyph::Player(Team::Red));
    assert_eq!(glyphs[20 + 1], Glyph::VerticalWall(None));
    assert_eq!(glyphs[20 + 17], Glyph::RowLabel(1));
    assert_eq!(glyphs[20 + 18], Glyph::NewLine);
    assert_eq!(glyphs[20 + 19], Glyph::LeftTick);
    // second drawing row: lines and crossings
    assert_eq!(glyphs[40], Glyph::HorizontalWall(None));
    assert_eq!(glyphs[41], Glyph::Crossing(None));
    assert_eq!(glyphs[40 + 17], Glyph::RightTick);
    assert_eq!(glyphs[40 + 19], Glyph::RowLabel(2));
}

#[test]
fn board_drawing_shows_barricades_and_paths() {
    let mut map = GameMap::new(PCoord::new(0, 0), PCoord::new(8, 8));
    assert!(map.try_place_barricade(Team::Blue, BCoord::new(0, 0), Orientation::Vertical).is_ok());
    let path = Path::from_vec(vec![PCoord::new(0, 0), PCoord::new(0, 1), PCoord::new(1, 1), PCoord::new(2, 1)]);
    let glyphs = render_board(&map, &path);
    let at = |x: usize, y: usize| glyphs[20 + y * 20 + x];
    assert_eq!(at(1, 1), Glyph::Crossing(Some(Barricade { team: Team::Blue, orientation: Orientation::Vertical })));
    assert_eq!(at(1, 0), Glyph::VerticalWall(Some(Team::Blue)));
    assert_eq!(at(1, 2), Glyph::VerticalWall(Some(Team::Blue)));
    assert_eq!(at(1, 4), Glyph::VerticalWall(None));
    assert_eq!(at(0, 2), Glyph::Trail(TrailShape::RightUp));
    assert_eq!(at(2, 2), Glyph::Trail(TrailShape::Across));
    assert_eq!(at(4, 2), Glyph::Trail(TrailShape::End));
    assert_eq!(at(0, 0), Glyph::Player(Team::Red));
}

#[test]
fn maximizer_follows_the_stable_path() {
    // without barricades the only class is the straight run up column 8; its first
    // cell past the finish row cannot be stepped on, so the bot takes the first
    // valid move that lies on it
    let map = GameMap::new(PCoord::new(0, 6), PCoord::new(8, 7));
    let ctx = Context::new(map, 0, 10, Team::Blue, Team::Red, finish_line_of(Team::Blue), finish_line_of(Team::Red));
    let mut bot = EnemyPathMaximizerBot;
    assert_eq!(bot.get_action(ctx), Action::Move(PCoord::new(8, 6)));
}

#[test]
fn maximizer_races_from_its_goal_row() {
    // blue already stands on its goal row but a barricade still wins the race,
    // so the bot can decide and places one
    let map = GameMap::new(PCoord::new(0, 6), PCoord::new(8, 0));
    let ctx = Context::new(map, 10, 10, Team::Blue, Team::Red, finish_line_of(Team::Blue), finish_line_of(Team::Red));
    assert!(can_decide(&ctx));
    let mut bot = EnemyPathMaximizerBot;
    match bot.get_action(ctx) {
        Action::Barricade(p, o) => assert!(map.can_place_barricade(p.to_bcoord(), o)),
        Action::Move(_) => panic!("expected a barricade"),
    }
}

#[test]
fn maximizer_cannot_decide_without_race_or_path() {
    // on its goal row with no barricades left there is no path stage to run
    let map = GameMap::new(PCoord::new(0, 6), PCoord::new(8, 0));
    let ctx = Context::new(map, 0, 10, Team::Blue, Team::Red, finish_line_of(Team::Blue), finish_line_of(Team::Red));
    assert!(!can_decide(&ctx));
    let game = Game::new();
    assert!(can_decide(&game.context_for(Team::Red)));
}

#[test]
fn random_bot_takes_the_second_cell_of_the_search_path() {
    // two rows from its finish line, the only class runs straight up; its second
    // cell is the one in front of the player
    let map = GameMap::new(PCoord::new(4, 6), PCoord::new(0, 0));
    let ctx = Context::new(map, 10, 10, Team::Red, Team::Blue, finish_line_of(Team::Red), finish_line_of(Team::Blue));
    assert_eq!(RandomBot.plan(&ctx), Some(Action::Move(PCoord::new(4, 7))));
    // from the opening cell the second cell of the path lies far away: no move
    let ctx = Game::new().context_for(Team::Red);
    assert_eq!(RandomBot.plan(&ctx), None);
}
