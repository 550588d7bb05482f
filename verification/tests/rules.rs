use barricade::coord::{BCoord, PCoord};
use barricade::map::{finish_line_of, GameMap};
use barricade::types::{Barricade, Orientation, Team};

fn opening() -> GameMap {
    GameMap::new(PCoord::new(4, 0), PCoord::new(4, 8))
}

#[test]
fn opening_moves() {
    let map = opening();
    assert_eq!(map.find_valid_moves(Team::Red), vec![PCoord::new(3, 0), PCoord::new(5, 0), PCoord::new(4, 1)]);
    assert_eq!(map.find_valid_moves(Team::Blue), vec![PCoord::new(4, 7), PCoord::new(3, 8), PCoord::new(5, 8)]);
}

#[test]
fn every_barricade_fits_an_empty_board() {
    let map = opening();
    let valid = map.find_valid_barricades();
    assert_eq!(valid.len(), 128);
    assert_eq!(valid[0], (BCoord::new(0, 0), Orientation::Horizontal));
    assert_eq!(valid[1], (BCoord::new(0, 0), Orientation::Vertical));
    assert_eq!(valid[127], (BCoord::new(7, 7), Orientation::Vertical));
}

#[test]
fn barricade_slot_must_be_free_and_on_the_lattice() {
    let mut map = opening();
    assert!(!map.can_place_barricade(BCoord::new(8, 0), Orientation::Horizontal));
    assert!(!map.can_place_barricade(BCoord::new(-1, 0), Orientation::Vertical));
    assert!(map.try_place_barricade(Team::Red, BCoord::new(8, 0), Orientation::Horizontal).is_err());
    assert!(map.try_place_barricade(Team::Red, BCoord::new(2, 2), Orientation::Horizontal).is_ok());
    assert_eq!(
        map.barricade_grid.get(BCoord::new(2, 2).to_index()),
        Some(Barricade { team: Team::Red, orientation: Orientation::Horizontal })
    );
    // the slot is taken, in either orientation
    assert!(!map.can_place_barricade(BCoord::new(2, 2), Orientation::Horizontal));
    assert!(!map.can_place_barricade(BCoord::new(2, 2), Orientation::Vertical));
}

#[test]
fn barricades_may_not_overlap() {
    let mut map = opening();
    assert!(map.try_place_barricade(Team::Red, BCoord::new(2, 2), Orientation::Horizontal).is_ok());
    // horizontally next to it: overlaps
    assert!(!map.can_place_barricade(BCoord::new(1, 2), Orientation::Horizontal));
    assert!(!map.can_place_barricade(BCoord::new(3, 2), Orientation::Horizontal));
    // a vertical one beside it does not overlap
    assert!(map.can_place_barricade(BCoord::new(3, 2), Orientation::Vertical));
    // a horizontal one two slots away does not overlap
    assert!(map.can_place_barricade(BCoord::new(4, 2), Orientation::Horizontal));
    // vertically stacked horizontal ones do not overlap
    assert!(map.can_place_barricade(BCoord::new(2, 3), Orientation::Horizontal));

    assert!(map.try_place_barricade(Team::Blue, BCoord::new(5, 5), Orientation::Vertical).is_ok());
    assert!(!map.can_place_barricade(BCoord::new(5, 4), Orientation::Vertical));
    assert!(!map.can_place_barricade(BCoord::new(5, 6), Orientation::Vertical));
    assert!(map.can_place_barricade(BCoord::new(5, 4), Orientation::Horizontal));
}

#[test]
fn barricade_may_not_cut_a_player_off() {
    let mut map = opening();
    for x in [0, 2, 4, 6] {
        assert!(map.try_place_barricade(Team::Blue, BCoord::new(x, 3), Orientation::Horizontal).is_ok());
    }
    // fence off column 8 above the wall: red would be cut off its finish line
    assert!(map.try_place_barricade(Team::Blue, BCoord::new(7, 0), Orientation::Vertical).is_ok());
    assert!(!map.can_place_barricade(BCoord::new(7, 2), Orientation::Vertical));
    let before = map;
    assert!(map.try_place_barricade(Team::Blue, BCoord::new(7, 2), Orientation::Vertical).is_err());
    assert_eq!(map.barricade_grid.get(BCoord::new(7, 2).to_index()), None);
    assert_eq!(map.red_coord, before.red_coord);
    // elsewhere it is fine
    assert!(map.can_place_barricade(BCoord::new(7, 5), Orientation::Vertical));
}

#[test]
fn plain_steps() {
    let map = opening();
    assert!(map.can_step(Team::Red, PCoord::new(3, 0)));
    assert!(map.can_step(Team::Red, PCoord::new(4, 1)));
    assert!(!map.can_step(Team::Red, PCoord::new(4, -1)));
    assert!(!map.can_step(Team::Red, PCoord::new(4, 2)));
    assert!(!map.can_step(Team::Red, PCoord::new(5, 1)));
    assert!(!map.can_step(Team::Red, PCoord::new(4, 0)));
    assert!(!map.can_step(Team::Red, PCoord::new(i32::MIN, i32::MAX)));
}

#[test]
fn steps_blocked_by_barricades() {
    let mut map = opening();
    assert!(map.try_place_barricade(Team::Blue, BCoord::new(4, 0), Orientation::Horizontal).is_ok());
    assert!(!map.can_step(Team::Red, PCoord::new(4, 1)));
    assert!(map.try_step(Team::Red, PCoord::new(4, 1)).is_err());
    assert_eq!(map.red_coord, PCoord::new(4, 0));
    assert!(map.try_step(Team::Red, PCoord::new(3, 0)).is_ok());
    assert_eq!(map.red_coord, PCoord::new(3, 0));
    assert_eq!(map.blue_coord, PCoord::new(4, 8));
}

#[test]
fn jump_over_the_other_player() {
    let map = GameMap::new(PCoord::new(4, 4), PCoord::new(4, 5));
    assert!(!map.can_step(Team::Red, PCoord::new(4, 5)));
    assert!(map.can_step(Team::Red, PCoord::new(4, 6)));
    // no diagonal while the straight jump is open
    assert!(!map.can_step(Team::Red, PCoord::new(3, 5)));
    assert!(!map.can_step(Team::Red, PCoord::new(5, 5)));
    // no jump over an empty cell
    assert!(!map.can_step(Team::Red, PCoord::new(4, 2)));
    assert!(!map.can_step(Team::Red, PCoord::new(6, 4)));
}

#[test]
fn diagonal_when_the_jump_is_blocked() {
    let mut map = GameMap::new(PCoord::new(4, 4), PCoord::new(4, 5));
    assert!(map.try_place_barricade(Team::Blue, BCoord::new(4, 5), Orientation::Horizontal).is_ok());
    assert!(!map.can_step(Team::Red, PCoord::new(4, 6)));
    assert!(map.can_step(Team::Red, PCoord::new(3, 5)));
    assert!(map.can_step(Team::Red, PCoord::new(5, 5)));
    let moves = map.find_valid_moves(Team::Red);
    assert_eq!(moves, vec![PCoord::new(4, 3), PCoord::new(3, 4), PCoord::new(5, 4), PCoord::new(3, 5), PCoord::new(5, 5)]);
}

#[test]
fn diagonal_at_the_edge_of_the_board() {
    let map = GameMap::new(PCoord::new(4, 7), PCoord::new(4, 8));
    assert!(!map.can_step(Team::Red, PCoord::new(4, 9)));
    assert!(map.can_step(Team::Red, PCoord::new(3, 8)));
    assert!(map.can_step(Team::Red, PCoord::new(5, 8)));
}

#[test]
fn sideways_jump_and_diagonal() {
    let map = GameMap::new(PCoord::new(7, 3), PCoord::new(8, 3));
    // the jump would leave the board, so the diagonals are open
    assert!(map.can_step(Team::Red, PCoord::new(8, 2)));
    assert!(map.can_step(Team::Red, PCoord::new(8, 4)));
    assert!(!map.can_step(Team::Red, PCoord::new(9, 3)));
}

#[test]
fn occupancy_and_teams() {
    let mut map = opening();
    assert!(map.is_occupied(PCoord::new(4, 0)));
    assert!(map.is_occupied(PCoord::new(-1, 0)));
    assert!(!map.is_occupied(PCoord::new(0, 0)));
    assert_eq!(map.get_team_at(PCoord::new(4, 8)), Some(Team::Blue));
    assert_eq!(map.get_team_at(PCoord::new(0, 0)), None);
    assert_eq!(map.get_player_coord(Team::Red), PCoord::new(4, 0));
    map.move_player(Team::Blue, PCoord::new(0, 0));
    assert_eq!(map.get_player_coord(Team::Blue), PCoord::new(0, 0));
    assert_eq!(map.get_player_coord(Team::Red), PCoord::new(4, 0));
}

#[test]
fn finish_lines() {
    let red = finish_line_of(Team::Red);
    let blue = finish_line_of(Team::Blue);
    assert_eq!(red.len(), 9);
    assert_eq!(blue.len(), 9);
    for i in 0..9 {
        assert_eq!(red[i], PCoord::new(i as i32, 8));
        assert_eq!(blue[i], PCoord::new(i as i32, 0));
    }
}

#[test]
fn shortest_paths_to_win() {
    let map = opening();
    let red = map.find_shortest_path_to_win(Team::Red);
    let blue = map.find_shortest_path_to_win(Team::Blue);
    assert_eq!(red.len(), 9);
    assert_eq!(blue.len(), 9);
    assert_eq!(red.at(0), PCoord::new(4, 0));
    assert_eq!(blue.at(0), PCoord::new(4, 8));
}

#[test]
fn five_moves_beside_the_other_player_at_the_edge() {
    // blue on the top row just above red: the jump leaves the board, so red has its
    // three other straight steps and the two diagonals past blue
    let map = GameMap::new(PCoord::new(4, 1), PCoord::new(4, 0));
    let moves = map.find_valid_moves(Team::Red);
    assert_eq!(
        moves,
        vec![PCoord::new(3, 0), PCoord::new(5, 0), PCoord::new(3, 1), PCoord::new(5, 1), PCoord::new(4, 2)]
    );
}
