use barricade::coord::{BCoord, PCoord};
use barricade::grid::{reverse_bfs_iterative, BarricadeGrid};
use barricade::map::{finish_line_of, GameMap};
use barricade::path::{step_ray_winding, Path};
use barricade::types::{Orientation, Team};

fn opening() -> GameMap {
    GameMap::new(PCoord::new(4, 0), PCoord::new(4, 8))
}

fn path_of(cells: &[(i32, i32)]) -> Path {
    Path::from_vec(cells.iter().map(|&(x, y)| PCoord::new(x, y)).collect())
}

#[test]
fn step_winding_around_a_horizontal_ray() {
    let ray = (PCoord::new(3, 3), Orientation::Horizontal);
    // crossing the ray's row downwards right of its origin winds -1, upwards +1
    assert_eq!(step_ray_winding(&ray, PCoord::new(5, 3), PCoord::new(5, 4)), -1);
    assert_eq!(step_ray_winding(&ray, PCoord::new(5, 4), PCoord::new(5, 3)), 1);
    // left of the origin nothing happens
    assert_eq!(step_ray_winding(&ray, PCoord::new(2, 3), PCoord::new(2, 4)), 0);
    // moving along the row nothing happens
    assert_eq!(step_ray_winding(&ray, PCoord::new(4, 4), PCoord::new(5, 4)), 0);
}

#[test]
fn step_winding_around_a_vertical_ray() {
    let ray = (PCoord::new(3, 3), Orientation::Vertical);
    assert_eq!(step_ray_winding(&ray, PCoord::new(4, 5), PCoord::new(3, 5)), -1);
    assert_eq!(step_ray_winding(&ray, PCoord::new(3, 5), PCoord::new(4, 5)), 1);
    assert_eq!(step_ray_winding(&ray, PCoord::new(3, 2), PCoord::new(4, 2)), 0);
    assert_eq!(step_ray_winding(&ray, PCoord::new(3, 5), PCoord::new(3, 6)), 0);
}

#[test]
fn winding_of_a_path_and_of_its_reverse() {
    let mut map = opening();
    assert!(map.try_place_barricade(Team::Red, BCoord::new(3, 3), Orientation::Vertical).is_ok());
    assert!(map.try_place_barricade(Team::Red, BCoord::new(1, 6), Orientation::Horizontal).is_ok());
    let p = path_of(&[(2, 5), (3, 5), (4, 5), (5, 5), (5, 6), (5, 7)]);
    let w = p.calculate_winding(&map);
    // slot order: (3, 3) vertical, then (1, 6) horizontal; the path crosses the
    // first ray rightwards and the second downwards
    assert_eq!(w, vec![1, -1]);
    let mut cells = p.coords().clone();
    cells.reverse();
    let r = Path::from_vec(cells).calculate_winding(&map);
    assert_eq!(r, vec![-1, 1]);
    // crossing a ray and crossing back winds nowhere
    let there_and_back = path_of(&[(3, 5), (4, 5), (3, 5)]);
    assert_eq!(there_and_back.calculate_winding(&map), vec![0, 0]);
    // a path without steps winds nowhere
    assert_eq!(path_of(&[(0, 0)]).calculate_winding(&map), vec![0, 0]);
    assert_eq!(Path::empty().calculate_winding(&map), vec![0, 0]);
}

#[test]
fn blockades_of_a_path() {
    let map = opening();
    let p = path_of(&[(0, 4), (1, 4), (1, 5)]);
    let b = p.find_blockades(&map);
    assert_eq!(
        b,
        vec![
            (0, BCoord::new(0, 3), Orientation::Vertical),
            (0, BCoord::new(0, 4), Orientation::Vertical),
            (1, BCoord::new(0, 4), Orientation::Horizontal),
            (1, BCoord::new(1, 4), Orientation::Horizontal),
        ]
    );
    // at the corner only one slot exists beside a step
    let p = path_of(&[(0, 0), (1, 0)]);
    assert_eq!(p.find_blockades(&map), vec![(0, BCoord::new(0, 0), Orientation::Vertical)]);
    // jumps are not blocked
    let p = path_of(&[(0, 0), (2, 0)]);
    assert!(p.find_blockades(&map).is_empty());
}

#[test]
fn blockability_of_the_straight_route() {
    let map = opening();
    let path = map.find_shortest_path_to_win(Team::Red);
    let metrics = path.calculate_blockability(&map, &finish_line_of(Team::Red)).unwrap();
    // a wall across any step of the straight run costs one step sideways
    assert_eq!(metrics.length_increase, 1);
    // the first blocking placement already attains it: a wall under the first step
    let first = path.find_blockades(&map)[0];
    assert_eq!(metrics.barricade, (first.1, first.2));
    assert!(map.can_place_barricade(metrics.barricade.0, metrics.barricade.1));
    // no barricades on the board: no rays, so no detour winds differently
    assert!(!metrics.is_proper_detour);
}

#[test]
fn blockability_of_a_path_without_steps() {
    let map = opening();
    let path = path_of(&[(4, 0)]);
    assert!(path.calculate_blockability(&map, &finish_line_of(Team::Red)).is_none());
}

#[test]
fn first_fork_cases() {
    let a = path_of(&[(0, 0), (1, 0), (2, 0), (3, 0)]);
    let b = path_of(&[(0, 0), (1, 0), (1, 1), (1, 2)]);
    let c = path_of(&[(0, 0), (1, 0)]);
    let d = path_of(&[(5, 5), (1, 0)]);
    assert_eq!(Path::find_first_fork(&[a.copy()]), None);
    assert_eq!(Path::find_first_fork(&[]), None);
    assert_eq!(Path::find_first_fork(&[a.copy(), b.copy()]), Some(PCoord::new(1, 0)));
    // a prefix of the other: the end of the shorter one
    assert_eq!(Path::find_first_fork(&[a.copy(), c.copy()]), Some(PCoord::new(1, 0)));
    // equal paths never fork
    assert_eq!(Path::find_first_fork(&[a.copy(), a.copy()]), None);
    // no common start: the first cell of the first path
    assert_eq!(Path::find_first_fork(&[d.copy(), a.copy()]), Some(PCoord::new(5, 5)));
    // an empty path
    assert_eq!(Path::find_first_fork(&[a.copy(), Path::empty()]), None);
}

#[test]
fn path_basics() {
    let mut p = Path::from_slice(&[PCoord::new(1, 1)]);
    p.push(PCoord::new(1, 2));
    assert_eq!(p.len(), 2);
    assert_eq!(p.at(1), PCoord::new(1, 2));
    assert!(p.is_simple());
    p.push(PCoord::new(1, 1));
    assert!(!p.is_simple());
    assert_eq!(p.copy().coords(), p.coords());
}

#[test]
fn one_class_without_barricades() {
    let grid = BarricadeGrid::new();
    let classes = grid.find_paths(PCoord::new(4, 4), &finish_line_of(Team::Red));
    assert_eq!(classes.len(), 1);
    let (w, p) = &classes[0];
    assert!(w.is_empty());
    assert_eq!(p.at(0).y, 8);
    assert_eq!(p.at(p.len() - 1), PCoord::new(4, 4));
    assert!(p.is_simple());
    for step in p.coords().windows(2) {
        assert_eq!((step[0].x - step[1].x).abs() + (step[0].y - step[1].y).abs(), 1);
    }
}

#[test]
fn classes_around_a_barricade() {
    let mut map = GameMap::new(PCoord::new(4, 2), PCoord::new(0, 8));
    assert!(map.try_place_barricade(Team::Blue, BCoord::new(3, 4), Orientation::Horizontal).is_ok());
    let classes = map.barricade_grid.find_paths(PCoord::new(4, 2), &finish_line_of(Team::Red));
    // left of the barricade or right of it
    assert!(classes.len() >= 2);
    for i in 0..classes.len() {
        let (w, p) = &classes[i];
        assert_eq!(w.len(), 1);
        assert!(w[0].abs() <= 1);
        assert!(p.is_simple());
        assert_eq!(p.calculate_winding(&map), *w);
        assert_eq!(p.at(p.len() - 1), PCoord::new(4, 2));
        for j in 0..i {
            assert_ne!(classes[j].0, *w);
        }
    }
}

#[test]
fn search_from_start_nodes() {
    let grid = BarricadeGrid::new();
    let graph = grid.get_navgraph();
    // from node 0 to cell (2, 0): one path, no rays
    let found = reverse_bfs_iterative(&graph, &vec![], PCoord::new(2, 0), vec![0]);
    assert_eq!(found.len(), 1);
    assert_eq!(found[0].1.coords(), &vec![PCoord::new(0, 0), PCoord::new(1, 0), PCoord::new(2, 0)]);
    // no start nodes, nothing found
    assert!(reverse_bfs_iterative(&graph, &vec![], PCoord::new(2, 0), vec![]).is_empty());
}

#[test]
fn search_starting_at_the_finish() {
    // a start on the finish line: the first class is the cell alone, winding nowhere
    let mut map = GameMap::new(PCoord::new(4, 2), PCoord::new(0, 8));
    assert!(map.try_place_barricade(Team::Blue, BCoord::new(3, 4), Orientation::Horizontal).is_ok());
    let classes = map.barricade_grid.find_paths(PCoord::new(5, 8), &finish_line_of(Team::Red));
    assert!(!classes.is_empty());
    assert_eq!(classes[0].0, vec![0]);
    assert_eq!(classes[0].1.coords(), &vec![PCoord::new(5, 8)]);
    let graph = map.barricade_grid.get_navgraph();
    let found = reverse_bfs_iterative(&graph, &map.barricade_grid.rays(), PCoord::new(2, 0), vec![7, 2, 2]);
    assert_eq!(found[0].0, vec![0]);
    assert_eq!(found[0].1.coords(), &vec![PCoord::new(2, 0)]);
}

#[test]
fn search_on_an_empty_board() {
    // no barricades: one class, the straight run down column e from the top row
    let grid = BarricadeGrid::new();
    let found = grid.find_paths(PCoord::new(4, 8), &finish_line_of(Team::Blue));
    assert_eq!(found.len(), 1);
    assert!(found[0].0.is_empty());
    let column: Vec<PCoord> = (0..9).map(|y| PCoord::new(4, y)).collect();
    assert_eq!(found[0].1.coords(), &column);
}

#[test]
fn blockades_are_listed_once_each() {
    let map = opening();
    let path = path_of(&[(4, 0), (4, 1), (5, 1)]);
    let found = path.find_blockades(&map);
    // step 0 goes down: the horizontal slots left and right of it; step 1 goes
    // right: the vertical slots above and below it
    assert_eq!(
        found,
        vec![
            (0, BCoord::new(3, 0), Orientation::Horizontal),
            (0, BCoord::new(4, 0), Orientation::Horizontal),
            (1, BCoord::new(4, 0), Orientation::Vertical),
            (1, BCoord::new(4, 1), Orientation::Vertical),
        ]
    );
}

#[test]
fn windings_add_up_along_joined_paths() {
    let mut map = opening();
    assert!(map.try_place_barricade(Team::Red, BCoord::new(3, 3), Orientation::Vertical).is_ok());
    assert!(map.try_place_barricade(Team::Red, BCoord::new(1, 6), Orientation::Horizontal).is_ok());
    let first = path_of(&[(2, 5), (3, 5), (4, 5)]);
    let second = path_of(&[(4, 5), (5, 5), (5, 6), (5, 7)]);
    let joined = path_of(&[(2, 5), (3, 5), (4, 5), (5, 5), (5, 6), (5, 7)]);
    let a = first.calculate_winding(&map);
    let b = second.calculate_winding(&map);
    let sum: Vec<i32> = a.iter().zip(b.iter()).map(|(x, y)| x + y).collect();
    assert_eq!(joined.calculate_winding(&map), sum);
}
