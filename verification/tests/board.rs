use barricade::coord::{BCoord, PCoord};
use barricade::graph::NavigationGraph;
use barricade::grid::BarricadeGrid;
use barricade::map::{finish_line_of, GameMap};
use barricade::types::{Barricade, Orientation, Team};

fn opening() -> GameMap {
    GameMap::new(PCoord::new(4, 0), PCoord::new(4, 8))
}

fn vertical(team: Team) -> Option<Barricade> {
    Some(Barricade { team, orientation: Orientation::Vertical })
}

fn horizontal(team: Team) -> Option<Barricade> {
    Some(Barricade { team, orientation: Orientation::Horizontal })
}

#[test]
fn empty_grid_has_no_barricades() {
    let grid = BarricadeGrid::new();
    for i in 0..64 {
        assert_eq!(grid.get(i), None);
    }
    assert_eq!(grid.get(64), None);
    assert_eq!(grid.get(usize::MAX), None);
}

#[test]
fn grid_set_and_get() {
    let mut grid = BarricadeGrid::new();
    grid.set(10, vertical(Team::Red));
    assert_eq!(grid.get(10), vertical(Team::Red));
    assert_eq!(grid.get(11), None);
    grid.set(10, None);
    assert_eq!(grid.get(10), None);
}

#[test]
fn vertical_barricade_blocks_sideways_steps() {
    let mut grid = BarricadeGrid::new();
    // slot (3, 4): between columns 3 and 4, spanning rows 4 and 5
    grid.set(BCoord::new(3, 4).to_index(), vertical(Team::Blue));
    assert!(grid.is_barricade_between(PCoord::new(3, 4), PCoord::new(4, 4)));
    assert!(grid.is_barricade_between(PCoord::new(4, 5), PCoord::new(3, 5)));
    assert!(!grid.is_barricade_between(PCoord::new(3, 3), PCoord::new(4, 3)));
    assert!(!grid.is_barricade_between(PCoord::new(3, 6), PCoord::new(4, 6)));
    // does not block steps up or down
    assert!(!grid.is_barricade_between(PCoord::new(3, 4), PCoord::new(3, 5)));
}

#[test]
fn horizontal_barricade_blocks_vertical_steps() {
    let mut grid = BarricadeGrid::new();
    grid.set(BCoord::new(2, 2).to_index(), horizontal(Team::Red));
    assert!(grid.is_barricade_between(PCoord::new(2, 2), PCoord::new(2, 3)));
    assert!(grid.is_barricade_between(PCoord::new(3, 3), PCoord::new(3, 2)));
    assert!(!grid.is_barricade_between(PCoord::new(1, 2), PCoord::new(1, 3)));
    assert!(!grid.is_barricade_between(PCoord::new(4, 2), PCoord::new(4, 3)));
    assert!(!grid.is_barricade_between(PCoord::new(2, 2), PCoord::new(3, 2)));
}

#[test]
fn non_steps_are_never_blocked() {
    let mut grid = BarricadeGrid::new();
    grid.set(0, vertical(Team::Red));
    assert!(!grid.is_barricade_between(PCoord::new(0, 0), PCoord::new(2, 0)));
    assert!(!grid.is_barricade_between(PCoord::new(0, 0), PCoord::new(1, 1)));
    assert!(!grid.is_barricade_between(PCoord::new(0, 0), PCoord::new(0, 0)));
    assert!(!grid.is_barricade_between(PCoord::new(i32::MIN, 0), PCoord::new(i32::MAX, 0)));
}

#[test]
fn blocking_is_symmetric() {
    let mut grid = BarricadeGrid::new();
    grid.set(BCoord::new(5, 1).to_index(), vertical(Team::Red));
    grid.set(BCoord::new(1, 5).to_index(), horizontal(Team::Blue));
    for a in 0..81usize {
        for b in 0..81usize {
            let pa = PCoord::from_index(a);
            let pb = PCoord::from_index(b);
            assert_eq!(grid.is_barricade_between(pa, pb), grid.is_barricade_between(pb, pa));
        }
    }
}

#[test]
fn empty_navgraph_is_the_full_lattice() {
    let grid = BarricadeGrid::new();
    let graph = grid.get_navgraph();
    // corner has two neighbors, an edge cell three, an inner cell four
    let mut n = graph.neighbors(0);
    n.sort();
    assert_eq!(n, vec![1, 9]);
    let mut n = graph.neighbors(4);
    n.sort();
    assert_eq!(n, vec![3, 5, 13]);
    let mut n = graph.neighbors(40);
    n.sort();
    assert_eq!(n, vec![31, 39, 41, 49]);
    let mut n = graph.neighbors(80);
    n.sort();
    assert_eq!(n, vec![71, 79]);
}

#[test]
fn navgraph_leaves_out_blocked_steps() {
    let mut grid = BarricadeGrid::new();
    grid.set(BCoord::new(3, 4).to_index(), vertical(Team::Red));
    let graph = grid.get_navgraph();
    let mut n = graph.neighbors(PCoord::new(3, 4).to_index());
    n.sort();
    // (4, 4) is cut off; (2, 4), (3, 3), (3, 5) remain
    assert_eq!(n, vec![30, 38, 48]);
}

#[test]
fn reach_rows_on_open_and_walled_boards() {
    let grid = BarricadeGrid::new();
    let graph = grid.get_navgraph();
    assert!(graph.can_reach_y_level(PCoord::new(4, 0), 8));
    assert!(graph.can_reach_y_level(PCoord::new(4, 8), 0));
    assert!(!graph.can_reach_y_level(PCoord::new(4, 8), 9));

    // a horizontal wall under row 0 with a vertical barricade closing the last gap
    let mut grid = BarricadeGrid::new();
    for x in [0, 2, 4, 6] {
        grid.set(BCoord::new(x, 0).to_index(), horizontal(Team::Red));
    }
    let graph = grid.get_navgraph();
    // column 8 is still open
    assert!(graph.can_reach_y_level(PCoord::new(0, 0), 8));
    grid.set(BCoord::new(7, 0).to_index(), vertical(Team::Blue));
    let graph = grid.get_navgraph();
    assert!(!graph.can_reach_y_level(PCoord::new(0, 0), 8));
    assert!(graph.can_reach_y_level(PCoord::new(8, 0), 8));
}

#[test]
fn shortest_path_on_open_board() {
    let grid = BarricadeGrid::new();
    let graph = grid.get_navgraph();
    let finish = finish_line_of(Team::Red);
    let path = graph.find_shortest_path(PCoord::new(4, 0), &finish).unwrap();
    assert_eq!(path.len(), 9);
    assert_eq!(path.at(0), PCoord::new(4, 0));
    assert_eq!(path.at(8).y, 8);
    // a start on the finish line is its own route
    let path = graph.find_shortest_path(PCoord::new(2, 8), &finish).unwrap();
    assert_eq!(path.len(), 1);
    // an unreachable goal gives none
    assert!(graph.find_shortest_path(PCoord::new(2, 8), &[PCoord::new(9, 9)]).is_none());
}

#[test]
fn shortest_path_goes_around_a_wall() {
    let mut map = opening();
    // wall under row 3 from column 0 to 7, leaving column 8 open
    for x in [0, 2, 4, 6] {
        assert!(map.try_place_barricade(Team::Blue, BCoord::new(x, 3), Orientation::Horizontal).is_ok());
    }
    let path = map.find_shortest_path_to_win(Team::Red);
    // 4 steps right to column 8, 8 steps down: 13 cells
    assert_eq!(path.len(), 13);
    let coords = path.coords();
    for w in coords.windows(2) {
        assert!(!map.barricade_grid.is_barricade_between(w[0], w[1]));
    }
}

#[test]
fn navgraph_from_edge_list() {
    let g = NavigationGraph::from_edges(vec![(0, 1), (1, 2), (5, 6)]);
    let mut n = g.neighbors(1);
    n.sort();
    assert_eq!(n, vec![0, 2]);
    assert_eq!(g.neighbors(3), Vec::<usize>::new());
    assert_eq!(g.neighbors(100), Vec::<usize>::new());
    // node 2 lies in row 0, node 5 in row 0 as well; node 6 too
    assert!(g.can_reach_y_level(PCoord::new(0, 0), 0));
    let path = g.find_shortest_path(PCoord::new(0, 0), &[PCoord::new(2, 0)]).unwrap();
    assert_eq!(path.coords(), &vec![PCoord::new(0, 0), PCoord::new(1, 0), PCoord::new(2, 0)]);
    assert!(g.find_shortest_path(PCoord::new(0, 0), &[PCoord::new(6, 0)]).is_none());
}

#[test]
fn navgraph_neighbor_order() {
    // edges from the node first, latest first; then edges into it; a loop once
    let g = NavigationGraph::from_edges(vec![(0, 1), (1, 2), (1, 3), (4, 1), (1, 1)]);
    assert_eq!(g.neighbors(1), vec![1, 3, 2, 4, 0]);
    assert_eq!(g.neighbors(4), vec![1]);
}

#[test]
fn navgraph_has_no_parallel_edges() {
    let mut grid = BarricadeGrid::new();
    grid.set(10, Some(Barricade { team: Team::Red, orientation: Orientation::Horizontal }));
    let graph = grid.get_navgraph();
    let mut seen = std::collections::HashSet::new();
    for n in 0..81usize {
        let mut ns = graph.neighbors(n);
        let before = ns.len();
        ns.sort();
        ns.dedup();
        assert_eq!(ns.len(), before);
        for m in ns {
            seen.insert((n.min(m), n.max(m)));
        }
    }
    // 144 edges on an empty board, two of them cut by the barricade
    assert_eq!(seen.len(), 142);
}
