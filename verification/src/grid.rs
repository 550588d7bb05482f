use vstd::prelude::*;
use crate::coord::{BCoord, PCoord};
use crate::graph::{NavigationGraph, adjacent, cells_of, edge_seq_view, is_node_bound, is_walk, neighbor_order, node_of, usize_seq_view};
use crate::path::{Path, lemma_path_winding_push, lemma_step_winding_unit, path_winding, same_windings, step_ray_winding, step_winding, winding_upto};
use crate::types::{Barricade, Orientation};
use std::collections::{HashSet, VecDeque};

verus! {

/// The 8×8 lattice of barricade slots; each holds at most one barricade.
#[derive(Clone, Copy, Debug)]
pub struct BarricadeGrid([Option<Barricade>; 64]);

impl View for BarricadeGrid {
    type V = Seq<Option<Barricade>>;

    closed spec fn view(&self) -> Seq<Option<Barricade>> {
        self.0@
    }
}

/// Slot `(x, y)` lies on the lattice and holds a barricade of orientation `o`.
pub open spec fn slot_holds(slots: Seq<Option<Barricade>>, x: int, y: int, o: Orientation) -> bool {
    &&& 0 <= x < 8
    &&& 0 <= y < 8
    &&& slots[x + y * 8] matches Some(b)
    &&& b.orientation == o
}

pub open spec fn min_int(a: int, b: int) -> int {
    if a <= b { a } else { b }
}

pub open spec fn abs_int(a: int) -> int {
    if a < 0 { -a } else { a }
}

/// A barricade lies across the single step from `a` to `b`: a step sideways is
/// blocked by a vertical barricade in one of the two slots beside it, a step up or
/// down by a horizontal one. Anything that is not a single orthogonal step is
/// never blocked.
pub open spec fn blocked(slots: Seq<Option<Barricade>>, a: PCoord, b: PCoord) -> bool {
    let dx = b.x - a.x;
    let dy = b.y - a.y;
    if abs_int(dx) == 1 && dy == 0 {
        let left = min_int(a.x as int, b.x as int);
        slot_holds(slots, left, a.y - 1, Orientation::Vertical) || slot_holds(slots, left, a.y as int, Orientation::Vertical)
    } else if dx == 0 && abs_int(dy) == 1 {
        let upper = min_int(a.y as int, b.y as int);
        slot_holds(slots, a.x - 1, upper, Orientation::Horizontal) || slot_holds(slots, a.x as int, upper, Orientation::Horizontal)
    } else {
        false
    }
}

/// The edges that node `c` adds to the navigation graph: to the cell on its right
/// and to the cell below it, each when that cell exists and no barricade is in the way.
pub open spec fn cell_edges(slots: Seq<Option<Barricade>>, c: int) -> Seq<(int, int)> {
    let x = c % 9;
    let y = c / 9;
    let here = PCoord { x: x as i32, y: y as i32 };
    let right = PCoord { x: (x + 1) as i32, y: y as i32 };
    let below = PCoord { x: x as i32, y: (y + 1) as i32 };
    (if x + 1 < 9 && !blocked(slots, here, right) { seq![(c, c + 1)] } else { Seq::empty() })
        + (if y + 1 < 9 && !blocked(slots, here, below) { seq![(c, c + 9)] } else { Seq::empty() })
}

/// The edges of the first `k` cells, in row-major order.
pub open spec fn edges_upto(slots: Seq<Option<Barricade>>, k: nat) -> Seq<(int, int)>
    decreases k,
{
    if k == 0 {
        Seq::empty()
    } else {
        edges_upto(slots, (k - 1) as nat) + cell_edges(slots, k - 1)
    }
}

/// The edge list of the navigation graph of a barricade lattice.
pub open spec fn grid_edges(slots: Seq<Option<Barricade>>) -> Seq<(int, int)> {
    edges_upto(slots, 81)
}

/// The barricades of the first `k` slots as rays, in slot order: each from the
/// cell whose coordinates are its slot's, with its orientation.
pub open spec fn rays_upto(slots: Seq<Option<Barricade>>, k: nat) -> Seq<(PCoord, Orientation)>
    decreases k,
{
    if k == 0 {
        Seq::empty()
    } else {
        rays_upto(slots, (k - 1) as nat) + match slots[k - 1] {
            Some(b) => seq![(PCoord { x: ((k - 1) % 8) as i32, y: ((k - 1) / 8) as i32 }, b.orientation)],
            None => Seq::empty(),
        }
    }
}

/// The barricades of the lattice as rays, in slot order.
pub open spec fn grid_rays(slots: Seq<Option<Barricade>>) -> Seq<(PCoord, Orientation)> {
    rays_upto(slots, 64)
}

impl BarricadeGrid {
    /// The barricades as rays, in slot order.
    pub fn rays(&self) -> (r: Vec<(PCoord, Orientation)>)
        ensures
            r@ == grid_rays(self@),
    {
        let mut rays: Vec<(PCoord, Orientation)> = Vec::new();
        let mut index: usize = 0;
        while index < 64
            invariant
                index <= 64,
                rays@ == rays_upto(self@, index as nat),
            decreases 64 - index,
        {
            match self.0[index] {
                Some(b) => {
                    rays.push((BCoord::from_index(index).to_pcoord(), b.orientation));
                },
                None => {},
            }
            proof {
                assert(rays@ =~= rays_upto(self@, (index + 1) as nat));
            }
            index = index + 1;
        }
        rays
    }

    /// The lattice has 64 slots.
    pub proof fn lemma_len(&self)
        ensures
            self@.len() == 64,
    {
    }

    /// A lattice with no barricades.
    pub fn new() -> (r: BarricadeGrid)
        ensures
            r@.len() == 64,
            forall|i: int| 0 <= i < 64 ==> r@[i] is None,
    {
        BarricadeGrid([None; 64])
    }

    /// What slot `index` holds; `None` for an empty slot or an index off the lattice.
    pub fn get(&self, index: usize) -> (r: Option<Barricade>)
        ensures
            index < 64 ==> r == self@[index as int],
            index >= 64 ==> r is None,
    {
        if index < 64 {
            self.0[index]
        } else {
            None
        }
    }

    /// Puts `value` into slot `index`.
    pub fn set(&mut self, index: usize, value: Option<Barricade>)
        requires
            index < 64,
        ensures
            final(self)@ == old(self)@.update(index as int, value),
    {
        self.0[index] = value;
    }

    /// Whether slot `coord` lies on the lattice and holds a barricade of orientation `o`.
    pub fn holds_at(&self, coord: BCoord, o: Orientation) -> (r: bool)
        ensures
            r == slot_holds(self@, coord.x as int, coord.y as int, o),
    {
        self.slot_has(coord.x as i64, coord.y as i64, o)
    }

    /// Whether slot `(x, y)` lies on the lattice and holds a barricade of orientation `o`.
    fn slot_has(&self, x: i64, y: i64, o: Orientation) -> (r: bool)
        ensures
            r == slot_holds(self@, x as int, y as int, o),
    {
        if 0 <= x && x < 8 && 0 <= y && y < 8 {
            let index = (x + y * 8) as usize;
            match self.0[index] {
                Some(b) => b.orientation == o,
                None => false,
            }
        } else {
            false
        }
    }

    /// Whether a barricade lies across the step from `a` to `b`.
    pub fn is_barricade_between(&self, a: PCoord, b: PCoord) -> (r: bool)
        ensures
            r == blocked(self@, a, b),
    {
        let dx: i64 = b.x as i64 - a.x as i64;
        let dy: i64 = b.y as i64 - a.y as i64;
        if (dx == 1 || dx == -1) && dy == 0 {
            let left: i64 = if a.x <= b.x { a.x as i64 } else { b.x as i64 };
            self.slot_has(left, a.y as i64 - 1, Orientation::Vertical) || self.slot_has(left, a.y as i64, Orientation::Vertical)
        } else if dx == 0 && (dy == 1 || dy == -1) {
            let upper: i64 = if a.y <= b.y { a.y as i64 } else { b.y as i64 };
            self.slot_has(a.x as i64 - 1, upper, Orientation::Horizontal) || self.slot_has(a.x as i64, upper, Orientation::Horizontal)
        } else {
            false
        }
    }

    /// The navigation graph: an edge between every two orthogonally adjacent cells
    /// with no barricade between them, listed row by row.
    pub fn get_navgraph(&self) -> (g: NavigationGraph)
        ensures
            g.edges() == grid_edges(self@),
            g.bound() == 81,
    {
        let mut edges: Vec<(usize, usize)> = Vec::new();
        let mut y: i32 = 0;
        while y < 9
            invariant
                0 <= y <= 9,
                edge_seq_view(edges@) == edges_upto(self@, (y * 9) as nat),
                forall|i: int| 0 <= i < edges@.len() ==> #[trigger] edges@[i].0 < 81 && edges@[i].1 < 81,
            decreases 9 - y,
        {
            let mut x: i32 = 0;
            while x < 9
                invariant
                    0 <= y < 9,
                    0 <= x <= 9,
                    edge_seq_view(edges@) == edges_upto(self@, (y * 9 + x) as nat),
                    forall|i: int| 0 <= i < edges@.len() ==> #[trigger] edges@[i].0 < 81 && edges@[i].1 < 81,
                decreases 9 - x,
            {
                let ghost before = edges@;
                let coord = PCoord::new(x, y);
                let right = PCoord::new(x + 1, y);
                let below = PCoord::new(x, y + 1);
                let coord_index = coord.to_index();
                let right_index = right.to_index();
                let below_index = below.to_index();
                let c = (x + y * 9) as usize;
                assert(c as int % 9 == x && c as int / 9 == y);
                proof {
                    crate::coord::lemma_pcoord_index_roundtrip(coord, 0);
                    crate::coord::lemma_pcoord_index_roundtrip(right, 0);
                    crate::coord::lemma_pcoord_index_roundtrip(below, 0);
                }
                if right.is_in_bounds() && !self.is_barricade_between(coord, right) {
                    assert(coord_index < 81 && right_index < 81);
                    edges.push((coord_index, right_index));
                    assert forall|i: int| 0 <= i < edges@.len() implies #[trigger] edges@[i].0 < 81 && edges@[i].1 < 81 by {
                        if i < before.len() {
                            assert(edges@[i] == before[i]);
                        }
                    }
                }
                let ghost middle = edges@;
                if below.is_in_bounds() && !self.is_barricade_between(coord, below) {
                    assert(coord_index < 81 && below_index < 81);
                    edges.push((coord_index, below_index));
                    assert forall|i: int| 0 <= i < edges@.len() implies #[trigger] edges@[i].0 < 81 && edges@[i].1 < 81 by {
                        if i < middle.len() {
                            assert(edges@[i] == middle[i]);
                        }
                    }
                }
                proof {
                    assert(edge_seq_view(edges@) =~= edge_seq_view(before) + cell_edges(self@, c as int));
                    assert(edges_upto(self@, (y * 9 + x + 1) as nat) == edges_upto(self@, (y * 9 + x) as nat) + cell_edges(self@, c as int));
                }
                x = x + 1;
            }
            y = y + 1;
        }
        proof {
            lemma_grid_edges_bound(self@);
        }
        NavigationGraph::from_edges(edges)
    }
}

/// Node 80, the bottom-right cell, always has an edge: the one slot that could block
/// its two steps holds at most one barricade, which blocks only one of them.
pub proof fn lemma_grid_edges_bound(slots: Seq<Option<Barricade>>)
    requires
        slots.len() == 64,
    ensures
        is_node_bound(grid_edges(slots), 81),
{
    lemma_edges_upto_in_board(slots, 81);
    let left = PCoord { x: 7, y: 8 };
    let corner = PCoord { x: 8, y: 8 };
    let up = PCoord { x: 8, y: 7 };
    assert(edges_upto(slots, 80) == edges_upto(slots, 79) + cell_edges(slots, 79));
    assert(edges_upto(slots, 81) == edges_upto(slots, 80) + cell_edges(slots, 80));
    assert(cell_edges(slots, 80) =~= Seq::<(int, int)>::empty());
    if !blocked(slots, left, corner) {
        assert(cell_edges(slots, 79)[0] == (79int, 80int));
        lemma_edges_upto_extends(slots, 80, 81);
        let i = edges_upto(slots, 79).len() as int;
        assert(edges_upto(slots, 80)[i] == (79int, 80int));
        assert(grid_edges(slots)[i] == (79int, 80int));
    } else {
        assert(!blocked(slots, up, corner) || !blocked(slots, PCoord { x: 8, y: 7 }, PCoord { x: 8, y: 8 }));
        assert(!blocked(slots, up, corner));
        assert(edges_upto(slots, 72) == edges_upto(slots, 71) + cell_edges(slots, 71));
        assert(cell_edges(slots, 71)[0] == (71int, 80int));
        lemma_edges_upto_extends(slots, 72, 81);
        let i = edges_upto(slots, 71).len() as int;
        assert(edges_upto(slots, 72)[i] == (71int, 80int));
        assert(grid_edges(slots)[i] == (71int, 80int));
    }
}

/// The edges of fewer cells are a prefix of the edges of more cells.
pub proof fn lemma_edges_upto_extends(slots: Seq<Option<Barricade>>, j: nat, k: nat)
    requires
        j <= k,
    ensures
        edges_upto(slots, j).len() <= edges_upto(slots, k).len(),
        forall|i: int| 0 <= i < edges_upto(slots, j).len() ==> #[trigger] edges_upto(slots, k)[i] == edges_upto(slots, j)[i],
    decreases k,
{
    if j < k {
        lemma_edges_upto_extends(slots, j, (k - 1) as nat);
    }
}

proof fn lemma_edges_upto_ordered(slots: Seq<Option<Barricade>>, k: nat)
    ensures
        edges_upto(slots, k).no_duplicates(),
        forall|i: int| 0 <= i < edges_upto(slots, k).len() ==>
            (#[trigger] edges_upto(slots, k)[i]).0 < edges_upto(slots, k)[i].1 && 0 <= edges_upto(slots, k)[i].0 < k,
    decreases k,
{
    if k > 0 {
        lemma_edges_upto_ordered(slots, (k - 1) as nat);
        let prev = edges_upto(slots, (k - 1) as nat);
        let cur = cell_edges(slots, k - 1);
        let all = edges_upto(slots, k);
        assert(all == prev + cur);
        assert forall|i: int| 0 <= i < cur.len() implies (#[trigger] cur[i]).0 == k - 1 && cur[i].0 < cur[i].1 by {}
        assert forall|i: int| 0 <= i < all.len() implies
            (#[trigger] all[i]).0 < all[i].1 && 0 <= all[i].0 < k by {
            if i < prev.len() {
                assert(all[i] == prev[i]);
            } else {
                assert(all[i] == cur[i - prev.len()]);
            }
        }
        assert forall|x: int, y: int| 0 <= x < y < all.len() implies all[x] != all[y] by {
            if y < prev.len() {
                assert(all[x] == prev[x] && all[y] == prev[y]);
            } else if x < prev.len() {
                assert(all[x] == prev[x]);
                assert(all[y] == cur[y - prev.len()]);
            } else {
                assert(all[x] == cur[x - prev.len()] && all[y] == cur[y - prev.len()]);
            }
        }
    }
}

/// The navigation graph has no parallel edges: no edge is listed twice, and none
/// also in the other direction.
pub proof fn lemma_grid_edges_simple(slots: Seq<Option<Barricade>>)
    ensures
        grid_edges(slots).no_duplicates(),
        forall|i: int, j: int| 0 <= i < grid_edges(slots).len() && 0 <= j < grid_edges(slots).len() ==>
            #[trigger] grid_edges(slots)[i] != (grid_edges(slots)[j].1, #[trigger] grid_edges(slots)[j].0),
{
    lemma_edges_upto_ordered(slots, 81);
}

/// Putting a barricade into an empty slot blocks every step that was blocked before.
proof fn lemma_blocked_grows(slots: Seq<Option<Barricade>>, i: int, b: Barricade, a: PCoord, c: PCoord)
    requires
        slots.len() == 64,
        0 <= i < 64,
        slots[i] is None,
        blocked(slots, a, c),
    ensures
        blocked(slots.update(i, Some(b)), a, c),
{
    let s2 = slots.update(i, Some(b));
    assert forall|x: int, y: int, o: Orientation| slot_holds(slots, x, y, o) implies slot_holds(s2, x, y, o) by {
        assert(x + y * 8 != i);
        assert(s2[x + y * 8] == slots[x + y * 8]);
    }
}

/// Putting a barricade into an empty slot only takes edges away from the navigation
/// graph.
pub proof fn lemma_grid_edges_shrink(slots: Seq<Option<Barricade>>, i: int, b: Barricade)
    requires
        slots.len() == 64,
        0 <= i < 64,
        slots[i] is None,
    ensures
        forall|e: (int, int)| #[trigger] grid_edges(slots.update(i, Some(b))).contains(e) ==> grid_edges(slots).contains(e),
{
    let s2 = slots.update(i, Some(b));
    assert forall|e: (int, int)| #[trigger] grid_edges(s2).contains(e) implies grid_edges(slots).contains(e) by {
        lemma_edges_upto_from_cells(s2, 81, e);
        let c = choose|c: int| 0 <= c < 81 && #[trigger] cell_edges(s2, c).contains(e);
        let x = c % 9;
        let y = c / 9;
        let here = PCoord { x: x as i32, y: y as i32 };
        let right = PCoord { x: (x + 1) as i32, y: y as i32 };
        let below = PCoord { x: x as i32, y: (y + 1) as i32 };
        if blocked(slots, here, right) {
            lemma_blocked_grows(slots, i, b, here, right);
        }
        if blocked(slots, here, below) {
            lemma_blocked_grows(slots, i, b, here, below);
        }
        let ce = cell_edges(s2, c);
        let k = choose|k: int| 0 <= k < ce.len() && ce[k] == e;
        let c1 = cell_edges(slots, c);
        if e == (c, c + 1) && x + 1 < 9 && !blocked(s2, here, right) {
            assert(c1[0] == e);
        } else {
            assert(c1[c1.len() - 1] == e);
        }
        lemma_edges_upto_has_cell(slots, c, 81, e);
    }
}

/// Every edge of the first `k <= 81` cells joins two nodes of the board.
pub proof fn lemma_edges_upto_in_board(slots: Seq<Option<Barricade>>, k: nat)
    requires
        k <= 81,
    ensures
        forall|i: int| 0 <= i < edges_upto(slots, k).len() ==>
            0 <= #[trigger] edges_upto(slots, k)[i].0 < 81 && 0 <= edges_upto(slots, k)[i].1 < 81,
    decreases k,
{
    if k > 0 {
        lemma_edges_upto_in_board(slots, (k - 1) as nat);
        let prev = edges_upto(slots, (k - 1) as nat);
        let c = k - 1;
        assert forall|i: int| 0 <= i < edges_upto(slots, k).len() implies
            0 <= #[trigger] edges_upto(slots, k)[i].0 < 81 && 0 <= edges_upto(slots, k)[i].1 < 81 by {
            if i >= prev.len() {
                let e = cell_edges(slots, c)[i - prev.len()];
                assert(edges_upto(slots, k)[i] == e);
            } else {
                assert(edges_upto(slots, k)[i] == prev[i]);
            }
        }
    }
}

} // verus!

verus! {

/// Three to the power `n`.
pub open spec fn pow3(n: nat) -> nat
    decreases n,
{
    if n == 0 { 1 } else { 3 * pow3((n - 1) as nat) }
}

proof fn lemma_pow3_mono(a: nat, b: nat)
    requires
        a <= b,
    ensures
        1 <= pow3(a) <= pow3(b),
    decreases b,
{
    if a < b {
        lemma_pow3_mono(a, (b - 1) as nat);
    } else if a > 0 {
        lemma_pow3_mono((a - 1) as nat, (a - 1) as nat);
    }
}

proof fn lemma_pow3_64()
    ensures
        pow3(64) * 81 <= u128::MAX,
{
    reveal_with_fuel(pow3, 65);
}

} // verus!

verus! {

/// A winding vector with entries in `-1..=1` read as a base-3 number whose digit
/// `t` is `w[t] + 1`.
pub open spec fn winding_code(w: Seq<i32>) -> int
    decreases w.len(),
{
    if w.len() == 0 { 0 } else { (w[0] + 1) + 3 * winding_code(w.drop_first()) }
}

/// Every entry of `w` lies in `-1..=1`.
pub open spec fn unit_windings(w: Seq<i32>) -> bool {
    forall|t: int| 0 <= t < w.len() ==> -1 <= #[trigger] w[t] <= 1
}

proof fn lemma_winding_code_bound(w: Seq<i32>)
    requires
        unit_windings(w),
    ensures
        0 <= winding_code(w) < pow3(w.len()),
    decreases w.len(),
{
    if w.len() > 0 {
        let rest = w.drop_first();
        assert(unit_windings(rest)) by {
            assert forall|t: int| 0 <= t < rest.len() implies -1 <= #[trigger] rest[t] <= 1 by {
                assert(rest[t] == w[t + 1]);
            }
        }
        lemma_winding_code_bound(rest);
        assert(-1 <= w[0] <= 1);
        assert(pow3(w.len()) == 3 * pow3(rest.len()));
    }
}

/// The search key of a winding vector: its base-3 number.
fn encode_windings(w: &Vec<i32>) -> (r: u128)
    requires
        w@.len() <= 64,
        unit_windings(w@),
    ensures
        r == winding_code(w@),
        r < pow3(w@.len()),
{
    proof {
        lemma_pow3_64();
    }
    let n = w.len();
    let mut acc: u128 = 0;
    let mut t: usize = n;
    while t > 0
        invariant
            n == w@.len(),
            n <= 64,
            t <= n,
            unit_windings(w@),
            pow3(64) * 81 <= u128::MAX,
            acc == winding_code(w@.subrange(t as int, n as int)),
            acc < pow3((n - t) as nat),
        decreases t,
    {
        let ghost tail = w@.subrange(t as int, n as int);
        let ghost longer = w@.subrange(t - 1, n as int);
        proof {
            assert(longer.drop_first() =~= tail);
            assert(longer[0] == w@[t - 1]);
            assert(-1 <= w@[t - 1] <= 1);
            lemma_pow3_mono((n - t + 1) as nat, 64);
            assert(pow3((n - t + 1) as nat) == 3 * pow3((n - t) as nat));
        }
        acc = acc * 3 + (w[t - 1] + 1) as u128;
        t = t - 1;
    }
    assert(w@.subrange(0, n as int) =~= w@);
    acc
}

/// A finite set of numbers below `n` has at most `n` members.
proof fn lemma_bounded_set_len(s: Set<u128>, n: nat)
    requires
        s.finite(),
        forall|x: u128| #[trigger] s.contains(x) ==> x < n,
    ensures
        s.len() <= n,
    decreases n,
{
    if n == 0 {
        if s.len() > 0 {
            let x = s.choose();
            assert(s.contains(x));
        }
    } else if n - 1 > u128::MAX {
        lemma_bounded_set_len(s, (n - 1) as nat);
    } else {
        let top = (n - 1) as u128;
        let t = s.remove(top);
        lemma_bounded_set_len(t, (n - 1) as nat);
    }
}

} // verus!

verus! {

/// `p`, paired with its winding vector `w`, is one answer of the homotopy search:
/// a simple walk from one of `starts` to `finish` that winds at most once, either
/// way, around each of `rays`, with `w` its winding around each.
pub open spec fn homotopy_entry(
    edges: Seq<(int, int)>,
    rays: Seq<(PCoord, Orientation)>,
    finish: int,
    starts: Seq<int>,
    w: Seq<i32>,
    p: Seq<PCoord>,
) -> bool {
    &&& exists|nodes: Seq<int>|
        #[trigger] is_walk(edges, nodes) && starts.contains(nodes[0]) && nodes.last() == finish && p == cells_of(nodes)
    &&& p.no_duplicates()
    &&& w.len() == rays.len()
    &&& forall|t: int| 0 <= t < rays.len() ==> #[trigger] w[t] == path_winding(rays[t], p) && -1 <= w[t] <= 1
}

/// One state of the search: a walk from a start node, its cells, and how it
/// winds around each ray so far.
struct SearchState {
    node: usize,
    windings: Vec<i32>,
    path: Path,
    nodes: Ghost<Seq<int>>,
}

spec fn state_ok(s: SearchState, edges: Seq<(int, int)>, rays: Seq<(PCoord, Orientation)>, starts: Seq<int>) -> bool {
    &&& is_walk(edges, s.nodes@)
    &&& starts.contains(s.nodes@[0])
    &&& s.nodes@.last() == s.node
    &&& s.path@ == cells_of(s.nodes@)
    &&& s.windings@.len() == rays.len()
    &&& forall|t: int| 0 <= t < rays.len() ==> #[trigger] s.windings@[t] == path_winding(rays[t], s.path@) && -1 <= s.windings@[t] <= 1
}

/// The winding vector of a walk that has not taken a step: `k` zeros.
pub open spec fn zero_windings(k: nat) -> Seq<i32> {
    Seq::new(k, |i: int| 0i32)
}

/// `s` is the state the search starts from at `node`: no step taken yet.
spec fn is_start_state(s: SearchState, node: usize, k: nat) -> bool {
    &&& s.node == node
    &&& s.windings@ == zero_windings(k)
    &&& s.path@ == seq![PCoord::spec_from_index(node)]
}

/// The state of the homotopy search between two rounds: the walks still to be
/// looked at, front first, each as its last node, its winding vector and its cells;
/// the (winding vector, node) keys already queued; the classes kept so far.
pub struct SearchRound {
    pub queue: Seq<(int, Seq<i32>, Seq<PCoord>)>,
    pub visited: Set<u128>,
    pub classes: Seq<(Seq<i32>, Seq<PCoord>)>,
}

/// The winding vector `w` after the step from `from` to `to`.
pub open spec fn stepped_windings(rays: Seq<(PCoord, Orientation)>, w: Seq<i32>, from: PCoord, to: PCoord) -> Seq<i32> {
    Seq::new(w.len(), |t: int| (w[t] + step_winding(rays[t], from, to)) as i32)
}

/// The key under which the search remembers reaching node `m` with windings `w`.
pub open spec fn visit_key(w: Seq<i32>, m: int) -> u128 {
    (winding_code(w) * 81 + m) as u128
}

/// Extending walk `s` to neighbor `m`: the extension is queued, and its key
/// remembered, when it winds at most once around each ray and its key is new.
pub open spec fn search_step(
    rays: Seq<(PCoord, Orientation)>,
    s: (int, Seq<i32>, Seq<PCoord>),
    m: int,
    queue: Seq<(int, Seq<i32>, Seq<PCoord>)>,
    visited: Set<u128>,
) -> (Seq<(int, Seq<i32>, Seq<PCoord>)>, Set<u128>) {
    let to = PCoord::spec_from_index(m as usize);
    let w = stepped_windings(rays, s.1, PCoord::spec_from_index(s.0 as usize), to);
    if unit_windings(w) && !visited.contains(visit_key(w, m)) {
        (queue.push((m, w, s.2.push(to))), visited.insert(visit_key(w, m)))
    } else {
        (queue, visited)
    }
}

/// Extending walk `s` to each of `nbrs` in turn.
pub open spec fn search_expand(
    rays: Seq<(PCoord, Orientation)>,
    s: (int, Seq<i32>, Seq<PCoord>),
    nbrs: Seq<int>,
    queue: Seq<(int, Seq<i32>, Seq<PCoord>)>,
    visited: Set<u128>,
) -> (Seq<(int, Seq<i32>, Seq<PCoord>)>, Set<u128>)
    decreases nbrs.len(),
{
    if nbrs.len() == 0 {
        (queue, visited)
    } else {
        let before = search_expand(rays, s, nbrs.drop_last(), queue, visited);
        search_step(rays, s, nbrs.last(), before.0, before.1)
    }
}

/// Some kept class has winding vector `w`.
pub open spec fn has_class_spec(classes: Seq<(Seq<i32>, Seq<PCoord>)>, w: Seq<i32>) -> bool {
    exists|i: int| 0 <= i < classes.len() && #[trigger] classes[i].0 == w
}

/// One round of the search on a non-empty queue: the front walk is taken off; at
/// `finish` it is kept when it is simple and its winding vector is new; elsewhere it
/// is extended to the node's neighbors in petgraph's order.
pub open spec fn search_round(edges: Seq<(int, int)>, rays: Seq<(PCoord, Orientation)>, finish: int, st: SearchRound) -> SearchRound {
    let s = st.queue[0];
    let rest = st.queue.drop_first();
    if s.0 == finish {
        if s.2.no_duplicates() && !has_class_spec(st.classes, s.1) {
            SearchRound { queue: rest, visited: st.visited, classes: st.classes.push((s.1, s.2)) }
        } else {
            SearchRound { queue: rest, visited: st.visited, classes: st.classes }
        }
    } else {
        let e = search_expand(rays, s, neighbor_order(edges, s.0), rest, st.visited);
        SearchRound { queue: e.0, visited: e.1, classes: st.classes }
    }
}

/// The classes kept once the queue is empty, or after `fuel` rounds.
pub open spec fn search_rounds(
    edges: Seq<(int, int)>,
    rays: Seq<(PCoord, Orientation)>,
    finish: int,
    st: SearchRound,
    fuel: nat,
) -> Seq<(Seq<i32>, Seq<PCoord>)>
    decreases fuel,
{
    if fuel == 0 || st.queue.len() == 0 {
        st.classes
    } else {
        search_rounds(edges, rays, finish, search_round(edges, rays, finish, st), (fuel - 1) as nat)
    }
}

/// The search before its first round: one walk of a single cell per start node.
pub open spec fn search_start(rays: Seq<(PCoord, Orientation)>, starts: Seq<int>) -> SearchRound {
    SearchRound {
        queue: Seq::new(starts.len(), |i: int| (starts[i], zero_windings(rays.len()), seq![PCoord::spec_from_index(starts[i] as usize)])),
        visited: Set::empty(),
        classes: Seq::empty(),
    }
}

/// What the homotopy search returns: the classes kept when its queue runs empty,
/// which it does within the given number of rounds (each round after the start
/// walks takes a walk that was queued under a new key, and there are fewer keys).
pub open spec fn homotopy_search(edges: Seq<(int, int)>, rays: Seq<(PCoord, Orientation)>, finish: int, starts: Seq<int>) -> Seq<(Seq<i32>, Seq<PCoord>)> {
    search_rounds(edges, rays, finish, search_start(rays, starts), starts.len() + 81 * pow3(rays.len()))
}

/// The classes as winding vectors and cells.
pub open spec fn classes_view(c: Seq<(Vec<i32>, Path)>) -> Seq<(Seq<i32>, Seq<PCoord>)> {
    c.map_values(|e: (Vec<i32>, Path)| (e.0@, e.1@))
}

spec fn walk_view(s: SearchState) -> (int, Seq<i32>, Seq<PCoord>) {
    (s.node as int, s.windings@, s.path@)
}

spec fn round_view(q: Seq<SearchState>, v: Set<u128>, c: Seq<(Vec<i32>, Path)>) -> SearchRound {
    SearchRound { queue: q.map_values(|s: SearchState| walk_view(s)), visited: v, classes: classes_view(c) }
}

/// Whether some entry of `classes` has the winding vector `w`.
fn has_class(classes: &Vec<(Vec<i32>, Path)>, w: &Vec<i32>) -> (r: bool)
    ensures
        r == exists|i: int| 0 <= i < classes@.len() && (#[trigger] classes@[i]).0@ == w@,
{
    let mut i: usize = 0;
    while i < classes.len()
        invariant
            i <= classes@.len(),
            forall|j: int| 0 <= j < i ==> (#[trigger] classes@[j]).0@ != w@,
        decreases classes@.len() - i,
    {
        if same_windings(&classes[i].0, w) {
            return true;
        }
        i = i + 1;
    }
    false
}

/// A copy of a winding vector.
fn copy_windings(w: &Vec<i32>) -> (r: Vec<i32>)
    ensures
        r@ == w@,
{
    let mut r: Vec<i32> = Vec::new();
    let mut i: usize = 0;
    while i < w.len()
        invariant
            i <= w@.len(),
            r@ == w@.subrange(0, i as int),
        decreases w@.len() - i,
    {
        r.push(w[i]);
        proof {
            assert(r@ =~= w@.subrange(0, i + 1));
        }
        i = i + 1;
    }
    assert(r@ =~= w@);
    r
}

/// `q` walks from one of `starts` and meets `finish` at most at its end.
pub open spec fn plain_walk(edges: Seq<(int, int)>, starts: Seq<int>, finish: int, q: Seq<int>) -> bool {
    &&& is_walk(edges, q)
    &&& starts.contains(q[0])
    &&& forall|t: int| 0 <= t < q.len() - 1 ==> q[t] != finish
}

/// No such walk ends at `x` with fewer than `len` nodes.
pub open spec fn no_shorter(edges: Seq<(int, int)>, starts: Seq<int>, finish: int, x: int, len: int) -> bool {
    forall|q: Seq<int>| #[trigger] plain_walk(edges, starts, finish, q) && q.last() == x ==> len <= q.len()
}

/// Breadth-first search over (node, winding vector) states, from the start nodes
/// towards `finish`, for one simple walk per homotopy class: a step is dropped when
/// it would wind more than once around a ray, a state is explored once, and the
/// first simple walk that reaches `finish` with a winding vector not seen before is
/// kept, in the order found. The result is exactly [`homotopy_search`]; besides,
/// every entry is such a walk, the winding vectors differ, shorter walks come first,
/// and a start node at `finish` gives the one-cell walk first. With no rays there is
/// an entry exactly when some walk leads from a start node to `finish`, and then one
/// entry: a shortest such walk.
#[verifier::spinoff_prover]
#[verifier::rlimit(100)]
pub fn reverse_bfs_iterative(
    graph: &NavigationGraph,
    rays: &Vec<(PCoord, Orientation)>,
    finish: PCoord,
    start_nodes: Vec<usize>,
) -> (r: Vec<(Vec<i32>, Path)>)
    requires
        graph.bound() <= 81,
        rays@.len() <= 64,
    ensures
        classes_view(r@) == homotopy_search(graph.edges(), rays@, node_of(finish), usize_seq_view(start_nodes@)),
        forall|i: int| 0 <= i < r@.len() ==>
            homotopy_entry(graph.edges(), rays@, node_of(finish), usize_seq_view(start_nodes@), (#[trigger] r@[i]).0@, r@[i].1@),
        forall|i: int, j: int| 0 <= i < j < r@.len() ==> r@[i].0@ != r@[j].0@,
        forall|i: int, j: int| 0 <= i < j < r@.len() ==> r@[i].1@.len() <= r@[j].1@.len(),
        rays@.len() == 0 ==> r@.len() <= 1,
        rays@.len() == 0 && r@.len() > 0 ==> forall|p: Seq<int>| #[trigger] is_walk(graph.edges(), p)
            && usize_seq_view(start_nodes@).contains(p[0]) && p.last() == node_of(finish) ==> r@[0].1@.len() <= p.len(),
        rays@.len() == 0 && (exists|p: Seq<int>| #[trigger] is_walk(graph.edges(), p)
            && usize_seq_view(start_nodes@).contains(p[0]) && p.last() == node_of(finish)) ==> r@.len() > 0,
        usize_seq_view(start_nodes@).contains(node_of(finish)) ==> {
            &&& r@.len() > 0
            &&& r@[0].0@ == zero_windings(rays@.len())
            &&& r@[0].1@ == seq![PCoord::spec_from_index(node_of(finish) as usize)]
        },
{
    let ghost edges = graph.edges();
    let ghost starts = usize_seq_view(start_nodes@);
    let k = rays.len();
    let finish_index = finish.to_index();
    let mut queue: VecDeque<SearchState> = VecDeque::new();
    // the first start node that is the finish, or -1
    let ghost mut first: int = -1;
    let mut s: usize = 0;
    while s < start_nodes.len()
        invariant
            s <= start_nodes@.len(),
            k == rays@.len(),
            edges == graph.edges(),
            starts == usize_seq_view(start_nodes@),
            finish_index == node_of(finish),
            forall|i: int| 0 <= i < queue@.len() ==> state_ok(#[trigger] queue@[i], edges, rays@, starts),
            queue@.len() == s,
            forall|i: int| 0 <= i < s ==> is_start_state(#[trigger] queue@[i], start_nodes@[i], k as nat),
            first == -1 ==> forall|i: int| 0 <= i < s ==> start_nodes@[i] != finish_index,
            first != -1 ==> 0 <= first < s && start_nodes@[first] == finish_index
                && forall|i: int| 0 <= i < first ==> start_nodes@[i] != finish_index,
        decreases start_nodes@.len() - s,
    {
        let node = start_nodes[s];
        let mut windings: Vec<i32> = Vec::new();
        let mut t: usize = 0;
        while t < k
            invariant
                t <= k,
                windings@.len() == t,
                forall|i: int| 0 <= i < t ==> windings@[i] == 0,
            decreases k - t,
        {
            windings.push(0);
            t = t + 1;
        }
        let mut path = Path::empty();
        path.push(PCoord::from_index(node));
        let ghost nodes = seq![node as int];
        proof {
            assert(starts[s as int] == node as int);
            assert(cells_of(nodes) =~= path@);
            assert forall|t: int| 0 <= t < rays@.len() implies #[trigger] windings@[t] == path_winding(rays@[t], path@) && -1 <= windings@[t] <= 1 by {
                assert(winding_upto(rays@[t], path@, 0) == 0);
            }
        }
        let st = SearchState { node, windings, path, nodes: Ghost(nodes) };
        assert(state_ok(st, edges, rays@, starts));
        assert(st.windings@ =~= zero_windings(k as nat));
        assert(is_start_state(st, node, k as nat));
        queue.push_back(st);
        proof {
            if first == -1 && node == finish_index {
                first = s as int;
            }
        }
        s = s + 1;
    }
    proof {
        if starts.contains(finish_index as int) {
            let i = choose|i: int| 0 <= i < starts.len() && starts[i] == finish_index as int;
            assert(start_nodes@[i] == finish_index);
        }
        if first != -1 {
            assert(starts[first] == start_nodes@[first] as int);
        }
    }
    // the number of states taken from the queue so far, and their nodes
    let ghost mut pops: int = 0;
    let ghost mut done: Set<int> = Set::empty();
    let ghost n = start_nodes@.len();
    let mut visited: HashSet<u128> = HashSet::new();
    let mut classes: Vec<(Vec<i32>, Path)> = Vec::new();
    let ghost limit: int = (81 * pow3(k as nat)) as int;
    let ghost fuel: int = start_nodes@.len() + limit;
    proof {
        broadcast use vstd::std_specs::hash::group_hash_axioms;
        lemma_pow3_mono(k as nat, 64);
        lemma_pow3_64();
        let init = round_view(queue@, visited@, classes@);
        let spec_start = search_start(rays@, starts);
        assert forall|i: int| 0 <= i < queue@.len() implies #[trigger] init.queue[i] == spec_start.queue[i] by {
            assert(is_start_state(queue@[i], start_nodes@[i], k as nat));
        }
        assert(init.queue =~= spec_start.queue);
        assert(init.visited =~= spec_start.visited);
        assert(init.classes =~= spec_start.classes);
        assert(init == spec_start);
        assert forall|i: int| 0 <= i < n - 0 implies is_start_state(#[trigger] queue@[i], start_nodes@[0 + i], k as nat) by {
            assert(is_start_state(queue@[i], start_nodes@[i], k as nat));
        }
        assert forall|i: int| 0 <= i < queue@.len() implies (#[trigger] queue@[i]).nodes@.len() == 1 by {
            assert(is_start_state(queue@[i], start_nodes@[i], k as nat));
            assert(cells_of(queue@[i].nodes@).len() == queue@[i].nodes@.len());
        }
        assert forall|m: int| ((0 <= m < 81 && visited@.contains(m as u128)) || starts.contains(m)) && !#[trigger] done.contains(m)
            implies exists|i: int| 0 <= i < queue@.len() && #[trigger] queue@[i].node == m
                && no_shorter(edges, starts, finish_index as int, m, queue@[i].path@.len() as int) by {
            if starts.contains(m) {
                let i = choose|i: int| 0 <= i < starts.len() && starts[i] == m;
                assert(is_start_state(queue@[i], start_nodes@[i], k as nat));
                assert(queue@[i].node == m);
            }
        }
    }
    loop
        invariant
            k == rays@.len(),
            k <= 64,
            graph.bound() <= 81,
            edges == graph.edges(),
            starts == usize_seq_view(start_nodes@),
            finish_index == node_of(finish),
            limit == 81 * pow3(k as nat),
            1 <= pow3(k as nat) <= pow3(64),
            pow3(64) * 81 <= u128::MAX,
            forall|i: int| 0 <= i < queue@.len() ==> state_ok(#[trigger] queue@[i], edges, rays@, starts),
            visited@.finite(),
            forall|x: u128| #[trigger] visited@.contains(x) ==> x < limit,
            forall|i: int| 0 <= i < classes@.len() ==>
                homotopy_entry(edges, rays@, node_of(finish), starts, (#[trigger] classes@[i]).0@, classes@[i].1@),
            forall|i: int, j: int| 0 <= i < j < classes@.len() ==> classes@[i].0@ != classes@[j].0@,
            first != -1 <==> starts.contains(finish_index as int),
            0 <= pops,
            first != -1 && pops <= first ==> {
                &&& classes@.len() == 0
                &&& first - pops < queue@.len()
                &&& is_start_state(queue@[first - pops], finish_index, k as nat)
                &&& forall|i: int| 0 <= i < first - pops ==> (#[trigger] queue@[i]).node != finish_index
            },
            first != -1 && pops > first ==> {
                &&& classes@.len() > 0
                &&& classes@[0].0@ == zero_windings(k as nat)
                &&& classes@[0].1@ == seq![PCoord::spec_from_index(finish_index)]
            },
            forall|i: int, j: int| 0 <= i < j < queue@.len() ==> (#[trigger] queue@[i]).path@.len() <= (#[trigger] queue@[j]).path@.len(),
            forall|i: int| 0 <= i < queue@.len() ==> (#[trigger] queue@[i]).path@.len() <= queue@[0].path@.len() + 1,
            forall|c: int, i: int| 0 <= c < classes@.len() && 0 <= i < queue@.len() ==>
                (#[trigger] classes@[c]).1@.len() <= (#[trigger] queue@[i]).path@.len(),
            forall|c: int, d: int| 0 <= c < d < classes@.len() ==> (#[trigger] classes@[c]).1@.len() <= (#[trigger] classes@[d]).1@.len(),
            fuel == start_nodes@.len() + limit,
            pops + queue@.len() <= start_nodes@.len() + visited@.len(),
            search_rounds(edges, rays@, finish_index as int, round_view(queue@, visited@, classes@), (fuel - pops) as nat)
                == homotopy_search(edges, rays@, finish_index as int, starts),
            n == start_nodes@.len(),
            pops < n ==> pops + queue@.len() >= n,
            pops < n ==> forall|i: int| 0 <= i < n - pops ==> is_start_state(#[trigger] queue@[i], start_nodes@[pops + i], k as nat),
            forall|i: int| 0 <= i < n && i < pops ==> done.contains(#[trigger] start_nodes@[i] as int),
            k == 0 ==> forall|x: int, m: int| #[trigger] done.contains(x) && x != finish_index && #[trigger] adjacent(edges, x, m)
                ==> 0 <= m < 81 && visited@.contains(m as u128),
            k == 0 ==> forall|m: int| 0 <= m < 81 && #[trigger] visited@.contains(m as u128) ==>
                done.contains(m) || exists|i: int| 0 <= i < queue@.len() && #[trigger] queue@[i].node == m,
            k == 0 ==> forall|i: int| 0 <= i < queue@.len() ==>
                (#[trigger] queue@[i]).path@.no_duplicates() || done.contains(queue@[i].node as int),
            k == 0 ==> forall|i: int, t: int| 0 <= i < queue@.len() && 1 <= t < queue@[i].nodes@.len() ==>
                0 <= #[trigger] queue@[i].nodes@[t] < 81 && visited@.contains(queue@[i].nodes@[t] as u128),
            k == 0 ==> forall|i: int| 0 <= i < queue@.len() && (#[trigger] queue@[i]).nodes@.len() >= 2 ==> 0 <= queue@[i].nodes@[0] < 81,
            k == 0 && done.contains(finish_index as int) ==> classes@.len() > 0,
            k == 0 ==> forall|m: int| ((0 <= m < 81 && visited@.contains(m as u128)) || starts.contains(m)) && !#[trigger] done.contains(m)
                ==> exists|i: int| 0 <= i < queue@.len() && #[trigger] queue@[i].node == m
                    && no_shorter(edges, starts, finish_index as int, m, queue@[i].path@.len() as int),
            k == 0 && queue@.len() > 0 ==> forall|q: Seq<int>| #[trigger] plain_walk(edges, starts, finish_index as int, q)
                && q.len() < queue@[0].path@.len() ==> done.contains(q.last()),
            k == 0 && classes@.len() > 0 ==> no_shorter(edges, starts, finish_index as int, finish_index as int, classes@[0].1@.len() as int),
        decreases 2 * (limit - visited@.len()) + queue@.len(),
    {
        proof {
            broadcast use vstd::std_specs::hash::group_hash_axioms;
            lemma_bounded_set_len(visited@, limit as nat);
        }
        let ghost measure = 2 * (limit - visited@.len()) + queue@.len();
        let ghost before = queue@;
        let ghost done0 = done;
        let ghost st0 = round_view(queue@, visited@, classes@);
        let ghost st1 = search_round(edges, rays@, finish_index as int, st0);
        let popped = queue.pop_front();
        let state = match popped {
            None => {
                proof {
                    assert(st0.queue.len() == 0);
                    if k == 0 {
                        lemma_search_complete(edges, start_nodes@, finish_index as int, done, visited@, classes@.len() as int);
                        if classes@.len() >= 2 {
                            assert(classes@[0].0@ =~= classes@[1].0@);
                        }
                        if classes@.len() > 0 {
                            assert forall|p: Seq<int>| #[trigger] is_walk(graph.edges(), p)
                                && usize_seq_view(start_nodes@).contains(p[0]) && p.last() == node_of(finish)
                                implies classes@[0].1@.len() <= p.len() by {
                                lemma_plain_prefix(edges, starts, finish_index as int, p, p.len() - 1);
                                let q = choose|q: Seq<int>| #[trigger] plain_walk(edges, starts, finish_index as int, q)
                                    && q.last() == finish_index as int && q.len() <= p.len();
                            }
                        }
                    }
                }
                return classes;
            },
            Some(state) => state,
        };
        assert(state_ok(state, edges, rays@, starts));
        proof {
            assert(state == before[0]);
            assert forall|i: int| 0 <= i < queue@.len() implies queue@[i] == before[i + 1] by {}
            assert(pops < fuel);
            assert(search_rounds(edges, rays@, finish_index as int, st0, (fuel - pops) as nat)
                == search_rounds(edges, rays@, finish_index as int, st1, (fuel - (pops + 1)) as nat));
            assert(st0.queue[0] == walk_view(state));
            assert(queue@.map_values(|s: SearchState| walk_view(s)) =~= st0.queue.drop_first());
            if pops < n {
                assert(is_start_state(before[0], start_nodes@[pops], k as nat));
            }
            pops = pops + 1;
            done = done.insert(state.node as int);
            assert forall|i: int| 0 <= i < n && i < pops implies done.contains(#[trigger] start_nodes@[i] as int) by {
                if i == pops - 1 {
                    assert(state.node == start_nodes@[i]);
                }
            }
            if pops < n {
                assert forall|i: int| 0 <= i < n - pops implies is_start_state(#[trigger] queue@[i], start_nodes@[pops + i], k as nat) by {
                    assert(queue@[i] == before[i + 1]);
                }
            }
            if k == 0 {
                assert forall|m: int| 0 <= m < 81 && #[trigger] visited@.contains(m as u128) implies
                    done.contains(m) || exists|i: int| 0 <= i < queue@.len() && #[trigger] queue@[i].node == m by {
                    if !done.contains(m) {
                        let i = choose|i: int| 0 <= i < before.len() && #[trigger] before[i].node == m;
                        assert(i != 0);
                        assert(queue@[i - 1] == before[i]);
                    }
                }
                assert forall|i: int| 0 <= i < queue@.len() implies
                    (#[trigger] queue@[i]).path@.no_duplicates() || done.contains(queue@[i].node as int) by {
                    assert(queue@[i] == before[i + 1]);
                }
                assert forall|i: int, t: int| 0 <= i < queue@.len() && 1 <= t < queue@[i].nodes@.len() implies
                    0 <= #[trigger] queue@[i].nodes@[t] < 81 && visited@.contains(queue@[i].nodes@[t] as u128) by {
                    assert(queue@[i] == before[i + 1]);
                }
                assert forall|i: int| 0 <= i < queue@.len() && (#[trigger] queue@[i]).nodes@.len() >= 2 implies
                    0 <= queue@[i].nodes@[0] < 81 by {
                    assert(queue@[i] == before[i + 1]);
                }
            }
        }
        if state.node == finish_index {
            proof {
                if first != -1 && pops - 1 < first {
                    assert(before[0].node != finish_index);
                }
                if first != -1 && pops - 1 == first {
                    assert(is_start_state(state, finish_index, k as nat));
                    assert(state.path@.no_duplicates());
                }
            }
            let simple = state.path.is_simple();
            let known = has_class(&classes, &state.windings);
            proof {
                let cv = classes_view(classes@);
                if known {
                    let i = choose|i: int| 0 <= i < classes@.len() && (#[trigger] classes@[i]).0@ == state.windings@;
                    assert(cv[i].0 == state.windings@);
                }
                if has_class_spec(cv, state.windings@) {
                    let i = choose|i: int| 0 <= i < cv.len() && #[trigger] cv[i].0 == state.windings@;
                    assert(classes@[i].0@ == state.windings@);
                }
                assert(known == has_class_spec(cv, state.windings@));
            }
            let ghost old_classes = classes@;
            if simple && !known {
                let ghost w = state.windings@;
                let ghost p = state.path@;
                proof {
                    assert(is_walk(edges, state.nodes@));
                }
                classes.push((state.windings, state.path));
                proof {
                    assert(homotopy_entry(edges, rays@, node_of(finish), starts, w, p));
                    assert(classes_view(classes@) =~= classes_view(old_classes).push((w, p)));
                }
            }
            proof {
                let now = round_view(queue@, visited@, classes@);
                assert(now.queue == st1.queue);
                assert(now.visited == st1.visited);
                assert(now.classes =~= st1.classes);
                assert(now == st1);
                if k == 0 {
                    if known {
                        let i = choose|i: int| 0 <= i < old_classes.len() && (#[trigger] old_classes[i]).0@ == state.windings@;
                    } else if !simple {
                        assert(!before[0].path@.no_duplicates());
                        assert(done0.contains(finish_index as int));
                    }
                    assert forall|m: int| ((0 <= m < 81 && visited@.contains(m as u128)) || starts.contains(m)) && !#[trigger] done.contains(m)
                        implies exists|i: int| 0 <= i < queue@.len() && #[trigger] queue@[i].node == m
                            && no_shorter(edges, starts, finish_index as int, m, queue@[i].path@.len() as int) by {
                        assert(!done0.contains(m));
                        let i = choose|i: int| 0 <= i < before.len() && #[trigger] before[i].node == m
                            && no_shorter(edges, starts, finish_index as int, m, before[i].path@.len() as int);
                        assert(i != 0);
                        assert(queue@[i - 1] == before[i]);
                    }
                    if queue@.len() > 0 {
                        assert forall|q: Seq<int>| #[trigger] plain_walk(edges, starts, finish_index as int, q)
                            && q.len() < queue@[0].path@.len() implies done.contains(q.last()) by {
                            assert forall|i: int| 1 <= i < before.len() implies queue@[0].path@.len() <= (#[trigger] before[i]).path@.len() by {
                                assert(queue@[0] == before[1]);
                            }
                            assert(queue@[0] == before[1]);
                            lemma_next_layer(edges, starts, finish_index as int, before, done0, done, visited@,
                                queue@[0].path@.len() as int, q);
                        }
                    }
                    if old_classes.len() == 0 && classes@.len() > 0 {
                        assert forall|q: Seq<int>| #[trigger] plain_walk(edges, starts, finish_index as int, q) && q.last() == finish_index as int
                            implies classes@[0].1@.len() <= q.len() by {
                            if q.len() < before[0].path@.len() {
                                assert(done0.contains(q.last()));
                            }
                        }
                    }
                }
            }
            continue;
        }
        let neighbors = graph.neighbors(state.node);
        let cur = PCoord::from_index(state.node);
        let ghost q0 = queue@;
        let ghost v0 = visited@;
        let ghost sv = walk_view(state);
        let ghost nbrs = usize_seq_view(neighbors@);
        proof {
            assert(nbrs.take(0) =~= Seq::<int>::empty());
        }
        proof {
            if first != -1 && pops - 1 == first {
                assert(is_start_state(before[0], finish_index, k as nat));
            }
            if first != -1 && pops <= first {
                assert(q0[first - pops] == before[first - (pops - 1)]);
                assert forall|i: int| 0 <= i < first - pops implies (#[trigger] q0[i]).node != finish_index by {
                    assert(q0[i] == before[i + 1]);
                }
            }
        }
        proof {
            if k == 0 {
                assert(before[0].path@.no_duplicates() || done0.contains(state.node as int));
                assert forall|t: int| 1 <= t < state.nodes@.len() implies
                    0 <= #[trigger] state.nodes@[t] < 81 && v0.contains(state.nodes@[t] as u128) by {
                    assert(before[0].nodes@[t] == state.nodes@[t]);
                }
                if state.nodes@.len() >= 2 {
                    assert(0 <= before[0].nodes@[0] < 81);
                    if pops - 1 < n {
                        assert(is_start_state(before[0], start_nodes@[pops - 1], k as nat));
                        assert(cells_of(state.nodes@).len() == state.nodes@.len());
                    }
                    let si = choose|si: int| 0 <= si < starts.len() && starts[si] == state.nodes@[0];
                    assert(done0.contains(start_nodes@[si] as int));
                }
                if done0.contains(state.node as int) {
                    assert forall|t: int| 0 <= t < neighbors@.len() implies v0.contains(#[trigger] neighbors@[t] as u128) by {
                        assert(adjacent(edges, state.node as int, neighbors@[t] as int));
                    }
                }
                assert forall|m: int| ((0 <= m < 81 && visited@.contains(m as u128)) || starts.contains(m)) && !#[trigger] done.contains(m)
                    implies exists|i: int| 0 <= i < queue@.len() && #[trigger] queue@[i].node == m
                        && no_shorter(edges, starts, finish_index as int, m, queue@[i].path@.len() as int) by {
                    assert(!done0.contains(m));
                    let i = choose|i: int| 0 <= i < before.len() && #[trigger] before[i].node == m
                        && no_shorter(edges, starts, finish_index as int, m, before[i].path@.len() as int);
                    assert(i != 0);
                    assert(queue@[i - 1] == before[i]);
                }
            }
        }
        let mut j: usize = 0;
        while j < neighbors.len()
            invariant
                k == rays@.len(),
                k <= 64,
                graph.bound() <= 81,
                edges == graph.edges(),
                starts == usize_seq_view(start_nodes@),
                limit == 81 * pow3(k as nat),
                1 <= pow3(k as nat) <= pow3(64),
                pow3(64) * 81 <= u128::MAX,
                state_ok(state, edges, rays@, starts),
                cur == PCoord::spec_from_index(state.node),
                j <= neighbors@.len(),
                forall|i: int| 0 <= i < neighbors@.len() ==>
                    adjacent(edges, state.node as int, #[trigger] neighbors@[i] as int) && neighbors@[i] < graph.bound(),
                forall|i: int| 0 <= i < queue@.len() ==> state_ok(#[trigger] queue@[i], edges, rays@, starts),
                visited@.finite(),
                forall|x: u128| #[trigger] visited@.contains(x) ==> x < limit,
                2 * (limit - visited@.len()) + queue@.len() < measure,
                visited@.len() <= limit,
                q0.len() <= queue@.len(),
                forall|i: int| 0 <= i < q0.len() ==> queue@[i] == q0[i],
                forall|i: int| q0.len() <= i < queue@.len() ==> (#[trigger] queue@[i]).path@.len() == state.path@.len() + 1,
                sv == walk_view(state),
                nbrs == usize_seq_view(neighbors@),
                n == start_nodes@.len(),
                done == done0.insert(state.node as int),
                state.node != finish_index,
                neighbors@.len() > 0 ==> state.node < 81,
                forall|x: u128| v0.contains(x) ==> #[trigger] visited@.contains(x),
                k == 0 ==> forall|t: int| 0 <= t < j ==> visited@.contains(#[trigger] neighbors@[t] as u128),
                k == 0 ==> forall|m: int| 0 <= m < 81 && #[trigger] visited@.contains(m as u128) ==>
                    done.contains(m) || exists|i: int| 0 <= i < queue@.len() && #[trigger] queue@[i].node == m,
                k == 0 ==> forall|i: int| 0 <= i < queue@.len() ==>
                    (#[trigger] queue@[i]).path@.no_duplicates() || done.contains(queue@[i].node as int),
                k == 0 ==> forall|i: int, t: int| 0 <= i < queue@.len() && 1 <= t < queue@[i].nodes@.len() ==>
                    0 <= #[trigger] queue@[i].nodes@[t] < 81 && visited@.contains(queue@[i].nodes@[t] as u128),
                k == 0 ==> forall|i: int| 0 <= i < queue@.len() && (#[trigger] queue@[i]).nodes@.len() >= 2 ==> 0 <= queue@[i].nodes@[0] < 81,
                k == 0 ==> state.path@.no_duplicates() || done0.contains(state.node as int),
                k == 0 && done0.contains(state.node as int) ==> forall|t: int| 0 <= t < neighbors@.len() ==> v0.contains(#[trigger] neighbors@[t] as u128),
                k == 0 ==> forall|t: int| 1 <= t < state.nodes@.len() ==> 0 <= #[trigger] state.nodes@[t] < 81 && v0.contains(state.nodes@[t] as u128),
                k == 0 && state.nodes@.len() >= 2 ==> 0 <= state.nodes@[0] < 81 && done0.contains(state.nodes@[0]),
                k == 0 ==> forall|q: Seq<int>| #[trigger] plain_walk(edges, starts, finish_index as int, q)
                    && q.len() < state.path@.len() ==> done0.contains(q.last()),
                k == 0 ==> forall|x: int, mm: int| #[trigger] done0.contains(x) && x != finish_index && #[trigger] adjacent(edges, x, mm)
                    ==> 0 <= mm < 81 && v0.contains(mm as u128),
                k == 0 ==> forall|mm: int| ((0 <= mm < 81 && visited@.contains(mm as u128)) || starts.contains(mm)) && !#[trigger] done.contains(mm)
                    ==> exists|i: int| 0 <= i < queue@.len() && #[trigger] queue@[i].node == mm
                        && no_shorter(edges, starts, finish_index as int, mm, queue@[i].path@.len() as int),
                pops + queue@.len() <= start_nodes@.len() + visited@.len(),
                ({
                    let e = search_expand(rays@, sv, nbrs.take(j as int), q0.map_values(|s: SearchState| walk_view(s)), v0);
                    &&& queue@.map_values(|s: SearchState| walk_view(s)) == e.0
                    &&& visited@ == e.1
                }),
            decreases neighbors@.len() - j,
        {
            let m = neighbors[j];
            let next = PCoord::from_index(m);
            let mut new_windings = copy_windings(&state.windings);
            let mut valid = true;
            let mut i: usize = 0;
            while i < k && valid
                invariant
                    k == rays@.len(),
                    state_ok(state, edges, rays@, starts),
                    i <= k,
                    new_windings@.len() == k,
                    forall|t: int| 0 <= t < i ==> #[trigger] new_windings@[t] == state.windings@[t] + step_winding(rays@[t], cur, next),
                    forall|t: int| i <= t < k ==> #[trigger] new_windings@[t] == state.windings@[t],
                    valid ==> forall|t: int| 0 <= t < i ==> -1 <= #[trigger] new_windings@[t] <= 1,
                    !valid ==> exists|t: int| 0 <= t < i && !(-1 <= #[trigger] new_windings@[t] <= 1),
                decreases k - i,
            {
                let dw = step_ray_winding(&rays[i], cur, next);
                proof {
                    lemma_step_winding_unit(rays@[i as int], cur, next);
                    assert(-1 <= state.windings@[i as int] <= 1);
                }
                let v = new_windings[i] + dw;
                new_windings.set(i, v);
                if v > 1 || v < -1 {
                    valid = false;
                    assert(!(-1 <= new_windings@[i as int] <= 1));
                }
                i = i + 1;
            }
            let ghost stepped = stepped_windings(rays@, state.windings@, cur, next);
            let ghost qb = queue@;
            let ghost vb = visited@;
            proof {
                assert(nbrs[j as int] == m as int);
                assert(nbrs.take(j + 1).drop_last() =~= nbrs.take(j as int));
                assert(nbrs.take(j + 1).last() == m as int);
                assert(PCoord::spec_from_index((m as int) as usize) == next);
                assert(PCoord::spec_from_index((sv.0) as usize) == cur);
                assert forall|t: int| 0 <= t < i implies #[trigger] stepped[t] == new_windings@[t] by {
                    lemma_step_winding_unit(rays@[t], cur, next);
                }
                if valid {
                    assert(stepped =~= new_windings@);
                } else {
                    let t = choose|t: int| 0 <= t < i && !(-1 <= #[trigger] new_windings@[t] <= 1);
                    assert(stepped[t] == new_windings@[t]);
                    assert(!unit_windings(stepped));
                }
            }
            if valid {
                proof {
                    assert(unit_windings(new_windings@));
                }
                let code = encode_windings(&new_windings);
                proof {
                    lemma_pow3_mono(k as nat, 64);
                    assert((code as int) * 81 + (m as int) <= pow3(64) * 81) by (nonlinear_arith)
                        requires
                            code < pow3(k as nat),
                            pow3(k as nat) <= pow3(64),
                            m < 81;
                    assert((code as int) * 81 + (m as int) < limit) by (nonlinear_arith)
                        requires
                            code < pow3(k as nat),
                            limit == 81 * pow3(k as nat),
                            m < 81;
                }
                let key: u128 = code * 81 + m as u128;
                assert(key == visit_key(stepped, m as int));
                let fresh = visited.insert(key);
                if !fresh {
                    assert(visited@ =~= vb);
                }
                if fresh {
                    let mut next_path = state.path.copy();
                    next_path.push(next);
                    let ghost next_nodes = state.nodes@.push(m as int);
                    proof {
                        assert(adjacent(edges, state.node as int, m as int));
                        assert forall|t: int| 0 <= t < next_nodes.len() - 1 implies #[trigger] adjacent(edges, next_nodes[t], next_nodes[t + 1]) by {
                            if t < next_nodes.len() - 2 {
                                assert(next_nodes[t] == state.nodes@[t] && next_nodes[t + 1] == state.nodes@[t + 1]);
                                assert(adjacent(edges, state.nodes@[t], state.nodes@[t + 1]));
                            }
                        }
                        assert(cells_of(next_nodes) =~= cells_of(state.nodes@).push(next));
                        assert(state.path@.last() == cur);
                        assert forall|t: int| 0 <= t < rays@.len() implies #[trigger] new_windings@[t] == path_winding(rays@[t], next_path@)
                            && -1 <= new_windings@[t] <= 1 by {
                            lemma_path_winding_push(rays@[t], state.path@, next);
                        }
                    }
                    let next_state = SearchState { node: m, windings: new_windings, path: next_path, nodes: Ghost(next_nodes) };
                    assert(state_ok(next_state, edges, rays@, starts));
                    assert(walk_view(next_state) == (m as int, stepped, sv.2.push(next)));
                    queue.push_back(next_state);
                    proof {
                        lemma_bounded_set_len(visited@, limit as nat);
                        assert(queue@.map_values(|s: SearchState| walk_view(s))
                            =~= qb.map_values(|s: SearchState| walk_view(s)).push(walk_view(next_state)));
                        if k == 0 {
                            assert(stepped =~= Seq::<i32>::empty());
                            assert(key == m as u128);
                            assert(!v0.contains(m as u128));
                            assert(queue@[queue@.len() - 1] == next_state);
                            assert(!done0.contains(state.node as int));
                            lemma_fresh_step_simple(state.path@, state.nodes@, m as int, state.node as int, v0, done);
                            assert forall|i: int| 0 <= i < queue@.len() implies
                                (#[trigger] queue@[i]).path@.no_duplicates() || done.contains(queue@[i].node as int) by {
                                if i < qb.len() {
                                    assert(queue@[i] == qb[i]);
                                }
                            }
                            assert forall|i: int, t: int| 0 <= i < queue@.len() && 1 <= t < queue@[i].nodes@.len() implies
                                0 <= #[trigger] queue@[i].nodes@[t] < 81 && visited@.contains(queue@[i].nodes@[t] as u128) by {
                                if i < qb.len() {
                                    assert(queue@[i] == qb[i]);
                                } else if t < state.nodes@.len() {
                                    assert(next_nodes[t] == state.nodes@[t]);
                                }
                            }
                            assert forall|i: int| 0 <= i < queue@.len() && (#[trigger] queue@[i]).nodes@.len() >= 2 implies
                                0 <= queue@[i].nodes@[0] < 81 by {
                                if i < qb.len() {
                                    assert(queue@[i] == qb[i]);
                                } else {
                                    assert(next_nodes[0] == state.nodes@[0]);
                                }
                            }
                            assert forall|mm: int| ((0 <= mm < 81 && visited@.contains(mm as u128)) || starts.contains(mm)) && !#[trigger] done.contains(mm)
                                implies exists|i: int| 0 <= i < queue@.len() && #[trigger] queue@[i].node == mm
                                    && no_shorter(edges, starts, finish_index as int, mm, queue@[i].path@.len() as int) by {
                                if mm == m as int && !starts.contains(mm) {
                                    let last = queue@.len() - 1;
                                    assert(queue@[last].node == mm);
                                    assert(queue@[last].path@.len() == state.path@.len() + 1);
                                    assert forall|q: Seq<int>| #[trigger] plain_walk(edges, starts, finish_index as int, q) && q.last() == mm
                                        implies state.path@.len() + 1 <= q.len() by {
                                        if q.len() <= state.path@.len() {
                                            if q.len() >= 2 {
                                                lemma_plain_walk_drop_last(edges, starts, finish_index as int, q);
                                                assert(done0.contains(q.drop_last().last()));
                                                assert(v0.contains(mm as u128));
                                            }
                                        }
                                    }
                                } else {
                                    assert((0 <= mm < 81 && vb.contains(mm as u128)) || starts.contains(mm));
                                    let i = choose|i: int| 0 <= i < qb.len() && #[trigger] qb[i].node == mm
                                        && no_shorter(edges, starts, finish_index as int, mm, qb[i].path@.len() as int);
                                    assert(queue@[i] == qb[i]);
                                }
                            }
                            assert forall|mm: int| 0 <= mm < 81 && #[trigger] visited@.contains(mm as u128) implies
                                done.contains(mm) || exists|i: int| 0 <= i < queue@.len() && #[trigger] queue@[i].node == mm by {
                                if mm == m as int {
                                    assert(queue@[queue@.len() - 1].node == mm);
                                } else {
                                    assert(vb.contains(mm as u128));
                                    if !done.contains(mm) {
                                        let i = choose|i: int| 0 <= i < qb.len() && #[trigger] qb[i].node == mm;
                                        assert(queue@[i] == qb[i]);
                                    }
                                }
                            }
                        }
                    }
                }
                proof {
                    if k == 0 {
                        assert(stepped =~= Seq::<i32>::empty());
                        assert(visited@.contains(m as u128));
                    }
                }
            }
            j = j + 1;
        }
        proof {
            assert(nbrs.take(nbrs.len() as int) =~= nbrs);
            if pops < n {
                assert forall|i: int| 0 <= i < n - pops implies is_start_state(#[trigger] queue@[i], start_nodes@[pops + i], k as nat) by {
                    assert(queue@[i] == q0[i]);
                    assert(q0[i] == before[i + 1]);
                }
            }
            if k == 0 {
                assert forall|x: int, mm: int| #[trigger] done.contains(x) && x != finish_index && #[trigger] adjacent(edges, x, mm)
                    implies 0 <= mm < 81 && visited@.contains(mm as u128) by {
                    if x == state.node as int {
                        let t = choose|t: int| 0 <= t < neighbors@.len() && neighbors@[t] == mm;
                        assert(visited@.contains(neighbors@[t] as u128));
                    } else {
                        assert(done0.contains(x));
                        assert(v0.contains(mm as u128));
                    }
                }
            }
            let now = round_view(queue@, visited@, classes@);
            assert(now.queue == st1.queue);
            assert(now.visited == st1.visited);
            assert(now.classes == st1.classes);
            assert(now == st1);
            let len = state.path@.len();
            assert forall|i: int| 0 <= i < q0.len() implies len <= (#[trigger] q0[i]).path@.len() <= len + 1 by {
                assert(q0[i] == before[i + 1]);
                assert(before[i + 1].path@.len() <= before[0].path@.len() + 1);
            }
            assert forall|i: int, j: int| 0 <= i < j < queue@.len() implies (#[trigger] queue@[i]).path@.len() <= (#[trigger] queue@[j]).path@.len() by {
                if j < q0.len() {
                    assert(q0[i] == before[i + 1] && q0[j] == before[j + 1]);
                    assert(before[i + 1].path@.len() <= before[j + 1].path@.len());
                } else if i < q0.len() {
                    assert(q0[i].path@.len() <= len + 1);
                }
            }
            assert forall|i: int| 0 <= i < queue@.len() implies (#[trigger] queue@[i]).path@.len() <= queue@[0].path@.len() + 1 by {
                if q0.len() > 0 {
                    assert(queue@[0] == q0[0]);
                    assert(len <= q0[0].path@.len());
                    if i < q0.len() {
                        assert(q0[i].path@.len() <= len + 1);
                    }
                }
            }
            assert forall|c: int, i: int| 0 <= c < classes@.len() && 0 <= i < queue@.len() implies
                (#[trigger] classes@[c]).1@.len() <= (#[trigger] queue@[i]).path@.len() by {
                assert(classes@[c].1@.len() <= before[0].path@.len());
                if i < q0.len() {
                    assert(len <= q0[i].path@.len());
                }
            }
            if k == 0 && queue@.len() > 0 {
                assert forall|i: int| 1 <= i < before.len() implies queue@[0].path@.len() <= (#[trigger] before[i]).path@.len() by {
                    assert(q0[i - 1] == before[i]);
                    assert(queue@[i - 1] == q0[i - 1]);
                }
                if q0.len() > 0 {
                    assert(queue@[0] == q0[0] && q0[0] == before[1]);
                }
                assert forall|q: Seq<int>| #[trigger] plain_walk(edges, starts, finish_index as int, q)
                    && q.len() < queue@[0].path@.len() implies done.contains(q.last()) by {
                    lemma_next_layer(edges, starts, finish_index as int, before, done0, done, v0,
                        queue@[0].path@.len() as int, q);
                }
            }
            if first != -1 && pops <= first {
                assert(queue@[first - pops] == q0[first - pops]);
                assert forall|i: int| 0 <= i < first - pops implies (#[trigger] queue@[i]).node != finish_index by {
                    assert(queue@[i] == q0[i]);
                }
            }
        }
    }
}

/// The nodes of a list of cells.
pub open spec fn target_nodes(targets: Seq<PCoord>) -> Seq<int> {
    targets.map_values(|t: PCoord| node_of(t))
}

impl BarricadeGrid {
    /// One simple path per homotopy class from a cell of `targets` to `start`: the
    /// search of [`reverse_bfs_iterative`] over this lattice's navigation graph, with
    /// its barricades as rays. Each path comes with its winding vector; the result is
    /// exactly [`homotopy_search`] on this lattice. Without barricades there is one
    /// path, a shortest one, exactly when `start` can be reached from a target.
    pub fn find_paths(&self, start: PCoord, targets: &[PCoord]) -> (r: Vec<(Vec<i32>, Path)>)
        ensures
            classes_view(r@) == homotopy_search(grid_edges(self@), grid_rays(self@), node_of(start), target_nodes(targets@)),
            grid_rays(self@).len() == 0 ==> r@.len() <= 1,
            grid_rays(self@).len() == 0 && r@.len() > 0 ==> forall|p: Seq<int>| #[trigger] is_walk(grid_edges(self@), p)
                && target_nodes(targets@).contains(p[0]) && p.last() == node_of(start) ==> r@[0].1@.len() <= p.len(),
            grid_rays(self@).len() == 0 ==> (r@.len() > 0 <==> exists|p: Seq<int>| #[trigger] is_walk(grid_edges(self@), p)
                && target_nodes(targets@).contains(p[0]) && p.last() == node_of(start)),
            forall|i: int| 0 <= i < r@.len() ==>
                homotopy_entry(grid_edges(self@), grid_rays(self@), node_of(start), target_nodes(targets@),
                    (#[trigger] r@[i]).0@, r@[i].1@),
            forall|i: int, j: int| 0 <= i < j < r@.len() ==> r@[i].0@ != r@[j].0@,
            forall|i: int, j: int| 0 <= i < j < r@.len() ==> r@[i].1@.len() <= r@[j].1@.len(),
            target_nodes(targets@).contains(node_of(start)) ==> {
                &&& r@.len() > 0
                &&& r@[0].0@ == zero_windings(grid_rays(self@).len())
                &&& r@[0].1@ == seq![PCoord::spec_from_index(node_of(start) as usize)]
            },
            start.in_bounds() && targets@.contains(start) ==> r@.len() > 0 && r@[0].1@ == seq![start],
    {
        let rays = self.rays();
        proof {
            lemma_rays_upto_len(self@, 64);
        }
        let graph = self.get_navgraph();
        let mut start_nodes: Vec<usize> = Vec::new();
        let mut i: usize = 0;
        while i < targets.len()
            invariant
                i <= targets@.len(),
                usize_seq_view(start_nodes@) == target_nodes(targets@).subrange(0, i as int),
            decreases targets@.len() - i,
        {
            let node = targets[i].to_index();
            assert(node as int == node_of(targets@[i as int]));
            let ghost before = start_nodes@;
            start_nodes.push(node);
            proof {
                assert(start_nodes@ == before.push(node));
                assert(usize_seq_view(start_nodes@) =~= usize_seq_view(before).push(node as int));
                assert(target_nodes(targets@)[i as int] == node as int);
                assert(usize_seq_view(start_nodes@) =~= target_nodes(targets@).subrange(0, i + 1));
            }
            i = i + 1;
        }
        assert(usize_seq_view(start_nodes@) =~= target_nodes(targets@));
        let r = reverse_bfs_iterative(&graph, &rays, start, start_nodes);
        proof {
            if r@.len() > 0 {
                assert(homotopy_entry(grid_edges(self@), grid_rays(self@), node_of(start), target_nodes(targets@), r@[0].0@, r@[0].1@));
            }
            crate::coord::lemma_pcoord_index_roundtrip(start, 0);
            if targets@.contains(start) {
                let i = choose|i: int| 0 <= i < targets@.len() && targets@[i] == start;
                assert(target_nodes(targets@)[i] == node_of(start));
            }
        }
        r
    }
}

/// At most one ray per slot.
proof fn lemma_rays_upto_len(slots: Seq<Option<Barricade>>, k: nat)
    ensures
        rays_upto(slots, k).len() <= k,
    decreases k,
{
    if k > 0 {
        lemma_rays_upto_len(slots, (k - 1) as nat);
    }
}

} // verus!

verus! {

/// What a slot shows a moving player: the orientation of its barricade, if any.
pub open spec fn slot_shape(s: Option<Barricade>) -> Option<Orientation> {
    match s {
        Some(b) => Some(b.orientation),
        None => None,
    }
}

/// Two lattices whose slots hold barricades of the same orientations, whoever
/// placed them, block the same steps.
pub proof fn lemma_blocked_same_shape(s1: Seq<Option<Barricade>>, s2: Seq<Option<Barricade>>, a: PCoord, b: PCoord)
    requires
        s1.len() == 64,
        s2.len() == 64,
        forall|i: int| 0 <= i < 64 ==> slot_shape(#[trigger] s1[i]) == slot_shape(s2[i]),
    ensures
        blocked(s1, a, b) == blocked(s2, a, b),
{
    assert forall|x: int, y: int, o: Orientation| slot_holds(s1, x, y, o) == slot_holds(s2, x, y, o) by {
        if 0 <= x < 8 && 0 <= y < 8 {
            assert(slot_shape(s1[x + y * 8]) == slot_shape(s2[x + y * 8]));
        }
    }
}

/// Two lattices whose slots hold barricades of the same orientations have the same
/// navigation graph.
pub proof fn lemma_grid_edges_same_shape(s1: Seq<Option<Barricade>>, s2: Seq<Option<Barricade>>)
    requires
        s1.len() == 64,
        s2.len() == 64,
        forall|i: int| 0 <= i < 64 ==> slot_shape(#[trigger] s1[i]) == slot_shape(s2[i]),
    ensures
        grid_edges(s1) == grid_edges(s2),
{
    lemma_edges_upto_same_shape(s1, s2, 81);
}

proof fn lemma_edges_upto_same_shape(s1: Seq<Option<Barricade>>, s2: Seq<Option<Barricade>>, k: nat)
    requires
        s1.len() == 64,
        s2.len() == 64,
        forall|i: int| 0 <= i < 64 ==> slot_shape(#[trigger] s1[i]) == slot_shape(s2[i]),
    ensures
        edges_upto(s1, k) == edges_upto(s2, k),
    decreases k,
{
    if k > 0 {
        lemma_edges_upto_same_shape(s1, s2, (k - 1) as nat);
        let c = k - 1;
        let x = c % 9;
        let y = c / 9;
        let here = PCoord { x: x as i32, y: y as i32 };
        let right = PCoord { x: (x + 1) as i32, y: y as i32 };
        let below = PCoord { x: x as i32, y: (y + 1) as i32 };
        lemma_blocked_same_shape(s1, s2, here, right);
        lemma_blocked_same_shape(s1, s2, here, below);
        assert(cell_edges(s1, c) == cell_edges(s2, c));
    }
}

/// Whether a barricade lies across a step does not depend on its direction.
pub proof fn lemma_blocked_symmetric(slots: Seq<Option<Barricade>>, a: PCoord, b: PCoord)
    ensures
        blocked(slots, a, b) == blocked(slots, b, a),
{
}

/// The edge list of the first `k` cells holds the edges of each of them.
pub proof fn lemma_edges_upto_has_cell(slots: Seq<Option<Barricade>>, c: int, k: nat, e: (int, int))
    requires
        0 <= c < k,
        cell_edges(slots, c).contains(e),
    ensures
        edges_upto(slots, k).contains(e),
    decreases k,
{
    if c < k - 1 {
        lemma_edges_upto_has_cell(slots, c, (k - 1) as nat, e);
        let prev = edges_upto(slots, (k - 1) as nat);
        let i = choose|i: int| 0 <= i < prev.len() && #[trigger] prev[i] == e;
        assert(edges_upto(slots, k)[i] == e);
    } else {
        let cells = cell_edges(slots, c);
        let i = choose|i: int| 0 <= i < cells.len() && #[trigger] cells[i] == e;
        let prev = edges_upto(slots, (k - 1) as nat);
        assert(edges_upto(slots, k)[prev.len() + i] == e);
    }
}

/// Two orthogonally adjacent cells of the board with no barricade between them are
/// joined by an edge of the navigation graph.
pub proof fn lemma_open_step_is_edge(slots: Seq<Option<Barricade>>, a: PCoord, b: PCoord)
    requires
        a.in_bounds(),
        b.in_bounds(),
        (b.x - a.x == 1 || b.x - a.x == -1) && b.y == a.y || (b.y - a.y == 1 || b.y - a.y == -1) && b.x == a.x,
        !blocked(slots, a, b),
    ensures
        adjacent(grid_edges(slots), a.index(), b.index()),
{
    lemma_blocked_symmetric(slots, a, b);
    if b.x - a.x == 1 || b.y - a.y == 1 {
        lemma_first_cell_edge(slots, a, b);
        lemma_edges_upto_has_cell(slots, a.index(), 81, (a.index(), b.index()));
    } else {
        lemma_first_cell_edge(slots, b, a);
        lemma_edges_upto_has_cell(slots, b.index(), 81, (b.index(), a.index()));
    }
}

proof fn lemma_first_cell_edge(slots: Seq<Option<Barricade>>, a: PCoord, b: PCoord)
    requires
        a.in_bounds(),
        b.in_bounds(),
        b.x - a.x == 1 && b.y == a.y || b.y - a.y == 1 && b.x == a.x,
        !blocked(slots, a, b),
    ensures
        cell_edges(slots, a.index()).contains((a.index(), b.index())),
{
    let c = a.index();
    assert(c % 9 == a.x && c / 9 == a.y);
    let here = PCoord { x: (c % 9) as i32, y: (c / 9) as i32 };
    assert(here == a);
    if b.x - a.x == 1 {
        let right = PCoord { x: (c % 9 + 1) as i32, y: (c / 9) as i32 };
        assert(right == b);
        assert(cell_edges(slots, c)[0] == (c, c + 1));
    } else {
        let below = PCoord { x: (c % 9) as i32, y: (c / 9 + 1) as i32 };
        assert(below == b);
        let first = if c % 9 + 1 < 9 && !blocked(slots, here, PCoord { x: (c % 9 + 1) as i32, y: (c / 9) as i32 }) {
            seq![(c, c + 1)]
        } else {
            Seq::<(int, int)>::empty()
        };
        assert(cell_edges(slots, c)[first.len() as int] == (c, c + 9));
    }
}

} // verus!

verus! {

proof fn lemma_edges_upto_from_cells(slots: Seq<Option<Barricade>>, k: nat, e: (int, int))
    requires
        edges_upto(slots, k).contains(e),
    ensures
        exists|c: int| 0 <= c < k && #[trigger] cell_edges(slots, c).contains(e),
    decreases k,
{
    let prev = edges_upto(slots, (k - 1) as nat);
    let i = choose|i: int| 0 <= i < edges_upto(slots, k).len() && #[trigger] edges_upto(slots, k)[i] == e;
    if i < prev.len() {
        assert(prev[i] == e);
        lemma_edges_upto_from_cells(slots, (k - 1) as nat, e);
    } else {
        let cells = cell_edges(slots, k - 1);
        assert(cells[i - prev.len()] == e);
        assert(cells.contains(e));
    }
}

/// An edge that a cell adds goes to its right or lower neighbor, with no barricade between.
proof fn lemma_cell_edge_shape(slots: Seq<Option<Barricade>>, c: int, e: (int, int))
    requires
        0 <= c < 81,
        cell_edges(slots, c).contains(e),
    ensures
        ({
            let here = PCoord { x: (c % 9) as i32, y: (c / 9) as i32 };
            let right = PCoord { x: (c % 9 + 1) as i32, y: (c / 9) as i32 };
            let below = PCoord { x: (c % 9) as i32, y: (c / 9 + 1) as i32 };
            ||| e == (c, c + 1) && c % 9 + 1 < 9 && !blocked(slots, here, right)
            ||| e == (c, c + 9) && c / 9 + 1 < 9 && !blocked(slots, here, below)
        }),
{
    let cells = cell_edges(slots, c);
    let i = choose|i: int| 0 <= i < cells.len() && #[trigger] cells[i] == e;
}

/// Two cells of the board are joined by an edge of the navigation graph exactly when
/// they are orthogonal neighbors with no barricade between them.
pub proof fn lemma_navgraph_edges_exact(slots: Seq<Option<Barricade>>, a: PCoord, b: PCoord)
    requires
        a.in_bounds(),
        b.in_bounds(),
    ensures
        adjacent(grid_edges(slots), a.index(), b.index()) <==> {
            &&& (b.x - a.x == 1 || b.x - a.x == -1) && b.y == a.y || (b.y - a.y == 1 || b.y - a.y == -1) && b.x == a.x
            &&& !blocked(slots, a, b)
        },
{
    let edges = grid_edges(slots);
    if (b.x - a.x == 1 || b.x - a.x == -1) && b.y == a.y || (b.y - a.y == 1 || b.y - a.y == -1) && b.x == a.x {
        if !blocked(slots, a, b) {
            lemma_open_step_is_edge(slots, a, b);
        }
    }
    lemma_blocked_symmetric(slots, a, b);
    if edges.contains((a.index(), b.index())) {
        lemma_edge_is_open_step(slots, a, b);
    }
    if edges.contains((b.index(), a.index())) {
        lemma_edge_is_open_step(slots, b, a);
    }
}

proof fn lemma_edge_is_open_step(slots: Seq<Option<Barricade>>, a: PCoord, b: PCoord)
    requires
        a.in_bounds(),
        b.in_bounds(),
        grid_edges(slots).contains((a.index(), b.index())),
    ensures
        (b.x - a.x == 1 && b.y == a.y || b.y - a.y == 1 && b.x == a.x) && !blocked(slots, a, b),
{
    let e = (a.index(), b.index());
    lemma_edges_upto_from_cells(slots, 81, e);
    let c = choose|c: int| 0 <= c < 81 && #[trigger] cell_edges(slots, c).contains(e);
    lemma_cell_edge_shape(slots, c, e);
    assert(c == a.index());
    assert(c % 9 == a.x && c / 9 == a.y);
    if e == (c, c + 1) {
        assert(b.index() == a.index() + 1);
        assert(b.x == a.x + 1 && b.y == a.y);
    } else {
        assert(b.index() == a.index() + 9);
        assert(b.x == a.x && b.y == a.y + 1);
    }
}

} // verus!

verus! {

/// The number of slots that hold a barricade.
pub open spec fn count_placed(slots: Seq<Option<Barricade>>) -> nat
    decreases slots.len(),
{
    if slots.len() == 0 {
        0
    } else {
        count_placed(slots.drop_last()) + if slots.last() is Some { 1nat } else { 0nat }
    }
}

/// Filling an empty slot adds one to the count.
pub proof fn lemma_count_placed_fill(slots: Seq<Option<Barricade>>, i: int, b: Barricade)
    requires
        0 <= i < slots.len(),
        slots[i] is None,
    ensures
        count_placed(slots.update(i, Some(b))) == count_placed(slots) + 1,
    decreases slots.len(),
{
    let u = slots.update(i, Some(b));
    if i == slots.len() - 1 {
        assert(u.drop_last() =~= slots.drop_last());
    } else {
        assert(u.drop_last() =~= slots.drop_last().update(i, Some(b)));
        lemma_count_placed_fill(slots.drop_last(), i, b);
    }
}

/// A lattice with no barricades counts none.
pub proof fn lemma_count_placed_empty(slots: Seq<Option<Barricade>>)
    requires
        forall|i: int| 0 <= i < slots.len() ==> slots[i] is None,
    ensures
        count_placed(slots) == 0,
    decreases slots.len(),
{
    if slots.len() > 0 {
        lemma_count_placed_empty(slots.drop_last());
    }
}


/// No two barricades block the same step: no two horizontal ones side by side and
/// no two vertical ones one above the other (what the placement rules ensure).
pub open spec fn no_shared_steps(slots: Seq<Option<Barricade>>) -> bool {
    &&& forall|x: int, y: int|
        !(#[trigger] slot_holds(slots, x, y, Orientation::Horizontal) && slot_holds(slots, x + 1, y, Orientation::Horizontal))
    &&& forall|x: int, y: int|
        !(#[trigger] slot_holds(slots, x, y, Orientation::Vertical) && slot_holds(slots, x, y + 1, Orientation::Vertical))
}

/// The two cells whose steps a barricade of orientation `o` in slot `i` blocks: the
/// steps down from the two cells above a horizontal one, the steps right from the
/// two cells left of a vertical one.
spec fn blocked_cells(i: int, o: Orientation) -> (int, int) {
    let a = i % 8 + 9 * (i / 8);
    match o {
        Orientation::Horizontal => (a, a + 1),
        Orientation::Vertical => (a, a + 9),
    }
}

/// Filling an empty slot without sharing a step takes exactly one edge away from each
/// of the two cells whose steps the barricade blocks, and none from any other cell.
proof fn lemma_cell_edges_after_fill(s1: Seq<Option<Barricade>>, i: int, b: Barricade, c: int)
    requires
        s1.len() == 64,
        0 <= i < 64,
        s1[i] is None,
        no_shared_steps(s1.update(i, Some(b))),
        0 <= c < 81,
    ensures
        cell_edges(s1.update(i, Some(b)), c).len() + (if c == blocked_cells(i, b.orientation).0
            || c == blocked_cells(i, b.orientation).1 { 1int } else { 0int }) == cell_edges(s1, c).len(),
{
    let s2 = s1.update(i, Some(b));
    let xi = i % 8;
    let yi = i / 8;
    assert forall|x: int, y: int, o: Orientation| #[trigger] slot_holds(s2, x, y, o)
        <==> slot_holds(s1, x, y, o) || (x == xi && y == yi && o == b.orientation) by {
        if 0 <= x < 8 && 0 <= y < 8 {
            if x + y * 8 == i {
                assert(x == xi && y == yi);
            } else {
                assert(s2[x + y * 8] == s1[x + y * 8]);
            }
        }
    }
    assert(!slot_holds(s1, xi, yi, Orientation::Horizontal) && !slot_holds(s1, xi, yi, Orientation::Vertical)) by {
        assert(xi + yi * 8 == i);
    }
    let x = c % 9;
    let y = c / 9;
    let here = PCoord { x: x as i32, y: y as i32 };
    let right = PCoord { x: (x + 1) as i32, y: y as i32 };
    let below = PCoord { x: x as i32, y: (y + 1) as i32 };
    assert(slot_holds(s2, x, y - 1, Orientation::Vertical) == (slot_holds(s1, x, y - 1, Orientation::Vertical)
        || (x == xi && y - 1 == yi && b.orientation == Orientation::Vertical)));
    assert(slot_holds(s2, x, y, Orientation::Vertical) == (slot_holds(s1, x, y, Orientation::Vertical)
        || (x == xi && y == yi && b.orientation == Orientation::Vertical)));
    assert(slot_holds(s2, x - 1, y, Orientation::Horizontal) == (slot_holds(s1, x - 1, y, Orientation::Horizontal)
        || (x - 1 == xi && y == yi && b.orientation == Orientation::Horizontal)));
    assert(slot_holds(s2, x, y, Orientation::Horizontal) == (slot_holds(s1, x, y, Orientation::Horizontal)
        || (x == xi && y == yi && b.orientation == Orientation::Horizontal)));
    // a step newly blocked was open before: another barricade across it would share it
    assert(slot_holds(s2, xi, yi, b.orientation));
    assert(!slot_holds(s2, xi - 1, yi, Orientation::Horizontal) || b.orientation != Orientation::Horizontal);
    assert(!slot_holds(s2, xi + 1, yi, Orientation::Horizontal) || b.orientation != Orientation::Horizontal);
    assert(!slot_holds(s2, xi, yi - 1, Orientation::Vertical) || b.orientation != Orientation::Vertical);
    assert(!slot_holds(s2, xi, yi + 1, Orientation::Vertical) || b.orientation != Orientation::Vertical);
}

proof fn lemma_edges_upto_after_fill(s1: Seq<Option<Barricade>>, i: int, b: Barricade, k: nat)
    requires
        s1.len() == 64,
        0 <= i < 64,
        s1[i] is None,
        no_shared_steps(s1.update(i, Some(b))),
        k <= 81,
    ensures
        edges_upto(s1.update(i, Some(b)), k).len()
            + (if blocked_cells(i, b.orientation).0 < k { 1int } else { 0int })
            + (if blocked_cells(i, b.orientation).1 < k { 1int } else { 0int }) == edges_upto(s1, k).len(),
    decreases k,
{
    if k > 0 {
        lemma_edges_upto_after_fill(s1, i, b, (k - 1) as nat);
        lemma_cell_edges_after_fill(s1, i, b, k - 1);
    }
}

/// The edges of the first `k` cells of a lattice with no barricades: every step
/// right within a row and every step down above the last row.
proof fn lemma_empty_edges(slots: Seq<Option<Barricade>>, k: nat)
    requires
        slots.len() == 64,
        forall|t: int| 0 <= t < 64 ==> slots[t] is None,
        k <= 81,
    ensures
        edges_upto(slots, k).len() == 8 * (k / 9) + 9 * (if k / 9 < 8 { k / 9 } else { 8 })
            + k % 9 + (if k / 9 < 8 { k % 9 } else { 0 }),
    decreases k,
{
    if k > 0 {
        lemma_empty_edges(slots, (k - 1) as nat);
        let c = k - 1;
        let x = c % 9;
        let y = c / 9;
        assert forall|xx: int, yy: int, o: Orientation| !slot_holds(slots, xx, yy, o) by {}
        assert(cell_edges(slots, c).len() == (if x + 1 < 9 { 1int } else { 0int }) + (if y + 1 < 9 { 1int } else { 0int }));
        if x == 8 {
            assert(k / 9 == y + 1 && k % 9 == 0);
        } else {
            assert(k / 9 == y && k % 9 == x + 1);
        }
    }
}

/// The first `j` slots of `slots`, the others emptied.
spec fn slots_prefix(slots: Seq<Option<Barricade>>, j: int) -> Seq<Option<Barricade>> {
    Seq::new(64, |t: int| if t < j { slots[t] } else { None })
}

proof fn lemma_edge_count_prefix(slots: Seq<Option<Barricade>>, j: int)
    requires
        slots.len() == 64,
        no_shared_steps(slots),
        0 <= j <= 64,
    ensures
        edges_upto(slots_prefix(slots, j), 81).len() + 2 * count_placed(slots_prefix(slots, j)) == 144,
    decreases j,
{
    let pj = slots_prefix(slots, j);
    if j == 0 {
        lemma_empty_edges(pj, 81);
        lemma_count_placed_empty(pj);
    } else {
        lemma_edge_count_prefix(slots, j - 1);
        let prev = slots_prefix(slots, j - 1);
        if slots[j - 1] is None {
            assert(pj =~= prev);
        } else {
            let b = slots[j - 1]->0;
            assert(pj =~= prev.update(j - 1, Some(b)));
            assert forall|x: int, y: int, o: Orientation| #[trigger] slot_holds(pj, x, y, o) implies slot_holds(slots, x, y, o) by {
                assert(pj[x + y * 8] == slots[x + y * 8]);
            }
            assert(no_shared_steps(pj));
            lemma_edges_upto_after_fill(prev, j - 1, b, 81);
            lemma_count_placed_fill(prev, j - 1, b);
        }
    }
}

/// With no two barricades blocking the same step, the navigation graph has the 144
/// edges of the full grid less two for each barricade.
pub proof fn lemma_edge_count(slots: Seq<Option<Barricade>>)
    requires
        slots.len() == 64,
        no_shared_steps(slots),
    ensures
        grid_edges(slots).len() == 144 - 2 * count_placed(slots),
{
    lemma_edge_count_prefix(slots, 64);
    assert(slots_prefix(slots, 64) =~= slots);
}

proof fn lemma_walk_stays_done(edges: Seq<(int, int)>, done: Set<int>, finish: int, p: Seq<int>, j: int)
    requires
        is_walk(edges, p),
        done.contains(p[0]),
        0 <= j < p.len(),
        forall|x: int, m: int| #[trigger] done.contains(x) && x != finish && #[trigger] adjacent(edges, x, m) ==> done.contains(m),
        forall|t: int| 0 <= t < j ==> p[t] != finish,
    ensures
        done.contains(p[j]),
    decreases j,
{
    if j > 0 {
        lemma_walk_stays_done(edges, done, finish, p, j - 1);
        let i = j - 1;
        assert(adjacent(edges, p[i], p[i + 1]));
    }
}

proof fn lemma_walk_reaches_finish(edges: Seq<(int, int)>, done: Set<int>, finish: int, p: Seq<int>, j: int)
    requires
        is_walk(edges, p),
        done.contains(p[0]),
        0 <= j < p.len(),
        p[j] == finish,
        forall|x: int, m: int| #[trigger] done.contains(x) && x != finish && #[trigger] adjacent(edges, x, m) ==> done.contains(m),
    ensures
        done.contains(finish),
    decreases j,
{
    if exists|t: int| 0 <= t < j && p[t] == finish {
        let t = choose|t: int| 0 <= t < j && p[t] == finish;
        lemma_walk_reaches_finish(edges, done, finish, p, t);
    } else {
        lemma_walk_stays_done(edges, done, finish, p, j);
    }
}

/// Without rays, once the queue of the search is empty, every node that a walk from
/// a start node reaches, up to and including the finish, has been taken from it.
proof fn lemma_search_complete(edges: Seq<(int, int)>, start_nodes: Seq<usize>, finish: int, done: Set<int>,
    visited: Set<u128>, classes: int)
    requires
        forall|i: int| 0 <= i < start_nodes.len() ==> done.contains(#[trigger] start_nodes[i] as int),
        forall|x: int, m: int| #[trigger] done.contains(x) && x != finish && #[trigger] adjacent(edges, x, m)
            ==> 0 <= m < 81 && visited.contains(m as u128),
        forall|m: int| 0 <= m < 81 && #[trigger] visited.contains(m as u128) ==> done.contains(m),
        done.contains(finish) ==> classes > 0,
    ensures
        (exists|p: Seq<int>| #[trigger] is_walk(edges, p) && usize_seq_view(start_nodes).contains(p[0]) && p.last() == finish)
            ==> classes > 0,
{
    if exists|p: Seq<int>| #[trigger] is_walk(edges, p) && usize_seq_view(start_nodes).contains(p[0]) && p.last() == finish {
        let p = choose|p: Seq<int>| #[trigger] is_walk(edges, p) && usize_seq_view(start_nodes).contains(p[0]) && p.last() == finish;
        let i = choose|i: int| 0 <= i < usize_seq_view(start_nodes).len() && usize_seq_view(start_nodes)[i] == p[0];
        assert(done.contains(start_nodes[i] as int));
        assert forall|x: int, m: int| #[trigger] done.contains(x) && x != finish && #[trigger] adjacent(edges, x, m)
            implies done.contains(m) by {
            assert(visited.contains(m as u128));
        }
        lemma_walk_reaches_finish(edges, done, finish, p, p.len() - 1);
    }
}

/// Extending a simple walk to a node not reached before keeps it simple, unless that
/// node is the walk's start and has already been taken from the queue.
proof fn lemma_fresh_step_simple(path: Seq<PCoord>, nodes: Seq<int>, m: int, node: int, v0: Set<u128>, done: Set<int>)
    requires
        path == cells_of(nodes),
        nodes.len() > 0,
        nodes.last() == node,
        path.no_duplicates(),
        0 <= m < 81,
        0 <= node < 81,
        !v0.contains(m as u128),
        forall|t: int| 1 <= t < nodes.len() ==> 0 <= #[trigger] nodes[t] < 81 && v0.contains(nodes[t] as u128),
        nodes.len() >= 2 ==> 0 <= nodes[0] < 81 && done.contains(nodes[0]),
        done.contains(node),
    ensures
        path.push(PCoord::spec_from_index(m as usize)).no_duplicates() || done.contains(m),
{
    let next = PCoord::spec_from_index(m as usize);
    crate::coord::lemma_pcoord_index_roundtrip(next, m as usize);
    if path.contains(next) {
        let t = choose|t: int| 0 <= t < path.len() && path[t] == next;
        assert(path[t] == PCoord::spec_from_index(nodes[t] as usize));
        if t >= 1 || nodes.len() >= 2 {
            assert(0 <= nodes[t] < 81);
        } else {
            assert(nodes[t] == node);
        }
        crate::coord::lemma_pcoord_index_roundtrip(path[t], nodes[t] as usize);
        assert(nodes[t] == m);
    } else {
        let q = path.push(next);
        assert forall|a: int, b: int| 0 <= a < b < q.len() implies q[a] != q[b] by {
            if b == q.len() - 1 {
                assert(path.contains(q[a]));
            }
        }
    }
}

proof fn lemma_plain_walk_drop_last(edges: Seq<(int, int)>, starts: Seq<int>, finish: int, q: Seq<int>)
    requires
        plain_walk(edges, starts, finish, q),
        q.len() >= 2,
    ensures
        plain_walk(edges, starts, finish, q.drop_last()),
        adjacent(edges, q.drop_last().last(), q.last()),
        q.drop_last().last() != finish,
{
    let p = q.drop_last();
    assert forall|t: int| 0 <= t < p.len() - 1 implies #[trigger] adjacent(edges, p[t], p[t + 1]) by {
        assert(adjacent(edges, q[t], q[t + 1]));
    }
    let i = q.len() - 2;
    assert(adjacent(edges, q[i], q[i + 1]));
}

/// A walk from a start node to `finish` begins with a walk that meets `finish` only
/// at its end.
proof fn lemma_plain_prefix(edges: Seq<(int, int)>, starts: Seq<int>, finish: int, p: Seq<int>, j: int)
    requires
        is_walk(edges, p),
        starts.contains(p[0]),
        0 <= j < p.len(),
        p[j] == finish,
    ensures
        exists|q: Seq<int>| #[trigger] plain_walk(edges, starts, finish, q) && q.last() == finish && q.len() <= p.len(),
    decreases j,
{
    if exists|t: int| 0 <= t < j && p[t] == finish {
        let t = choose|t: int| 0 <= t < j && p[t] == finish;
        lemma_plain_prefix(edges, starts, finish, p, t);
    } else {
        let q = p.subrange(0, j + 1);
        assert forall|t: int| 0 <= t < q.len() - 1 implies #[trigger] adjacent(edges, q[t], q[t + 1]) by {
            assert(adjacent(edges, p[t], p[t + 1]));
        }
        assert(plain_walk(edges, starts, finish, q));
    }
}

/// Breadth-first layering: once the front of the queue has moved on to longer walks,
/// every node that a shorter walk reaches has been taken from the queue.
proof fn lemma_next_layer(
    edges: Seq<(int, int)>,
    starts: Seq<int>,
    finish: int,
    before: Seq<SearchState>,
    done0: Set<int>,
    done1: Set<int>,
    v0: Set<u128>,
    l1: int,
    q: Seq<int>,
)
    requires
        before.len() > 0,
        forall|x: int| done0.contains(x) ==> #[trigger] done1.contains(x),
        done1.contains(before[0].node as int),
        l1 <= before[0].path@.len() + 1,
        forall|i: int| 1 <= i < before.len() ==> l1 <= (#[trigger] before[i]).path@.len(),
        plain_walk(edges, starts, finish, q),
        q.len() < l1,
        forall|p: Seq<int>| #[trigger] plain_walk(edges, starts, finish, p) && p.len() < before[0].path@.len() ==> done0.contains(p.last()),
        forall|x: int, m: int| #[trigger] done0.contains(x) && x != finish && #[trigger] adjacent(edges, x, m)
            ==> 0 <= m < 81 && v0.contains(m as u128),
        forall|m: int| ((0 <= m < 81 && v0.contains(m as u128)) || starts.contains(m)) && !#[trigger] done0.contains(m)
            ==> exists|i: int| 0 <= i < before.len() && #[trigger] before[i].node == m
                && no_shorter(edges, starts, finish, m, before[i].path@.len() as int),
    ensures
        done1.contains(q.last()),
{
    let l0 = before[0].path@.len() as int;
    let x = q.last();
    if q.len() < l0 {
        assert(done0.contains(x));
    } else if !done1.contains(x) {
        if q.len() >= 2 {
            lemma_plain_walk_drop_last(edges, starts, finish, q);
            let p = q.drop_last();
            assert(done0.contains(p.last()));
        } else {
            assert(starts.contains(q[0]));
        }
        let i = choose|i: int| 0 <= i < before.len() && #[trigger] before[i].node == x
            && no_shorter(edges, starts, finish, x, before[i].path@.len() as int);
        assert(before[i].path@.len() <= q.len());
        assert(i != 0);
    }
}
} // verus!
