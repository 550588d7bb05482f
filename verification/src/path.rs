use vstd::prelude::*;
use crate::coord::{BCoord, PCoord};
use crate::types::{Orientation, Team};
use crate::grid::grid_rays;
use crate::map::GameMap;
use crate::graph::{adjacent, astar_route, cells_of, is_route, is_shortest_route, is_walk, node_of};
use crate::grid::grid_edges;

verus! {

/// A sequence of cells, one step apart.
#[derive(Clone, Debug)]
pub struct Path(Vec<PCoord>);

impl View for Path {
    type V = Seq<PCoord>;

    closed spec fn view(&self) -> Seq<PCoord> {
        self.0@
    }
}

impl Path {
    /// An empty path.
    pub fn empty() -> (r: Path)
        ensures
            r@ == Seq::<PCoord>::empty(),
    {
        Path(Vec::new())
    }

    /// The path that visits `coords` in order.
    pub fn from_vec(coords: Vec<PCoord>) -> (r: Path)
        ensures
            r@ == coords@,
    {
        Path(coords)
    }

    /// The path that visits the cells of `coords` in order.
    pub fn from_slice(coords: &[PCoord]) -> (r: Path)
        ensures
            r@ == coords@,
    {
        let mut v: Vec<PCoord> = Vec::new();
        let mut i: usize = 0;
        while i < coords.len()
            invariant
                i <= coords@.len(),
                v@ == coords@.subrange(0, i as int),
            decreases coords@.len() - i,
        {
            v.push(coords[i]);
            i = i + 1;
        }
        Path(v)
    }

    /// The cells of the path.
    pub fn coords(&self) -> (r: &Vec<PCoord>)
        ensures
            r@ == self@,
    {
        &self.0
    }

    /// Number of cells on the path.
    pub fn len(&self) -> (r: usize)
        ensures
            r == self@.len(),
    {
        self.0.len()
    }

    /// The `i`-th cell of the path.
    pub fn at(&self, i: usize) -> (r: PCoord)
        requires
            i < self@.len(),
        ensures
            r == self@[i as int],
    {
        self.0[i]
    }

    /// Appends a cell.
    pub fn push(&mut self, c: PCoord)
        ensures
            final(self)@ == old(self)@.push(c),
    {
        self.0.push(c);
    }

    /// A copy of the path.
    pub fn copy(&self) -> (r: Path)
        ensures
            r@ == self@,
    {
        Path::from_slice(self.0.as_slice())
    }
}

} // verus!

verus! {

/// A barricade seen as a ray: from its slot's corner cell, horizontal barricades
/// cast to the right, vertical ones downwards.
pub type Ray = (PCoord, Orientation);

/// How a single step from `from` to `to` winds around `ray`: `-1` or `+1` when it
/// crosses the ray's line on the ray's side one way or the other, `0` otherwise.
pub open spec fn step_winding(ray: Ray, from: PCoord, to: PCoord) -> int {
    let (origin, o) = ray;
    match o {
        Orientation::Horizontal => {
            if from.x >= origin.x && to.x >= origin.x {
                if from.y <= origin.y && to.y > origin.y {
                    -1
                } else if from.y > origin.y && to.y <= origin.y {
                    1
                } else {
                    0
                }
            } else {
                0
            }
        },
        Orientation::Vertical => {
            if from.y >= origin.y && to.y >= origin.y {
                if from.x > origin.x && to.x <= origin.x {
                    -1
                } else if from.x <= origin.x && to.x > origin.x {
                    1
                } else {
                    0
                }
            } else {
                0
            }
        },
    }
}

/// The winding of the first `k` steps of `p` around `ray`.
pub open spec fn winding_upto(ray: Ray, p: Seq<PCoord>, k: nat) -> int
    decreases k,
{
    if k == 0 {
        0
    } else {
        winding_upto(ray, p, (k - 1) as nat) + step_winding(ray, p[k - 1], p[k as int])
    }
}

/// The winding of the whole of `p` around `ray`.
pub open spec fn path_winding(ray: Ray, p: Seq<PCoord>) -> int {
    if p.len() == 0 { 0 } else { winding_upto(ray, p, (p.len() - 1) as nat) }
}

/// How a step winds around a barricade ray.
pub fn step_ray_winding(ray: &(PCoord, Orientation), from: PCoord, to: PCoord) -> (r: i32)
    ensures
        r == step_winding(*ray, from, to),
{
    match ray.1 {
        Orientation::Horizontal => {
            if from.x >= ray.0.x && to.x >= ray.0.x {
                if from.y <= ray.0.y && to.y > ray.0.y {
                    return -1;
                } else if from.y > ray.0.y && to.y <= ray.0.y {
                    return 1;
                } else {
                    return 0;
                }
            } else {
                return 0;
            }
        },
        Orientation::Vertical => {
            if from.y >= ray.0.y && to.y >= ray.0.y {
                if from.x > ray.0.x && to.x <= ray.0.x {
                    return -1;
                } else if from.x <= ray.0.x && to.x > ray.0.x {
                    return 1;
                } else {
                    return 0;
                }
            } else {
                return 0;
            }
        },
    }
}

/// A step winds around a ray by at most one turn.
pub proof fn lemma_step_winding_unit(ray: Ray, from: PCoord, to: PCoord)
    ensures
        -1 <= step_winding(ray, from, to) <= 1,
{
}

/// Taking a step backwards winds the other way.
pub proof fn lemma_step_winding_reverse(ray: Ray, from: PCoord, to: PCoord)
    ensures
        step_winding(ray, to, from) == -step_winding(ray, from, to),
{
}

/// Winding around `ray` adds up at most one per step.
pub proof fn lemma_winding_upto_bound(ray: Ray, p: Seq<PCoord>, k: nat)
    ensures
        -(k as int) <= winding_upto(ray, p, k) <= k,
    decreases k,
{
    if k > 0 {
        lemma_winding_upto_bound(ray, p, (k - 1) as nat);
        lemma_step_winding_unit(ray, p[k - 1], p[k as int]);
    }
}

} // verus!

verus! {

/// The winding of `p` around each barricade of `slots`, in slot order, as `i32`
/// (wrapped, as an `i32` sum wraps).
pub open spec fn winding_vec(slots: Seq<Option<crate::types::Barricade>>, p: Seq<PCoord>) -> Seq<i32> {
    grid_rays(slots).map_values(|r: Ray| path_winding(r, p) as i32)
}

impl Path {
    /// The winding of the path around one ray.
    fn winding_around(&self, ray: &(PCoord, Orientation)) -> (r: i32)
        ensures
            r == path_winding(*ray, self@) as i32,
    {
        let n = self.0.len();
        if n == 0 {
            return 0;
        }
        let mut sum: i128 = 0;
        let mut i: usize = 0;
        while i + 1 < n
            invariant
                n == self@.len(),
                n > 0,
                i < n,
                sum == winding_upto(*ray, self@, i as nat),
            decreases n - i,
        {
            proof {
                lemma_winding_upto_bound(*ray, self@, (i + 1) as nat);
            }
            let step = step_ray_winding(ray, self.0[i], self.0[i + 1]);
            sum = sum + step as i128;
            i = i + 1;
        }
        sum as i32
    }

    /// The winding of the path around each barricade of the map, in slot order.
    pub fn calculate_winding(&self, map: &GameMap) -> (r: Vec<i32>)
        ensures
            r@ == winding_vec(map.barricade_grid@, self@),
    {
        let rays = map.barricade_grid.rays();
        let mut result: Vec<i32> = Vec::new();
        let mut j: usize = 0;
        while j < rays.len()
            invariant
                j <= rays@.len(),
                rays@ == grid_rays(map.barricade_grid@),
                result@ == winding_vec(map.barricade_grid@, self@).subrange(0, j as int),
            decreases rays@.len() - j,
        {
            let w = self.winding_around(&rays[j]);
            result.push(w);
            proof {
                assert(result@ =~= winding_vec(map.barricade_grid@, self@).subrange(0, j + 1));
            }
            j = j + 1;
        }
        assert(result@ =~= winding_vec(map.barricade_grid@, self@));
        result
    }
}

} // verus!

verus! {

/// A barricade of orientation `o` may go into slot `(x, y)` of the map.
pub open spec fn allowed_at(m: GameMap, x: int, y: int, o: Orientation) -> bool {
    0 <= x < 8 && 0 <= y < 8 && m.barricade_allowed(BCoord { x: x as i32, y: y as i32 }, o)
}

/// The placements that would block the step from `from` to `to`, the `i`-th step of
/// a path: for a step sideways the two vertical slots beside it (upper first), for a
/// step up or down the two horizontal slots beside it (left first), each where a
/// barricade is allowed.
pub open spec fn step_blockades(m: GameMap, i: int, from: PCoord, to: PCoord) -> Seq<(usize, BCoord, Orientation)> {
    let dx = to.x - from.x;
    let dy = to.y - from.y;
    if (dx == 1 || dx == -1) && dy == 0 {
        let left = if from.x <= to.x { from.x as int } else { to.x as int };
        (if allowed_at(m, left, from.y - 1, Orientation::Vertical) {
            seq![(i as usize, BCoord { x: left as i32, y: (from.y - 1) as i32 }, Orientation::Vertical)]
        } else {
            Seq::empty()
        }) + (if allowed_at(m, left, from.y as int, Orientation::Vertical) {
            seq![(i as usize, BCoord { x: left as i32, y: from.y }, Orientation::Vertical)]
        } else {
            Seq::empty()
        })
    } else if dx == 0 && (dy == 1 || dy == -1) {
        let upper = if from.y <= to.y { from.y as int } else { to.y as int };
        (if allowed_at(m, from.x - 1, upper, Orientation::Horizontal) {
            seq![(i as usize, BCoord { x: (from.x - 1) as i32, y: upper as i32 }, Orientation::Horizontal)]
        } else {
            Seq::empty()
        }) + (if allowed_at(m, from.x as int, upper, Orientation::Horizontal) {
            seq![(i as usize, BCoord { x: from.x, y: upper as i32 }, Orientation::Horizontal)]
        } else {
            Seq::empty()
        })
    } else {
        Seq::empty()
    }
}

/// The blocking placements of the first `k` steps of `p`, step by step.
pub open spec fn blockades_upto(m: GameMap, p: Seq<PCoord>, k: nat) -> Seq<(usize, BCoord, Orientation)>
    decreases k,
{
    if k == 0 {
        Seq::empty()
    } else {
        blockades_upto(m, p, (k - 1) as nat) + step_blockades(m, k - 1, p[k - 1], p[k as int])
    }
}

/// The blocking placements of every step of `p`.
pub open spec fn path_blockades(m: GameMap, p: Seq<PCoord>) -> Seq<(usize, BCoord, Orientation)> {
    if p.len() == 0 { Seq::empty() } else { blockades_upto(m, p, (p.len() - 1) as nat) }
}

/// The lattice holding a single barricade, of orientation `o`, in slot `c`.
pub open spec fn lone_barricade(c: BCoord, o: Orientation) -> Seq<Option<crate::types::Barricade>> {
    Seq::new(64, |j: int| if j == c.index() { Some(crate::types::Barricade { team: Team::Red, orientation: o }) } else { None })
}

/// A barricade of orientation `o` in slot `c` lies across the step from `a` to `b`.
pub open spec fn lies_across(c: BCoord, o: Orientation, a: PCoord, b: PCoord) -> bool {
    c.in_bounds() && crate::grid::blocked(lone_barricade(c, o), a, b)
}

/// A lone barricade holds exactly its own slot, with its own orientation.
proof fn lemma_lone_slot(c: BCoord, o: Orientation, x: int, y: int, o2: Orientation)
    requires
        c.in_bounds(),
    ensures
        crate::grid::slot_holds(lone_barricade(c, o), x, y, o2) <==> x == c.x && y == c.y && o2 == o,
{
    let lone = lone_barricade(c, o);
    if 0 <= x < 8 && 0 <= y < 8 {
        assert(lone[x + y * 8] == if x + y * 8 == c.index() { Some(crate::types::Barricade { team: Team::Red, orientation: o }) } else { None });
    }
}

proof fn lemma_step_blockades_members(m: GameMap, i: int, a: PCoord, b: PCoord)
    requires
        0 <= i <= usize::MAX,
    ensures
        step_blockades(m, i, a, b).no_duplicates(),
        forall|t: (usize, BCoord, Orientation)| step_blockades(m, i, a, b).contains(t) <==>
            t.0 == i && m.barricade_allowed(t.1, t.2) && lies_across(t.1, t.2, a, b),
{
    let sb = step_blockades(m, i, a, b);
    let dx = b.x - a.x;
    let dy = b.y - a.y;
    let sideways = (dx == 1 || dx == -1) && dy == 0;
    let upright = dx == 0 && (dy == 1 || dy == -1);
    let o = if sideways { Orientation::Vertical } else { Orientation::Horizontal };
    let left = if a.x <= b.x { a.x as int } else { b.x as int };
    let upper = if a.y <= b.y { a.y as int } else { b.y as int };
    let (x1, y1, x2, y2) = if sideways {
        (left, a.y - 1, left, a.y as int)
    } else {
        (a.x - 1, upper, a.x as int, upper)
    };
    let c1 = BCoord { x: x1 as i32, y: y1 as i32 };
    let c2 = BCoord { x: x2 as i32, y: y2 as i32 };
    let e1 = (i as usize, c1, o);
    let e2 = (i as usize, c2, o);
    let s1 = if allowed_at(m, x1, y1, o) { seq![e1] } else { Seq::empty() };
    let s2 = if allowed_at(m, x2, y2, o) { seq![e2] } else { Seq::empty() };
    if sideways || upright {
        assert(sb =~= s1 + s2);
        assert(0 <= x1 < 8 && 0 <= y1 < 8 ==> (allowed_at(m, x1, y1, o) <==> m.barricade_allowed(c1, o)));
        assert(0 <= x2 < 8 && 0 <= y2 < 8 ==> (allowed_at(m, x2, y2, o) <==> m.barricade_allowed(c2, o)));
    } else {
        assert(sb =~= Seq::<(usize, BCoord, Orientation)>::empty());
    }
    assert forall|t: (usize, BCoord, Orientation)| sb.contains(t) <==>
        t.0 == i && m.barricade_allowed(t.1, t.2) && lies_across(t.1, t.2, a, b) by {
        let c = t.1;
        if c.in_bounds() {
            assert forall|x: int, y: int, o2: Orientation| crate::grid::slot_holds(lone_barricade(c, t.2), x, y, o2)
                <==> x == c.x && y == c.y && o2 == t.2 by {
                lemma_lone_slot(c, t.2, x, y, o2);
            }
        }
        if sideways || upright {
            if sb.contains(t) {
                let k = choose|k: int| 0 <= k < sb.len() && sb[k] == t;
                if k < s1.len() {
                    assert(t == e1);
                } else {
                    assert(t == e2);
                }
            }
            if t.0 == i && m.barricade_allowed(t.1, t.2) && lies_across(t.1, t.2, a, b) {
                if c == c1 && t.2 == o {
                    assert(t == e1);
                    assert((s1 + s2)[0] == e1);
                } else {
                    assert(c == c2 && t.2 == o);
                    assert(t == e2);
                    assert((s1 + s2)[s1.len() as int] == e2);
                }
            }
        }
    }
    assert forall|x: int, y: int| 0 <= x < y < sb.len() implies sb[x] != sb[y] by {
        assert(c1 != c2);
    }
}

/// Every blocking placement of the first `k` steps of `p` is an allowed placement
/// lying across one of those steps, each such comes once, and they come step by step.
proof fn lemma_blockades_upto_members(m: GameMap, p: Seq<PCoord>, k: nat)
    requires
        k < p.len(),
        p.len() <= usize::MAX,
    ensures
        blockades_upto(m, p, k).no_duplicates(),
        forall|t: (usize, BCoord, Orientation)| blockades_upto(m, p, k).contains(t) <==>
            t.0 < k && m.barricade_allowed(t.1, t.2) && lies_across(t.1, t.2, p[t.0 as int], p[t.0 + 1]),
    decreases k,
{
    if k > 0 {
        let prev = blockades_upto(m, p, (k - 1) as nat);
        let last = step_blockades(m, k - 1, p[k - 1], p[k as int]);
        lemma_blockades_upto_members(m, p, (k - 1) as nat);
        lemma_step_blockades_members(m, k - 1, p[k - 1], p[k as int]);
        let all = blockades_upto(m, p, k);
        assert(all == prev + last);
        assert forall|t: (usize, BCoord, Orientation)| all.contains(t) <==>
            t.0 < k && m.barricade_allowed(t.1, t.2) && lies_across(t.1, t.2, p[t.0 as int], p[t.0 + 1]) by {
            if all.contains(t) {
                let j = choose|j: int| 0 <= j < all.len() && all[j] == t;
                if j < prev.len() {
                    assert(prev[j] == t);
                    assert(prev.contains(t));
                } else {
                    assert(last[j - prev.len()] == t);
                    assert(last.contains(t));
                }
            }
            if t.0 < k && m.barricade_allowed(t.1, t.2) && lies_across(t.1, t.2, p[t.0 as int], p[t.0 + 1]) {
                if t.0 < k - 1 {
                    assert(prev.contains(t));
                    let j = choose|j: int| 0 <= j < prev.len() && prev[j] == t;
                    assert(all[j] == t);
                } else {
                    assert(last.contains(t));
                    let j = choose|j: int| 0 <= j < last.len() && last[j] == t;
                    assert(all[prev.len() + j] == t);
                }
            }
        }
        assert forall|x: int, y: int| 0 <= x < y < all.len() implies all[x] != all[y] by {
            if y < prev.len() {
                assert(all[x] == prev[x] && all[y] == prev[y]);
            } else if x >= prev.len() {
                assert(all[x] == last[x - prev.len()] && all[y] == last[y - prev.len()]);
            } else {
                assert(all[x] == prev[x]);
                assert(prev.contains(prev[x]));
                assert(all[y] == last[y - prev.len()]);
                assert(last.contains(last[y - prev.len()]));
            }
        }
    }
}

/// `find_blockades` lists, once each, exactly the allowed placements that lie
/// across one of the path's steps, tagged with that step.
pub proof fn lemma_path_blockades_exact(m: GameMap, p: Seq<PCoord>)
    requires
        p.len() <= usize::MAX,
    ensures
        path_blockades(m, p).no_duplicates(),
        forall|t: (usize, BCoord, Orientation)| #[trigger] path_blockades(m, p).contains(t) <==>
            t.0 + 1 < p.len() && m.barricade_allowed(t.1, t.2) && lies_across(t.1, t.2, p[t.0 as int], p[t.0 + 1]),
{
    if p.len() > 0 {
        lemma_blockades_upto_members(m, p, (p.len() - 1) as nat);
    }
}

/// Whether a barricade of orientation `o` may go into slot `(x, y)`.
fn allowed_at_exec(map: &GameMap, x: i64, y: i64, o: Orientation) -> (r: bool)
    requires
        map.players_on_board(),
    ensures
        r == allowed_at(*map, x as int, y as int, o),
{
    if 0 <= x && x < 8 && 0 <= y && y < 8 {
        map.can_place_barricade(BCoord::new(x as i32, y as i32), o)
    } else {
        false
    }
}

impl Path {
    /// The barricade placements that would block a step of the path, each with the
    /// index of the step it blocks.
    pub fn find_blockades(&self, map: &GameMap) -> (r: Vec<(usize, BCoord, Orientation)>)
        requires
            map.players_on_board(),
        ensures
            r@ == path_blockades(*map, self@),
    {
        let mut blockades: Vec<(usize, BCoord, Orientation)> = Vec::new();
        let n = self.0.len();
        if n == 0 {
            return blockades;
        }
        let mut index: usize = 0;
        while index + 1 < n
            invariant
                n == self@.len(),
                n > 0,
                index < n,
                map.players_on_board(),
                blockades@ == blockades_upto(*map, self@, index as nat),
            decreases n - index,
        {
            let ghost before = blockades@;
            let from = self.0[index];
            let to = self.0[index + 1];
            let dx: i64 = to.x as i64 - from.x as i64;
            let dy: i64 = to.y as i64 - from.y as i64;
            if (dx == 1 || dx == -1) && dy == 0 {
                let left: i32 = if from.x <= to.x { from.x } else { to.x };
                if allowed_at_exec(map, left as i64, from.y as i64 - 1, Orientation::Vertical) {
                    blockades.push((index, BCoord::new(left, from.y - 1), Orientation::Vertical));
                }
                if allowed_at_exec(map, left as i64, from.y as i64, Orientation::Vertical) {
                    blockades.push((index, BCoord::new(left, from.y), Orientation::Vertical));
                }
            } else if dx == 0 && (dy == 1 || dy == -1) {
                let upper: i32 = if from.y <= to.y { from.y } else { to.y };
                if allowed_at_exec(map, from.x as i64 - 1, upper as i64, Orientation::Horizontal) {
                    blockades.push((index, BCoord::new(from.x - 1, upper), Orientation::Horizontal));
                }
                if allowed_at_exec(map, from.x as i64, upper as i64, Orientation::Horizontal) {
                    blockades.push((index, BCoord::new(from.x, upper), Orientation::Horizontal));
                }
            }
            proof {
                assert(blockades@ =~= before + step_blockades(*map, index as int, self@[index as int], self@[index + 1]));
            }
            index = index + 1;
        }
        blockades
    }
}

} // verus!

verus! {

/// What one barricade does to a path: how long the way on to the finish becomes
/// after it, whether the detour winds differently around the barricades, and
/// which barricade it is.
#[derive(Clone, Copy, Debug)]
pub struct BlockadeMetrics {
    pub length_increase: usize,
    pub is_proper_detour: bool,
    pub barricade: (BCoord, Orientation),
}

/// The shortest way on to `finish` from the cell before the blocked step, once
/// the blockade `b` is in place (a red barricade, as a test placement).
pub open spec fn continuation(m: GameMap, p: Seq<PCoord>, finish: Seq<PCoord>, b: (usize, BCoord, Orientation)) -> Option<Seq<int>> {
    astar_route(
        grid_edges(m.with_barricade(b.1, Team::Red, b.2)),
        node_of(p[b.0 as int]),
        finish,
    )
}

/// `r` is the strongest single barricade against path `p` on map `m`, as
/// [`Path::calculate_blockability`] finds it: among the blocking placements that
/// leave a way on to `finish`, the first whose detour is longest, with the length
/// that detour adds to the path; `None` when no blocking placement leaves a way on.
pub open spec fn blockability_of(m: GameMap, p: Seq<PCoord>, finish: Seq<PCoord>, r: Option<BlockadeMetrics>) -> bool {
    let bl = path_blockades(m, p);
    &&& r is None <==> forall|k: int| 0 <= k < bl.len() ==> #[trigger] continuation(m, p, finish, bl[k]) is None
    &&& r matches Some(mt) ==> exists|k: int| {
        &&& 0 <= k < bl.len()
        &&& #[trigger] continuation(m, p, finish, bl[k]) matches Some(route)
        &&& mt.barricade == (bl[k].1, bl[k].2)
        &&& mt.length_increase == length_gain(p, bl[k].0, route)
        &&& mt.is_proper_detour == (winding_vec(m.barricade_grid@, detour(p, bl[k].0, route))
            != winding_vec(m.barricade_grid@, p))
        &&& forall|j: int| 0 <= j < bl.len() ==> (#[trigger] continuation(m, p, finish, bl[j]) matches Some(rj)
            ==> bl[j].0 + rj.len() <= bl[k].0 + route.len())
        &&& forall|j: int| 0 <= j < k ==> (#[trigger] continuation(m, p, finish, bl[j]) matches Some(rj)
            ==> bl[j].0 + rj.len() < bl[k].0 + route.len())
    }
}

/// Every continuation that exists is a shortest way on from the cell before the
/// blocked step, in the graph with that blockade in place.
pub open spec fn continuations_shortest(m: GameMap, p: Seq<PCoord>, finish: Seq<PCoord>) -> bool {
    let bl = path_blockades(m, p);
    forall|k: int| 0 <= k < bl.len() ==> (#[trigger] continuation(m, p, finish, bl[k]) matches Some(route)
        ==> is_shortest_route(grid_edges(m.with_barricade(bl[k].1, Team::Red, bl[k].2)), node_of(p[bl[k].0 as int]), finish, route))
}

/// The path followed up to the cell before the blocked step, then the
/// continuation from that cell on.
pub open spec fn detour(p: Seq<PCoord>, index: usize, route: Seq<int>) -> Seq<PCoord> {
    p.subrange(0, index + 1) + cells_of(route).drop_first()
}

/// How many cells the detour through `route` after cell `index` adds to `p` (`0`
/// when it adds none); the detour has `index + route.len()` cells.
pub open spec fn length_gain(p: Seq<PCoord>, index: usize, route: Seq<int>) -> int {
    if index + route.len() > p.len() { index + route.len() - p.len() } else { 0 }
}

/// Every blocking placement of a path is allowed and names one of its steps.
pub proof fn lemma_path_blockades_allowed(m: GameMap, p: Seq<PCoord>)
    ensures
        forall|k: int| 0 <= k < path_blockades(m, p).len() ==> {
            let b = #[trigger] path_blockades(m, p)[k];
            &&& m.barricade_allowed(b.1, b.2)
            &&& (b.0 as int) < p.len() - 1
        },
{
    if p.len() > 0 {
        lemma_blockades_upto_allowed(m, p, (p.len() - 1) as nat);
    }
}

proof fn lemma_blockades_upto_allowed(m: GameMap, p: Seq<PCoord>, k: nat)
    ensures
        forall|j: int| 0 <= j < blockades_upto(m, p, k).len() ==> {
            let b = #[trigger] blockades_upto(m, p, k)[j];
            &&& m.barricade_allowed(b.1, b.2)
            &&& (b.0 as int) < k
        },
    decreases k,
{
    if k > 0 {
        lemma_blockades_upto_allowed(m, p, (k - 1) as nat);
        let prev = blockades_upto(m, p, (k - 1) as nat);
        let step = step_blockades(m, k - 1, p[k - 1], p[k as int]);
        assert forall|j: int| 0 <= j < blockades_upto(m, p, k).len() implies {
            let b = #[trigger] blockades_upto(m, p, k)[j];
            &&& m.barricade_allowed(b.1, b.2)
            &&& (b.0 as int) < k
        } by {
            if j >= prev.len() {
                assert(blockades_upto(m, p, k)[j] == step[j - prev.len()]);
            } else {
                assert(blockades_upto(m, p, k)[j] == prev[j]);
            }
        }
    }
}

/// Whether two winding vectors are equal.
pub fn same_windings(a: &Vec<i32>, b: &Vec<i32>) -> (r: bool)
    ensures
        r == (a@ == b@),
{
    if a.len() != b.len() {
        return false;
    }
    let mut i: usize = 0;
    while i < a.len()
        invariant
            a@.len() == b@.len(),
            i <= a@.len(),
            forall|j: int| 0 <= j < i ==> a@[j] == b@[j],
        decreases a@.len() - i,
    {
        if a[i] != b[i] {
            return false;
        }
        i = i + 1;
    }
    assert(a@ =~= b@);
    true
}

impl Path {
    /// The first `index` cells of the path followed by all but the first cell of `rest`.
    fn splice(&self, index: usize, rest: &Path) -> (r: Path)
        requires
            index <= self@.len(),
            rest@.len() > 0,
        ensures
            r@ == self@.subrange(0, index as int) + rest@.drop_first(),
    {
        let mut v: Vec<PCoord> = Vec::new();
        let mut i: usize = 0;
        while i < index
            invariant
                index <= self@.len(),
                i <= index,
                v@ == self@.subrange(0, i as int),
            decreases index - i,
        {
            v.push(self.0[i]);
            proof {
                assert(v@ =~= self@.subrange(0, i + 1));
            }
            i = i + 1;
        }
        let mut j: usize = 1;
        assert(v@ =~= self@.subrange(0, index as int) + rest@.subrange(1, 1));
        while j < rest.0.len()
            invariant
                1 <= j <= rest@.len(),
                v@ == self@.subrange(0, index as int) + rest@.subrange(1, j as int),
            decreases rest@.len() - j,
        {
            v.push(rest.0[j]);
            proof {
                assert(v@ =~= self@.subrange(0, index as int) + rest@.subrange(1, j + 1));
            }
            j = j + 1;
        }
        assert(rest@.subrange(1, rest@.len() as int) =~= rest@.drop_first());
        Path(v)
    }

    /// The most length a single barricade can add to this path: following the path
    /// until the barricade is placed in the last moment, across one of its steps,
    /// then taking the shortest way on to `finish` from the cell before that step.
    /// Among the blocking placements that leave such a way, the one whose detour is
    /// longest (the first such on ties), with the cells it adds (`0` if none) and
    /// whether the detour winds differently around the map's barricades than the
    /// path itself. `None` when no blocking placement leaves a way to the finish.
    pub fn calculate_blockability(&self, map: &GameMap, finish: &[PCoord]) -> (r: Option<BlockadeMetrics>)
        requires
            map.players_on_board(),
        ensures
            blockability_of(*map, self@, finish@, r),
            continuations_shortest(*map, self@, finish@),
    {
        let blockades = self.find_blockades(map);
        let ghost bl = path_blockades(*map, self@);
        proof {
            lemma_path_blockades_allowed(*map, self@);
        }
        let mut best_detour_len: u128 = 0;
        let mut max_detour = Path::empty();
        let mut best_barricade: Option<(BCoord, Orientation)> = None;
        let ghost mut best_k: int = -1;
        let mut i: usize = 0;
        while i < blockades.len()
            invariant
                blockades@ == bl,
                bl == path_blockades(*map, self@),
                map.players_on_board(),
                i <= bl.len(),
                forall|k: int| 0 <= k < bl.len() ==> {
                    let b = #[trigger] bl[k];
                    &&& map.barricade_allowed(b.1, b.2)
                    &&& (b.0 as int) < self@.len() - 1
                },
                best_barricade is None <==> forall|k: int| 0 <= k < i ==> #[trigger] continuation(*map, self@, finish@, bl[k]) is None,
                forall|k: int| 0 <= k < i ==> (#[trigger] continuation(*map, self@, finish@, bl[k]) matches Some(route)
                    ==> is_shortest_route(grid_edges(map.with_barricade(bl[k].1, Team::Red, bl[k].2)), node_of(self@[bl[k].0 as int]), finish@, route)),
                best_barricade matches Some(bb) ==> {
                    &&& 0 <= best_k < i
                    &&& continuation(*map, self@, finish@, bl[best_k]) matches Some(route)
                    &&& route.len() > 0
                    &&& bb == (bl[best_k].1, bl[best_k].2)
                    &&& best_detour_len == bl[best_k].0 + route.len()
                    &&& max_detour@ == detour(self@, bl[best_k].0, route)
                    &&& forall|j: int| 0 <= j < i ==> (#[trigger] continuation(*map, self@, finish@, bl[j]) matches Some(rj)
                        ==> bl[j].0 + rj.len() <= bl[best_k].0 + route.len())
                    &&& forall|j: int| 0 <= j < best_k ==> (#[trigger] continuation(*map, self@, finish@, bl[j]) matches Some(rj)
                        ==> bl[j].0 + rj.len() < bl[best_k].0 + route.len())
                },
            decreases bl.len() - i,
        {
            let (index, coord, orientation) = blockades[i];
            assert(bl[i as int] == (index, coord, orientation));
            let n = self.len();
            assert((index as int) < n - 1);
            let mut test_map = *map;
            let placed = test_map.try_place_barricade(Team::Red, coord, orientation);
            assert(placed is Ok);
            let graph = test_map.barricade_grid.get_navgraph();
            let start = self.0[index];
            let found = graph.find_shortest_path(start, finish);
            assert(graph.edges() == grid_edges(map.with_barricade(coord, Team::Red, orientation)));
            match found {
                Some(continuation_path) => {
                    let ghost route = continuation(*map, self@, finish@, bl[i as int]).unwrap();
                    assert(continuation_path@ == cells_of(route));
                    assert(continuation_path@.len() > 0);
                    let detour_len: u128 = index as u128 + continuation_path.len() as u128;
                    if best_barricade.is_none() || detour_len > best_detour_len {
                        best_detour_len = detour_len;
                        max_detour = self.splice(index + 1, &continuation_path);
                        best_barricade = Some((coord, orientation));
                        proof {
                            best_k = i as int;
                        }
                    }
                },
                None => {},
            }
            i = i + 1;
        }
        let detour_winding = max_detour.calculate_winding(map);
        let own_winding = self.calculate_winding(map);
        let is_proper_detour = !same_windings(&detour_winding, &own_winding);
        match best_barricade {
            Some(b) => {
                let ghost route = continuation(*map, self@, finish@, bl[best_k]).unwrap();
                assert(max_detour@.len() == bl[best_k].0 + route.len());
                let length_increase: usize = if max_detour.len() > self.len() { max_detour.len() - self.len() } else { 0 };
                Some(BlockadeMetrics { length_increase, is_proper_detour, barricade: b })
            },
            None => None,
        }
    }
}

} // verus!

verus! {

/// The length of the shortest of `ps` (`0` for no paths).
pub open spec fn min_len(ps: Seq<Path>) -> nat
    decreases ps.len(),
{
    if ps.len() == 0 {
        0
    } else if ps.len() == 1 {
        ps[0]@.len()
    } else {
        let rest = min_len(ps.drop_last());
        if ps.last()@.len() < rest { ps.last()@.len() } else { rest }
    }
}

/// All of `ps` have the same cell at position `i`.
pub open spec fn agree_at(ps: Seq<Path>, i: int) -> bool {
    forall|j: int| 0 <= j < ps.len() ==> #[trigger] ps[j]@[i] == ps[0]@[i]
}

/// The number of leading positions, counting from `i` and below `m`, where all of
/// `ps` agree, plus `i`.
pub open spec fn common_prefix(ps: Seq<Path>, i: int, m: int) -> int
    decreases m - i,
{
    if i < m && agree_at(ps, i) { common_prefix(ps, i + 1, m) } else { i }
}

/// Where the paths first go separate ways: the last cell of their common start when
/// it ends before the shortest path does (the first cell when they do not even
/// share that one); else, when the paths differ in length, the last cell of the
/// shortest one; `None` for fewer than two paths, an empty path, or equal paths.
pub open spec fn first_fork(ps: Seq<Path>) -> Option<PCoord> {
    if ps.len() < 2 {
        None
    } else {
        let m = min_len(ps) as int;
        if m == 0 {
            None
        } else {
            let c = common_prefix(ps, 0, m);
            let last = if c == 0 { 0 } else { c - 1 };
            if last < m - 1 {
                Some(ps[0]@[last])
            } else if exists|j: int| 0 <= j < ps.len() && #[trigger] ps[j]@.len() != ps[0]@.len() {
                Some(ps[0]@[m - 1])
            } else {
                None
            }
        }
    }
}

proof fn lemma_min_len_bound(ps: Seq<Path>)
    requires
        ps.len() > 0,
    ensures
        forall|j: int| 0 <= j < ps.len() ==> min_len(ps) <= #[trigger] ps[j]@.len(),
        exists|j: int| 0 <= j < ps.len() && min_len(ps) == #[trigger] ps[j]@.len(),
    decreases ps.len(),
{
    if ps.len() > 1 {
        lemma_min_len_bound(ps.drop_last());
        assert forall|j: int| 0 <= j < ps.len() implies min_len(ps) <= #[trigger] ps[j]@.len() by {
            if j < ps.len() - 1 {
                assert(ps.drop_last()[j] == ps[j]);
            }
        }
        let w = choose|j: int| 0 <= j < ps.drop_last().len() && min_len(ps.drop_last()) == #[trigger] ps.drop_last()[j]@.len();
        assert(ps.drop_last()[w] == ps[w]);
        if ps.last()@.len() < min_len(ps.drop_last()) {
            assert(min_len(ps) == ps[ps.len() - 1]@.len());
        } else {
            assert(min_len(ps) == ps[w]@.len());
        }
    } else {
        assert(min_len(ps) == ps[0]@.len());
    }
}

impl Path {
    /// Where the paths first go separate ways (see [`first_fork`]).
    pub fn find_first_fork(paths: &[Path]) -> (r: Option<PCoord>)
        ensures
            r == first_fork(paths@),
    {
        let n = paths.len();
        if n < 2 {
            return None;
        }
        let mut min_length: usize = paths[0].len();
        let mut k: usize = 1;
        while k < n
            invariant
                n == paths@.len(),
                1 <= k <= n,
                min_length == min_len(paths@.subrange(0, k as int)),
            decreases n - k,
        {
            proof {
                let sub = paths@.subrange(0, k + 1);
                assert(sub.drop_last() =~= paths@.subrange(0, k as int));
                assert(sub.last() == paths@[k as int]);
            }
            let l = paths[k].len();
            if l < min_length {
                min_length = l;
            }
            k = k + 1;
        }
        assert(paths@.subrange(0, n as int) =~= paths@);
        proof {
            lemma_min_len_bound(paths@);
        }
        if min_length == 0 {
            return None;
        }
        let mut last_common_idx: usize = 0;
        let mut i: usize = 0;
        while i < min_length
            invariant
                n == paths@.len(),
                n >= 2,
                min_length == min_len(paths@),
                forall|j: int| 0 <= j < n ==> min_length <= #[trigger] paths@[j]@.len(),
                i <= min_length,
                common_prefix(paths@, 0, min_length as int) == common_prefix(paths@, i as int, min_length as int),
                last_common_idx == (if i == 0 { 0 } else { i - 1 }),
            ensures
                ({
                    let c = common_prefix(paths@, 0, min_length as int);
                    last_common_idx == (if c == 0 { 0 } else { c - 1 })
                }),
            decreases min_length - i,
        {
            let reference_coord = paths[0].at(i);
            let mut all_agree = true;
            let mut j: usize = 0;
            while j < n
                invariant
                    n == paths@.len(),
                    i < min_length,
                    forall|t: int| 0 <= t < n ==> min_length <= #[trigger] paths@[t]@.len(),
                    reference_coord == paths@[0]@[i as int],
                    j <= n,
                    all_agree == forall|t: int| 0 <= t < j ==> #[trigger] paths@[t]@[i as int] == reference_coord,
                decreases n - j,
            {
                if paths[j].at(i) != reference_coord {
                    all_agree = false;
                }
                j = j + 1;
            }
            if all_agree {
                assert(agree_at(paths@, i as int));
                last_common_idx = i;
            } else {
                assert(!agree_at(paths@, i as int));
                assert(common_prefix(paths@, i as int, min_length as int) == i);
                assert(last_common_idx == (if i == 0 { 0 } else { i - 1 }));
                break;
            }
            i = i + 1;
        }
        let ghost c = common_prefix(paths@, 0, min_length as int);
        assert(last_common_idx == (if c == 0 { 0 } else { c - 1 }));
        if last_common_idx < min_length - 1 {
            Some(paths[0].at(last_common_idx))
        } else {
            let first_len = paths[0].len();
            let mut differs = false;
            let mut j: usize = 0;
            while j < n
                invariant
                    n == paths@.len(),
                    first_len == paths@[0]@.len(),
                    j <= n,
                    differs == exists|t: int| 0 <= t < j && #[trigger] paths@[t]@.len() != first_len,
                decreases n - j,
            {
                if paths[j].len() != first_len {
                    differs = true;
                }
                j = j + 1;
            }
            if differs {
                Some(paths[0].at(min_length - 1))
            } else {
                None
            }
        }
    }
}

} // verus!

verus! {

/// Winding over the first `k` steps depends only on those steps.
pub proof fn lemma_winding_upto_prefix(ray: Ray, p: Seq<PCoord>, q: Seq<PCoord>, k: nat)
    requires
        k < p.len(),
        k < q.len(),
        forall|i: int| 0 <= i <= k ==> p[i] == q[i],
    ensures
        winding_upto(ray, p, k) == winding_upto(ray, q, k),
    decreases k,
{
    if k > 0 {
        lemma_winding_upto_prefix(ray, p, q, (k - 1) as nat);
    }
}

/// Extending a path by a cell adds that step's winding.
pub proof fn lemma_path_winding_push(ray: Ray, p: Seq<PCoord>, c: PCoord)
    requires
        p.len() > 0,
    ensures
        path_winding(ray, p.push(c)) == path_winding(ray, p) + step_winding(ray, p.last(), c),
{
    let q = p.push(c);
    lemma_winding_upto_prefix(ray, p, q, (p.len() - 1) as nat);
    assert(q[p.len() - 1] == p.last());
    assert(q[p.len() as int] == c);
}

impl Path {
    /// Whether no cell occurs twice on the path.
    pub fn is_simple(&self) -> (r: bool)
        ensures
            r == self@.no_duplicates(),
    {
        let n = self.0.len();
        let mut i: usize = 0;
        while i < n
            invariant
                n == self@.len(),
                i <= n,
                forall|a: int, b: int| 0 <= a < b < n && a < i ==> self@[a] != self@[b],
            decreases n - i,
        {
            let mut j: usize = i + 1;
            while j < n
                invariant
                    n == self@.len(),
                    i < n,
                    i + 1 <= j <= n,
                    forall|a: int, b: int| 0 <= a < b < n && a < i ==> self@[a] != self@[b],
                    forall|b: int| i < b < j ==> self@[i as int] != self@[b],
                decreases n - j,
            {
                if self.0[i] == self.0[j] {
                    assert(!self@.no_duplicates());
                    return false;
                }
                j = j + 1;
            }
            i = i + 1;
        }
        true
    }
}

} // verus!

verus! {

/// Winding over the first `k + 1` steps of `[c] + p` is the first step's plus that
/// over the first `k` steps of `p`.
proof fn lemma_winding_upto_prepend(ray: Ray, c: PCoord, p: Seq<PCoord>, k: nat)
    requires
        k < p.len(),
    ensures
        winding_upto(ray, seq![c] + p, k + 1) == step_winding(ray, c, p[0]) + winding_upto(ray, p, k),
    decreases k,
{
    let q = seq![c] + p;
    assert(q[0] == c && q[1] == p[0]);
    assert(winding_upto(ray, q, k + 1) == winding_upto(ray, q, k) + step_winding(ray, q[k as int], q[k as int + 1]));
    if k > 0 {
        lemma_winding_upto_prepend(ray, c, p, (k - 1) as nat);
        assert(q[k as int] == p[k - 1] && q[k as int + 1] == p[k as int]);
        assert(winding_upto(ray, p, k) == winding_upto(ray, p, (k - 1) as nat) + step_winding(ray, p[k - 1], p[k as int]));
    } else {
        assert(winding_upto(ray, q, 0) == 0);
        assert(winding_upto(ray, p, 0) == 0);
    }
}

/// Walking a path backwards winds around every ray the other way.
pub proof fn lemma_reverse_path_winding(ray: Ray, p: Seq<PCoord>)
    ensures
        path_winding(ray, p.reverse()) == -path_winding(ray, p),
    decreases p.len(),
{
    if p.len() > 1 {
        let init = p.drop_last();
        let c = p.last();
        lemma_reverse_path_winding(ray, init);
        assert(init.push(c) =~= p);
        assert(p.reverse() =~= seq![c] + init.reverse());
        lemma_winding_upto_prepend(ray, c, init.reverse(), (init.len() - 1) as nat);
        assert(init.reverse()[0] == init.last());
        lemma_path_winding_push(ray, init, c);
        lemma_step_winding_reverse(ray, init.last(), c);
    } else if p.len() == 1 {
        assert(p.reverse() =~= p);
    } else {
        assert(p.reverse() =~= p);
    }
}


/// Winding around a ray adds up when a path ends where another begins and they are joined.
pub proof fn lemma_path_winding_join(ray: Ray, p: Seq<PCoord>, q: Seq<PCoord>)
    requires
        p.len() > 0,
        q.len() > 0,
        p.last() == q[0],
    ensures
        path_winding(ray, p + q.drop_first()) == path_winding(ray, p) + path_winding(ray, q),
    decreases q.len(),
{
    if q.len() == 1 {
        assert(p + q.drop_first() =~= p);
        assert(path_winding(ray, q) == 0);
    } else {
        let init = q.drop_last();
        let c = q.last();
        lemma_path_winding_join(ray, p, init);
        let joined = p + init.drop_first();
        assert(p + q.drop_first() =~= joined.push(c));
        assert(joined.last() == init.last()) by {
            if init.len() == 1 {
                assert(joined =~= p);
            } else {
                assert(joined[joined.len() - 1] == init.drop_first()[init.len() - 2]);
            }
        }
        lemma_path_winding_push(ray, joined, c);
        assert(init.push(c) =~= q);
        lemma_path_winding_push(ray, init, c);
    }
}

proof fn lemma_path_winding_bound(ray: Ray, p: Seq<PCoord>)
    ensures
        -(p.len() as int) <= path_winding(ray, p) <= p.len(),
{
    if p.len() > 0 {
        lemma_winding_upto_bound(ray, p, (p.len() - 1) as nat);
    }
}

/// The winding vector of two joined paths (the second starting where the first
/// ends) is the sum of theirs, entry by entry.
pub proof fn lemma_winding_vec_join(slots: Seq<Option<crate::types::Barricade>>, p: Seq<PCoord>, q: Seq<PCoord>)
    requires
        p.len() > 0,
        q.len() > 0,
        p.last() == q[0],
        p.len() + q.len() <= 0x3fff_ffff,
    ensures
        winding_vec(slots, p + q.drop_first()).len() == winding_vec(slots, p).len(),
        winding_vec(slots, q).len() == winding_vec(slots, p).len(),
        forall|t: int| 0 <= t < winding_vec(slots, p).len() ==>
            #[trigger] winding_vec(slots, p + q.drop_first())[t] == winding_vec(slots, p)[t] + winding_vec(slots, q)[t],
{
    let j = p + q.drop_first();
    assert forall|t: int| 0 <= t < winding_vec(slots, p).len() implies
        #[trigger] winding_vec(slots, j)[t] == winding_vec(slots, p)[t] + winding_vec(slots, q)[t] by {
        let r = grid_rays(slots)[t];
        lemma_path_winding_join(r, p, q);
        lemma_path_winding_bound(r, p);
        lemma_path_winding_bound(r, q);
        lemma_path_winding_bound(r, j);
    }
}

/// The winding vector of a path walked backwards is the negation of its own.
pub proof fn lemma_winding_vec_reverse(slots: Seq<Option<crate::types::Barricade>>, p: Seq<PCoord>)
    requires
        p.len() <= 0x3fff_ffff,
    ensures
        winding_vec(slots, p.reverse()).len() == winding_vec(slots, p).len(),
        forall|t: int| 0 <= t < winding_vec(slots, p).len() ==>
            #[trigger] winding_vec(slots, p.reverse())[t] == -winding_vec(slots, p)[t],
{
    assert forall|t: int| 0 <= t < winding_vec(slots, p).len() implies
        #[trigger] winding_vec(slots, p.reverse())[t] == -winding_vec(slots, p)[t] by {
        let r = grid_rays(slots)[t];
        lemma_reverse_path_winding(r, p);
        lemma_path_winding_bound(r, p);
    }
}


/// No detour is shorter than a shortest route: when `nodes` is a shortest route to
/// `finish`, following it up to the cell before a blocked step and then a shortest
/// way on with that blockade in place takes at least as many cells.
pub proof fn lemma_detour_not_shorter(m: GameMap, nodes: Seq<int>, finish: Seq<PCoord>, k: int)
    requires
        is_shortest_route(grid_edges(m.barricade_grid@), nodes[0], finish, nodes),
        continuations_shortest(m, cells_of(nodes), finish),
        0 <= k < path_blockades(m, cells_of(nodes)).len(),
        continuation(m, cells_of(nodes), finish, path_blockades(m, cells_of(nodes))[k]) is Some,
    ensures
        path_blockades(m, cells_of(nodes))[k].0
            + continuation(m, cells_of(nodes), finish, path_blockades(m, cells_of(nodes))[k])->0.len() >= nodes.len(),
{
    let p = cells_of(nodes);
    let slots = m.barricade_grid@;
    let e = grid_edges(slots);
    let bl = path_blockades(m, p);
    let b = bl[k];
    let i = b.0 as int;
    let route = continuation(m, p, finish, b)->0;
    let e2 = grid_edges(m.with_barricade(b.1, Team::Red, b.2));
    m.barricade_grid.lemma_len();
    lemma_path_blockades_allowed(m, p);
    assert(m.barricade_allowed(b.1, b.2) && i < p.len() - 1);
    // the cell before the blocked step is node `nodes[i]`
    assert(adjacent(e, nodes[i], nodes[i + 1]));
    crate::grid::lemma_edges_upto_in_board(slots, 81);
    if e.contains((nodes[i], nodes[i + 1])) {
        let t = choose|t: int| 0 <= t < e.len() && e[t] == (nodes[i], nodes[i + 1]);
        assert(0 <= e[t].0 < 81);
    } else {
        let t = choose|t: int| 0 <= t < e.len() && e[t] == (nodes[i + 1], nodes[i]);
        assert(0 <= e[t].0 < 81 && 0 <= e[t].1 < 81);
    }
    assert(0 <= nodes[i] < 81);
    assert(p[i] == PCoord::spec_from_index(nodes[i] as usize));
    crate::coord::lemma_pcoord_index_roundtrip(p[i], nodes[i] as usize);
    assert(node_of(p[i]) == nodes[i]);
    // the way on is a walk of the graph without the blockade as well
    crate::grid::lemma_grid_edges_shrink(slots, b.1.index(), crate::types::Barricade { team: Team::Red, orientation: b.2 });
    assert(is_route(e2, nodes[i], finish, route));
    assert forall|t: int| 0 <= t < route.len() - 1 implies #[trigger] adjacent(e, route[t], route[t + 1]) by {
        assert(adjacent(e2, route[t], route[t + 1]));
        if e2.contains((route[t], route[t + 1])) {
            assert(e.contains((route[t], route[t + 1])));
        } else {
            assert(e.contains((route[t + 1], route[t])));
        }
    }
    let head = nodes.subrange(0, i + 1);
    assert forall|t: int| 0 <= t < head.len() - 1 implies #[trigger] adjacent(e, head[t], head[t + 1]) by {
        assert(head[t] == nodes[t] && head[t + 1] == nodes[t + 1]);
        assert(adjacent(e, nodes[t], nodes[t + 1]));
    }
    assert(is_walk(e, head));
    assert(is_walk(e, route));
    crate::graph::lemma_walk_concat(e, head, route);
    let w = head + route.drop_first();
    assert(is_route(e, nodes[0], finish, w));
    assert(nodes.len() <= w.len());
}

/// On a shortest route, the length that the strongest blockade adds is the most
/// that any blockading detour adds to the route, and that detour is never shorter
/// than the route.
pub proof fn lemma_blockability_gain_is_max(m: GameMap, nodes: Seq<int>, finish: Seq<PCoord>, r: Option<BlockadeMetrics>)
    requires
        is_shortest_route(grid_edges(m.barricade_grid@), nodes[0], finish, nodes),
        continuations_shortest(m, cells_of(nodes), finish),
        blockability_of(m, cells_of(nodes), finish, r),
    ensures
        r matches Some(mt) ==> exists|k: int| {
            &&& 0 <= k < path_blockades(m, cells_of(nodes)).len()
            &&& #[trigger] continuation(m, cells_of(nodes), finish, path_blockades(m, cells_of(nodes))[k]) matches Some(route)
            &&& mt.barricade == (path_blockades(m, cells_of(nodes))[k].1, path_blockades(m, cells_of(nodes))[k].2)
            &&& mt.length_increase == path_blockades(m, cells_of(nodes))[k].0 + route.len() - nodes.len()
            &&& forall|j: int| 0 <= j < path_blockades(m, cells_of(nodes)).len() ==>
                (#[trigger] continuation(m, cells_of(nodes), finish, path_blockades(m, cells_of(nodes))[j]) matches Some(rj)
                ==> 0 <= path_blockades(m, cells_of(nodes))[j].0 + rj.len() - nodes.len() <= mt.length_increase)
        },
{
    let p = cells_of(nodes);
    let bl = path_blockades(m, p);
    if let Some(mt) = r {
        let k = choose|k: int| {
            &&& 0 <= k < bl.len()
            &&& #[trigger] continuation(m, p, finish, bl[k]) matches Some(route)
            &&& mt.barricade == (bl[k].1, bl[k].2)
            &&& mt.length_increase == length_gain(p, bl[k].0, route)
            &&& mt.is_proper_detour == (winding_vec(m.barricade_grid@, detour(p, bl[k].0, route))
                != winding_vec(m.barricade_grid@, p))
            &&& forall|j: int| 0 <= j < bl.len() ==> (#[trigger] continuation(m, p, finish, bl[j]) matches Some(rj)
                ==> bl[j].0 + rj.len() <= bl[k].0 + route.len())
            &&& forall|j: int| 0 <= j < k ==> (#[trigger] continuation(m, p, finish, bl[j]) matches Some(rj)
                ==> bl[j].0 + rj.len() < bl[k].0 + route.len())
        };
        lemma_detour_not_shorter(m, nodes, finish, k);
        assert forall|j: int| 0 <= j < bl.len() implies (#[trigger] continuation(m, p, finish, bl[j]) matches Some(rj)
            ==> 0 <= bl[j].0 + rj.len() - nodes.len() <= mt.length_increase) by {
            if continuation(m, p, finish, bl[j]) is Some {
                lemma_detour_not_shorter(m, nodes, finish, j);
            }
        }
    }
}

proof fn lemma_common_prefix_at(ps: Seq<Path>, i: int, m: int, i0: int)
    requires
        0 <= i <= i0 <= m,
        forall|j: int, t: int| 0 <= j < ps.len() && i <= t < i0 ==> #[trigger] ps[j]@[t] == ps[0]@[t],
        i0 < m ==> exists|j: int| 0 <= j < ps.len() && #[trigger] ps[j]@[i0] != ps[0]@[i0],
    ensures
        common_prefix(ps, i, m) == i0,
    decreases m - i,
{
    if i < i0 {
        assert(agree_at(ps, i));
        lemma_common_prefix_at(ps, i + 1, m, i0);
    } else if i < m {
        let j = choose|j: int| 0 <= j < ps.len() && #[trigger] ps[j]@[i0] != ps[0]@[i0];
        assert(!agree_at(ps, i));
    }
}

proof fn lemma_min_len_is(ps: Seq<Path>, m: int)
    requires
        ps.len() >= 1,
        forall|j: int| 0 <= j < ps.len() ==> m <= #[trigger] ps[j]@.len(),
        exists|j: int| 0 <= j < ps.len() && #[trigger] ps[j]@.len() == m,
    ensures
        min_len(ps) == m,
{
    lemma_min_len_bound(ps);
    let w = choose|j: int| 0 <= j < ps.len() && #[trigger] ps[j]@.len() == m;
    assert(min_len(ps) <= ps[w]@.len());
    let k = choose|j: int| 0 <= j < ps.len() && min_len(ps) == #[trigger] ps[j]@.len();
    assert(m <= ps[k]@.len());
}

/// Paths that agree throughout: with `m` the length of the shortest of at least two
/// paths, when every path has the first path's cell at every position below `m`,
/// they fork at the last cell of the shortest ones exactly when their lengths
/// differ, and not at all otherwise.
pub proof fn lemma_first_fork_agreeing(ps: Seq<Path>, m: int)
    requires
        ps.len() >= 2,
        1 <= m,
        forall|j: int| 0 <= j < ps.len() ==> m <= #[trigger] ps[j]@.len(),
        exists|j: int| 0 <= j < ps.len() && #[trigger] ps[j]@.len() == m,
        forall|j: int, t: int| 0 <= j < ps.len() && 0 <= t < m ==> #[trigger] ps[j]@[t] == ps[0]@[t],
    ensures
        first_fork(ps) == if exists|j: int| 0 <= j < ps.len() && #[trigger] ps[j]@.len() != ps[0]@.len() {
            Some(ps[0]@[m - 1])
        } else {
            None
        },
{
    lemma_min_len_is(ps, m);
    lemma_common_prefix_at(ps, 0, m, m);
}

/// Paths that part: with `m` the length of the shortest of at least two paths, when
/// `i0` is the first position at which some path (any of them, not only the second)
/// has another cell than the first path, the paths fork at the cell before it, or at
/// the first cell when they part right there and are longer than one cell.
pub proof fn lemma_first_fork_parting(ps: Seq<Path>, m: int, i0: int)
    requires
        ps.len() >= 2,
        forall|j: int| 0 <= j < ps.len() ==> m <= #[trigger] ps[j]@.len(),
        exists|j: int| 0 <= j < ps.len() && #[trigger] ps[j]@.len() == m,
        0 <= i0 < m,
        i0 > 0 || m > 1,
        exists|j: int| 0 <= j < ps.len() && #[trigger] ps[j]@[i0] != ps[0]@[i0],
        forall|j: int, t: int| 0 <= j < ps.len() && 0 <= t < i0 ==> #[trigger] ps[j]@[t] == ps[0]@[t],
    ensures
        first_fork(ps) == Some(ps[0]@[if i0 == 0 { 0 } else { i0 - 1 }]),
{
    lemma_min_len_is(ps, m);
    lemma_common_prefix_at(ps, 0, m, i0);
}

/// Fewer than two paths, or an empty one among them, never fork.
pub proof fn lemma_first_fork_degenerate(ps: Seq<Path>)
    requires
        ps.len() < 2 || exists|j: int| 0 <= j < ps.len() && #[trigger] ps[j]@.len() == 0,
    ensures
        first_fork(ps) is None,
{
    if ps.len() >= 2 {
        lemma_min_len_is(ps, 0);
    }
}
} // verus!
