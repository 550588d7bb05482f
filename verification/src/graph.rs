use vstd::prelude::*;
use vstd::set_lib::*;
use petgraph::graph::NodeIndex;
use petgraph::stable_graph::StableGraph;
use petgraph::visit::Bfs;
use petgraph::Undirected;
use fixedbitset::FixedBitSet;
use crate::coord::PCoord;
use crate::path::Path;

verus! {

#[verifier::external_type_specification]
#[verifier::external_body]
#[verifier::reject_recursive_types(N)]
#[verifier::reject_recursive_types(E)]
#[verifier::reject_recursive_types(Ty)]
#[verifier::reject_recursive_types(Ix)]
pub struct ExStableGraph<N, E, Ty, Ix>(StableGraph<N, E, Ty, Ix>);

#[verifier::external_type_specification]
#[verifier::external_body]
pub struct ExUndirected(Undirected);

#[verifier::external_type_specification]
#[verifier::external_body]
#[verifier::reject_recursive_types(Ix)]
pub struct ExNodeIndex<Ix>(NodeIndex<Ix>);

#[verifier::external_type_specification]
#[verifier::external_body]
pub struct ExFixedBitSet(FixedBitSet);

#[verifier::external_type_specification]
#[verifier::external_body]
#[verifier::reject_recursive_types(N)]
#[verifier::reject_recursive_types(VM)]
pub struct ExBfs<N, VM>(Bfs<N, VM>);

/// The undirected petgraph graph of moves between cells: node `i` is the cell
/// with row-major index `i`.
pub type NavGraph = StableGraph<(), (), Undirected, usize>;

/// The state of a breadth-first traversal of a [`NavGraph`].
pub type NavBfs = Bfs<NodeIndex<usize>, FixedBitSet>;

// ---------------------------------------------------------------------------
// What the outside values hold
// ---------------------------------------------------------------------------

/// The edges of a graph, as `(source, target)` node indices, in the order in
/// which they were added.
pub uninterp spec fn navgraph_edges(g: StableGraph<(), (), Undirected, usize>) -> Seq<(int, int)>;

/// One more than the largest index of a node that has an edge (`0` for a graph
/// without edges).
pub uninterp spec fn navgraph_bound(g: StableGraph<(), (), Undirected, usize>) -> nat;

/// The nodes that a breadth-first traversal still has to visit, front first.
pub uninterp spec fn bfs_queue(b: Bfs<NodeIndex<usize>, FixedBitSet>) -> Seq<int>;

/// The nodes that a breadth-first traversal has discovered so far.
pub uninterp spec fn bfs_discovered(b: Bfs<NodeIndex<usize>, FixedBitSet>) -> Set<int>;

/// The number of nodes that the traversal's discovered-set was made for.
pub uninterp spec fn bfs_capacity(b: Bfs<NodeIndex<usize>, FixedBitSet>) -> nat;

/// The route that petgraph's A* search returns, with unit edge costs and a zero
/// estimate, on the graph built from `edges`, from `start` to the first node
/// whose cell is in `goals`.
pub uninterp spec fn astar_route(edges: Seq<(int, int)>, start: int, goals: Seq<PCoord>) -> Option<Seq<int>>;

// ---------------------------------------------------------------------------
// Graphs as edge lists
// ---------------------------------------------------------------------------

/// `a` and `b` are joined by an edge, in either direction.
pub open spec fn adjacent(edges: Seq<(int, int)>, a: int, b: int) -> bool {
    edges.contains((a, b)) || edges.contains((b, a))
}

/// The nodes joined to `a` by an edge.
pub open spec fn neighbor_set(edges: Seq<(int, int)>, a: int) -> Set<int> {
    Set::new(|b: int| adjacent(edges, a, b))
}

/// The targets of the edges added as `(n, m)`, latest first.
pub open spec fn outgoing_order(edges: Seq<(int, int)>, n: int) -> Seq<int>
    decreases edges.len(),
{
    if edges.len() == 0 {
        Seq::empty()
    } else {
        let e = edges.last();
        (if e.0 == n { seq![e.1] } else { Seq::empty() }) + outgoing_order(edges.drop_last(), n)
    }
}

/// The sources of the edges added as `(m, n)` with `m != n`, latest first.
pub open spec fn incoming_order(edges: Seq<(int, int)>, n: int) -> Seq<int>
    decreases edges.len(),
{
    if edges.len() == 0 {
        Seq::empty()
    } else {
        let e = edges.last();
        (if e.1 == n && e.0 != n { seq![e.0] } else { Seq::empty() }) + incoming_order(edges.drop_last(), n)
    }
}

/// The neighbors of `n` in the order petgraph lists them for an undirected graph.
pub open spec fn neighbor_order(edges: Seq<(int, int)>, n: int) -> Seq<int> {
    outgoing_order(edges, n) + incoming_order(edges, n)
}

/// The entries of `s` that are not in `seen`, each at its first occurrence, in order.
pub open spec fn fresh_order(s: Seq<int>, seen: Set<int>) -> Seq<int>
    decreases s.len(),
{
    if s.len() == 0 {
        Seq::empty()
    } else if seen.contains(s[0]) {
        fresh_order(s.drop_first(), seen)
    } else {
        seq![s[0]] + fresh_order(s.drop_first(), seen.insert(s[0]))
    }
}

/// `p` is a non-empty walk along edges.
pub open spec fn is_walk(edges: Seq<(int, int)>, p: Seq<int>) -> bool {
    &&& p.len() > 0
    &&& forall|i: int| 0 <= i < p.len() - 1 ==> #[trigger] adjacent(edges, p[i], p[i + 1])
}

/// A walk leads from `a` to `b`.
pub open spec fn reachable(edges: Seq<(int, int)>, a: int, b: int) -> bool {
    exists|p: Seq<int>| is_walk(edges, p) && p[0] == a && p.last() == b
}

/// `b` is one more than the largest endpoint of `edges` (`0` when there are none).
pub open spec fn is_node_bound(edges: Seq<(int, int)>, b: nat) -> bool {
    &&& forall|i: int| #![trigger edges[i]] 0 <= i < edges.len() ==> 0 <= edges[i].0 < b && 0 <= edges[i].1 < b
    &&& b == 0 || exists|i: int| #![trigger edges[i]] 0 <= i < edges.len() && (edges[i].0 == b - 1 || edges[i].1 == b - 1)
}

/// The cell of node `n` is one of `goals`.
pub open spec fn is_goal(goals: Seq<PCoord>, n: int) -> bool {
    goals.contains(PCoord::spec_from_index(n as usize))
}

/// `p` walks from `start` to a goal.
pub open spec fn is_route(edges: Seq<(int, int)>, start: int, goals: Seq<PCoord>, p: Seq<int>) -> bool {
    is_walk(edges, p) && p[0] == start && is_goal(goals, p.last())
}

/// `p` is a route from `start` to a goal with no more nodes than any other.
pub open spec fn is_shortest_route(edges: Seq<(int, int)>, start: int, goals: Seq<PCoord>, p: Seq<int>) -> bool {
    &&& is_route(edges, start, goals, p)
    &&& forall|q: Seq<int>| #[trigger] is_route(edges, start, goals, q) ==> p.len() <= q.len()
}

/// The node of a cell: its index on the board, or `usize::MAX` off the board.
pub open spec fn node_of(c: PCoord) -> int {
    if c.in_bounds() { c.index() } else { usize::MAX as int }
}

/// The cells of a sequence of nodes.
pub open spec fn cells_of(p: Seq<int>) -> Seq<PCoord> {
    p.map_values(|n: int| PCoord::spec_from_index(n as usize))
}

pub open spec fn usize_seq_view(v: Seq<usize>) -> Seq<int> {
    v.map_values(|n: usize| n as int)
}

pub open spec fn edge_seq_view(v: Seq<(usize, usize)>) -> Seq<(int, int)> {
    v.map_values(|e: (usize, usize)| (e.0 as int, e.1 as int))
}

// ---------------------------------------------------------------------------
// Calls into petgraph
// ---------------------------------------------------------------------------

/// Calls `StableGraph::from_edges`. The source adds each edge in turn, first
/// creating every node up to its larger endpoint; a node that no edge touches
/// stays vacant. So the edges are the ones given, in order, and the node bound is
/// one more than the largest endpoint. It panics only when a node index reaches
/// `usize::MAX`.
#[verifier::external_body]
fn graph_from_edges(edges: Vec<(usize, usize)>) -> (g: NavGraph)
    requires
        forall|i: int| 0 <= i < edges@.len() ==> #[trigger] edges@[i].0 < usize::MAX && edges@[i].1 < usize::MAX,
    ensures
        navgraph_edges(g) == edge_seq_view(edges@),
        is_node_bound(navgraph_edges(g), navgraph_bound(g)),
{
    NavGraph::from_edges(edges)
}

/// Calls `StableGraph::neighbors`. For an undirected graph the documentation and
/// the source list the other endpoint of every edge at `n`: first the edges added
/// as `(n, m)`, then those added as `(m, n)` with `m != n` (so a self-loop comes
/// once), each group latest edge first; a missing node has none.
#[verifier::external_body]
fn graph_neighbors(g: &NavGraph, n: usize) -> (r: Vec<usize>)
    ensures
        usize_seq_view(r@) == neighbor_order(navgraph_edges(*g), n as int),
{
    g.neighbors(NodeIndex::new(n)).map(|m| m.index()).collect()
}

/// Calls `Bfs::new`: the start node is marked discovered and queued, in a
/// discovered-set with room for the graph's node bound. Marking panics when the
/// start lies outside that room.
#[verifier::external_body]
fn bfs_begin(g: &NavGraph, start: usize) -> (b: NavBfs)
    requires
        start < navgraph_bound(*g),
    ensures
        bfs_queue(b) == seq![start as int],
        bfs_discovered(b) == set![start as int],
        bfs_capacity(b) == navgraph_bound(*g),
{
    Bfs::new(g, NodeIndex::new(start))
}

/// Calls `Bfs::next`: it pops the front of the queue and appends, in neighbor
/// order, each neighbor that it had not discovered yet, marking it discovered;
/// it returns the popped node, or `None` when the queue was empty. Marking panics
/// for a node outside the discovered-set's room.
#[verifier::external_body]
fn bfs_step(b: &mut NavBfs, g: &NavGraph) -> (r: Option<usize>)
    requires
        navgraph_bound(*g) <= bfs_capacity(*old(b)),
    ensures
        bfs_capacity(*final(b)) == bfs_capacity(*old(b)),
        bfs_queue(*old(b)).len() == 0 ==> {
            &&& r is None
            &&& bfs_queue(*final(b)) == bfs_queue(*old(b))
            &&& bfs_discovered(*final(b)) == bfs_discovered(*old(b))
        },
        bfs_queue(*old(b)).len() > 0 ==> {
            let n = bfs_queue(*old(b))[0];
            &&& r matches Some(m) && m == n
            &&& bfs_discovered(*final(b)) == bfs_discovered(*old(b)).union(neighbor_set(navgraph_edges(*g), n))
            &&& bfs_queue(*final(b)) == bfs_queue(*old(b)).drop_first()
                + fresh_order(neighbor_order(navgraph_edges(*g), n), bfs_discovered(*old(b)))
        },
{
    b.next(g).map(|n| n.index())
}

/// Calls `petgraph::algo::astar` with unit edge costs and a zero estimate, the
/// goal test being [`is_finish_node`]. The source is Dijkstra's search in that
/// case: it returns a route from `start` to a goal with the least number of
/// edges (`[start]` when `start` is a goal), or `None` when no goal can be
/// reached. Costs are `i32`, which the node bound keeps from overflowing. Which
/// of several shortest routes comes back is named by [`astar_route`].
#[verifier::external_body]
fn astar_call(g: &NavGraph, start: usize, finish: &[PCoord]) -> (r: Option<Vec<usize>>)
    requires
        navgraph_bound(*g) < 0x7fff_ffff,
    ensures
        match r {
            Some(p) => astar_route(navgraph_edges(*g), start as int, finish@) == Some(usize_seq_view(p@)),
            None => astar_route(navgraph_edges(*g), start as int, finish@) is None,
        },
        r matches Some(p) ==> is_shortest_route(navgraph_edges(*g), start as int, finish@, usize_seq_view(p@)),
        r is None <==> !exists|q: Seq<int>| #[trigger] is_route(navgraph_edges(*g), start as int, finish@, q),
{
    petgraph::algo::astar(
        g,
        NodeIndex::new(start),
        |n: NodeIndex<usize>| is_finish_node(finish, n.index()),
        |_| 1i32,
        |_| 0i32,
    ).map(|(_, nodes)| nodes.iter().map(|n| n.index()).collect())
}

/// Whether the cell of node `n` is one of `finish`.
pub fn is_finish_node(finish: &[PCoord], n: usize) -> (r: bool)
    ensures
        r == is_goal(finish@, n as int),
{
    let c = PCoord::from_index(n);
    let mut i: usize = 0;
    while i < finish.len()
        invariant
            i <= finish@.len(),
            c == PCoord::spec_from_index(n),
            forall|j: int| 0 <= j < i ==> finish@[j] != c,
        decreases finish@.len() - i,
    {
        if finish[i].x == c.x && finish[i].y == c.y {
            assert(finish@[i as int] == c);
            return true;
        }
        i = i + 1;
    }
    false
}

} // verus!

verus! {

// ---------------------------------------------------------------------------
// Facts about walks
// ---------------------------------------------------------------------------

/// A walk to `b` extends along an edge from `b`.
pub proof fn lemma_reachable_step(edges: Seq<(int, int)>, a: int, b: int, c: int)
    requires
        reachable(edges, a, b),
        adjacent(edges, b, c),
    ensures
        reachable(edges, a, c),
{
    let p = choose|p: Seq<int>| is_walk(edges, p) && p[0] == a && p.last() == b;
    let q = p.push(c);
    assert forall|i: int| 0 <= i < q.len() - 1 implies #[trigger] adjacent(edges, q[i], q[i + 1]) by {
        if i < p.len() - 1 {
            assert(q[i] == p[i] && q[i + 1] == p[i + 1]);
            assert(adjacent(edges, p[i], p[i + 1]));
        }
    }
    assert(is_walk(edges, q) && q[0] == a && q.last() == c);
}

/// Every node reaches itself.
pub proof fn lemma_reachable_refl(edges: Seq<(int, int)>, a: int)
    ensures
        reachable(edges, a, a),
{
    let p = seq![a];
    assert(is_walk(edges, p) && p[0] == a && p.last() == a);
}

/// A set of nodes that holds `a` and every neighbor of its members holds every
/// node that a walk from `a` reaches.
pub proof fn lemma_closed_set_holds_walk(edges: Seq<(int, int)>, d: Set<int>, p: Seq<int>)
    requires
        is_walk(edges, p),
        d.contains(p[0]),
        forall|m: int| #[trigger] d.contains(m) ==> neighbor_set(edges, m).subset_of(d),
    ensures
        forall|i: int| 0 <= i < p.len() ==> d.contains(#[trigger] p[i]),
        d.contains(p.last()),
    decreases p.len(),
{
    if p.len() > 1 {
        let q = p.drop_last();
        assert forall|i: int| 0 <= i < q.len() - 1 implies #[trigger] adjacent(edges, q[i], q[i + 1]) by {
            assert(adjacent(edges, p[i], p[i + 1]));
        }
        lemma_closed_set_holds_walk(edges, d, q);
        let k = p.len() - 2;
        assert(d.contains(q[k]));
        assert(adjacent(edges, p[k], p[k + 1]));
        assert(neighbor_set(edges, p[k]).contains(p[k + 1]));
        assert forall|i: int| 0 <= i < p.len() implies d.contains(#[trigger] p[i]) by {
            if i < p.len() - 1 {
                assert(p[i] == q[i]);
            }
        }
    }
}

/// The endpoints of an edge lie below the node bound.
pub proof fn lemma_adjacent_below_bound(edges: Seq<(int, int)>, b: nat, x: int, y: int)
    requires
        is_node_bound(edges, b),
        adjacent(edges, x, y),
    ensures
        0 <= y < b,
        0 <= x < b,
{
    if edges.contains((x, y)) {
        let i = choose|i: int| 0 <= i < edges.len() && edges[i] == (x, y);
        assert(edges[i].0 < b && edges[i].1 < b);
    } else {
        let i = choose|i: int| 0 <= i < edges.len() && edges[i] == (y, x);
        assert(edges[i].0 < b && edges[i].1 < b);
    }
}

/// A proper subset of a finite set is smaller.
proof fn lemma_strict_subset_len(s: Set<int>, t: Set<int>, x: int)
    requires
        t.finite(),
        s.subset_of(t),
        t.contains(x),
        !s.contains(x),
    ensures
        s.len() < t.len(),
{
    assert(s.subset_of(t.remove(x)));
    lemma_len_subset(s, t.remove(x));
}

/// The navigation graph: which cells a player may move between, ignoring the
/// other player.
pub struct NavigationGraph(NavGraph);

impl NavigationGraph {
    /// The node bound is one more than the largest endpoint.
    #[verifier::type_invariant]
    spec fn bound_fits(self) -> bool {
        is_node_bound(navgraph_edges(self.0), navgraph_bound(self.0))
    }

    /// The edges of the graph, in the order they were added.
    pub closed spec fn edges(&self) -> Seq<(int, int)> {
        navgraph_edges(self.0)
    }

    /// One more than the largest node that has an edge.
    pub closed spec fn bound(&self) -> nat {
        navgraph_bound(self.0)
    }

    /// The graph with the given edges; nodes are created up to the largest endpoint.
    pub fn from_edges(edges: Vec<(usize, usize)>) -> (g: NavigationGraph)
        requires
            forall|i: int| 0 <= i < edges@.len() ==> #[trigger] edges@[i].0 < usize::MAX && edges@[i].1 < usize::MAX,
        ensures
            g.edges() == edge_seq_view(edges@),
            is_node_bound(g.edges(), g.bound()),
    {
        NavigationGraph(graph_from_edges(edges))
    }

    /// The nodes joined to node `n` by an edge, in petgraph's order (see
    /// [`neighbor_order`]): each at least once, all below the node bound.
    pub fn neighbors(&self, n: usize) -> (r: Vec<usize>)
        ensures
            usize_seq_view(r@) == neighbor_order(self.edges(), n as int),
            forall|i: int| 0 <= i < r@.len() ==> adjacent(self.edges(), n as int, #[trigger] r@[i] as int) && r@[i] < self.bound(),
            forall|m: int| #[trigger] adjacent(self.edges(), n as int, m) ==> exists|i: int| 0 <= i < r@.len() && r@[i] == m,
            r@.len() > 0 ==> n < self.bound(),
    {
        proof {
            use_type_invariant(self);
        }
        let r = graph_neighbors(&self.0, n);
        proof {
            lemma_neighbor_order_members(self.edges(), n as int);
            if r@.len() > 0 {
                assert(usize_seq_view(r@)[0] == r@[0] as int);
                assert(neighbor_order(self.edges(), n as int).contains(r@[0] as int));
                lemma_adjacent_below_bound(self.edges(), self.bound(), n as int, r@[0] as int);
            }
            assert forall|i: int| 0 <= i < r@.len() implies adjacent(self.edges(), n as int, #[trigger] r@[i] as int) && r@[i] < self.bound() by {
                assert(usize_seq_view(r@)[i] == r@[i] as int);
                assert(neighbor_order(self.edges(), n as int).contains(r@[i] as int));
                lemma_adjacent_below_bound(self.edges(), self.bound(), n as int, r@[i] as int);
            }
            assert forall|m: int| #[trigger] adjacent(self.edges(), n as int, m) implies exists|i: int| 0 <= i < r@.len() && r@[i] == m by {
                assert(neighbor_order(self.edges(), n as int).contains(m));
                let i = choose|i: int| 0 <= i < usize_seq_view(r@).len() && usize_seq_view(r@)[i] == m;
                assert(r@[i] == m);
            }
        }
        r
    }

    /// A route with the fewest steps from `start` to one of the cells of `finish`,
    /// found by A* search; `None` when no such route exists.
    pub fn find_shortest_path(&self, start: PCoord, finish: &[PCoord]) -> (r: Option<Path>)
        requires
            self.bound() < 0x7fff_ffff,
        ensures
            match astar_route(self.edges(), node_of(start), finish@) {
                Some(p) => r matches Some(path) && path@ == cells_of(p),
                None => r is None,
            },
            r matches Some(path) ==> exists|p: Seq<int>|
                is_shortest_route(self.edges(), node_of(start), finish@, p) && path@ == cells_of(p),
            r is None <==> !exists|q: Seq<int>| #[trigger] is_route(self.edges(), node_of(start), finish@, q),
            astar_route(self.edges(), node_of(start), finish@) matches Some(p)
                ==> is_shortest_route(self.edges(), node_of(start), finish@, p),
    {
        let start_index = start.to_index();
        match astar_call(&self.0, start_index, finish) {
            None => None,
            Some(nodes) => {
                let mut coords: Vec<PCoord> = Vec::new();
                let mut i: usize = 0;
                while i < nodes.len()
                    invariant
                        i <= nodes@.len(),
                        coords@ == cells_of(usize_seq_view(nodes@)).subrange(0, i as int),
                    decreases nodes@.len() - i,
                {
                    coords.push(PCoord::from_index(nodes[i]));
                    proof {
                        assert(coords@ =~= cells_of(usize_seq_view(nodes@)).subrange(0, i + 1));
                    }
                    i = i + 1;
                }
                assert(coords@ =~= cells_of(usize_seq_view(nodes@)));
                Some(Path::from_vec(coords))
            },
        }
    }

    /// Whether a walk from `from` reaches a cell in row `y`, found by a
    /// breadth-first traversal.
    pub fn can_reach_y_level(&self, from: PCoord, y: i32) -> (r: bool)
        requires
            from.in_bounds(),
            from.index() < self.bound(),
        ensures
            r == exists|m: int|
                0 <= m < self.bound() && #[trigger] reachable(self.edges(), from.index(), m)
                    && PCoord::spec_from_index(m as usize).y == y,
    {
        let ghost edges = self.edges();
        let ghost bound = self.bound();
        proof {
            use_type_invariant(self);
        }
        let start = from.to_index();
        let mut bfs = bfs_begin(&self.0, start);
        proof {
            assert(bfs_queue(bfs)[0] == start as int);
            lemma_reachable_refl(edges, start as int);
            lemma_int_range(0, bound as int);
            assert(bfs_discovered(bfs).subset_of(set_int_range(0, bound as int)));
            lemma_len_subset(bfs_discovered(bfs), set_int_range(0, bound as int));
        }
        loop
            invariant
                edges == navgraph_edges(self.0),
                bound == navgraph_bound(self.0),
                is_node_bound(edges, bound),
                start == from.index(),
                start < bound,
                bfs_capacity(bfs) == bound,
                bfs_discovered(bfs).finite(),
                bfs_discovered(bfs).len() <= bound,
                bfs_discovered(bfs).contains(start as int),
                forall|m: int| #[trigger] bfs_discovered(bfs).contains(m) ==> 0 <= m < bound && reachable(edges, start as int, m),
                forall|i: int| 0 <= i < bfs_queue(bfs).len() ==> bfs_discovered(bfs).contains(#[trigger] bfs_queue(bfs)[i]),
                bfs_queue(bfs).no_duplicates(),
                forall|m: int| #[trigger] bfs_discovered(bfs).contains(m) && !bfs_queue(bfs).contains(m) ==> {
                    &&& neighbor_set(edges, m).subset_of(bfs_discovered(bfs))
                    &&& PCoord::spec_from_index(m as usize).y != y
                },
            decreases bound - bfs_discovered(bfs).len(), bfs_queue(bfs).len(),
        {
            let ghost old_q = bfs_queue(bfs);
            let ghost old_d = bfs_discovered(bfs);
            let next = bfs_step(&mut bfs, &self.0);
            match next {
                None => {
                    proof {
                        assert forall|m: int|
                            0 <= m < bound && #[trigger] reachable(edges, from.index(), m)
                            implies PCoord::spec_from_index(m as usize).y != y by {
                            let p = choose|p: Seq<int>| is_walk(edges, p) && p[0] == start && p.last() == m;
                            assert forall|k: int| #[trigger] old_d.contains(k) implies neighbor_set(edges, k).subset_of(old_d) by {
                                assert(!old_q.contains(k));
                            }
                            lemma_closed_set_holds_walk(edges, old_d, p);
                            assert(!old_q.contains(m));
                        }
                    }
                    return false;
                },
                Some(n) => {
                    let ghost new_q = bfs_queue(bfs);
                    let ghost new_d = bfs_discovered(bfs);
                    let ghost nbrs = neighbor_set(edges, n as int);
                    assert(old_q[0] == n);
                    assert(old_d.contains(n as int));
                    if PCoord::from_index(n).y == y {
                        assert(bfs_discovered(bfs).contains(n as int));
                        assert(0 <= n < bound && reachable(self.edges(), from.index(), n as int)
                            && PCoord::spec_from_index((n as int) as usize).y == y);
                        return true;
                    }
                    proof {
                        let s = fresh_order(neighbor_order(edges, n as int), old_d);
                        lemma_fresh_order(neighbor_order(edges, n as int), old_d);
                        lemma_neighbor_order_members(edges, n as int);
                        assert(s.to_set() =~= nbrs.difference(old_d));
                        assert forall|m: int| #[trigger] nbrs.contains(m) implies 0 <= m < bound && reachable(edges, start as int, m) by {
                            lemma_adjacent_below_bound(edges, bound, n as int, m);
                            lemma_reachable_step(edges, start as int, n as int, m);
                        }
                        assert(new_d.subset_of(set_int_range(0, bound as int)));
                        lemma_int_range(0, bound as int);
                        lemma_len_subset(new_d, set_int_range(0, bound as int));
                        assert forall|i: int| 0 <= i < s.len() implies !old_d.contains(#[trigger] s[i]) && nbrs.contains(s[i]) by {
                            assert(s.to_set().contains(s[i]));
                        }
                        assert forall|i: int| 0 <= i < new_q.len() implies new_d.contains(#[trigger] new_q[i]) by {
                            if i < old_q.len() - 1 {
                                assert(new_q[i] == old_q[i + 1]);
                            } else {
                                assert(new_q[i] == s[i - (old_q.len() - 1)]);
                            }
                        }
                        assert forall|i: int, j: int| 0 <= i < j < new_q.len() implies new_q[i] != new_q[j] by {
                            let k = old_q.len() - 1;
                            if j < k {
                                assert(new_q[i] == old_q[i + 1] && new_q[j] == old_q[j + 1]);
                            } else if i < k {
                                assert(new_q[i] == old_q[i + 1]);
                                assert(old_d.contains(old_q[i + 1]));
                                assert(new_q[j] == s[j - k]);
                            } else {
                                assert(new_q[i] == s[i - k] && new_q[j] == s[j - k]);
                            }
                        }
                        assert(new_q.no_duplicates());
                        assert(!new_q.contains(n as int)) by {
                            if new_q.contains(n as int) {
                                let i = choose|i: int| 0 <= i < new_q.len() && new_q[i] == n as int;
                                let k = old_q.len() - 1;
                                if i < k {
                                    assert(new_q[i] == old_q[i + 1]);
                                    assert(old_q[0] == old_q[i + 1]);
                                } else {
                                    assert(new_q[i] == s[i - k]);
                                }
                            }
                        }
                        assert forall|m: int| #[trigger] new_d.contains(m) && !new_q.contains(m) implies {
                            &&& neighbor_set(edges, m).subset_of(new_d)
                            &&& PCoord::spec_from_index(m as usize).y != y
                        } by {
                            if m != n as int {
                                if !old_d.contains(m) {
                                    assert(nbrs.difference(old_d).contains(m));
                                    assert(s.to_set().contains(m));
                                    let i = choose|i: int| 0 <= i < s.len() && s[i] == m;
                                    assert(new_q[old_q.len() - 1 + i] == m);
                                }
                                if old_q.contains(m) {
                                    let i = choose|i: int| 0 <= i < old_q.len() && old_q[i] == m;
                                    assert(i != 0);
                                    assert(new_q[i - 1] == m);
                                }
                            }
                        }
                        if !nbrs.subset_of(old_d) {
                            let x = choose|x: int| nbrs.contains(x) && !old_d.contains(x);
                            lemma_strict_subset_len(old_d, new_d, x);
                        } else {
                            assert(new_d =~= old_d);
                            if s.len() > 0 {
                                assert(s.to_set().contains(s[0]));
                            }
                            assert(new_q.len() < old_q.len());
                        }
                    }
                },
            }
        }
    }
}

} // verus!

verus! {

/// Walks run both ways.
pub proof fn lemma_reachable_symmetric(edges: Seq<(int, int)>, a: int, b: int)
    requires
        reachable(edges, a, b),
    ensures
        reachable(edges, b, a),
{
    let p = choose|p: Seq<int>| is_walk(edges, p) && p[0] == a && p.last() == b;
    let q = p.reverse();
    assert forall|i: int| 0 <= i < q.len() - 1 implies #[trigger] adjacent(edges, q[i], q[i + 1]) by {
        let j = p.len() - 2 - i;
        assert(q[i] == p[j + 1] && q[i + 1] == p[j]);
        assert(adjacent(edges, p[j], p[j + 1]));
    }
    assert(is_walk(edges, q) && q[0] == b && q.last() == a);
}

/// A walk from `a` to `b` followed by a walk from `b` to `c` is a walk from `a` to `c`.
pub proof fn lemma_walk_concat(edges: Seq<(int, int)>, p: Seq<int>, q: Seq<int>)
    requires
        is_walk(edges, p),
        is_walk(edges, q),
        p.last() == q[0],
    ensures
        is_walk(edges, p + q.drop_first()),
        (p + q.drop_first())[0] == p[0],
        (p + q.drop_first()).last() == q.last(),
{
    let r = p + q.drop_first();
    assert forall|i: int| 0 <= i < r.len() - 1 implies #[trigger] adjacent(edges, r[i], r[i + 1]) by {
        if i < p.len() - 1 {
            assert(r[i] == p[i] && r[i + 1] == p[i + 1]);
            assert(adjacent(edges, p[i], p[i + 1]));
        } else {
            let j = i - (p.len() - 1);
            assert(r[i] == q[j]) by {
                if i == p.len() - 1 {
                    assert(r[i] == p.last());
                } else {
                    assert(r[i] == q.drop_first()[i - p.len()]);
                }
            }
            assert(r[i + 1] == q[j + 1]);
            assert(adjacent(edges, q[j], q[j + 1]));
        }
    }
    if q.len() > 1 {
        assert(r.last() == q.drop_first().last());
    }
}

/// Reachability is transitive.
pub proof fn lemma_reachable_trans(edges: Seq<(int, int)>, a: int, b: int, c: int)
    requires
        reachable(edges, a, b),
        reachable(edges, b, c),
    ensures
        reachable(edges, a, c),
{
    let p = choose|p: Seq<int>| is_walk(edges, p) && p[0] == a && p.last() == b;
    let q = choose|q: Seq<int>| is_walk(edges, q) && q[0] == b && q.last() == c;
    lemma_walk_concat(edges, p, q);
}

/// A node reached from below the node bound lies below it.
pub proof fn lemma_reachable_below_bound(edges: Seq<(int, int)>, bound: nat, a: int, m: int)
    requires
        is_node_bound(edges, bound),
        0 <= a < bound,
        reachable(edges, a, m),
    ensures
        0 <= m < bound,
{
    let p = choose|p: Seq<int>| is_walk(edges, p) && p[0] == a && p.last() == m;
    if p.len() > 1 {
        let i = p.len() - 2;
        assert(adjacent(edges, p[i], p[i + 1]));
        lemma_adjacent_below_bound(edges, bound, p[i], p[i + 1]);
    }
}

} // verus!

verus! {

/// The neighbor order lists exactly the nodes joined to `n` by an edge.
pub proof fn lemma_neighbor_order_members(edges: Seq<(int, int)>, n: int)
    ensures
        forall|m: int| neighbor_order(edges, n).contains(m) <==> adjacent(edges, n, m),
    decreases edges.len(),
{
    if edges.len() > 0 {
        let rest = edges.drop_last();
        let e = edges.last();
        lemma_neighbor_order_members(rest, n);
        assert forall|m: int| neighbor_order(edges, n).contains(m) <==> adjacent(edges, n, m) by {
            let out_head = if e.0 == n { seq![e.1] } else { Seq::<int>::empty() };
            let in_head = if e.1 == n && e.0 != n { seq![e.0] } else { Seq::<int>::empty() };
            let out_rest = outgoing_order(rest, n);
            let in_rest = incoming_order(rest, n);
            assert(neighbor_order(edges, n) =~= out_head + out_rest + (in_head + in_rest));
            assert(neighbor_order(rest, n) =~= out_rest + in_rest);
            if neighbor_order(edges, n).contains(m) {
                let i = choose|i: int| 0 <= i < neighbor_order(edges, n).len() && neighbor_order(edges, n)[i] == m;
                let whole = out_head + out_rest + (in_head + in_rest);
                if i < out_head.len() {
                    assert(edges[edges.len() - 1] == (n, m));
                } else if i < out_head.len() + out_rest.len() {
                    assert(neighbor_order(rest, n)[i - out_head.len()] == m);
                    assert(adjacent(rest, n, m));
                    if rest.contains((n, m)) {
                        let j = choose|j: int| 0 <= j < rest.len() && rest[j] == (n, m);
                        assert(edges[j] == (n, m));
                    } else {
                        let j = choose|j: int| 0 <= j < rest.len() && rest[j] == (m, n);
                        assert(edges[j] == (m, n));
                    }
                } else if i < out_head.len() + out_rest.len() + in_head.len() {
                    assert(edges[edges.len() - 1] == (m, n));
                } else {
                    assert(whole[i] == in_rest[i - out_head.len() - out_rest.len() - in_head.len()]);
                    assert(neighbor_order(rest, n)[out_rest.len() + (i - out_head.len() - out_rest.len() - in_head.len())] == m);
                    assert(adjacent(rest, n, m));
                    if rest.contains((n, m)) {
                        let j = choose|j: int| 0 <= j < rest.len() && rest[j] == (n, m);
                        assert(edges[j] == (n, m));
                    } else {
                        let j = choose|j: int| 0 <= j < rest.len() && rest[j] == (m, n);
                        assert(edges[j] == (m, n));
                    }
                }
            }
            if adjacent(edges, n, m) {
                let whole = out_head + out_rest + (in_head + in_rest);
                if e == (n, m) {
                    assert(whole[0] == m);
                } else if e == (m, n) && m != n {
                    assert(whole[(out_head.len() + out_rest.len()) as int] == m);
                } else if e == (m, n) && m == n {
                    assert(whole[0] == m);
                } else {
                    if edges.contains((n, m)) {
                        let j = choose|j: int| 0 <= j < edges.len() && edges[j] == (n, m);
                        assert(j < edges.len() - 1);
                        assert(rest[j] == (n, m));
                    } else {
                        let j = choose|j: int| 0 <= j < edges.len() && edges[j] == (m, n);
                        assert(j < edges.len() - 1);
                        assert(rest[j] == (m, n));
                    }
                    assert(adjacent(rest, n, m));
                    assert(neighbor_order(rest, n).contains(m));
                    let i = choose|i: int| 0 <= i < neighbor_order(rest, n).len() && neighbor_order(rest, n)[i] == m;
                    if i < out_rest.len() {
                        assert(whole[out_head.len() + i] == m);
                    } else {
                        assert(whole[out_head.len() + out_rest.len() + in_head.len() + (i - out_rest.len())] == m);
                    }
                }
            }
        }
    }
}

/// The fresh entries come once each, and they are those of `s` outside `seen`.
pub proof fn lemma_fresh_order(s: Seq<int>, seen: Set<int>)
    ensures
        fresh_order(s, seen).no_duplicates(),
        forall|x: int| fresh_order(s, seen).contains(x) <==> s.contains(x) && !seen.contains(x),
    decreases s.len(),
{
    if s.len() > 0 {
        let rest = s.drop_first();
        if seen.contains(s[0]) {
            lemma_fresh_order(rest, seen);
            assert forall|x: int| fresh_order(s, seen).contains(x) <==> s.contains(x) && !seen.contains(x) by {
                if s.contains(x) && x != s[0] {
                    let i = choose|i: int| 0 <= i < s.len() && s[i] == x;
                    assert(rest[i - 1] == x);
                }
                if rest.contains(x) {
                    let i = choose|i: int| 0 <= i < rest.len() && rest[i] == x;
                    assert(s[i + 1] == x);
                }
            }
        } else {
            let seen2 = seen.insert(s[0]);
            let tail = fresh_order(rest, seen2);
            lemma_fresh_order(rest, seen2);
            assert(fresh_order(s, seen) == seq![s[0]] + tail);
            assert forall|i: int, j: int| 0 <= i < j < tail.len() + 1 implies (seq![s[0]] + tail)[i] != (seq![s[0]] + tail)[j] by {
                let f = seq![s[0]] + tail;
                assert(f[j] == tail[j - 1]);
                if i == 0 {
                    assert(tail.contains(tail[j - 1]));
                    assert(!seen2.contains(tail[j - 1]));
                } else {
                    assert(f[i] == tail[i - 1]);
                }
            }
            assert forall|x: int| fresh_order(s, seen).contains(x) <==> s.contains(x) && !seen.contains(x) by {
                let f = seq![s[0]] + tail;
                assert(fresh_order(s, seen) == f);
                if s.contains(x) && !seen.contains(x) {
                    if x == s[0] {
                        assert(f[0] == x);
                    } else {
                        let i = choose|i: int| 0 <= i < s.len() && s[i] == x;
                        assert(rest[i - 1] == x);
                        assert(rest.contains(x));
                        assert(tail.contains(x));
                        let k = choose|k: int| 0 <= k < tail.len() && tail[k] == x;
                        assert(f[k + 1] == x);
                    }
                }
                if f.contains(x) {
                    let k = choose|k: int| 0 <= k < f.len() && f[k] == x;
                    if k == 0 {
                        assert(s[0] == x);
                    } else {
                        assert(tail[k - 1] == x);
                        assert(tail.contains(x));
                        assert(rest.contains(x) && !seen2.contains(x));
                        let i = choose|i: int| 0 <= i < rest.len() && rest[i] == x;
                        assert(s[i + 1] == x);
                    }
                }
            }
        }
    }
}

} // verus!
