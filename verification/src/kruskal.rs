//! Maze generation: a disjoint-set structure with path compression and
//! union-by-rank, and the randomized Kruskal pass that turns the grid's
//! full adjacency-edge collection into a wall set whose complement is a
//! spanning tree.

use vstd::prelude::*;
use vstd::set_lib::{lemma_int_range, lemma_len_subset, set_int_range};

use crate::types::{
    canonical_grid_edge, in_grid, route_ok, total_edges, Edge, EdgeSet, EdgeVec, MazeError, Point,
};
use crate::util::partial_neighbours;

verus! {

broadcast use vstd::set::group_set_axioms;

/// The canonical representatives of a partition of `0..n`: the keys the
/// class map sends to themselves.
pub open spec fn reps_of(class: Map<int, int>, n: int) -> Set<int> {
    set_int_range(0, n).filter(|k: int| class[k] == k)
}

/// A disjoint-set (union-find) structure over the nodes `0..n`, with rank
/// balancing and path compression.
///
/// The partition it maintains is carried alongside as a ghost map from
/// each node to the canonical representative of its set; the contracts of
/// `find_and_cache_parent` and `union_subtrees` are stated over that map.
pub struct Graph {
    parents: Vec<usize>,
    ranks: Vec<usize>,
    class_id: Ghost<Map<int, int>>,
}

/// Internal consistency of the forest: parent pointers stay in range and
/// inside their own class, ranks strictly increase along parent links (so
/// every chain reaches a root), roots are exactly the canonical
/// representatives, and no rank can outgrow the number of merges that can
/// still happen.
pub open spec fn forest_ok(parents: Seq<usize>, ranks: Seq<usize>, class: Map<int, int>) -> bool {
    let n = parents.len() as int;
    &&& ranks.len() == n
    &&& forall|i: int| 0 <= i < n ==> (#[trigger] parents[i]) < n
    &&& forall|i: int| 0 <= i < n ==> 0 <= #[trigger] class[i] < n
    &&& forall|i: int| 0 <= i < n ==> class[#[trigger] class[i]] == class[i]
    &&& forall|i: int| 0 <= i < n ==> class[(#[trigger] parents[i]) as int] == class[i]
    &&& forall|i: int| 0 <= i < n && (#[trigger] parents[i]) as int == i ==> class[i] == i
    &&& forall|i: int| 0 <= i < n && (#[trigger] parents[i]) as int != i
        ==> ranks[i] < ranks[parents[i] as int]
    &&& forall|i: int| 0 <= i < n
        ==> (#[trigger] ranks[i]) as int <= n - reps_of(class, n).len()
}

impl Graph {
    /// How many nodes the structure partitions.
    pub closed spec fn n(self) -> int {
        self.parents@.len() as int
    }

    /// The canonical representative of `i`'s set.
    pub closed spec fn class_of(self, i: int) -> int {
        self.class_id@[i]
    }

    /// Whether `a` and `b` currently belong to the same set.
    pub open spec fn same_set(self, a: int, b: int) -> bool {
        self.class_of(a) == self.class_of(b)
    }

    /// How many disjoint sets the partition currently has.
    pub closed spec fn num_sets(self) -> int {
        reps_of(self.class_id@, self.n()).len() as int
    }

    /// Structure invariant: the parent forest is consistent with the ghost
    /// partition map.
    pub closed spec fn wf(self) -> bool {
        forest_ok(self.parents@, self.ranks@, self.class_id@)
    }

    /// New instance over the nodes `0..count`, each its own singleton set.
    pub fn new(count: usize) -> (g: Graph)
        ensures
            g.wf(),
            g.n() == count as int,
            g.num_sets() == count as int,
            forall|k: int, l: int| 0 <= k < count as int && 0 <= l < count as int
                ==> (g.same_set(k, l) <==> k == l),
    {
        let mut parents: Vec<usize> = Vec::new();
        let mut ranks: Vec<usize> = Vec::new();
        let mut i: usize = 0;
        while i < count
            invariant
                i <= count,
                parents@.len() == i as int,
                ranks@.len() == i as int,
                forall|j: int| 0 <= j < i as int
                    ==> (#[trigger] parents@[j]) as int == j && ranks@[j] == 0,
            decreases count - i,
        {
            parents.push(i);
            ranks.push(0);
            i = i + 1;
        }
        let g = Graph {
            parents,
            ranks,
            class_id: Ghost(Map::new(|k: int| 0 <= k < count as int, |k: int| k)),
        };
        proof {
            lemma_int_range(0, count as int);
            assert(reps_of(g.class_id@, count as int) =~= set_int_range(0, count as int));
            assert forall|j: int| 0 <= j < count as int
                implies (#[trigger] g.parents@[j]) as int == j && g.class_id@[j] == j by {}
            assert forall|i: int| 0 <= i < count as int
                implies (#[trigger] g.ranks@[i]) as int == 0 by {
                assert(g.parents@[i] as int == i);
            }
            assert(g.wf());
        }
        g
    }

    /// Finds the canonical representative of a node's set, rewriting the
    /// parents it visits to point directly at the root (path compression).
    /// The partition itself is untouched.
    ///
    /// Querying a node outside `0..n` is a precondition violation, not a
    /// recoverable condition.
    pub fn find_and_cache_parent(&mut self, node: usize) -> (r: usize)
        requires
            old(self).wf(),
            (node as int) < old(self).n(),
        ensures
            final(self).wf(),
            final(self).n() == old(self).n(),
            forall|k: int| 0 <= k < old(self).n()
                ==> final(self).class_of(k) == old(self).class_of(k),
            final(self).num_sets() == old(self).num_sets(),
            (r as int) < old(self).n(),
            r as int == old(self).class_of(node as int),
    {
        let r = find_rec(&mut self.parents, &self.ranks, Ghost(self.class_id@), node);
        r
    }

    /// Merges two subtrees into one, attaching the lower-rank root under
    /// the higher-rank one and incrementing the surviving rank only on a
    /// tie. Reports `false`, and merges nothing, when the two nodes were
    /// already joined (such an edge would close a cycle).
    pub fn union_subtrees(&mut self, a: usize, b: usize) -> (joined: bool)
        requires
            old(self).wf(),
            (a as int) < old(self).n(),
            (b as int) < old(self).n(),
        ensures
            final(self).wf(),
            final(self).n() == old(self).n(),
            joined == !old(self).same_set(a as int, b as int),
            !joined ==> final(self).num_sets() == old(self).num_sets(),
            joined ==> final(self).num_sets() == old(self).num_sets() - 1,
            forall|k: int, l: int| 0 <= k < old(self).n() && 0 <= l < old(self).n()
                ==> (final(self).same_set(k, l) <==> (old(self).same_set(k, l)
                    || (old(self).same_set(k, a as int) && old(self).same_set(b as int, l))
                    || (old(self).same_set(k, b as int) && old(self).same_set(a as int, l)))),
    {
        let n = self.parents.len();
        let ra = find_rec(&mut self.parents, &self.ranks, Ghost(self.class_id@), a);
        let rb = find_rec(&mut self.parents, &self.ranks, Ghost(self.class_id@), b);
        if ra == rb {
            return false;
        }

        let ghost m = self.class_id@;
        let ghost nn = self.n();
        proof {
            // both representatives are canonical, so the partition still
            // has at least two sets and the tie rank has room to grow;
            // `n` pins the node count to a machine word for that argument
            assert(nn == n as int);
            lemma_int_range(0, nn);
            set_int_range(0, nn).lemma_len_filter(|k: int| m[k] == k);
            let pair = Set::<int>::empty().insert(ra as int).insert(rb as int);
            assert(pair.subset_of(reps_of(m, nn)));
            lemma_len_subset(pair, reps_of(m, nn));
            assert(pair.len() == 2);
        }

        if self.ranks[ra] == self.ranks[rb] {
            let bumped = self.ranks[ra] + 1;
            self.ranks[ra] = bumped;
        }

        let keep: usize;
        let lose: usize;
        if self.ranks[ra] >= self.ranks[rb] {
            keep = ra;
            lose = rb;
            self.parents[rb] = ra;
        } else {
            keep = rb;
            lose = ra;
            self.parents[ra] = rb;
        }
        proof {
            self.class_id@ = Map::new(
                |k: int| 0 <= k < nn,
                |k: int| if m[k] == lose as int { keep as int } else { m[k] },
            );
            assert(reps_of(self.class_id@, nn) =~= reps_of(m, nn).remove(lose as int));
            assert forall|i: int| 0 <= i < nn
                implies (#[trigger] self.ranks@[i]) as int <= nn - reps_of(self.class_id@, nn).len() by {
            }
            assert(self.wf());
        }
        true
    }
}

/// The flattened index of a grid cell: cells are numbered column by
/// column, top to bottom.
pub open spec fn point_index(p: Point, height: i32) -> int {
    p.x * height + p.y
}

/// The edge from `p` to the cell one step to its right.
pub open spec fn right_edge(p: Point) -> Edge {
    Edge { a: p, b: Point { x: (p.x + 1) as i32, y: p.y } }
}

/// The edge from `p` to the cell one step below it.
pub open spec fn down_edge(p: Point) -> Edge {
    Edge { a: p, b: Point { x: p.x, y: (p.y + 1) as i32 } }
}

/// Whether `e` occurs somewhere in `edges`.
pub open spec fn has_edge(edges: Seq<Edge>, e: Edge) -> bool {
    exists|i: int| 0 <= i < edges.len() && edges[i] == e
}

/// Whether `edges` holds every adjacency edge of the grid: for each cell,
/// its edge to the right and its edge downward, whenever those stay on
/// the grid.
pub open spec fn covers_grid(edges: Seq<Edge>, width: i32, height: i32) -> bool {
    forall|p: Point| #[trigger] in_grid(p, width, height)
        ==> (p.x + 1 < width ==> has_edge(edges, right_edge(p)))
            && (p.y + 1 < height ==> has_edge(edges, down_edge(p)))
}

/// Flattened cell indices stay below the cell count.
pub proof fn lemma_point_index_bounds(p: Point, width: i32, height: i32)
    requires
        in_grid(p, width, height),
    ensures
        0 <= point_index(p, height) < width as int * height as int,
{
    assert(p.x * height + p.y < width as int * height as int) by (nonlinear_arith)
        requires
            0 <= p.x < width,
            0 <= p.y < height,
    {}
    assert(0 <= p.x * height) by (nonlinear_arith)
        requires
            0 <= p.x,
            0 < height,
    {}
}

/// Every index below the cell count is the flattened index of a grid cell.
proof fn lemma_index_has_cell(k: int, width: i32, height: i32)
    requires
        1 <= width,
        1 <= height,
        0 <= k < width as int * height as int,
    ensures
        exists|p: Point| in_grid(p, width, height) && point_index(p, height) == k,
{
    vstd::arithmetic::div_mod::lemma_fundamental_div_mod(k, height as int);
    vstd::arithmetic::div_mod::lemma_mod_bound(k, height as int);
    let x = k / (height as int);
    let y = k % (height as int);
    assert(0 <= x < width) by (nonlinear_arith)
        requires
            k == height as int * x + y,
            0 <= y < height,
            0 <= k < width as int * height as int,
            1 <= height,
    {}
    let p = Point { x: x as i32, y: y as i32 };
    assert(p.x == x && p.y == y);
    assert(point_index(p, height) == x * height + y);
    assert(x * height + y == height as int * x + y) by (nonlinear_arith) {}
    assert(in_grid(p, width, height) && point_index(p, height) == k);
}

/// How many edges the enumeration has emitted once it is about to visit
/// column `x` (with every earlier column finished).
spec fn cols_len(x: int, width: i32, height: i32) -> int {
    if x < width {
        x * (2 * height - 1)
    } else {
        total_edges(width, height)
    }
}

/// Every grid-adjacency edge exactly once: for each cell, its edge to the
/// right and its edge downward, whenever those stay on the grid.
fn enumerate_grid_edges(width: i32, height: i32) -> (edges: Vec<Edge>)
    requires
        1 <= width,
        1 <= height,
        width as int * height as int <= 0x4000_0000,
    ensures
        edges@.len() == total_edges(width, height),
        forall|i: int| 0 <= i < edges@.len()
            ==> canonical_grid_edge(#[trigger] edges@[i], width, height),
        covers_grid(edges@, width, height),
        forall|i: int, j: int| 0 <= i < j < edges@.len()
            ==> (#[trigger] edges@[i]) != (#[trigger] edges@[j]),
{
    let mut edges: Vec<Edge> = Vec::new();
    let mut x: i32 = 0;
    while x < width
        invariant
            1 <= width,
            1 <= height,
            width as int * height as int <= 0x4000_0000,
            0 <= x <= width,
            edges@.len() == cols_len(x as int, width, height),
            forall|i: int| 0 <= i < edges@.len()
                ==> canonical_grid_edge(#[trigger] edges@[i], width, height),
            forall|i: int| 0 <= i < edges@.len()
                ==> point_index((#[trigger] edges@[i]).a, height) < x as int * height,
            forall|i: int, j: int| 0 <= i < j < edges@.len()
                ==> (#[trigger] edges@[i]) != (#[trigger] edges@[j]),
            forall|p: Point| #[trigger] in_grid(p, width, height) && p.x < x
                ==> (p.x + 1 < width ==> has_edge(edges@, right_edge(p)))
                    && (p.y + 1 < height ==> has_edge(edges@, down_edge(p))),
        decreases width - x,
    {
        let mut y: i32 = 0;
        while y < height
            invariant
                1 <= width,
                1 <= height,
                width as int * height as int <= 0x4000_0000,
                0 <= x < width,
                0 <= y <= height,
                edges@.len() == cols_len(x as int, width, height)
                    + (if x + 1 < width { y as int } else { 0 })
                    + (if y < height { y as int } else { height - 1 }),
                forall|i: int| 0 <= i < edges@.len()
                    ==> canonical_grid_edge(#[trigger] edges@[i], width, height),
                forall|i: int| 0 <= i < edges@.len()
                    ==> point_index((#[trigger] edges@[i]).a, height)
                        < x as int * height + y as int,
                forall|i: int, j: int| 0 <= i < j < edges@.len()
                    ==> (#[trigger] edges@[i]) != (#[trigger] edges@[j]),
                forall|p: Point| #[trigger] in_grid(p, width, height)
                    && (p.x < x || (p.x == x && p.y < y))
                    ==> (p.x + 1 < width ==> has_edge(edges@, right_edge(p)))
                        && (p.y + 1 < height ==> has_edge(edges@, down_edge(p))),
            decreases height - y,
        {
            let node = Point { x, y };
            let neighbours = partial_neighbours(node, width, height);
            let ghost edges_before = edges@;
            let mut k: usize = 0;
            while k < neighbours.len()
                invariant
                    0 <= k as int <= neighbours@.len(),
                    neighbours@ == crate::util::partial_neighbours_spec(node, width, height),
                    in_grid(node, width, height),
                    edges@ == edges_before
                        .add(Seq::new(k as nat, |j: int| (Edge { a: node, b: neighbours@[j] }))),
                decreases neighbours@.len() - k as int,
            {
                let nbour = neighbours[k];
                edges.push(Edge { a: node, b: nbour });
                k = k + 1;
                proof {
                    assert(edges@ =~= edges_before
                        .add(Seq::new(k as nat, |j: int| (Edge { a: node, b: neighbours@[j] }))));
                }
            }
            proof {
                let s = crate::util::partial_neighbours_spec(node, width, height);
                if x + 1 < width {
                    assert(edges@[edges_before.len() as int] == right_edge(node));
                    assert(has_edge(edges@, right_edge(node)));
                }
                if y + 1 < height {
                    let at = edges_before.len() + (if x + 1 < width { 1int } else { 0int });
                    assert(edges@[at] == down_edge(node));
                    assert(has_edge(edges@, down_edge(node)));
                }
                assert forall|i: int| 0 <= i < edges@.len()
                    implies canonical_grid_edge(#[trigger] edges@[i], width, height) by {
                    if i >= edges_before.len() {
                        assert(edges@[i].a == node);
                    }
                }
                assert forall|i: int| 0 <= i < edges@.len()
                    implies point_index((#[trigger] edges@[i]).a, height)
                        < x as int * height + y as int + 1 by {
                    if i >= edges_before.len() {
                        assert(edges@[i].a == node);
                    }
                }
                assert forall|i: int, j: int| 0 <= i < j < edges@.len()
                    implies (#[trigger] edges@[i]) != (#[trigger] edges@[j]) by {
                    if i < edges_before.len() && j >= edges_before.len() {
                        // older edges start in earlier cells
                        assert(edges@[j].a == node);
                        assert(point_index(edges@[i].a, height)
                            < x as int * height + y as int);
                    } else if i >= edges_before.len() {
                        // the two edges of one cell leave it on different axes
                        assert(edges@[i].a == node && edges@[j].a == node);
                        assert(edges@[i].b == s[i - edges_before.len()]);
                        assert(edges@[j].b == s[j - edges_before.len()]);
                    }
                }
                assert forall|p: Point| in_grid(p, width, height) && has_edge(edges_before, right_edge(p))
                    implies has_edge(edges@, right_edge(p)) by {
                    let i = choose|i: int| 0 <= i < edges_before.len()
                        && edges_before[i] == right_edge(p);
                    assert(edges@[i] == right_edge(p));
                }
                assert forall|p: Point| in_grid(p, width, height) && has_edge(edges_before, down_edge(p))
                    implies has_edge(edges@, down_edge(p)) by {
                    let i = choose|i: int| 0 <= i < edges_before.len()
                        && edges_before[i] == down_edge(p);
                    assert(edges@[i] == down_edge(p));
                }
            }
            y = y + 1;
        }
        proof {
            assert((x as int + 1) * height as int == x as int * height as int + height as int)
                by (nonlinear_arith) {}
            assert((x as int + 1) * (2 * height as int - 1)
                == x as int * (2 * height as int - 1) + (2 * height as int - 1))
                by (nonlinear_arith) {}
            assert((width as int - 1) * (2 * height as int - 1) + (height as int - 1)
                == total_edges(width, height)) by (nonlinear_arith) {}
        }
        x = x + 1;
    }
    edges
}

/// One step of a 64-bit linear congruential generator; the low bits only
/// season the shuffle, so nothing more is claimed of them.
/// One step of the mixing generator, at the specification level.
pub open spec fn lcg_spec(state: u64) -> u64 {
    ((state as int * 6364136223846793005 + 1442695040888963407)
        % 0x1_0000_0000_0000_0000) as u64
}

fn lcg_next(state: u64) -> (next: u64)
    ensures
        next == lcg_spec(state),
{
    let mul: u64 = 6364136223846793005;
    let inc: u64 = 1442695040888963407;
    let wide = (state as u128) * (mul as u128) + (inc as u128);
    let next = (wide % 0x1_0000_0000_0000_0000u128) as u64;
    next
}

/// The exact order the seeded shuffle leaves a collection in, scanning
/// down from position `i`: the specification-level twin of the exchange
/// loop, which makes a shuffled order reproducible from its seed alone.
pub open spec fn fisher_yates_from(s: Seq<Edge>, state: u64, i: int) -> Seq<Edge>
    decreases i,
{
    if i < 1 {
        s
    } else {
        let j = state as int % (i + 1);
        fisher_yates_from(s.update(i, s[j]).update(j, s[i]), lcg_spec(state), i - 1)
    }
}

/// The exact order the seeded shuffle produces.
pub open spec fn fisher_yates(s: Seq<Edge>, seed: u64) -> Seq<Edge> {
    if s.len() < 2 {
        s
    } else {
        fisher_yates_from(s, lcg_spec(seed), s.len() - 1)
    }
}

/// Exchanging two positions of a sequence leaves its contents (as a
/// multiset) unchanged.
proof fn lemma_swap_multiset(s: Seq<Edge>, i: int, j: int)
    requires
        0 <= i < s.len(),
        0 <= j < s.len(),
    ensures
        s.update(i, s[j]).update(j, s[i]).to_multiset() == s.to_multiset(),
{
    broadcast use vstd::seq_lib::group_to_multiset_ensures;

    if i == j {
        assert(s.update(i, s[j]).update(j, s[i]) =~= s);
    } else {
        let s1 = s.update(i, s[j]);
        assert(s1[j] == s[j]);
        assert(s1.update(j, s[i]).to_multiset()
            =~= s.to_multiset().insert(s[j]).remove(s[i]).insert(s[i]).remove(s[j]));
        assert(s.to_multiset().insert(s[j]).remove(s[i]).insert(s[i]).remove(s[j])
            =~= s.to_multiset()) by {
            assert(s.to_multiset().contains(s[i]));
        }
    }
}

/// An explicit, seedable Fisher-Yates shuffle: the deliberate random edge
/// visitation order that the Kruskal pass asks for. The contents of the
/// vector are preserved exactly; only their order moves.
fn shuffle_edges(edges: &mut Vec<Edge>, seed: u64)
    ensures
        final(edges)@ == fisher_yates(old(edges)@, seed),
        final(edges)@.to_multiset() == old(edges)@.to_multiset(),
        final(edges)@.len() == old(edges)@.len(),
{
    proof {
        broadcast use vstd::seq_lib::group_to_multiset_ensures;
    }
    if edges.len() < 2 {
        return;
    }
    let mut state = lcg_next(seed);
    let mut i: usize = edges.len() - 1;
    while i >= 1
        invariant
            edges@.len() == old(edges)@.len(),
            i < edges@.len(),
            edges@.to_multiset() == old(edges)@.to_multiset(),
            fisher_yates_from(edges@, state, i as int) == fisher_yates(old(edges)@, seed),
        decreases i,
    {
        let ln = edges.len();
        assert(i + 1 <= ln);
        let j = (state % ((i + 1) as u64)) as usize;
        let ghost before = edges@;
        let ei = edges[i];
        let ej = edges[j];
        edges[i] = ej;
        edges[j] = ei;
        proof {
            assert(edges@ =~= before.update(i as int, before[j as int])
                .update(j as int, before[i as int]));
            assert(j as int == state as int % (i as int + 1));
            lemma_swap_multiset(before, i as int, j as int);
        }
        state = lcg_next(state);
        i = i - 1;
    }
}

/// One walkable step of the finished maze: between adjacent on-grid cells
/// with no wall across the edge.
pub open spec fn corridor_step(
    walls: Seq<Edge>, p: Point, q: Point, width: i32, height: i32,
) -> bool {
    &&& in_grid(p, width, height)
    &&& in_grid(q, width, height)
    &&& crate::types::adjacent(p, q)
    &&& !crate::types::blocked(walls, p, q)
}

/// Whether `cs` walks from its first to its last cell in corridor steps.
pub open spec fn corridor_chain(
    walls: Seq<Edge>, cs: Seq<Point>, width: i32, height: i32,
) -> bool {
    forall|m: int| 0 <= m < cs.len() - 1
        ==> corridor_step(walls, #[trigger] cs[m], cs[m + 1], width, height)
}

/// Whether `b` can be reached from `a` through the maze's open corridors.
pub open spec fn corridor_connected(
    walls: Seq<Edge>, a: Point, b: Point, width: i32, height: i32,
) -> bool {
    exists|cs: Seq<Point>| cs.len() >= 1 && cs[0] == a && cs[cs.len() - 1] == b
        && corridor_chain(walls, cs, width, height)
}

/// Whether `cs` walks from its first to its last cell, each step across an
/// edge whose merge the Kruskal pass has approved (by position in the edge
/// collection).
spec fn steps_approved(edges: Seq<Edge>, succ: Set<int>, cs: Seq<Point>) -> bool {
    forall|m: int| 0 <= m < cs.len() - 1
        ==> exists|j: int| 0 <= j < edges.len() && #[trigger] succ.contains(j)
            && crate::types::edge_matches(edges[j], #[trigger] cs[m], cs[m + 1])
}

/// Whether `w` is one of the first `bound` edges, at a position whose
/// merge was refused.
spec fn wall_from_refused(edges: Seq<Edge>, succ: Set<int>, w: Edge, bound: int) -> bool {
    exists|j: int| #![trigger edges[j]] 0 <= j < bound && !succ.contains(j) && w == edges[j]
}

/// Reachability over approved edges alone.
spec fn approved_connected(edges: Seq<Edge>, succ: Set<int>, a: Point, b: Point) -> bool {
    exists|cs: Seq<Point>| cs.len() >= 1 && cs[0] == a && cs[cs.len() - 1] == b
        && steps_approved(edges, succ, cs)
}

proof fn lemma_approved_refl(edges: Seq<Edge>, succ: Set<int>, a: Point)
    ensures
        approved_connected(edges, succ, a, a),
{
    let cs: Seq<Point> = seq![a];
    assert(cs.len() >= 1 && cs[0] == a && cs[cs.len() - 1] == a
        && steps_approved(edges, succ, cs));
}

proof fn lemma_approved_step(edges: Seq<Edge>, succ: Set<int>, j: int)
    requires
        0 <= j < edges.len(),
        succ.contains(j),
    ensures
        approved_connected(edges, succ, edges[j].a, edges[j].b),
{
    let cs: Seq<Point> = seq![edges[j].a, edges[j].b];
    assert(crate::types::edge_matches(edges[j], cs[0], cs[1]));
    assert(steps_approved(edges, succ, cs));
    assert(cs.len() >= 1 && cs[0] == edges[j].a && cs[cs.len() - 1] == edges[j].b);
}

proof fn lemma_approved_sym(edges: Seq<Edge>, succ: Set<int>, a: Point, b: Point)
    requires
        approved_connected(edges, succ, a, b),
    ensures
        approved_connected(edges, succ, b, a),
{
    let cs = choose|cs: Seq<Point>| cs.len() >= 1 && cs[0] == a && cs[cs.len() - 1] == b
        && steps_approved(edges, succ, cs);
    let rev = cs.reverse();
    assert forall|m: int| 0 <= m < rev.len() - 1
        implies exists|j: int| 0 <= j < edges.len() && #[trigger] succ.contains(j)
            && crate::types::edge_matches(edges[j], #[trigger] rev[m], rev[m + 1]) by {
        let n = cs.len() as int;
        assert(rev[m] == cs[n - 1 - m] && rev[m + 1] == cs[n - 2 - m]);
        let j = choose|j: int| 0 <= j < edges.len() && #[trigger] succ.contains(j)
            && crate::types::edge_matches(edges[j], cs[n - 2 - m], cs[n - 1 - m]);
        assert(crate::types::edge_matches(edges[j], rev[m], rev[m + 1]));
    }
    assert(rev.len() >= 1 && rev[0] == b && rev[rev.len() - 1] == a
        && steps_approved(edges, succ, rev));
}

proof fn lemma_approved_concat(edges: Seq<Edge>, succ: Set<int>, a: Point, b: Point, c: Point)
    requires
        approved_connected(edges, succ, a, b),
        approved_connected(edges, succ, b, c),
    ensures
        approved_connected(edges, succ, a, c),
{
    let cs1 = choose|cs: Seq<Point>| cs.len() >= 1 && cs[0] == a && cs[cs.len() - 1] == b
        && steps_approved(edges, succ, cs);
    let cs2 = choose|cs: Seq<Point>| cs.len() >= 1 && cs[0] == b && cs[cs.len() - 1] == c
        && steps_approved(edges, succ, cs);
    let joined = cs1 + cs2.subrange(1, cs2.len() as int);
    let n1 = cs1.len() as int;
    assert forall|m: int| 0 <= m < joined.len() - 1
        implies exists|j: int| 0 <= j < edges.len() && #[trigger] succ.contains(j)
            && crate::types::edge_matches(edges[j], #[trigger] joined[m], joined[m + 1]) by {
        if m < n1 - 1 {
            assert(joined[m] == cs1[m] && joined[m + 1] == cs1[m + 1]);
            let j = choose|j: int| 0 <= j < edges.len() && #[trigger] succ.contains(j)
                && crate::types::edge_matches(edges[j], cs1[m], cs1[m + 1]);
            assert(crate::types::edge_matches(edges[j], joined[m], joined[m + 1]));
        } else {
            assert(joined[m] == cs2[m - n1 + 1] && joined[m + 1] == cs2[m - n1 + 2]);
            let j = choose|j: int| 0 <= j < edges.len() && #[trigger] succ.contains(j)
                && crate::types::edge_matches(edges[j], cs2[m - n1 + 1], cs2[m - n1 + 2]);
            assert(crate::types::edge_matches(edges[j], joined[m], joined[m + 1]));
        }
    }
    assert(joined.len() >= 1 && joined[0] == a && joined[joined.len() - 1] == c
        && steps_approved(edges, succ, joined));
}

proof fn lemma_approved_mono(edges: Seq<Edge>, succ1: Set<int>, succ2: Set<int>, a: Point, b: Point)
    requires
        approved_connected(edges, succ1, a, b),
        succ1.subset_of(succ2),
    ensures
        approved_connected(edges, succ2, a, b),
{
    let cs = choose|cs: Seq<Point>| cs.len() >= 1 && cs[0] == a && cs[cs.len() - 1] == b
        && steps_approved(edges, succ1, cs);
    assert forall|m: int| 0 <= m < cs.len() - 1
        implies exists|j: int| 0 <= j < edges.len() && #[trigger] succ2.contains(j)
            && crate::types::edge_matches(edges[j], #[trigger] cs[m], cs[m + 1]) by {
        let j = choose|j: int| 0 <= j < edges.len() && #[trigger] succ1.contains(j)
            && crate::types::edge_matches(edges[j], cs[m], cs[m + 1]);
        assert(succ2.contains(j));
        assert(crate::types::edge_matches(edges[j], cs[m], cs[m + 1]));
    }
    assert(steps_approved(edges, succ2, cs));
}

/// Two canonical grid edges joining the same pair of cells are one edge:
/// the canonical orientation leaves no room for a flipped twin.
pub proof fn lemma_canonical_match_unique(e1: Edge, e2: Edge, p: Point, q: Point, width: i32, height: i32)
    requires
        canonical_grid_edge(e1, width, height),
        canonical_grid_edge(e2, width, height),
        crate::types::edge_matches(e1, p, q),
        crate::types::edge_matches(e2, p, q),
    ensures
        e1 == e2,
{
}

/// A walk across approved edges is a walk across the finished maze's open
/// corridors: every approved edge is a real adjacency, and none of them
/// can reappear among the walls, whose edges come from refused positions
/// of a duplicate-free collection.
proof fn lemma_approved_to_corridor(
    edges: Seq<Edge>, succ: Set<int>, walls: Seq<Edge>,
    a: Point, b: Point, width: i32, height: i32,
)
    requires
        approved_connected(edges, succ, a, b),
        forall|i: int| 0 <= i < edges.len()
            ==> canonical_grid_edge(#[trigger] edges[i], width, height),
        forall|i: int, j: int| 0 <= i < j < edges.len()
            ==> (#[trigger] edges[i]) != (#[trigger] edges[j]),
        forall|k: int| 0 <= k < walls.len()
            ==> wall_from_refused(edges, succ, #[trigger] walls[k], edges.len() as int),
    ensures
        corridor_connected(walls, a, b, width, height),
{
    let cs = choose|cs: Seq<Point>| cs.len() >= 1 && cs[0] == a && cs[cs.len() - 1] == b
        && steps_approved(edges, succ, cs);
    assert forall|m: int| 0 <= m < cs.len() - 1
        implies corridor_step(walls, #[trigger] cs[m], cs[m + 1], width, height) by {
        let j = choose|j: int| 0 <= j < edges.len() && #[trigger] succ.contains(j)
            && crate::types::edge_matches(edges[j], cs[m], cs[m + 1]);
        assert(in_grid(cs[m], width, height) && in_grid(cs[m + 1], width, height)
            && crate::types::adjacent(cs[m], cs[m + 1]));
        if crate::types::blocked(walls, cs[m], cs[m + 1]) {
            let k = choose|k: int| 0 <= k < walls.len()
                && crate::types::edge_matches(#[trigger] walls[k], cs[m], cs[m + 1]);
            assert(wall_from_refused(edges, succ, walls[k], edges.len() as int));
            let j2 = choose|j2: int| #![trigger edges[j2]] 0 <= j2 < edges.len() as int
                && !succ.contains(j2) && walls[k] == edges[j2];
            lemma_canonical_match_unique(edges[j], edges[j2], cs[m], cs[m + 1], width, height);
            if j < j2 {
                assert(edges[j] != edges[j2]);
            } else if j2 < j {
                assert(edges[j2] != edges[j]);
            }
            assert(false);
        }
    }
    assert(cs.len() >= 1 && cs[0] == a && cs[cs.len() - 1] == b
        && corridor_chain(walls, cs, width, height));
}

/// Any corridor walk between two distinct cells can be trimmed into a
/// route that never revisits a cell: cutting the stretch between two
/// visits of one cell leaves a shorter walk with the same ends.
proof fn lemma_walk_to_route(walls: Seq<Edge>, cs: Seq<Point>, width: i32, height: i32)
    requires
        cs.len() >= 1,
        corridor_chain(walls, cs, width, height),
        cs[0] != cs[cs.len() - 1],
    ensures
        exists|p: Seq<Edge>| #[trigger] route_ok(p, walls, width, height, cs[0], cs[cs.len() - 1]),
    decreases cs.len(),
{
    let n = cs.len() as int;
    assert(n >= 2);
    if exists|i: int, j: int| 0 <= i < j < n && cs[i] == cs[j] {
        let (i, j) = choose|i: int, j: int| 0 <= i < j < n && cs[i] == cs[j];
        let cut = cs.subrange(0, i) + cs.subrange(j, n);
        assert(cut.len() == i + n - j);
        assert(cut[0] == cs[0]);
        assert(cut[cut.len() - 1] == cs[n - 1]);
        assert forall|m: int| 0 <= m < cut.len() - 1
            implies corridor_step(walls, #[trigger] cut[m], cut[m + 1], width, height) by {
            if m < i - 1 {
                assert(cut[m] == cs[m] && cut[m + 1] == cs[m + 1]);
            } else if m == i - 1 {
                assert(cut[m] == cs[m] && cut[m + 1] == cs[j]);
                assert(cs[j] == cs[i]);
                assert(corridor_step(walls, cs[m], cs[m + 1], width, height));
            } else {
                assert(cut[m] == cs[j + m - i] && cut[m + 1] == cs[j + m - i + 1]);
            }
        }
        lemma_walk_to_route(walls, cut, width, height);
        let p = choose|p: Seq<Edge>| #[trigger] route_ok(
            p, walls, width, height, cut[0], cut[cut.len() - 1]);
        assert(route_ok(p, walls, width, height, cs[0], cs[n - 1]));
    } else {
        let p = Seq::new((n - 1) as nat, |m: int| (Edge { a: cs[m], b: cs[m + 1] }));
        assert forall|k: int, l: int| 0 <= k < l < n implies cs[k] != cs[l] by {}
        assert(p[0].a == cs[0]);
        assert(p[p.len() - 1].b == cs[n - 1]);
        assert forall|m: int| 0 <= m < p.len()
            implies in_grid((#[trigger] p[m]).a, width, height)
                && in_grid(p[m].b, width, height) && crate::types::adjacent(p[m].a, p[m].b)
                && !crate::types::blocked(walls, p[m].a, p[m].b) by {
            assert(corridor_step(walls, cs[m], cs[m + 1], width, height));
        }
        assert(route_ok(p, walls, width, height, cs[0], cs[n - 1]));
    }
}

/// The generator's wall set always leaves the maze solvable: every cell
/// can be walked to from the origin through the open corridors, so in
/// particular some route — one that never revisits a cell — runs from the
/// origin to the goal, and the solver can never report it unsolvable.
///
/// The premises are exactly what `generate_edges` ensures of its result,
/// on any grid with at least two cells.
pub proof fn lemma_generated_maze_solvable(walls: Seq<Edge>, width: i32, height: i32)
    requires
        1 <= width,
        1 <= height,
        2 <= width as int * height as int,
        forall|p: Point| #[trigger] in_grid(p, width, height)
            ==> corridor_connected(walls, crate::types::origin(), p, width, height),
    ensures
        crate::types::route_exists(walls, width, height),
{
    let g = crate::types::goal(width, height);
    assert(in_grid(g, width, height));
    assert(width >= 2 || height >= 2) by (nonlinear_arith)
        requires
            1 <= width,
            1 <= height,
            2 <= width as int * height as int,
    {}
    assert(crate::types::origin() != g);
    let cs = choose|cs: Seq<Point>| cs.len() >= 1 && cs[0] == crate::types::origin()
        && cs[cs.len() - 1] == g && corridor_chain(walls, cs, width, height);
    lemma_walk_to_route(walls, cs, width, height);
    let p = choose|p: Seq<Edge>| #[trigger] route_ok(
        p, walls, width, height, cs[0], cs[cs.len() - 1]);
    assert(crate::types::path_ok(p, walls, width, height));
}

/// One merge of the Kruskal pass keeps every joined pair of cells
/// walkable over approved edges: a pair joined by the merge itself walks
/// through the newly approved edge, any other pair was walkable before.
proof fn lemma_chains_after_union(
    g0: Graph, g1: Graph, edges: Seq<Edge>, old_succ: Set<int>, new_succ: Set<int>,
    i: int, joined: bool, width: i32, height: i32,
)
    requires
        0 <= i < edges.len(),
        canonical_grid_edge(edges[i], width, height),
        g0.n() == width as int * height as int,
        g1.n() == g0.n(),
        joined == !g0.same_set(point_index(edges[i].a, height), point_index(edges[i].b, height)),
        new_succ == if joined { old_succ.insert(i) } else { old_succ },
        forall|p: Point, q: Point| in_grid(p, width, height) && in_grid(q, width, height)
            && g0.same_set(#[trigger] point_index(p, height), #[trigger] point_index(q, height))
            ==> approved_connected(edges, old_succ, p, q),
        forall|k: int, l: int| 0 <= k < g0.n() && 0 <= l < g0.n()
            ==> (g1.same_set(k, l) <==> (g0.same_set(k, l)
                || (g0.same_set(k, point_index(edges[i].a, height))
                    && g0.same_set(point_index(edges[i].b, height), l))
                || (g0.same_set(k, point_index(edges[i].b, height))
                    && g0.same_set(point_index(edges[i].a, height), l)))),
    ensures
        forall|p: Point, q: Point| in_grid(p, width, height) && in_grid(q, width, height)
            && g1.same_set(#[trigger] point_index(p, height), #[trigger] point_index(q, height))
            ==> approved_connected(edges, new_succ, p, q),
{
    let e = edges[i];
    let ia = point_index(e.a, height);
    let ib = point_index(e.b, height);
    assert(old_succ.subset_of(new_succ));
    assert forall|p: Point, q: Point| in_grid(p, width, height) && in_grid(q, width, height)
        && g1.same_set(#[trigger] point_index(p, height), #[trigger] point_index(q, height))
        implies approved_connected(edges, new_succ, p, q) by {
        lemma_point_index_bounds(p, width, height);
        lemma_point_index_bounds(q, width, height);
        lemma_point_index_bounds(e.a, width, height);
        lemma_point_index_bounds(e.b, width, height);
        let kp = point_index(p, height);
        let kq = point_index(q, height);
        if g0.same_set(kp, kq) {
            assert(approved_connected(edges, old_succ, p, q));
            lemma_approved_mono(edges, old_succ, new_succ, p, q);
        } else {
            assert(joined);
            lemma_approved_step(edges, new_succ, i);
            if g0.same_set(kp, ia) && g0.same_set(ib, kq) {
                assert(approved_connected(edges, old_succ, p, e.a));
                assert(approved_connected(edges, old_succ, e.b, q));
                lemma_approved_mono(edges, old_succ, new_succ, p, e.a);
                lemma_approved_mono(edges, old_succ, new_succ, e.b, q);
                lemma_approved_concat(edges, new_succ, p, e.a, e.b);
                lemma_approved_concat(edges, new_succ, p, e.b, q);
            } else {
                assert(g0.same_set(kp, ib) && g0.same_set(ia, kq));
                assert(approved_connected(edges, old_succ, p, e.b));
                assert(approved_connected(edges, old_succ, e.a, q));
                lemma_approved_mono(edges, old_succ, new_succ, p, e.b);
                lemma_approved_mono(edges, old_succ, new_succ, e.a, q);
                lemma_approved_sym(edges, new_succ, e.a, e.b);
                lemma_approved_concat(edges, new_succ, p, e.b, e.a);
                lemma_approved_concat(edges, new_succ, p, e.a, q);
            }
        }
    }
}

/// Once every on-grid right and down adjacency is joined in `g`, every
/// cell is joined to the origin cell (index 0): walking left and up from
/// any cell crosses only joined adjacencies.
proof fn lemma_grid_connected(g: Graph, p: Point, width: i32, height: i32)
    requires
        1 <= width,
        1 <= height,
        in_grid(p, width, height),
        forall|q: Point| #[trigger] in_grid(q, width, height)
            ==> (q.x + 1 < width ==> g.same_set(
                    point_index(q, height), point_index(right_edge(q).b, height)))
                && (q.y + 1 < height ==> g.same_set(
                    point_index(q, height), point_index(down_edge(q).b, height))),
    ensures
        g.same_set(point_index(p, height), 0),
    decreases p.x + p.y,
{
    if p.x > 0 {
        let l = Point { x: (p.x - 1) as i32, y: p.y };
        assert(in_grid(l, width, height));
        assert(right_edge(l).b == p);
        assert(g.same_set(point_index(l, height), point_index(p, height)));
        lemma_grid_connected(g, l, width, height);
    } else if p.y > 0 {
        let u = Point { x: p.x, y: (p.y - 1) as i32 };
        assert(in_grid(u, width, height));
        assert(down_edge(u).b == p);
        assert(g.same_set(point_index(u, height), point_index(p, height)));
        lemma_grid_connected(g, u, width, height);
    } else {
        assert(p.x == 0 && p.y == 0);
        assert(p.x * height == 0) by (nonlinear_arith)
            requires
                p.x == 0,
        {}
        assert(point_index(p, height) == 0);
    }
}

/// The Kruskal pass over an already-ordered edge collection: visits each
/// edge in turn, unions its endpoints, and walls exactly the edges whose
/// merge was refused as a cycle. Because the collection covers every grid
/// adjacency, exactly `cells - 1` unions succeed, in whatever order the
/// edges are visited, and the rest are reported as cycles: the wall count
/// is the edge count minus `cells - 1`, and the open corridors form a
/// spanning tree of the grid.
#[verifier::rlimit(100)]
pub fn kruskal_walls(edges: &EdgeVec, width: i32, height: i32) -> (walls: EdgeSet)
    requires
        1 <= width,
        1 <= height,
        width as int * height as int <= 0x4000_0000,
        forall|i: int| 0 <= i < edges@.len()
            ==> canonical_grid_edge(#[trigger] edges@[i], width, height),
        forall|i: int, j: int| 0 <= i < j < edges@.len()
            ==> (#[trigger] edges@[i]) != (#[trigger] edges@[j]),
        covers_grid(edges@, width, height),
    ensures
        walls@.len() == edges@.len() - (width as int * height as int - 1),
        forall|i: int| 0 <= i < walls@.len() ==> has_edge(edges@, #[trigger] walls@[i]),
        forall|i: int| 0 <= i < walls@.len()
            ==> canonical_grid_edge(#[trigger] walls@[i], width, height),
        forall|i: int, j: int| 0 <= i < j < walls@.len()
            ==> (#[trigger] walls@[i]) != (#[trigger] walls@[j]),
        forall|p: Point| #[trigger] in_grid(p, width, height)
            ==> corridor_connected(walls@, crate::types::origin(), p, width, height),
{
    let cells = (width as usize) * (height as usize);
    let mut graph = Graph::new(cells);
    let mut walls: Vec<Edge> = Vec::new();
    let mut succ: Ghost<Set<int>> = Ghost(Set::empty());
    let mut widx: Ghost<Seq<int>> = Ghost(Seq::empty());
    proof {
        assert forall|p: Point, q: Point| in_grid(p, width, height) && in_grid(q, width, height)
            && graph.same_set(#[trigger] point_index(p, height), #[trigger] point_index(q, height))
            implies approved_connected(edges@, succ@, p, q) by {
            lemma_point_index_bounds(p, width, height);
            lemma_point_index_bounds(q, width, height);
            crate::a_star::lemma_point_index_injective(p, q, width, height);
            lemma_approved_refl(edges@, succ@, p);
        }
    }
    let mut i: usize = 0;
    while i < edges.len()
        invariant
            1 <= width,
            1 <= height,
            width as int * height as int <= 0x4000_0000,
            cells as int == width as int * height as int,
            forall|j: int| 0 <= j < edges@.len()
                ==> canonical_grid_edge(#[trigger] edges@[j], width, height),
            graph.wf(),
            graph.n() == cells as int,
            i as int <= edges@.len(),
            walls@.len() + (cells as int - graph.num_sets()) == i as int,
            forall|j: int| 0 <= j < i as int ==> graph.same_set(
                point_index((#[trigger] edges@[j]).a, height),
                point_index(edges@[j].b, height)),
            forall|k: int| 0 <= k < walls@.len() ==> has_edge(edges@, #[trigger] walls@[k])
                && canonical_grid_edge(walls@[k], width, height),
            forall|j: int| #[trigger] succ@.contains(j) ==> 0 <= j < i as int,
            forall|k: int| 0 <= k < walls@.len()
                ==> wall_from_refused(edges@, succ@, #[trigger] walls@[k], i as int),
            widx@.len() == walls@.len(),
            forall|k: int| 0 <= k < widx@.len()
                ==> 0 <= #[trigger] widx@[k] < i as int && walls@[k] == edges@[widx@[k]],
            forall|k: int, l: int| 0 <= k < l < widx@.len()
                ==> #[trigger] widx@[k] < #[trigger] widx@[l],
            forall|p: Point, q: Point| in_grid(p, width, height) && in_grid(q, width, height)
                && graph.same_set(
                    #[trigger] point_index(p, height), #[trigger] point_index(q, height))
                ==> approved_connected(edges@, succ@, p, q),
        decreases edges@.len() - i as int,
    {
        let e = edges[i];
        proof {
            lemma_point_index_bounds(e.a, width, height);
            lemma_point_index_bounds(e.b, width, height);
        }
        let ia = (e.a.x as usize) * (height as usize) + (e.a.y as usize);
        let ib = (e.b.x as usize) * (height as usize) + (e.b.y as usize);
        let ghost g0 = graph;
        let ghost old_succ = succ@;
        let ghost old_walls = walls@;
        let no_loop = graph.union_subtrees(ia, ib);
        if !no_loop {
            walls.push(e);
        }
        proof {
            if no_loop {
                succ@ = succ@.insert(i as int);
            } else {
                widx@ = widx@.push(i as int);
            }
            assert forall|k: int| 0 <= k < walls@.len()
                implies wall_from_refused(edges@, succ@, #[trigger] walls@[k], i as int + 1) by {
                if k < old_walls.len() {
                    assert(wall_from_refused(edges@, old_succ, walls@[k], i as int));
                    let j = choose|j: int| #![trigger edges@[j]] 0 <= j < i as int
                        && !old_succ.contains(j) && walls@[k] == edges@[j];
                    assert(!succ@.contains(j));
                    assert(0 <= j < i as int + 1 && !succ@.contains(j)
                        && walls@[k] == edges@[j]);
                } else {
                    assert(walls@[k] == e);
                    assert(!succ@.contains(i as int));
                    assert(walls@[k] == edges@[i as int]);
                }
            }
            assert(ia as int == point_index(e.a, height));
            assert(ib as int == point_index(e.b, height));
            lemma_chains_after_union(
                g0, graph, edges@, old_succ, succ@, i as int, no_loop, width, height);
            assert forall|j: int| 0 <= j < i as int + 1 implies graph.same_set(
                point_index((#[trigger] edges@[j]).a, height),
                point_index(edges@[j].b, height)) by {
                lemma_point_index_bounds(edges@[j].a, width, height);
                lemma_point_index_bounds(edges@[j].b, width, height);
                if j < i as int {
                    assert(g0.same_set(
                        point_index(edges@[j].a, height), point_index(edges@[j].b, height)));
                } else {
                    assert(edges@[j] == e);
                }
            }
        }
        i = i + 1;
    }
    proof {
        assert forall|q: Point| in_grid(q, width, height)
            implies (q.x + 1 < width ==> graph.same_set(
                    point_index(q, height), point_index(right_edge(q).b, height)))
                && (q.y + 1 < height ==> graph.same_set(
                    point_index(q, height), point_index(down_edge(q).b, height))) by {
            if q.x + 1 < width {
                let j = choose|j: int| 0 <= j < edges@.len() && edges@[j] == right_edge(q);
                assert(graph.same_set(
                    point_index(edges@[j].a, height), point_index(edges@[j].b, height)));
            }
            if q.y + 1 < height {
                let j = choose|j: int| 0 <= j < edges@.len() && edges@[j] == down_edge(q);
                assert(graph.same_set(
                    point_index(edges@[j].a, height), point_index(edges@[j].b, height)));
            }
        }
        let nn = cells as int;
        let cm = graph.class_id@;
        let c0 = cm[0];
        assert(in_grid(crate::types::origin(), width, height));
        assert(point_index(crate::types::origin(), height) == 0);
        assert forall|r: int| reps_of(cm, nn).contains(r) implies r == c0 by {
            lemma_index_has_cell(r, width, height);
            let p = choose|p: Point| in_grid(p, width, height) && point_index(p, height) == r;
            lemma_grid_connected(graph, p, width, height);
        }
        assert(reps_of(cm, nn).contains(c0)) by {
            assert(graph.parents@.len() == nn);
            assert(0 < nn) by (nonlinear_arith)
                requires
                    1 <= width,
                    1 <= height,
                    nn == width as int * height as int,
            {}
            assert(cm[c0] == c0);
        }
        assert(reps_of(cm, nn) =~= Set::empty().insert(c0));
        assert(graph.num_sets() == 1);
        assert(i as int == edges@.len());
        assert forall|k: int, l: int| 0 <= k < l < walls@.len()
            implies (#[trigger] walls@[k]) != (#[trigger] walls@[l]) by {
            assert(walls@[k] == edges@[widx@[k]] && walls@[l] == edges@[widx@[l]]);
            assert(widx@[k] < widx@[l]);
        }
        assert forall|p: Point| in_grid(p, width, height)
            implies corridor_connected(walls@, crate::types::origin(), p, width, height) by {
            lemma_grid_connected(graph, p, width, height);
            assert(graph.same_set(
                point_index(crate::types::origin(), height), point_index(p, height)));
            assert(in_grid(crate::types::origin(), width, height));
            assert(approved_connected(edges@, succ@, crate::types::origin(), p));
            lemma_approved_to_corridor(
                edges@, succ@, walls@, crate::types::origin(), p, width, height);
        }
    }
    walls
}

/// Generates a random perfect maze on a `width` x `height` grid as its
/// wall set: the grid's full adjacency-edge collection is visited in a
/// deliberately shuffled, seed-reproducible order, and every edge whose
/// endpoints were already connected becomes a wall. The complement of the
/// result is a spanning tree, so the wall count is always the total edge
/// count minus `cells - 1`.
///
/// Widths or heights below one are rejected before any work is done.
pub fn generate_edges(width: i32, height: i32, seed: u64) -> (r: Result<EdgeSet, MazeError>)
    requires
        (1 <= width && 1 <= height) ==> width as int * height as int <= 0x4000_0000,
    ensures
        r is Ok <==> (width >= 1 && height >= 1),
        r is Err ==> r == Result::<EdgeSet, MazeError>::Err(MazeError::InvalidDimensions),
        r matches Ok(walls) ==> walls@.len()
            == total_edges(width, height) - (width as int * height as int - 1),
        r matches Ok(walls) ==> forall|i: int| 0 <= i < walls@.len()
            ==> canonical_grid_edge(#[trigger] walls@[i], width, height),
        r matches Ok(walls) ==> forall|i: int, j: int| 0 <= i < j < walls@.len()
            ==> (#[trigger] walls@[i]) != (#[trigger] walls@[j]),
        r matches Ok(walls) ==> forall|p: Point| #[trigger] in_grid(p, width, height)
            ==> corridor_connected(walls@, crate::types::origin(), p, width, height),
{
    if width < 1 || height < 1 {
        return Err(MazeError::InvalidDimensions);
    }
    let mut edges = enumerate_grid_edges(width, height);
    let ghost initial = edges@;
    shuffle_edges(&mut edges, seed);
    proof {
        broadcast use vstd::seq_lib::group_to_multiset_ensures;

        assert forall|i: int| 0 <= i < edges@.len()
            implies canonical_grid_edge(#[trigger] edges@[i], width, height) by {
            assert(edges@.contains(edges@[i]));
            assert(initial.to_multiset().count(edges@[i]) > 0);
            assert(initial.contains(edges@[i]));
        }
        assert forall|p: Point| in_grid(p, width, height)
            implies (p.x + 1 < width ==> has_edge(edges@, right_edge(p)))
                && (p.y + 1 < height ==> has_edge(edges@, down_edge(p))) by {
            if p.x + 1 < width {
                lemma_shuffled_has(initial, edges@, right_edge(p));
            }
            if p.y + 1 < height {
                lemma_shuffled_has(initial, edges@, down_edge(p));
            }
        }
        assert(initial.no_duplicates());
        initial.lemma_multiset_has_no_duplicates();
        edges@.lemma_multiset_has_no_duplicates_conv();
        assert(edges@.no_duplicates());
    }
    let walls = kruskal_walls(&edges, width, height);
    Ok(walls)
}

/// A reordering with equal contents keeps every edge it held.
proof fn lemma_shuffled_has(before: Seq<Edge>, after: Seq<Edge>, e: Edge)
    requires
        before.to_multiset() == after.to_multiset(),
        has_edge(before, e),
    ensures
        has_edge(after, e),
{
    broadcast use vstd::seq_lib::group_to_multiset_ensures;

    assert(before.contains(e));
    assert(after.to_multiset().count(e) > 0);
    assert(after.contains(e));
    let i = choose|i: int| 0 <= i < after.len() && after[i] == e;
    assert(has_edge(after, e));
}

/// The recursive find over the raw forest, so that the termination measure
/// can be stated over the untouched rank table.
fn find_rec(parents: &mut Vec<usize>, ranks: &Vec<usize>, class: Ghost<Map<int, int>>, node: usize) -> (r: usize)
    requires
        forest_ok(old(parents)@, ranks@, class@),
        (node as int) < old(parents)@.len(),
    ensures
        forest_ok(final(parents)@, ranks@, class@),
        final(parents)@.len() == old(parents)@.len(),
        (r as int) < old(parents)@.len(),
        r as int == class@[node as int],
        final(parents)@[r as int] as int == r as int,
        forall|x: int| 0 <= x < old(parents)@.len() && (#[trigger] old(parents)@[x]) as int == x
            ==> final(parents)@[x] as int == x,
        r == node || ranks@[r as int] > ranks@[node as int],
    decreases ranks@.len() - ranks@[node as int],
{
    let p = parents[node];
    if p == node {
        return node;
    }
    let r = find_rec(parents, ranks, class, p);
    parents[node] = r;
    r
}

} // verus!
