//! Shortest-route search over the grid minus the walls, from the origin
//! cell to the far corner, plus the move compressor that turns the raw
//! unit-step route into coalesced "move until blocked" instructions.

use vstd::prelude::*;
use vstd::set_lib::{lemma_int_range, lemma_len_subset, set_int_range};

use crate::kruskal::point_index;
use crate::types::{
    adjacent, blocked, goal, in_grid, origin, path_ok, route_exists, route_ok, Edge, EdgeSet,
    EdgeVec, MazeError, MoveInstruction, Point,
};
use crate::moves::{get_moves, moves_cost};
use crate::util::{all_neighbours, lemma_all_neighbours_complete, wall_between};

verus! {

/// Bundles the metadata the search keeps per visited cell: the cell, the
/// cell it was reached from, and its two cost figures.
#[derive(Clone, Copy, PartialEq, Eq, Structural, Debug)]
pub struct AStarNode {
    pub xy: Point,
    pub parent: Point,
    pub f_cost: i32,
    pub g_cost: i32,
}

/// The cost discipline of the search: `g` is the Manhattan distance from
/// the origin (not a step counter), and `f` adds the Manhattan distance
/// still to cover, so both are pure functions of the coordinate.
pub open spec fn node_costs_ok(nd: AStarNode, width: i32, height: i32) -> bool {
    &&& nd.g_cost == nd.xy.x + nd.xy.y
    &&& nd.f_cost == nd.g_cost + (width - 1 - nd.xy.x) + (height - 1 - nd.xy.y)
}

/// Whether some tracked node sits at cell `p`.
pub open spec fn seq_has_xy(s: Seq<AStarNode>, p: Point) -> bool {
    exists|j: int| 0 <= j < s.len() && (#[trigger] s[j]).xy == p
}

/// The finalized nodes, in the order they were finalized: distinct on-grid
/// cells with coherent costs, each reached from an earlier finalized cell
/// over an unwalled adjacency — except the origin's own node, which is its
/// own parent.
pub open spec fn closed_ok(closed: Seq<AStarNode>, walls: Seq<Edge>, width: i32, height: i32) -> bool {
    &&& forall|i: int| 0 <= i < closed.len() ==> in_grid((#[trigger] closed[i]).xy, width, height)
        && node_costs_ok(closed[i], width, height)
    &&& forall|i: int, j: int| 0 <= i < j < closed.len()
        ==> (#[trigger] closed[i]).xy != (#[trigger] closed[j]).xy
    &&& forall|i: int| 0 <= i < closed.len()
        ==> ((#[trigger] closed[i]).xy == origin() && closed[i].parent == origin())
            || (adjacent(closed[i].parent, closed[i].xy)
                && !blocked(walls, closed[i].parent, closed[i].xy)
                && exists|j: int| 0 <= j < i && (#[trigger] closed[j]).xy == closed[i].parent)
}

/// The frontier: distinct on-grid cells with coherent costs, none of them
/// finalized yet, each reached from an already-finalized cell over an
/// unwalled adjacency — except the origin's own node.
pub open spec fn open_ok(
    open: Seq<AStarNode>, closed: Seq<AStarNode>, walls: Seq<Edge>, width: i32, height: i32,
) -> bool {
    &&& forall|i: int| 0 <= i < open.len() ==> in_grid((#[trigger] open[i]).xy, width, height)
        && node_costs_ok(open[i], width, height)
    &&& forall|i: int, j: int| 0 <= i < j < open.len()
        ==> (#[trigger] open[i]).xy != (#[trigger] open[j]).xy
    &&& forall|i: int| 0 <= i < open.len() ==> !seq_has_xy(closed, (#[trigger] open[i]).xy)
    &&& forall|i: int| 0 <= i < open.len()
        ==> ((#[trigger] open[i]).xy == origin() && open[i].parent == origin())
            || (adjacent(open[i].parent, open[i].xy)
                && !blocked(walls, open[i].parent, open[i].xy)
                && seq_has_xy(closed, open[i].parent))
}

/// Every finalized cell other than `stop` has had each of its reachable
/// neighbours put on the frontier or finalized.
pub open spec fn expanded_ok(
    closed: Seq<AStarNode>, open: Seq<AStarNode>, walls: Seq<Edge>,
    width: i32, height: i32, stop: Point,
) -> bool {
    forall|i: int, q: Point| 0 <= i < closed.len() && closed[i].xy != stop
        && #[trigger] adjacent(closed[i].xy, q) && in_grid(q, width, height)
        && !blocked(walls, closed[i].xy, q)
        ==> seq_has_xy(closed, q) || seq_has_xy(open, q)
}

/// Distinct cells cannot outnumber the grid.
pub proof fn lemma_point_index_injective(p: Point, q: Point, width: i32, height: i32)
    requires
        in_grid(p, width, height),
        in_grid(q, width, height),
        point_index(p, height) == point_index(q, height),
    ensures
        p == q,
{
    assert(p.x == q.x && p.y == q.y) by (nonlinear_arith)
        requires
            0 <= p.y < height,
            0 <= q.y < height,
            p.x * height + p.y == q.x * height + q.y,
    {}
}

/// A sequence of pairwise distinct on-grid cells is no longer than the
/// cell count.
pub proof fn lemma_distinct_cells_bound(pts: Seq<Point>, width: i32, height: i32)
    requires
        1 <= width,
        1 <= height,
        forall|i: int| 0 <= i < pts.len() ==> in_grid(#[trigger] pts[i], width, height),
        forall|i: int, j: int| 0 <= i < j < pts.len()
            ==> (#[trigger] pts[i]) != (#[trigger] pts[j]),
    ensures
        pts.len() <= width as int * height as int,
{
    let idxs = pts.map_values(|p: Point| point_index(p, height));
    assert forall|i: int, j: int| 0 <= i < idxs.len() && 0 <= j < idxs.len() && i != j
        implies idxs[i] != idxs[j] by {
        if idxs[i] == idxs[j] {
            lemma_point_index_injective(pts[i], pts[j], width, height);
        }
    }
    assert(idxs.no_duplicates());
    idxs.unique_seq_to_set();
    let cells = width as int * height as int;
    assert forall|v: int| idxs.to_set().contains(v) implies set_int_range(0, cells).contains(v) by {
        let i = choose|i: int| 0 <= i < idxs.len() && idxs[i] == v;
        crate::kruskal::lemma_point_index_bounds(pts[i], width, height);
    }
    lemma_int_range(0, cells);
    lemma_len_subset(idxs.to_set(), set_int_range(0, cells));
}

/// Machine-width room for the cost arithmetic: on a grid whose cell count
/// is capped, the two side lengths' sum is capped as well.
pub proof fn lemma_dims_bound(width: i32, height: i32)
    requires
        1 <= width,
        1 <= height,
        width as int * height as int <= 0x4000_0000,
    ensures
        width as int + height as int <= 0x4000_0001,
{
    assert(width as int + height as int <= width as int * height as int + 1) by (nonlinear_arith)
        requires
            1 <= width,
            1 <= height,
    {}
}

/// Whether some finalized node sits at `p`.
fn closed_contains(closed: &Vec<AStarNode>, p: Point) -> (r: bool)
    ensures
        r == seq_has_xy(closed@, p),
{
    let mut i: usize = 0;
    while i < closed.len()
        invariant
            i as int <= closed@.len(),
            forall|j: int| 0 <= j < i as int ==> (#[trigger] closed@[j]).xy != p,
        decreases closed@.len() - i as int,
    {
        if closed[i].xy == p {
            return true;
        }
        i = i + 1;
    }
    false
}

/// Whether some frontier node sits at `p`.
fn open_contains(open: &Vec<AStarNode>, p: Point) -> (r: bool)
    ensures
        r == seq_has_xy(open@, p),
{
    let mut i: usize = 0;
    while i < open.len()
        invariant
            i as int <= open@.len(),
            forall|j: int| 0 <= j < i as int ==> (#[trigger] open@[j]).xy != p,
        decreases open@.len() - i as int,
    {
        if open[i].xy == p {
            return true;
        }
        i = i + 1;
    }
    false
}

/// The position of the frontier node with the smallest combined cost; on
/// ties, any minimum is acceptable and the earliest is taken.
fn min_f_index(open: &Vec<AStarNode>) -> (idx: usize)
    requires
        open@.len() >= 1,
    ensures
        (idx as int) < open@.len(),
{
    let mut idx: usize = 0;
    let mut k: usize = 1;
    while k < open.len()
        invariant
            1 <= k as int <= open@.len(),
            (idx as int) < k as int,
        decreases open@.len() - k as int,
    {
        if open[k].f_cost < open[idx].f_cost {
            idx = k;
        }
        k = k + 1;
    }
    idx
}

/// Expands one finalized node: every neighbour not cut off by a wall and
/// not already finalized is put on the frontier, unless the frontier
/// already tracks that cell — the tracked costs are functions of the
/// coordinate alone, so an entry already present carries these very costs
/// and there is nothing to update.
pub fn a_star_for_neighbours(
    neighbours: &Vec<Point>,
    best: AStarNode,
    walls: &EdgeSet,
    end: Point,
    width: i32,
    height: i32,
    open: &mut Vec<AStarNode>,
    closed: &Vec<AStarNode>,
)
    requires
        1 <= width,
        1 <= height,
        width as int * height as int <= 0x4000_0000,
        end == goal(width, height),
        closed_ok(closed@, walls@, width, height),
        open_ok(old(open)@, closed@, walls@, width, height),
        seq_has_xy(closed@, best.xy),
        in_grid(best.xy, width, height),
        forall|k: int| 0 <= k < neighbours@.len()
            ==> adjacent(best.xy, #[trigger] neighbours@[k])
                && in_grid(neighbours@[k], width, height),
    ensures
        open_ok(final(open)@, closed@, walls@, width, height),
        old(open)@.len() <= final(open)@.len(),
        forall|i: int| 0 <= i < old(open)@.len()
            ==> (#[trigger] final(open)@[i]) == old(open)@[i],
        forall|k: int| 0 <= k < neighbours@.len()
            && !blocked(walls@, best.xy, #[trigger] neighbours@[k])
            ==> seq_has_xy(closed@, neighbours@[k])
                || seq_has_xy(final(open)@, neighbours@[k]),
        forall|i: int| old(open)@.len() <= i < final(open)@.len()
            ==> (#[trigger] final(open)@[i]).parent == best.xy
                && neighbours@.contains(final(open)@[i].xy)
                && !blocked(walls@, best.xy, final(open)@[i].xy)
                && !seq_has_xy(closed@, final(open)@[i].xy)
                && !seq_has_xy(old(open)@, final(open)@[i].xy),
{
    proof {
        lemma_dims_bound(width, height);
    }
    let mut k: usize = 0;
    while k < neighbours.len()
        invariant
            1 <= width,
            1 <= height,
            width as int + height as int <= 0x4000_0001,
            end == goal(width, height),
            closed_ok(closed@, walls@, width, height),
            open_ok(open@, closed@, walls@, width, height),
            seq_has_xy(closed@, best.xy),
            in_grid(best.xy, width, height),
            forall|j: int| 0 <= j < neighbours@.len()
                ==> adjacent(best.xy, #[trigger] neighbours@[j])
                    && in_grid(neighbours@[j], width, height),
            k as int <= neighbours@.len(),
            old(open)@.len() <= open@.len(),
            forall|i: int| 0 <= i < old(open)@.len()
                ==> (#[trigger] open@[i]) == old(open)@[i],
            forall|j: int| 0 <= j < k as int
                && !blocked(walls@, best.xy, #[trigger] neighbours@[j])
                ==> seq_has_xy(closed@, neighbours@[j]) || seq_has_xy(open@, neighbours@[j]),
            forall|i: int| old(open)@.len() <= i < open@.len()
                ==> (#[trigger] open@[i]).parent == best.xy
                    && neighbours@.contains(open@[i].xy)
                    && !blocked(walls@, best.xy, open@[i].xy)
                    && !seq_has_xy(closed@, open@[i].xy)
                    && !seq_has_xy(old(open)@, open@[i].xy),
        decreases neighbours@.len() - k as int,
    {
        let n = neighbours[k];
        let ghost prev = open@;
        if !wall_between(walls, best.xy, n) && !closed_contains(closed, n) {
            let g_cost = n.x + n.y;
            let h_cost = (end.x - n.x) + (end.y - n.y);
            let node = AStarNode { xy: n, parent: best.xy, f_cost: g_cost + h_cost, g_cost };
            if !open_contains(open, n) {
                open.push(node);
                proof {
                    // the cell just frontiered is one of the listed
                    // neighbours and was tracked nowhere before
                    assert(neighbours@[k as int] == n);
                    assert(neighbours@.contains(n));
                    if seq_has_xy(old(open)@, n) {
                        let w = choose|w: int| 0 <= w < old(open)@.len()
                            && (#[trigger] old(open)@[w]).xy == n;
                        assert(prev[w].xy == n);
                        assert(false);
                    }
                }
            }
        }
        proof {
            assert forall|j: int| 0 <= j < k as int + 1
                && !blocked(walls@, best.xy, #[trigger] neighbours@[j])
                implies seq_has_xy(closed@, neighbours@[j])
                    || seq_has_xy(open@, neighbours@[j]) by {
                if j < k as int {
                    if seq_has_xy(prev, neighbours@[j]) {
                        let w = choose|w: int| 0 <= w < prev.len()
                            && (#[trigger] prev[w]).xy == neighbours@[j];
                        assert(open@[w].xy == neighbours@[j]);
                    }
                } else {
                    if !seq_has_xy(closed@, neighbours@[j]) && !seq_has_xy(prev, neighbours@[j]) {
                        assert(open@[open@.len() - 1].xy == neighbours@[j]);
                    } else if seq_has_xy(prev, neighbours@[j]) {
                        let w = choose|w: int| 0 <= w < prev.len()
                            && (#[trigger] prev[w]).xy == neighbours@[j];
                        assert(open@[w].xy == neighbours@[j]);
                    }
                }
            }
        }
        k = k + 1;
    }
}

/// Whether `e` retraces one stored parent link: some finalized node sits
/// at its far end and records its near end as the cell it was reached
/// from.
pub open spec fn edge_from_parent_link(closed: Seq<AStarNode>, e: Edge) -> bool {
    exists|j: int| 0 <= j < closed.len() && (#[trigger] closed[j]).xy == e.b
        && closed[j].parent == e.a
}

/// The position of the finalized node sitting at `p`.
fn find_in_closed(closed: &Vec<AStarNode>, p: Point) -> (idx: usize)
    requires
        seq_has_xy(closed@, p),
    ensures
        (idx as int) < closed@.len(),
        closed@[idx as int].xy == p,
{
    let mut i: usize = 0;
    while i < closed.len()
        invariant
            i as int <= closed@.len(),
            forall|j: int| 0 <= j < i as int ==> (#[trigger] closed@[j]).xy != p,
        decreases closed@.len() - i as int,
    {
        if closed[i].xy == p {
            return i;
        }
        i = i + 1;
    }
    proof {
        let j = choose|j: int| 0 <= j < closed@.len() && (#[trigger] closed@[j]).xy == p;
        assert(false);
    }
    0
}

/// Each finalized node stores the cell it was reached from, so the route
/// is read off by following those links back from the last finalized node
/// until the origin, then reversed to run origin-outward; `min` only
/// sizes the allocation.
#[verifier::rlimit(100)]
#[verifier::spinoff_prover]
pub fn trace_path(
    min: i32,
    current: AStarNode,
    closed: &Vec<AStarNode>,
    walls: &EdgeSet,
    width: i32,
    height: i32,
) -> (path: EdgeVec)
    requires
        0 <= min,
        closed_ok(closed@, walls@, width, height),
        exists|i: int| 0 <= i < closed@.len() && #[trigger] closed@[i] == current,
        current.xy != origin(),
    ensures
        route_ok(path@, walls@, width, height, origin(), current.xy),
        forall|m: int| 0 <= m < path@.len()
            ==> edge_from_parent_link(closed@, #[trigger] path@[m]),
{
    let mut back: Vec<Edge> = Vec::with_capacity(min as usize);
    let mut cur = current;
    let ghost initial_idx = choose|i: int| 0 <= i < closed@.len()
        && #[trigger] closed@[i] == current;
    let ghost initial_idxs: Seq<int> = seq![initial_idx];
    let mut cur_idx: Ghost<int> = Ghost(initial_idx);
    let mut idxs: Ghost<Seq<int>> = Ghost(initial_idxs);
    while !(cur.xy.x == 0 && cur.xy.y == 0)
        invariant
            closed_ok(closed@, walls@, width, height),
            0 <= cur_idx@ < closed@.len(),
            closed@[cur_idx@] == cur,
            back@.len() == 0 ==> cur == current,
            back@.len() >= 1 ==> cur.xy == back@[back@.len() - 1].a,
            back@.len() >= 1 ==> back@[0].b == current.xy,
            forall|m: int| 1 <= m < back@.len() ==> (#[trigger] back@[m]).b == back@[m - 1].a,
            forall|m: int| 0 <= m < back@.len() ==> adjacent((#[trigger] back@[m]).a, back@[m].b)
                && in_grid(back@[m].a, width, height) && in_grid(back@[m].b, width, height)
                && !blocked(walls@, back@[m].a, back@[m].b),
            idxs@.len() == back@.len() + 1,
            idxs@[idxs@.len() - 1] == cur_idx@,
            forall|k: int| 0 <= k < idxs@.len() ==> 0 <= #[trigger] idxs@[k] < closed@.len(),
            forall|k: int, l: int| 0 <= k < l < idxs@.len()
                ==> #[trigger] idxs@[k] > #[trigger] idxs@[l],
            forall|k: int| 0 <= k < idxs@.len() ==> closed@[#[trigger] idxs@[k]].xy
                == (if k == 0 { current.xy } else { back@[k - 1].a }),
            forall|m: int| 0 <= m < back@.len()
                ==> edge_from_parent_link(closed@, #[trigger] back@[m]),
        decreases cur_idx@,
    {
        proof {
            assert(cur.xy != origin());
        }
        let parent_idx = find_in_closed(closed, cur.parent);
        let parent = closed[parent_idx];
        let before_xy = cur.xy;
        let ghost old_cur = cur;
        cur = parent;
        back.push(Edge { a: parent.xy, b: before_xy });
        proof {
            // the scan's hit is the very index the parent link promises,
            // since finalized cells are pairwise distinct
            let j = choose|j: int| 0 <= j < cur_idx@
                && (#[trigger] closed@[j]).xy == old_cur.parent;
            assert(parent_idx as int == j);
            // the pushed edge retraces the link stored on the node we
            // stepped back from
            assert(closed@[cur_idx@].xy == back@[back@.len() - 1].b
                && closed@[cur_idx@].parent == back@[back@.len() - 1].a);
            assert(edge_from_parent_link(closed@, back@[back@.len() - 1]));
            cur_idx@ = parent_idx as int;
            idxs@ = idxs@.push(parent_idx as int);
        }
    }
    proof {
        assert(cur.xy == origin());
        if back@.len() == 0 {
            assert(current.xy == origin());
            assert(false);
        }
    }
    finish_trace(&back, closed, idxs, walls, width, height, current)
}

/// Reverses the goal-to-origin edge list into the outward route and
/// carries the recorded finalized-list positions over into its
/// well-formedness: strictly falling positions mean no cell repeats.
fn finish_trace(
    back: &Vec<Edge>,
    closed: &Vec<AStarNode>,
    idxs: Ghost<Seq<int>>,
    walls: &EdgeSet,
    width: i32,
    height: i32,
    current: AStarNode,
) -> (path: EdgeVec)
    requires
        back@.len() >= 1,
        back@[back@.len() - 1].a == origin(),
        back@[0].b == current.xy,
        forall|m: int| 1 <= m < back@.len() ==> (#[trigger] back@[m]).b == back@[m - 1].a,
        forall|m: int| 0 <= m < back@.len() ==> adjacent((#[trigger] back@[m]).a, back@[m].b)
            && in_grid(back@[m].a, width, height) && in_grid(back@[m].b, width, height)
            && !blocked(walls@, back@[m].a, back@[m].b),
        idxs@.len() == back@.len() + 1,
        forall|k: int| 0 <= k < idxs@.len() ==> 0 <= #[trigger] idxs@[k] < closed@.len(),
        forall|k: int, l: int| 0 <= k < l < idxs@.len()
            ==> #[trigger] idxs@[k] > #[trigger] idxs@[l],
        forall|k: int| 0 <= k < idxs@.len() ==> closed@[#[trigger] idxs@[k]].xy
            == (if k == 0 { current.xy } else { back@[k - 1].a }),
        forall|i: int, j: int| 0 <= i < j < closed@.len()
            ==> (#[trigger] closed@[i]).xy != (#[trigger] closed@[j]).xy,
        forall|m: int| 0 <= m < back@.len()
            ==> edge_from_parent_link(closed@, #[trigger] back@[m]),
    ensures
        route_ok(path@, walls@, width, height, origin(), current.xy),
        forall|m: int| 0 <= m < path@.len()
            ==> edge_from_parent_link(closed@, #[trigger] path@[m]),
{
    let mut path: Vec<Edge> = Vec::with_capacity(back.len());
    let mut j: usize = back.len();
    while j > 0
        invariant
            path@.len() + j as int == back@.len(),
            j as int <= back@.len(),
            forall|k: int| 0 <= k < path@.len()
                ==> #[trigger] path@[k] == back@[back@.len() - 1 - k],
        decreases j,
    {
        j = j - 1;
        let e = back[j];
        path.push(e);
    }
    proof {
        let ln = back@.len() as int;
        assert(path@.len() == ln);
        assert(path@[0].a == back@[ln - 1].a);
        assert(path@[ln - 1].b == back@[0].b);
        assert forall|i: int| 0 <= i < ln - 1
            implies (#[trigger] path@[i]).b == path@[i + 1].a by {
            assert(path@[i] == back@[ln - 1 - i]);
            assert(path@[i + 1] == back@[ln - 2 - i]);
            assert(back@[ln - 1 - i].b == back@[ln - 2 - i].a);
        }
        assert forall|i: int| 0 <= i < ln
            implies in_grid((#[trigger] path@[i]).a, width, height)
                && in_grid(path@[i].b, width, height) && adjacent(path@[i].a, path@[i].b)
                && !blocked(walls@, path@[i].a, path@[i].b) by {
            assert(path@[i] == back@[ln - 1 - i]);
        }
        assert forall|i: int| 0 <= i < ln
            implies (#[trigger] path@[i]).a == closed@[idxs@[ln - i]].xy by {
            assert(path@[i] == back@[ln - 1 - i]);
            assert(closed@[idxs@[ln - i]].xy == back@[ln - i - 1].a);
        }
        assert forall|i: int, j2: int| 0 <= i < j2 < ln
            implies (#[trigger] path@[i]).a != (#[trigger] path@[j2]).a by {
            assert(idxs@[ln - j2] > idxs@[ln - i]);
        }
        assert forall|i: int| 0 <= i < ln
            implies (#[trigger] path@[i]).a != path@[ln - 1].b by {
            assert(path@[ln - 1] == back@[0]);
            assert(back@[0].b == current.xy);
            assert(closed@[idxs@[0]].xy == current.xy);
            assert(idxs@[ln - i] < idxs@[0]);
        }
        assert(route_ok(path@, walls@, width, height, origin(), current.xy));
        assert forall|m: int| 0 <= m < path@.len()
            implies edge_from_parent_link(closed@, #[trigger] path@[m]) by {
            assert(path@[m] == back@[ln - 1 - m]);
        }
    }
    path
}

/// Once the frontier is exhausted, the finalized set is closed under
/// unwalled adjacency; any route from the origin stays inside it step by
/// step, so it would deliver the goal — which was never finalized.
#[verifier::rlimit(100)]
proof fn lemma_route_confined(
    closed: Seq<AStarNode>, walls: Seq<Edge>, width: i32, height: i32, p: Seq<Edge>, k: int,
)
    requires
        closed_ok(closed, walls, width, height),
        forall|i: int, q: Point| 0 <= i < closed.len() && closed[i].xy != goal(width, height)
            && #[trigger] adjacent(closed[i].xy, q) && in_grid(q, width, height)
            && !blocked(walls, closed[i].xy, q)
            ==> seq_has_xy(closed, q),
        seq_has_xy(closed, origin()),
        !seq_has_xy(closed, goal(width, height)),
        path_ok(p, walls, width, height),
        0 <= k < p.len(),
    ensures
        seq_has_xy(closed, p[k].a),
        seq_has_xy(closed, p[k].b),
    decreases k,
{
    if k == 0 {
        assert(p[0].a == origin());
    } else {
        lemma_route_confined(closed, walls, width, height, p, k - 1);
        assert(p[k - 1].b == p[k].a);
    }
    let c = p[k].a;
    let d = p[k].b;
    let i = choose|i: int| 0 <= i < closed.len() && (#[trigger] closed[i]).xy == c;
    assert(closed[i].xy != goal(width, height));
    assert(adjacent(closed[i].xy, d));
}

proof fn lemma_no_route(closed: Seq<AStarNode>, walls: Seq<Edge>, width: i32, height: i32)
    requires
        closed_ok(closed, walls, width, height),
        forall|i: int, q: Point| 0 <= i < closed.len() && closed[i].xy != goal(width, height)
            && #[trigger] adjacent(closed[i].xy, q) && in_grid(q, width, height)
            && !blocked(walls, closed[i].xy, q)
            ==> seq_has_xy(closed, q),
        seq_has_xy(closed, origin()),
        !seq_has_xy(closed, goal(width, height)),
    ensures
        !route_exists(walls, width, height),
{
    assert forall|p: Seq<Edge>| !path_ok(p, walls, width, height) by {
        if path_ok(p, walls, width, height) {
            lemma_route_confined(closed, walls, width, height, p, p.len() - 1);
            assert(false);
        }
    }
}

/// A route cannot be shorter than the Manhattan distance it covers: each
/// unit step moves the coordinate sum by at most one.
proof fn lemma_route_min_len(
    p: Seq<Edge>, walls: Seq<Edge>, width: i32, height: i32, start: Point, endp: Point,
)
    requires
        route_ok(p, walls, width, height, start, endp),
    ensures
        p.len() >= endp.x + endp.y - start.x - start.y,
    decreases p.len(),
{
    if p.len() == 1 {
        assert(adjacent(start, endp));
    } else {
        let q = p.drop_last();
        let mid = p[p.len() - 2].b;
        assert(route_ok(q, walls, width, height, start, mid)) by {
            assert forall|i: int| 0 <= i < q.len()
                implies (#[trigger] q[i]).a != q[q.len() - 1].b by {
                assert(q[q.len() - 1].b == p[p.len() - 1].a);
                assert(q[i].a == p[i].a);
            }
        }
        lemma_route_min_len(q, walls, width, height, start, mid);
        assert(adjacent(p[p.len() - 1].a, endp));
        assert(p[p.len() - 1].a == mid);
    }
}

/// Taking a node out of the frontier leaves a well-formed frontier, and
/// every other tracked cell stays tracked.
proof fn lemma_open_remove(
    pre_open: Seq<AStarNode>, new_open: Seq<AStarNode>, closed: Seq<AStarNode>,
    walls: Seq<Edge>, width: i32, height: i32, idx: int,
)
    requires
        open_ok(pre_open, closed, walls, width, height),
        0 <= idx < pre_open.len(),
        new_open == pre_open.remove(idx),
    ensures
        open_ok(new_open, closed, walls, width, height),
        forall|i: int| 0 <= i < new_open.len()
            ==> (#[trigger] new_open[i]).xy != pre_open[idx].xy,
        forall|pnt: Point| pnt != pre_open[idx].xy && seq_has_xy(pre_open, pnt)
            ==> seq_has_xy(new_open, pnt),
{
    pre_open.remove_ensures(idx);
    assert forall|i: int| 0 <= i < new_open.len()
        implies #[trigger] new_open[i] == pre_open[if i < idx { i } else { i + 1 }] by {}
    assert forall|i: int, j: int| 0 <= i < j < new_open.len()
        implies (#[trigger] new_open[i]).xy != (#[trigger] new_open[j]).xy by {
        let oi: int = if i < idx { i } else { i + 1 };
        let oj: int = if j < idx { j } else { j + 1 };
        assert(new_open[i] == pre_open[oi] && new_open[j] == pre_open[oj]);
    }
    assert forall|i: int| 0 <= i < new_open.len()
        implies (#[trigger] new_open[i]).xy != pre_open[idx].xy by {
        let oi: int = if i < idx { i } else { i + 1 };
        assert(new_open[i] == pre_open[oi]);
    }
    assert forall|pnt: Point| pnt != pre_open[idx].xy && seq_has_xy(pre_open, pnt)
        implies seq_has_xy(new_open, pnt) by {
        let j = choose|j: int| 0 <= j < pre_open.len() && (#[trigger] pre_open[j]).xy == pnt;
        if j < idx {
            assert(new_open[j].xy == pnt);
        } else {
            assert(new_open[j - 1].xy == pnt);
        }
    }
}

/// Finalizing a frontier node keeps the finalized list well formed; its
/// cells are the old ones plus the new node's.
proof fn lemma_closed_push(
    pre_closed: Seq<AStarNode>, closed: Seq<AStarNode>, best: AStarNode,
    walls: Seq<Edge>, width: i32, height: i32,
)
    requires
        closed_ok(pre_closed, walls, width, height),
        closed == pre_closed.push(best),
        in_grid(best.xy, width, height),
        node_costs_ok(best, width, height),
        !seq_has_xy(pre_closed, best.xy),
        (best.xy == origin() && best.parent == origin())
            || (adjacent(best.parent, best.xy) && !blocked(walls, best.parent, best.xy)
                && seq_has_xy(pre_closed, best.parent)),
    ensures
        closed_ok(closed, walls, width, height),
        seq_has_xy(closed, best.xy),
        forall|pnt: Point| seq_has_xy(pre_closed, pnt) ==> seq_has_xy(closed, pnt),
        forall|pnt: Point| seq_has_xy(closed, pnt)
            ==> seq_has_xy(pre_closed, pnt) || pnt == best.xy,
{
    assert(closed[closed.len() - 1] == best);
    assert forall|pnt: Point| seq_has_xy(pre_closed, pnt)
        implies seq_has_xy(closed, pnt) by {
        let j = choose|j: int| 0 <= j < pre_closed.len() && (#[trigger] pre_closed[j]).xy == pnt;
        assert(closed[j].xy == pnt);
    }
    assert forall|pnt: Point| seq_has_xy(closed, pnt)
        implies seq_has_xy(pre_closed, pnt) || pnt == best.xy by {
        let j = choose|j: int| 0 <= j < closed.len() && (#[trigger] closed[j]).xy == pnt;
        if j < closed.len() - 1 {
            assert(pre_closed[j].xy == pnt);
        }
    }
    assert forall|i: int| 0 <= i < closed.len()
        implies ((#[trigger] closed[i]).xy == origin() && closed[i].parent == origin())
            || (adjacent(closed[i].parent, closed[i].xy)
                && !blocked(walls, closed[i].parent, closed[i].xy)
                && exists|j: int| 0 <= j < i && (#[trigger] closed[j]).xy == closed[i].parent) by {
        if i < closed.len() - 1 {
            assert(closed[i] == pre_closed[i]);
            if !(closed[i].xy == origin() && closed[i].parent == origin()) {
                let j = choose|j: int| 0 <= j < i
                    && (#[trigger] pre_closed[j]).xy == pre_closed[i].parent;
                assert(closed[j].xy == closed[i].parent);
            }
        } else {
            if !(best.xy == origin() && best.parent == origin()) {
                let j = choose|j: int| 0 <= j < pre_closed.len()
                    && (#[trigger] pre_closed[j]).xy == best.parent;
                assert(closed[j].xy == closed[i].parent);
            }
        }
    }
}

/// A frontier stays well formed against a finalized list that has grown,
/// as long as it does not track the newly finalized cell.
proof fn lemma_open_vs_new_closed(
    open: Seq<AStarNode>, pre_closed: Seq<AStarNode>, closed: Seq<AStarNode>, best: AStarNode,
    walls: Seq<Edge>, width: i32, height: i32,
)
    requires
        open_ok(open, pre_closed, walls, width, height),
        closed == pre_closed.push(best),
        forall|i: int| 0 <= i < open.len() ==> (#[trigger] open[i]).xy != best.xy,
    ensures
        open_ok(open, closed, walls, width, height),
{
    assert forall|i: int| 0 <= i < open.len()
        implies !seq_has_xy(closed, (#[trigger] open[i]).xy) by {
        if seq_has_xy(closed, open[i].xy) {
            let j = choose|j: int| 0 <= j < closed.len() && (#[trigger] closed[j]).xy == open[i].xy;
            if j < closed.len() - 1 {
                assert(pre_closed[j].xy == open[i].xy);
            }
            assert(false);
        }
    }
    assert forall|i: int| 0 <= i < open.len()
        implies ((#[trigger] open[i]).xy == origin() && open[i].parent == origin())
            || (adjacent(open[i].parent, open[i].xy)
                && !blocked(walls, open[i].parent, open[i].xy)
                && seq_has_xy(closed, open[i].parent)) by {
        if !(open[i].xy == origin() && open[i].parent == origin()) {
            let j = choose|j: int| 0 <= j < pre_closed.len()
                && (#[trigger] pre_closed[j]).xy == open[i].parent;
            assert(closed[j].xy == open[i].parent);
        }
    }
}

/// After a pop, a push, and an expansion, every finalized cell other than
/// the stop cell still has all its reachable neighbours tracked.
proof fn lemma_expanded_after_pop(
    pre_closed: Seq<AStarNode>, closed: Seq<AStarNode>, pre_open: Seq<AStarNode>,
    new_open: Seq<AStarNode>, best: AStarNode, walls: Seq<Edge>,
    width: i32, height: i32, end: Point,
)
    requires
        expanded_ok(pre_closed, pre_open, walls, width, height, end),
        closed == pre_closed.push(best),
        seq_has_xy(closed, best.xy),
        forall|pnt: Point| seq_has_xy(pre_closed, pnt) ==> seq_has_xy(closed, pnt),
        forall|pnt: Point| pnt != best.xy && seq_has_xy(pre_open, pnt)
            ==> seq_has_xy(new_open, pnt),
        best.xy == end || (forall|q: Point| #[trigger] adjacent(best.xy, q)
            && in_grid(q, width, height) && !blocked(walls, best.xy, q)
            ==> seq_has_xy(closed, q) || seq_has_xy(new_open, q)),
    ensures
        expanded_ok(closed, new_open, walls, width, height, end),
{
    assert forall|i: int, q: Point| 0 <= i < closed.len() && closed[i].xy != end
        && #[trigger] adjacent(closed[i].xy, q) && in_grid(q, width, height)
        && !blocked(walls, closed[i].xy, q)
        implies seq_has_xy(closed, q) || seq_has_xy(new_open, q) by {
        if i < closed.len() - 1 {
            assert(closed[i] == pre_closed[i]);
            assert(adjacent(pre_closed[i].xy, q));
            if seq_has_xy(pre_closed, q) || seq_has_xy(pre_open, q) {
                if seq_has_xy(pre_open, q) && q == best.xy {
                    assert(seq_has_xy(closed, q));
                }
            }
        }
    }
}

/// Computes a maze\'s solution by the frontier/closed-set search: the node
/// with the smallest combined cost is finalized in turn (any minimum is
/// acceptable on ties) until the goal is reached, then the route is traced
/// back and handed to the move compressor.
///
/// Returns the perfect-run move count, its instruction list, and the raw
/// route. Fails with `Unsolvable` exactly when no route exists through the
/// given walls — which never happens for a wall set from `generate_edges`.
///
/// The one-cell grid is excluded by precondition: with the origin already
/// on the goal there is no route of unit steps and no final run for the
/// compressor to emit, so that degenerate maze has no solution value of
/// this shape. A caller that admits it should answer it directly with an
/// empty solution of zero moves.
#[verifier::rlimit(100)]
pub fn a_star_solution(walls: &EdgeSet, width: i32, height: i32) -> (r: Result<
    (i32, Vec<MoveInstruction>, EdgeVec),
    MazeError,
>)
    requires
        1 <= width,
        1 <= height,
        width as int * height as int <= 0x4000_0000,
        !(width == 1 && height == 1),
    ensures
        r matches Ok(sol) ==> path_ok(sol.2@, walls@, width, height),
        r matches Ok(sol) ==> sol.2@.len() >= width as int + height as int - 2,
        r matches Ok(sol) ==> sol.1@ == crate::moves::compress(sol.2@, walls@, width, height),
        r matches Ok(sol) ==> sol.0 as int == moves_cost(sol.1@),
        r matches Ok(sol) ==> 1 <= sol.0 as int <= sol.2@.len(),
        r matches Ok(sol) ==> sol.1@.len() >= 1,
        r is Ok <==> route_exists(walls@, width, height),
        r is Err ==> r == Result::<(i32, Vec<MoveInstruction>, EdgeVec), MazeError>::Err(
            MazeError::Unsolvable,
        ),
{
    proof {
        lemma_dims_bound(width, height);
    }
    // the theoretical minimum of moves it takes to finish a maze this size
    let min = width + height - 2;
    let start_node = AStarNode {
        xy: Point { x: 0, y: 0 },
        parent: Point { x: 0, y: 0 },
        g_cost: 0,
        f_cost: min,
    };
    let end = Point { x: width - 1, y: height - 1 };
    let mut open: Vec<AStarNode> = Vec::new();
    let mut closed: Vec<AStarNode> = Vec::new();
    open.push(start_node);
    proof {
        assert(open@[0].xy == origin());
        assert(open@[0] == start_node);
        assert(open_ok(open@, closed@, walls@, width, height));
    }
    let mut found = false;
    while !found && open.len() != 0
        invariant
            1 <= width,
            1 <= height,
            width as int * height as int <= 0x4000_0000,
            width as int + height as int <= 0x4000_0001,
            end == goal(width, height),
            closed_ok(closed@, walls@, width, height),
            open_ok(open@, closed@, walls@, width, height),
            expanded_ok(closed@, open@, walls@, width, height, end),
            seq_has_xy(closed@, origin()) || seq_has_xy(open@, origin()),
            !found ==> !seq_has_xy(closed@, end),
            found ==> closed@.len() >= 1 && closed@[closed@.len() - 1].xy == end,
            closed@.len() <= width as int * height as int,
        decreases width as int * height as int - closed@.len(),
    {
        let idx = min_f_index(&open);
        let ghost pre_open = open@;
        let best = open.remove(idx);
        proof {
            lemma_open_remove(pre_open, open@, closed@, walls@, width, height, idx as int);
        }
        let ghost pre_closed = closed@;
        closed.push(best);
        proof {
            lemma_closed_push(pre_closed, closed@, best, walls@, width, height);
            lemma_open_vs_new_closed(open@, pre_closed, closed@, best, walls@, width, height);
        }
        if best.xy == end {
            found = true;
            proof {
                lemma_expanded_after_pop(
                    pre_closed, closed@, pre_open, open@, best, walls@, width, height, end);
                if seq_has_xy(pre_open, origin()) && best.xy != origin() {
                    assert(seq_has_xy(open@, origin()));
                }
            }
        } else {
            let neighbours = all_neighbours(best.xy, width, height);
            let ghost mid_open = open@;
            a_star_for_neighbours(&neighbours, best, walls, end, width, height, &mut open, &closed);
            proof {
                assert forall|pnt: Point| seq_has_xy(mid_open, pnt)
                    implies seq_has_xy(open@, pnt) by {
                    let j = choose|j: int| 0 <= j < mid_open.len()
                        && (#[trigger] mid_open[j]).xy == pnt;
                    assert(open@[j].xy == pnt);
                }
                assert forall|q: Point| #[trigger] adjacent(best.xy, q)
                    && in_grid(q, width, height) && !blocked(walls@, best.xy, q)
                    implies seq_has_xy(closed@, q) || seq_has_xy(open@, q) by {
                    lemma_all_neighbours_complete(best.xy, q, width, height);
                    assert(crate::util::all_neighbours_spec(best.xy, width, height).contains(q));
                    let k = choose|k: int| 0 <= k < neighbours@.len()
                        && neighbours@[k] == q;
                    assert(!blocked(walls@, best.xy, neighbours@[k]));
                }
                lemma_expanded_after_pop(
                    pre_closed, closed@, pre_open, open@, best, walls@, width, height, end);
                if seq_has_xy(pre_open, origin()) && best.xy != origin() {
                    assert(seq_has_xy(mid_open, origin()));
                    assert(seq_has_xy(open@, origin()));
                }
            }
        }
        proof {
            // distinct finalized cells never outnumber the grid
            let cells = closed@.map_values(|nd: AStarNode| nd.xy);
            assert forall|i: int| 0 <= i < cells.len()
                implies in_grid(#[trigger] cells[i], width, height) by {
                assert(cells[i] == closed@[i].xy);
            }
            assert forall|i: int, j: int| 0 <= i < j < cells.len()
                implies (#[trigger] cells[i]) != (#[trigger] cells[j]) by {
                assert(cells[i] == closed@[i].xy && cells[j] == closed@[j].xy);
            }
            lemma_distinct_cells_bound(cells, width, height);
        }
    }
    if found {
        let last = closed[closed.len() - 1];
        proof {
            assert(closed@[closed@.len() - 1] == last);
            assert(last.xy == end);
            assert(last.xy != origin());
        }
        let path = trace_path(min, last, &closed, walls, width, height);
        proof {
            assert(path_ok(path@, walls@, width, height));
            lemma_route_min_len(path@, walls@, width, height, origin(), goal(width, height));
            assert(route_exists(walls@, width, height));
        }
        let (n_moves, moves) = get_moves(width, height, &path, walls);
        Ok((n_moves, moves, path))
    } else {
        proof {
            lemma_no_route(closed@, walls@, width, height);
        }
        Err(MazeError::Unsolvable)
    }
}

} // verus!
