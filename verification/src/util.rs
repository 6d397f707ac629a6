//! Pure neighbour and bounds queries on a `width` x `height` grid, shared
//! by the maze generator, the pathfinder, and any rendering layer.

use vstd::prelude::*;

use crate::types::{adjacent, blocked, in_grid, Edge, EdgeSet, Point};

verus! {

/// The neighbours one step right and one step down of `node`, in that
/// order, kept only while they stay on the grid.
pub open spec fn partial_neighbours_spec(node: Point, width: i32, height: i32) -> Seq<Point> {
    let right = Seq::<Point>::empty().push(Point { x: (node.x + 1) as i32, y: node.y });
    let base = if node.x + 1 < width { right } else { Seq::<Point>::empty() };
    if node.y + 1 < height {
        base.push(Point { x: node.x, y: (node.y + 1) as i32 })
    } else {
        base
    }
}

/// All on-grid neighbours of `node`: right, down, left, up, in that order.
pub open spec fn all_neighbours_spec(node: Point, width: i32, height: i32) -> Seq<Point> {
    let base = partial_neighbours_spec(node, width, height);
    let with_left = if node.x > 0 {
        base.push(Point { x: (node.x - 1) as i32, y: node.y })
    } else {
        base
    };
    if node.y > 0 {
        with_left.push(Point { x: node.x, y: (node.y - 1) as i32 })
    } else {
        with_left
    }
}

/// Gets the neighbours of this node one to the right and one down.
pub fn partial_neighbours(node: Point, width: i32, height: i32) -> (adjacent_nodes: Vec<Point>)
    requires
        in_grid(node, width, height),
    ensures
        adjacent_nodes@ == partial_neighbours_spec(node, width, height),
{
    let mut adjacent_nodes: Vec<Point> = Vec::new();

    if node.x + 1 < width {
        adjacent_nodes.push(Point { x: node.x + 1, y: node.y });
    }
    if node.y + 1 < height {
        adjacent_nodes.push(Point { x: node.x, y: node.y + 1 });
    }

    proof {
        assert(adjacent_nodes@ =~= partial_neighbours_spec(node, width, height));
    }
    adjacent_nodes
}

/// Gets all adjacent neighbours up, left, down, and right.
pub fn all_neighbours(node: Point, width: i32, height: i32) -> (adjacent_nodes: Vec<Point>)
    requires
        in_grid(node, width, height),
    ensures
        adjacent_nodes@ == all_neighbours_spec(node, width, height),
        forall|i: int| 0 <= i < adjacent_nodes@.len()
            ==> adjacent(node, #[trigger] adjacent_nodes@[i])
                && in_grid(adjacent_nodes@[i], width, height),
{
    let mut adjacent_nodes = partial_neighbours(node, width, height);

    if node.x > 0 {
        adjacent_nodes.push(Point { x: node.x - 1, y: node.y });
    }
    if node.y > 0 {
        adjacent_nodes.push(Point { x: node.x, y: node.y - 1 });
    }

    proof {
        assert(adjacent_nodes@ =~= all_neighbours_spec(node, width, height));
    }
    adjacent_nodes
}

/// Whether `node` falls off the grid on any side.
pub fn out_of_bounds(node: Point, width: i32, height: i32) -> (r: bool)
    ensures
        r == !in_grid(node, width, height),
{
    node.x < 0 || node.y < 0 || node.x >= width || node.y >= height
}

/// Whether a wall blocks traversal between `a` and `b`; both edge
/// orderings are probed.
pub fn wall_between(walls: &EdgeSet, a: Point, b: Point) -> (r: bool)
    ensures
        r == blocked(walls@, a, b),
{
    let mut i: usize = 0;
    while i < walls.len()
        invariant
            0 <= i <= walls@.len(),
            forall|j: int| 0 <= j < i
                ==> !crate::types::edge_matches(#[trigger] walls@[j], a, b),
        decreases walls@.len() - i,
    {
        let e = walls[i];
        if (e.a == a && e.b == b) || (e.a == b && e.b == a) {
            return true;
        }
        i = i + 1;
    }
    false
}

/// Every entry of `all_neighbours` is a grid cell adjacent to `node`, and
/// every grid cell adjacent to `node` appears among them.
pub proof fn lemma_all_neighbours_complete(node: Point, q: Point, width: i32, height: i32)
    requires
        in_grid(node, width, height),
    ensures
        all_neighbours_spec(node, width, height).contains(q)
            <==> (adjacent(node, q) && in_grid(q, width, height)),
{
    let s = all_neighbours_spec(node, width, height);
    if adjacent(node, q) && in_grid(q, width, height) {
        if q.x == node.x + 1 {
            assert(s[0] == q);
        } else if q.y == node.y + 1 {
            let i = if node.x + 1 < width { 1int } else { 0int };
            assert(s[i] == q);
        } else if q.x == node.x - 1 {
            let i = (if node.x + 1 < width { 1int } else { 0int })
                + (if node.y + 1 < height { 1int } else { 0int });
            assert(s[i] == q);
        } else {
            let i = (if node.x + 1 < width { 1int } else { 0int })
                + (if node.y + 1 < height { 1int } else { 0int })
                + (if node.x > 0 { 1int } else { 0int });
            assert(s[i] == q);
        }
    }
}

} // verus!
