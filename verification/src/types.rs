//! The data model: grid coordinates, edges between adjacent cells, wall
//! sets, movement instructions, and the error taxonomy, together with the
//! spec-level vocabulary (bounds, adjacency, wall membership, path validity)
//! that the contracts of the whole crate are written in.

use vstd::prelude::*;

verus! {

/// XY coordinate on a `width` x `height` grid.
#[derive(Clone, Copy, PartialEq, Eq, Structural, Debug, Hash)]
pub struct Point {
    pub x: i32,
    pub y: i32,
}

/// `(a, b)`: the two grid-adjacent cells that the edge links.
///
/// Equality of edges as *walls* is symmetric: membership tests probe both
/// orderings (see `edge_matches`).
#[derive(Clone, Copy, PartialEq, Eq, Structural, Debug, Hash)]
pub struct Edge {
    pub a: Point,
    pub b: Point,
}

/// A collection of edges that block traversal between grid-adjacent cells.
pub type EdgeSet = Vec<Edge>;

/// Same contents as `EdgeSet`, but read as an ordered route.
pub type EdgeVec = Vec<Edge>;

/// One coalesced directional command of a solution.
#[derive(Clone, Copy, PartialEq, Eq, Structural, Debug)]
pub enum Direction {
    Up,
    Down,
    Left,
    Right,
}

/// A directional instruction: either "slide until blocked" (`maximal`,
/// counting as one move) or a literal `magnitude`-step command (counting
/// as `magnitude` moves).
#[derive(Clone, Copy, PartialEq, Eq, Structural, Debug)]
pub struct MoveInstruction {
    pub direction: Direction,
    pub magnitude: i32,
    pub maximal: bool,
}

/// Everything a caller can be handed back on failure.
#[derive(Clone, Copy, PartialEq, Eq, Structural, Debug)]
pub enum MazeError {
    /// A maze was requested with a width or height below one.
    InvalidDimensions,
    /// The search frontier was exhausted before the goal was reached: the
    /// supplied wall set disconnects the grid.
    Unsolvable,
}

/// The cell at grid position (0, 0), where every route starts.
pub open spec fn origin() -> Point {
    Point { x: 0, y: 0 }
}

/// The cell at grid position (width - 1, height - 1), where every route ends.
pub open spec fn goal(width: i32, height: i32) -> Point {
    Point { x: (width - 1) as i32, y: (height - 1) as i32 }
}

/// Whether `p` lies on the grid.
pub open spec fn in_grid(p: Point, width: i32, height: i32) -> bool {
    0 <= p.x < width && 0 <= p.y < height
}

/// Whether `p` and `q` are distinct cells one unit apart on one axis.
pub open spec fn adjacent(p: Point, q: Point) -> bool {
    ||| p.x == q.x && (q.y == p.y + 1 || q.y == p.y - 1)
    ||| p.y == q.y && (q.x == p.x + 1 || q.x == p.x - 1)
}

/// Whether the edge `e` joins `p` and `q`, in either orientation.
pub open spec fn edge_matches(e: Edge, p: Point, q: Point) -> bool {
    ||| e.a == p && e.b == q
    ||| e.a == q && e.b == p
}

/// Whether some wall in `walls` blocks traversal between `p` and `q`.
pub open spec fn blocked(walls: Seq<Edge>, p: Point, q: Point) -> bool {
    exists|i: int| 0 <= i < walls.len() && edge_matches(#[trigger] walls[i], p, q)
}

/// A wall edge the generator may emit: both endpoints on the grid, and the
/// second endpoint one step right of or one step down from the first.
pub open spec fn canonical_grid_edge(e: Edge, width: i32, height: i32) -> bool {
    &&& in_grid(e.a, width, height)
    &&& in_grid(e.b, width, height)
    &&& (e.b == (Point { x: (e.a.x + 1) as i32, y: e.a.y })
        || e.b == (Point { x: e.a.x, y: (e.a.y + 1) as i32 }))
}

/// The number of distinct grid-adjacency edges of a `width` x `height` grid.
pub open spec fn total_edges(width: i32, height: i32) -> int {
    (width - 1) * height + (height - 1) * width
}

/// A well-formed route through `walls` on a `width` x `height` grid from
/// `start` to `endp`: unit steps, consecutive edges chained head to tail,
/// no step crossing a wall, and no cell visited twice.
pub open spec fn route_ok(
    p: Seq<Edge>, walls: Seq<Edge>, width: i32, height: i32, start: Point, endp: Point,
) -> bool {
    &&& p.len() >= 1
    &&& p[0].a == start
    &&& p[p.len() - 1].b == endp
    &&& forall|i: int| 0 <= i < p.len() - 1 ==> (#[trigger] p[i]).b == p[i + 1].a
    &&& forall|i: int| 0 <= i < p.len() ==> in_grid((#[trigger] p[i]).a, width, height)
        && in_grid(p[i].b, width, height) && adjacent(p[i].a, p[i].b)
        && !blocked(walls, p[i].a, p[i].b)
    &&& forall|i: int, j: int| 0 <= i < j < p.len() ==> (#[trigger] p[i]).a != (#[trigger] p[j]).a
    &&& forall|i: int| 0 <= i < p.len() ==> (#[trigger] p[i]).a != p[p.len() - 1].b
}

/// A well-formed solution: a route from the origin to the goal.
pub open spec fn path_ok(p: Seq<Edge>, walls: Seq<Edge>, width: i32, height: i32) -> bool {
    route_ok(p, walls, width, height, origin(), goal(width, height))
}

/// Whether any well-formed route exists at all through `walls`.
pub open spec fn route_exists(walls: Seq<Edge>, width: i32, height: i32) -> bool {
    exists|p: Seq<Edge>| path_ok(p, walls, width, height)
}

} // verus!
