//! Random perfect mazes on a rectangular grid: generation by randomized
//! Kruskal over a disjoint-set, shortest-route search over the grid minus
//! the walls, and compression of the route into "move until blocked"
//! instructions.

pub mod a_star;
pub mod kruskal;
pub mod moves;
pub mod types;
pub mod util;

pub use a_star::{a_star_for_neighbours, a_star_solution, trace_path, AStarNode};
pub use kruskal::{generate_edges, kruskal_walls, Graph};
pub use moves::{get_moves, match_diff, move_max, remaining_length};
pub use types::{Direction, Edge, EdgeSet, EdgeVec, MazeError, MoveInstruction, Point};
pub use util::{all_neighbours, out_of_bounds, partial_neighbours, wall_between};

