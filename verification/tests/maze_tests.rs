use maze::{
    a_star_solution, all_neighbours, generate_edges, get_moves, kruskal_walls, match_diff,
    move_max, out_of_bounds, partial_neighbours, remaining_length, wall_between, Direction, Edge,
    Graph, MazeError, MoveInstruction, Point,
};

fn pt(x: i32, y: i32) -> Point {
    Point { x, y }
}

fn edge(ax: i32, ay: i32, bx: i32, by: i32) -> Edge {
    Edge { a: pt(ax, ay), b: pt(bx, by) }
}

/// What the interaction charges for an instruction list: one move per
/// maximal slide, the magnitude for a literal run.
fn charged(moves: &[MoveInstruction]) -> i32 {
    moves.iter().map(|m| if m.maximal { 1 } else { m.magnitude }).sum()
}

/// All checks a returned route must satisfy: origin to goal, unit steps
/// chained head to tail, no wall crossed, no cell repeated.
fn assert_valid_path(path: &[Edge], walls: &Vec<Edge>, width: i32, height: i32) {
    assert!(!path.is_empty());
    assert_eq!(path[0].a, pt(0, 0));
    assert_eq!(path[path.len() - 1].b, pt(width - 1, height - 1));
    let mut cells = vec![path[0].a];
    for (i, e) in path.iter().enumerate() {
        if i + 1 < path.len() {
            assert_eq!(e.b, path[i + 1].a);
        }
        let dx = (e.b.x - e.a.x).abs();
        let dy = (e.b.y - e.a.y).abs();
        assert_eq!(dx + dy, 1, "steps must be unit steps");
        assert!(!out_of_bounds(e.a, width, height));
        assert!(!out_of_bounds(e.b, width, height));
        assert!(!wall_between(walls, e.a, e.b), "route crosses a wall");
        cells.push(e.b);
    }
    for i in 0..cells.len() {
        for j in (i + 1)..cells.len() {
            assert_ne!(cells[i], cells[j], "route repeats a cell");
        }
    }
}

#[test]
fn out_of_bounds_corners_and_edges() {
    assert!(!out_of_bounds(pt(0, 0), 3, 2));
    assert!(!out_of_bounds(pt(2, 1), 3, 2));
    assert!(out_of_bounds(pt(3, 1), 3, 2));
    assert!(out_of_bounds(pt(2, 2), 3, 2));
    assert!(out_of_bounds(pt(-1, 0), 3, 2));
    assert!(out_of_bounds(pt(0, -1), 3, 2));
}

#[test]
fn partial_neighbours_interior_and_corner() {
    assert_eq!(partial_neighbours(pt(0, 0), 3, 3), vec![pt(1, 0), pt(0, 1)]);
    assert_eq!(partial_neighbours(pt(2, 2), 3, 3), Vec::<Point>::new());
    assert_eq!(partial_neighbours(pt(2, 0), 3, 3), vec![pt(2, 1)]);
    assert_eq!(partial_neighbours(pt(0, 2), 3, 3), vec![pt(1, 2)]);
}

#[test]
fn all_neighbours_interior_and_corner() {
    assert_eq!(
        all_neighbours(pt(1, 1), 3, 3),
        vec![pt(2, 1), pt(1, 2), pt(0, 1), pt(1, 0)]
    );
    assert_eq!(all_neighbours(pt(0, 0), 3, 3), vec![pt(1, 0), pt(0, 1)]);
    assert_eq!(all_neighbours(pt(2, 2), 3, 3), vec![pt(1, 2), pt(2, 1)]);
    assert_eq!(all_neighbours(pt(0, 0), 1, 1), Vec::<Point>::new());
}

#[test]
fn wall_between_probes_both_orderings() {
    let walls = vec![edge(0, 0, 1, 0)];
    assert!(wall_between(&walls, pt(0, 0), pt(1, 0)));
    assert!(wall_between(&walls, pt(1, 0), pt(0, 0)));
    assert!(!wall_between(&walls, pt(0, 0), pt(0, 1)));
    assert!(!wall_between(&vec![], pt(0, 0), pt(1, 0)));
}

#[test]
fn union_find_reports_cycles() {
    let mut g = Graph::new(4);
    assert!(g.union_subtrees(0, 1));
    assert!(!g.union_subtrees(1, 0), "already joined: a cycle");
    assert!(g.union_subtrees(2, 3));
    assert!(g.union_subtrees(0, 2));
    assert!(!g.union_subtrees(1, 3), "everything is one set now");
    assert!(!g.union_subtrees(0, 3));
}

#[test]
fn union_find_find_agrees_after_union() {
    let mut g = Graph::new(5);
    g.union_subtrees(0, 1);
    g.union_subtrees(3, 4);
    assert_eq!(
        g.find_and_cache_parent(0),
        g.find_and_cache_parent(1)
    );
    assert_eq!(
        g.find_and_cache_parent(3),
        g.find_and_cache_parent(4)
    );
    assert_ne!(
        g.find_and_cache_parent(0),
        g.find_and_cache_parent(2)
    );
}

#[test]
fn union_find_single_node_never_joins_itself() {
    let mut g = Graph::new(1);
    assert!(!g.union_subtrees(0, 0));
}

#[test]
fn union_find_exactly_cells_minus_one_unions_succeed() {
    // the four edges of the 2x2 grid, visited in several orders: always
    // exactly three unions succeed and one is refused as a cycle
    let grid_edges = [(0usize, 1usize), (2, 3), (0, 2), (1, 3)];
    let orders: [[usize; 4]; 3] = [[0, 1, 2, 3], [3, 2, 1, 0], [2, 0, 3, 1]];
    for order in orders {
        let mut g = Graph::new(4);
        let mut successes = 0;
        let mut cycles = 0;
        for k in order {
            let (a, b) = grid_edges[k];
            if g.union_subtrees(a, b) {
                successes += 1;
            } else {
                cycles += 1;
            }
        }
        assert_eq!(successes, 3);
        assert_eq!(cycles, 1);
    }
}

#[test]
fn kruskal_walls_any_permutation_gives_one_wall_on_2x2() {
    let e1 = edge(0, 0, 1, 0);
    let e2 = edge(0, 0, 0, 1);
    let e3 = edge(1, 0, 1, 1);
    let e4 = edge(0, 1, 1, 1);
    let perms = [
        vec![e1, e2, e3, e4],
        vec![e4, e3, e2, e1],
        vec![e3, e1, e4, e2],
    ];
    for edges in perms {
        let walls = kruskal_walls(&edges, 2, 2);
        assert_eq!(walls.len(), 1);
        assert!(edges.contains(&walls[0]));
    }
}

#[test]
fn generate_rejects_invalid_dimensions() {
    assert_eq!(generate_edges(0, 5, 1), Err(MazeError::InvalidDimensions));
    assert_eq!(generate_edges(5, 0, 1), Err(MazeError::InvalidDimensions));
    assert_eq!(generate_edges(-1, 4, 1), Err(MazeError::InvalidDimensions));
    assert_eq!(generate_edges(0, 0, 1), Err(MazeError::InvalidDimensions));
}

#[test]
fn generate_2x2_walls_exactly_one_edge() {
    for seed in 0..8u64 {
        let walls = generate_edges(2, 2, seed).unwrap();
        assert_eq!(walls.len(), 1, "4 edges, spanning tree keeps 3");
    }
}

#[test]
fn generate_5x1_has_no_walls() {
    let walls = generate_edges(5, 1, 99).unwrap();
    assert!(walls.is_empty(), "all 4 edges are in the spanning tree");
}

#[test]
fn generate_1x1_has_no_walls() {
    let walls = generate_edges(1, 1, 3).unwrap();
    assert!(walls.is_empty());
}

#[test]
fn generate_wall_count_is_total_minus_spanning_tree() {
    // |walls| = totalEdges - (cells - 1)
    for (w, h) in [(4, 4), (3, 5), (7, 2), (1, 9)] {
        let walls = generate_edges(w, h, 1234).unwrap();
        let total = (w - 1) * h + (h - 1) * w;
        assert_eq!(walls.len() as i32, total - (w * h - 1));
    }
}

#[test]
fn generate_same_seed_reproduces_the_maze() {
    let a = generate_edges(6, 5, 77).unwrap();
    let b = generate_edges(6, 5, 77).unwrap();
    assert_eq!(a, b);
}

#[test]
fn solve_2x2_two_moves_for_every_possible_wall() {
    let candidates = [
        edge(0, 0, 1, 0),
        edge(0, 0, 0, 1),
        edge(1, 0, 1, 1),
        edge(0, 1, 1, 1),
    ];
    for wall in candidates {
        let walls = vec![wall];
        let (count, moves, path) = a_star_solution(&walls, 2, 2).unwrap();
        assert_eq!(count, 2);
        assert_eq!(path.len(), 2);
        assert_eq!(count, charged(&moves));
        assert_valid_path(&path, &walls, 2, 2);
    }
}

#[test]
fn solve_5x1_single_maximal_instruction() {
    let walls: Vec<Edge> = vec![];
    let (count, moves, path) = a_star_solution(&walls, 5, 1).unwrap();
    assert_eq!(count, 1);
    assert_eq!(path.len(), 4);
    assert_eq!(
        moves,
        vec![MoveInstruction { direction: Direction::Right, magnitude: 1, maximal: true }]
    );
}

#[test]
fn solve_reports_unsolvable_when_cut_off() {
    let walls = vec![edge(0, 0, 1, 0)];
    assert_eq!(a_star_solution(&walls, 2, 1), Err(MazeError::Unsolvable));
}

#[test]
fn generated_mazes_are_always_solvable() {
    for (w, h) in [(2, 2), (3, 3), (5, 4), (8, 8), (1, 7), (7, 1), (6, 2)] {
        for seed in [1u64, 2, 42] {
            let walls = generate_edges(w, h, seed).unwrap();
            let solved = a_star_solution(&walls, w, h);
            assert!(solved.is_ok(), "maze {w}x{h} seed {seed} unsolvable");
            let (count, moves, path) = solved.unwrap();
            assert_valid_path(&path, &walls, w, h);
            assert!(count as usize <= path.len());
            assert!(path.len() as i32 >= w + h - 2);
            assert_eq!(count, charged(&moves));
        }
    }
}

#[test]
fn solving_twice_gives_the_same_outcome() {
    let walls = generate_edges(6, 6, 2024).unwrap();
    let (count1, moves1, path1) = a_star_solution(&walls, 6, 6).unwrap();
    let (count2, moves2, path2) = a_star_solution(&walls, 6, 6).unwrap();
    assert_eq!(count1, count2);
    assert_eq!(path1.len(), path2.len());
    assert_eq!(moves1, moves2);
}

#[test]
fn match_diff_renders_all_directions() {
    let up = match_diff((0, -1), true, 1);
    assert_eq!(up.direction, Direction::Up);
    assert!(up.maximal);
    let down = match_diff((0, 1), false, 3);
    assert_eq!(down.direction, Direction::Down);
    assert_eq!(down.magnitude, 3);
    assert!(!down.maximal);
    let left = match_diff((-1, 0), false, 2);
    assert_eq!(left.direction, Direction::Left);
    let right = match_diff((1, 0), true, 1);
    assert_eq!(right.direction, Direction::Right);
}

#[test]
fn remaining_length_stops_at_wall_or_boundary() {
    let open: Vec<Edge> = vec![];
    assert_eq!(remaining_length(5, 1, pt(0, 0), (1, 0), &open), 5);
    let walls = vec![edge(2, 0, 3, 0)];
    assert_eq!(remaining_length(5, 1, pt(0, 0), (1, 0), &walls), 3);
    assert_eq!(remaining_length(5, 1, pt(0, 0), (-1, 0), &open), 1);
}

#[test]
fn move_max_slides_until_blocked() {
    let open: Vec<Edge> = vec![];
    assert_eq!(move_max(&open, 5, 1, pt(0, 0), (1, 0)), pt(4, 0));
    let walls = vec![edge(2, 0, 3, 0)];
    assert_eq!(move_max(&walls, 5, 1, pt(0, 0), (1, 0)), pt(2, 0));
    assert_eq!(move_max(&open, 3, 3, pt(1, 1), (0, -1)), pt(1, 0));
}

#[test]
fn get_moves_straight_run_is_one_slide() {
    let walls: Vec<Edge> = vec![];
    let path = vec![
        edge(0, 0, 1, 0),
        edge(1, 0, 2, 0),
        edge(2, 0, 3, 0),
        edge(3, 0, 4, 0),
    ];
    let (count, moves) = get_moves(5, 1, &path, &walls);
    assert_eq!(count, 1);
    assert_eq!(
        moves,
        vec![MoveInstruction { direction: Direction::Right, magnitude: 1, maximal: true }]
    );
}

#[test]
fn get_moves_staircase_is_all_literal_steps() {
    let walls: Vec<Edge> = vec![];
    let path = vec![
        edge(0, 0, 1, 0),
        edge(1, 0, 1, 1),
        edge(1, 1, 2, 1),
        edge(2, 1, 2, 2),
    ];
    let (count, moves) = get_moves(3, 3, &path, &walls);
    assert_eq!(count, 4);
    assert_eq!(
        moves,
        vec![
            MoveInstruction { direction: Direction::Right, magnitude: 1, maximal: false },
            MoveInstruction { direction: Direction::Down, magnitude: 1, maximal: false },
            MoveInstruction { direction: Direction::Right, magnitude: 1, maximal: false },
            MoveInstruction { direction: Direction::Down, magnitude: 1, maximal: false },
        ]
    );
}

#[test]
fn get_moves_slide_that_ends_at_the_turn() {
    // the run to (2,0) meets a wall right past the turning point, so one
    // maximal slide covers it in a single move
    let walls = vec![edge(2, 0, 3, 0)];
    let path = vec![
        edge(0, 0, 1, 0),
        edge(1, 0, 2, 0),
        edge(2, 0, 2, 1),
        edge(2, 1, 3, 1),
    ];
    let (count, moves) = get_moves(4, 2, &path, &walls);
    assert_eq!(count, 3);
    assert_eq!(
        moves,
        vec![
            MoveInstruction { direction: Direction::Right, magnitude: 1, maximal: true },
            MoveInstruction { direction: Direction::Down, magnitude: 1, maximal: false },
            MoveInstruction { direction: Direction::Right, magnitude: 1, maximal: false },
        ]
    );
}

#[test]
fn get_moves_slide_with_walk_back_beats_literal_run() {
    // room continues one cell past the turning point: sliding to the wall
    // and stepping back once costs 2, the literal run would cost 3
    let walls: Vec<Edge> = vec![];
    let path = vec![
        edge(0, 0, 1, 0),
        edge(1, 0, 2, 0),
        edge(2, 0, 3, 0),
        edge(3, 0, 3, 1),
        edge(3, 1, 4, 1),
    ];
    let (count, moves) = get_moves(5, 2, &path, &walls);
    assert_eq!(count, 4);
    assert_eq!(
        moves,
        vec![
            MoveInstruction { direction: Direction::Right, magnitude: 1, maximal: true },
            MoveInstruction { direction: Direction::Left, magnitude: 1, maximal: false },
            MoveInstruction { direction: Direction::Down, magnitude: 1, maximal: false },
            MoveInstruction { direction: Direction::Right, magnitude: 1, maximal: false },
        ]
    );
}

#[test]
fn spiral_route_counts_match_the_instructions() {
    // a spiral on 3x3 forced by walls around the centre
    let walls = vec![edge(1, 1, 1, 0), edge(1, 1, 0, 1), edge(1, 1, 2, 1)];
    let (count, moves, path) = a_star_solution(&walls, 3, 3).unwrap();
    assert_valid_path(&path, &walls, 3, 3);
    assert_eq!(count, charged(&moves));
    assert!(count as usize <= path.len());
}

#[test]
fn generated_maze_reaches_every_cell() {
    // the complement of the wall set is connected: a flood fill along
    // unwalled adjacencies covers the whole grid
    for (w, h) in [(4, 4), (6, 3), (2, 9)] {
        let walls = generate_edges(w, h, 5).unwrap();
        let mut seen = vec![false; (w * h) as usize];
        let mut stack = vec![pt(0, 0)];
        seen[0] = true;
        while let Some(cell) = stack.pop() {
            for nb in all_neighbours(cell, w, h) {
                let k = (nb.x * h + nb.y) as usize;
                if !seen[k] && !wall_between(&walls, cell, nb) {
                    seen[k] = true;
                    stack.push(nb);
                }
            }
        }
        assert!(seen.iter().all(|s| *s), "a cell is cut off in {w}x{h}");
    }
}

#[test]
fn generated_walls_have_no_duplicates() {
    // the open corridors are exactly cells-1 edges: no wall is listed twice
    let walls = generate_edges(5, 5, 9).unwrap();
    for i in 0..walls.len() {
        for j in (i + 1)..walls.len() {
            assert_ne!(walls[i], walls[j], "a wall edge is repeated");
        }
    }
}
