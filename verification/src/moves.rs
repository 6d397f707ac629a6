//! The move compressor: converts the unit-step solution route into the
//! smallest sequence of "move until blocked" and literal-step directional
//! instructions, together with the total move count that interaction
//! style charges for them.

use vstd::prelude::*;

use crate::types::{
    adjacent, blocked, in_grid, path_ok, Direction, Edge, EdgeSet, EdgeVec, MoveInstruction,
    Point,
};
use crate::util::{out_of_bounds, wall_between};
use crate::a_star::{lemma_dims_bound, lemma_distinct_cells_bound};

verus! {

/// A displacement of exactly one cell along one axis.
pub open spec fn unit_diff(diff: (i32, i32)) -> bool {
    ||| diff.0 == 0 && (diff.1 == 1 || diff.1 == -1)
    ||| diff.1 == 0 && (diff.0 == 1 || diff.0 == -1)
}

/// The direction a unit displacement points in.
pub open spec fn dir_of(diff: (i32, i32)) -> Direction {
    if diff.1 == -1 {
        Direction::Up
    } else if diff.1 == 1 {
        Direction::Down
    } else if diff.0 == -1 {
        Direction::Left
    } else {
        Direction::Right
    }
}

/// How many moves an instruction sequence costs: a maximal slide is one
/// move however far it goes, a literal run costs its magnitude.
pub open spec fn moves_cost(s: Seq<MoveInstruction>) -> int
    decreases s.len(),
{
    if s.len() == 0 {
        0
    } else {
        moves_cost(s.drop_last()) + (if s.last().maximal {
            1int
        } else {
            s.last().magnitude as int
        })
    }
}

proof fn lemma_moves_cost_push(s: Seq<MoveInstruction>, ins: MoveInstruction)
    ensures
        moves_cost(s.push(ins)) == moves_cost(s) + (if ins.maximal {
            1int
        } else {
            ins.magnitude as int
        }),
{
    assert(s.push(ins).drop_last() =~= s);
    assert(s.push(ins).last() == ins);
}

/// Renders one run as an instruction: the maximal "slide until blocked"
/// form when `max` is set, else the literal `amt`-step form.
pub fn match_diff(diff: (i32, i32), max: bool, amt: i32) -> (r: MoveInstruction)
    requires
        unit_diff(diff),
    ensures
        r == (MoveInstruction { direction: dir_of(diff), magnitude: amt, maximal: max }),
{
    let direction = if diff.1 == -1 {
        Direction::Up
    } else if diff.1 == 1 {
        Direction::Down
    } else if diff.0 == -1 {
        Direction::Left
    } else {
        Direction::Right
    };
    MoveInstruction { direction, magnitude: amt, maximal: max }
}

/// The cell `k` unit steps from `before` along `diff`.
pub open spec fn step_point(before: Point, diff: (i32, i32), k: int) -> Point {
    Point { x: (before.x + diff.0 * k) as i32, y: (before.y + diff.1 * k) as i32 }
}

/// Whether the `k`-th cell along the corridor from `before` is on the
/// grid and reachable from the cell before it.
pub open spec fn step_ok(
    walls: Seq<Edge>, before: Point, diff: (i32, i32), k: int, width: i32, height: i32,
) -> bool {
    &&& in_grid(step_point(before, diff, k), width, height)
    &&& !blocked(walls, step_point(before, diff, k), step_point(before, diff, k - 1))
}

/// A run step in the scanned direction leaves the compressed tail as it
/// was; a turn peels off what the ended run emits.
proof fn lemma_compress_skip(
    path: Seq<Edge>, walls: Seq<Edge>, width: i32, height: i32,
    i: int, pt: int, prev_diff: (i32, i32),
)
    requires
        0 <= i < path.len(),
        diff_at(path, i) == prev_diff,
    ensures
        compress_from(path, walls, width, height, i, pt, prev_diff)
            == compress_from(path, walls, width, height, i + 1, pt, prev_diff),
{
    reveal(compress_from);
}

proof fn lemma_compress_turn(
    path: Seq<Edge>, walls: Seq<Edge>, width: i32, height: i32,
    i: int, old_pt: int, old_diff: (i32, i32), diff: (i32, i32),
    old_run: Seq<MoveInstruction>, new_run: Seq<MoveInstruction>,
    total: Seq<MoveInstruction>,
)
    requires
        0 <= old_pt <= i < path.len(),
        diff == diff_at(path, i),
        diff != old_diff,
        new_run == old_run + compress_emit(walls, path[i].a, old_diff, i - old_pt, width, height),
        old_run + compress_from(path, walls, width, height, i, old_pt, old_diff) == total,
    ensures
        new_run + compress_from(path, walls, width, height, i + 1, i, diff) == total,
{
    reveal(compress_from);
    let emitted = compress_emit(walls, path[i].a, old_diff, i - old_pt, width, height);
    let tail = compress_from(path, walls, width, height, i + 1, i, diff);
    assert(compress_from(path, walls, width, height, i, old_pt, old_diff) == emitted + tail);
    assert((old_run + emitted) + tail =~= old_run + (emitted + tail));
}

/// What each decision branch of the compressor emits, spelled out.
proof fn lemma_emit_value(
    walls: Seq<Edge>, turn: Point, old_diff: (i32, i32), to_use: int, width: i32, height: i32,
    dfb: int,
)
    requires
        dfb == corridor_end(walls, turn, old_diff, width, height),
    ensures
        to_use > 0 && dfb >= to_use
            ==> compress_emit(walls, turn, old_diff, to_use, width, height)
                == seq![MoveInstruction {
                    direction: dir_of(old_diff),
                    magnitude: to_use as i32,
                    maximal: false,
                }],
        to_use <= 0 && dfb >= to_use
            ==> compress_emit(walls, turn, old_diff, to_use, width, height)
                == Seq::<MoveInstruction>::empty(),
        dfb < to_use && dfb == 1
            ==> compress_emit(walls, turn, old_diff, to_use, width, height)
                == seq![MoveInstruction {
                    direction: dir_of(old_diff),
                    magnitude: 1,
                    maximal: true,
                }],
        dfb < to_use && dfb != 1
            ==> compress_emit(walls, turn, old_diff, to_use, width, height)
                == seq![
                    MoveInstruction { direction: dir_of(old_diff), magnitude: 1, maximal: true },
                    MoveInstruction {
                        direction: dir_of(flip(old_diff)),
                        magnitude: (dfb - 1) as i32,
                        maximal: false,
                    },
                ],
{
    reveal(compress_emit);
}

/// The scan done, the one closing instruction completes the list.
proof fn lemma_compress_close(
    path: Seq<Edge>, walls: Seq<Edge>, width: i32, height: i32,
    pt: int, prev_diff: (i32, i32), run: Seq<MoveInstruction>, total: Seq<MoveInstruction>,
)
    requires
        run + compress_from(
            path, walls, width, height, path.len() as int, pt, prev_diff) == total,
    ensures
        run.push(closing_instruction(path, pt, prev_diff, width, height)) == total,
{
    reveal(compress_from);
    let c = closing_instruction(path, pt, prev_diff, width, height);
    assert(compress_from(path, walls, width, height, path.len() as int, pt, prev_diff)
        =~= seq![c]);
    assert(run.push(c) =~= run + seq![c]);
}

/// Finds the length to the end of the corridor past a turning point: the
/// first step count at which continuing from `before` along `old_diff`
/// falls off the grid or crosses a wall. A slide entering the corridor
/// comes to rest one cell short of that count.
pub fn remaining_length(
    width: i32,
    height: i32,
    before: Point,
    old_diff: (i32, i32),
    walls: &EdgeSet,
) -> (r: i32)
    requires
        1 <= width,
        1 <= height,
        width as int * height as int <= 0x4000_0000,
        in_grid(before, width, height),
        unit_diff(old_diff),
    ensures
        1 <= r,
        r as int <= width as int + height as int,
        0 <= before.x + old_diff.0 * (r - 1) < width,
        0 <= before.y + old_diff.1 * (r - 1) < height,
        forall|k: int| 1 <= k < r as int
            ==> step_ok(walls@, before, old_diff, k, width, height),
        !step_ok(walls@, before, old_diff, r as int, width, height),
        r as int == corridor_end(walls@, before, old_diff, width, height),
{
    proof {
        lemma_dims_bound(width, height);
    }
    let mut distance_from_before: i32 = 1;
    loop
        invariant_except_break
            1 <= width,
            1 <= height,
            width as int + height as int <= 0x4000_0001,
            in_grid(before, width, height),
            unit_diff(old_diff),
            1 <= distance_from_before,
            distance_from_before as int <= width as int + height as int,
            0 <= before.x + old_diff.0 * (distance_from_before - 1) < width,
            0 <= before.y + old_diff.1 * (distance_from_before - 1) < height,
            forall|k: int| 1 <= k < distance_from_before as int
                ==> step_ok(walls@, before, old_diff, k, width, height),
        ensures
            1 <= distance_from_before,
            distance_from_before as int <= width as int + height as int,
            0 <= before.x + old_diff.0 * (distance_from_before - 1) < width,
            0 <= before.y + old_diff.1 * (distance_from_before - 1) < height,
            forall|k: int| 1 <= k < distance_from_before as int
                ==> step_ok(walls@, before, old_diff, k, width, height),
            !step_ok(walls@, before, old_diff, distance_from_before as int, width, height),
        decreases width as int + height as int - distance_from_before as int,
    {
        let d = distance_from_before;
        proof {
            assert(old_diff.0 * (d as int) == old_diff.0 * (d as int - 1) + old_diff.0
                && old_diff.1 * (d as int) == old_diff.1 * (d as int - 1) + old_diff.1)
                by (nonlinear_arith)
            {}
        }
        let node1 = Point { x: before.x + old_diff.0 * d, y: before.y + old_diff.1 * d };
        let node2 = Point { x: node1.x - old_diff.0, y: node1.y - old_diff.1 };
        proof {
            assert(node1 == step_point(before, old_diff, d as int));
            assert(node2 == step_point(before, old_diff, d as int - 1));
        }
        if out_of_bounds(node1, width, height) || wall_between(walls, node1, node2) {
            break;
        }
        proof {
            // the step just cleared stays on the grid, which caps the
            // distance walked in each direction by the grid itself
            assert(in_grid(node1, width, height));
            assert((old_diff.0 == 1 ==> old_diff.0 * (d as int) == d as int)
                && (old_diff.0 == -1 ==> old_diff.0 * (d as int) == -(d as int))
                && (old_diff.0 == 0 ==> old_diff.0 * (d as int) == 0)
                && (old_diff.1 == 1 ==> old_diff.1 * (d as int) == d as int)
                && (old_diff.1 == -1 ==> old_diff.1 * (d as int) == -(d as int))
                && (old_diff.1 == 0 ==> old_diff.1 * (d as int) == 0)) by (nonlinear_arith)
            {}
            assert(distance_from_before as int + 1 <= width as int + height as int);
        }
        distance_from_before = distance_from_before + 1;
    }
    proof {
        assert(is_corridor_end(
            walls@, before, old_diff, distance_from_before as int, width, height));
        lemma_corridor_end_unique(
            walls@, before, old_diff, distance_from_before as int, width, height);
    }
    distance_from_before
}

/// Moves as far as possible from `current` along `direction` — the cell a
/// single maximal slide comes to rest on: every step up to it is clear,
/// and the step past it is off the grid or through a wall.
pub fn move_max(
    walls: &EdgeSet,
    width: i32,
    height: i32,
    current: Point,
    direction: (i32, i32),
) -> (r: Point)
    requires
        1 <= width,
        1 <= height,
        width as int * height as int <= 0x4000_0000,
        in_grid(current, width, height),
        unit_diff(direction),
    ensures
        in_grid(r, width, height),
        exists|k: int| 0 <= k && r == step_point(current, direction, k)
            && (forall|j: int| 1 <= j <= k
                ==> step_ok(walls@, current, direction, j, width, height))
            && !step_ok(walls@, current, direction, k + 1, width, height),
{
    let d = remaining_length(width, height, current, direction, walls);
    let k = d - 1;
    proof {
        assert((direction.0 == 1 ==> direction.0 * (k as int) == k as int)
            && (direction.0 == -1 ==> direction.0 * (k as int) == -(k as int))
            && (direction.0 == 0 ==> direction.0 * (k as int) == 0)
            && (direction.1 == 1 ==> direction.1 * (k as int) == k as int)
            && (direction.1 == -1 ==> direction.1 * (k as int) == -(k as int))
            && (direction.1 == 0 ==> direction.1 * (k as int) == 0)) by (nonlinear_arith)
        {}
        if k >= 1 {
            assert(step_ok(walls@, current, direction, k as int, width, height));
            assert(in_grid(step_point(current, direction, k as int), width, height));
        }
    }
    let r = Point { x: current.x + direction.0 * k, y: current.y + direction.1 * k };
    proof {
        assert(r == step_point(current, direction, k as int));
    }
    r
}

/// The displacement of the `j`-th step of a route.
pub open spec fn diff_at(p: Seq<Edge>, j: int) -> (i32, i32) {
    ((p[j].b.x - p[j].a.x) as i32, (p[j].b.y - p[j].a.y) as i32)
}

/// A unit displacement turned around.
pub open spec fn flip(diff: (i32, i32)) -> (i32, i32) {
    ((0 - diff.0) as i32, (0 - diff.1) as i32)
}

/// Whether `d` is where the corridor from `before` along `diff` ends: the
/// first step count that leaves the grid or crosses a wall.
pub open spec fn is_corridor_end(
    walls: Seq<Edge>, before: Point, diff: (i32, i32), d: int, width: i32, height: i32,
) -> bool {
    &&& 1 <= d
    &&& !step_ok(walls, before, diff, d, width, height)
    &&& forall|k: int| 1 <= k < d ==> step_ok(walls, before, diff, k, width, height)
}

/// Where the corridor from `before` along `diff` ends; there is exactly
/// one such step count, so this names it.
pub open spec fn corridor_end(
    walls: Seq<Edge>, before: Point, diff: (i32, i32), width: i32, height: i32,
) -> int {
    choose|d: int| is_corridor_end(walls, before, diff, d, width, height)
}

proof fn lemma_corridor_end_unique(
    walls: Seq<Edge>, before: Point, diff: (i32, i32), d: int, width: i32, height: i32,
)
    requires
        is_corridor_end(walls, before, diff, d, width, height),
    ensures
        corridor_end(walls, before, diff, width, height) == d,
{
    let d2 = corridor_end(walls, before, diff, width, height);
    assert(is_corridor_end(walls, before, diff, d2, width, height)) by {
        assert(exists|x: int| is_corridor_end(walls, before, diff, x, width, height));
    }
    if d < d2 {
        assert(step_ok(walls, before, diff, d, width, height));
        assert(false);
    } else if d2 < d {
        assert(step_ok(walls, before, diff, d2, width, height));
        assert(false);
    }
}

/// What one turn of the compressor emits for the run that just ended:
/// `to_use` cells were walked along `old_diff` since the previous turning
/// point, and the corridor continues past the turning point up to step
/// `corridor_end`. A run that stops short of the corridor's end becomes
/// one literal instruction; a run nothing was walked for is absorbed;
/// otherwise a slide to the wall is cheaper, followed by a literal walk
/// back when the slide overshoots the turning point.
#[verifier::opaque]
pub open spec fn compress_emit(
    walls: Seq<Edge>, turn: Point, old_diff: (i32, i32), to_use: int, width: i32, height: i32,
) -> Seq<MoveInstruction> {
    let dfb = corridor_end(walls, turn, old_diff, width, height);
    if to_use > 0 && dfb >= to_use {
        seq![MoveInstruction {
            direction: dir_of(old_diff),
            magnitude: to_use as i32,
            maximal: false,
        }]
    } else if dfb >= to_use {
        Seq::empty()
    } else if dfb == 1 {
        seq![MoveInstruction { direction: dir_of(old_diff), magnitude: 1, maximal: true }]
    } else {
        seq![
            MoveInstruction { direction: dir_of(old_diff), magnitude: 1, maximal: true },
            MoveInstruction {
                direction: dir_of(flip(old_diff)),
                magnitude: (dfb - 1) as i32,
                maximal: false,
            },
        ]
    }
}

/// The one mandatory closing instruction: a single move in the final
/// run's direction, rendered as a slide unless the final turning point
/// sits one step short of the goal on either axis.
pub open spec fn closing_instruction(
    path: Seq<Edge>, pt: int, prev_diff: (i32, i32), width: i32, height: i32,
) -> MoveInstruction {
    let turn = path[pt].a;
    let literal = turn == (Point { x: (width - 2) as i32, y: (height - 1) as i32 })
        || turn == (Point { x: (width - 1) as i32, y: (height - 2) as i32 });
    MoveInstruction { direction: dir_of(prev_diff), magnitude: 1, maximal: !literal }
}

/// The rest of the compressed instruction list, scanning the route from
/// step `i` on: `pt` is the position of the previous turning point and
/// `prev_diff` the direction of the run in progress.
#[verifier::opaque]
pub open spec fn compress_from(
    path: Seq<Edge>, walls: Seq<Edge>, width: i32, height: i32,
    i: int, pt: int, prev_diff: (i32, i32),
) -> Seq<MoveInstruction>
    decreases path.len() - i,
{
    if i >= path.len() {
        seq![closing_instruction(path, pt, prev_diff, width, height)]
    } else {
        let diff = diff_at(path, i);
        if diff == prev_diff {
            compress_from(path, walls, width, height, i + 1, pt, prev_diff)
        } else {
            compress_emit(walls, path[i].a, prev_diff, i - pt, width, height)
                + compress_from(path, walls, width, height, i + 1, i, diff)
        }
    }
}

/// The whole compressed instruction list of a solved route: the move
/// compressor's output is this function of the route and the walls, and
/// of nothing else.
pub open spec fn compress(path: Seq<Edge>, walls: Seq<Edge>, width: i32, height: i32)
    -> Seq<MoveInstruction> {
    compress_from(path, walls, width, height, 0, 0, flip(diff_at(path, 0)))
}

/// Handles one turn of the scan: decides between the literal run and the
/// cheaper slide (with its walk-back), pushes the decided instructions,
/// and charges the move count — exactly what the compressed-list function
/// emits for the ended run.
fn emit_turn(
    width: i32,
    height: i32,
    before: Point,
    old_diff: (i32, i32),
    to_use: i32,
    walls: &EdgeSet,
    perfect_run: &mut Vec<MoveInstruction>,
    n_moves: &mut i32,
)
    requires
        1 <= width,
        1 <= height,
        width as int * height as int <= 0x4000_0000,
        in_grid(before, width, height),
        unit_diff(old_diff),
        0 <= to_use,
        0 <= *old(n_moves),
        *old(n_moves) as int + to_use as int <= 0x4000_0000,
        *old(n_moves) as int == moves_cost(old(perfect_run)@),
        forall|m: int| 0 <= m < old(perfect_run)@.len()
            ==> (#[trigger] old(perfect_run)@[m]).magnitude >= 1,
    ensures
        final(perfect_run)@ == old(perfect_run)@
            + compress_emit(walls@, before, old_diff, to_use as int, width, height),
        *final(n_moves) as int == moves_cost(final(perfect_run)@),
        *old(n_moves) <= *final(n_moves),
        *final(n_moves) as int <= *old(n_moves) as int + to_use as int,
        forall|m: int| 0 <= m < final(perfect_run)@.len()
            ==> (#[trigger] final(perfect_run)@[m]).magnitude >= 1,
{
    let ghost run0 = perfect_run@;
    let distance_from_before = remaining_length(width, height, before, old_diff, walls);
    proof {
        lemma_emit_value(
            walls@, before, old_diff, to_use as int, width, height,
            distance_from_before as int);
    }
    let emitted: Ghost<Seq<MoveInstruction>> = Ghost(compress_emit(
        walls@, before, old_diff, to_use as int, width, height));
    if to_use > 0 && distance_from_before >= to_use {
        // the walked run stops short of the wall: emit it literally
        let ins = match_diff(old_diff, false, to_use);
        proof {
            lemma_moves_cost_push(perfect_run@, ins);
        }
        perfect_run.push(ins);
        *n_moves = *n_moves + to_use;
        proof {
            assert(perfect_run@ =~= run0 + emitted@);
        }
    } else if distance_from_before >= to_use {
        // nothing walked since the last turn: absorbed by the
        // surrounding instructions
        proof {
            assert(perfect_run@ =~= run0 + emitted@);
        }
    } else {
        // a slide is cheaper: it overshoots to the wall, and the
        // overshoot is walked back literally
        *n_moves = *n_moves + distance_from_before;
        let ins = match_diff(old_diff, true, 1);
        proof {
            lemma_moves_cost_push(perfect_run@, ins);
        }
        perfect_run.push(ins);
        if distance_from_before != 1 {
            let back = match_diff((0 - old_diff.0, 0 - old_diff.1), false,
                distance_from_before - 1);
            proof {
                lemma_moves_cost_push(perfect_run@, back);
            }
            perfect_run.push(back);
        }
        proof {
            assert(perfect_run@ =~= run0 + emitted@);
        }
    }
}

/// Counts the moves of a "perfect run" over the solved route and renders
/// its instructions. The route is scanned run by run; at each turn the
/// cells walked since the previous turning point either become one
/// literal instruction, or — when a slide in that direction comes to rest
/// past the turning point but cheaper — one slide plus a literal walk
/// back; the final run always costs exactly one more move, as a slide
/// unless the last turning point sits one step from the goal.
///
/// The instruction list is exactly `compress` of the route and the walls
/// — the output depends on nothing else — and the reported count equals
/// what the list charges, never exceeding the raw route length.
#[verifier::rlimit(100)]
pub fn get_moves(width: i32, height: i32, path: &EdgeVec, walls: &EdgeSet) -> (r: (
    i32,
    Vec<MoveInstruction>,
))
    requires
        1 <= width,
        1 <= height,
        width as int * height as int <= 0x4000_0000,
        path_ok(path@, walls@, width, height),
    ensures
        r.1@ == compress(path@, walls@, width, height),
        r.0 as int == moves_cost(r.1@),
        1 <= r.0 as int <= path@.len(),
        r.1@.len() >= 1,
        forall|m: int| 0 <= m < r.1@.len() ==> (#[trigger] r.1@[m]).magnitude >= 1,
{
    proof {
        lemma_dims_bound(width, height);
        let acells = path@.map_values(|e: Edge| e.a);
        assert forall|k: int| 0 <= k < acells.len()
            implies in_grid(#[trigger] acells[k], width, height) by {
            assert(acells[k] == path@[k].a);
        }
        assert forall|k: int, l: int| 0 <= k < l < acells.len()
            implies (#[trigger] acells[k]) != (#[trigger] acells[l]) by {
            assert(acells[k] == path@[k].a && acells[l] == path@[l].a);
        }
        lemma_distinct_cells_bound(acells, width, height);
    }
    let first_af = path[0].b;
    let mut prev_diff: (i32, i32) = (0 - first_af.x, 0 - first_af.y);
    let mut prev_turn_point = Point { x: 0, y: 0 };
    let mut n_moves: i32 = 0;
    let mut perfect_run: Vec<MoveInstruction> = Vec::new();
    let mut pt: Ghost<int> = Ghost(0int);
    let mut i: usize = 0;
    proof {
        assert(path@[0].a == crate::types::origin());
        assert(prev_diff == flip(diff_at(path@, 0)));
        assert(perfect_run@ + compress_from(path@, walls@, width, height, 0, 0, prev_diff)
            =~= compress(path@, walls@, width, height));
    }
    while i < path.len()
        invariant
            1 <= width,
            1 <= height,
            width as int * height as int <= 0x4000_0000,
            width as int + height as int <= 0x4000_0001,
            path_ok(path@, walls@, width, height),
            path@.len() <= 0x4000_0000,
            i as int <= path@.len(),
            0 <= pt@ <= i as int,
            pt@ < path@.len(),
            prev_turn_point == path@[pt@].a,
            unit_diff(prev_diff),
            n_moves as int == moves_cost(perfect_run@),
            0 <= n_moves as int <= pt@,
            forall|m: int| 0 <= m < perfect_run@.len()
                ==> (#[trigger] perfect_run@[m]).magnitude >= 1,
            forall|j: int| pt@ <= j < i as int ==> diff_at(path@, j) == prev_diff,
            perfect_run@ + compress_from(path@, walls@, width, height, i as int, pt@, prev_diff)
                == compress(path@, walls@, width, height),
            (i as int) < path@.len() ==> path@[i as int].a.x
                == prev_turn_point.x + prev_diff.0 * (i as int - pt@),
            (i as int) < path@.len() ==> path@[i as int].a.y
                == prev_turn_point.y + prev_diff.1 * (i as int - pt@),
        decreases path@.len() - i as int,
    {
        let before = path[i].a;
        let current_pt = path[i].b;
        let diff = (current_pt.x - before.x, current_pt.y - before.y);
        proof {
            assert(adjacent(before, current_pt));
            assert(unit_diff(diff));
        }
        if diff.0 == prev_diff.0 && diff.1 == prev_diff.1 {
            proof {
                assert(diff_at(path@, i as int) == prev_diff);
                lemma_compress_skip(path@, walls@, width, height, i as int, pt@, prev_diff);
                if (i as int) + 1 < path@.len() {
                    assert(path@[i as int].b == path@[i as int + 1].a);
                    assert(prev_diff.0 * (i as int + 1 - pt@)
                        == prev_diff.0 * (i as int - pt@) + prev_diff.0
                        && prev_diff.1 * (i as int + 1 - pt@)
                            == prev_diff.1 * (i as int - pt@) + prev_diff.1)
                        by (nonlinear_arith)
                    {}
                }
            }
        } else {
            let ghost old_pt = pt@;
            let ghost old_run = perfect_run@;
            let old_diff = prev_diff;
            prev_diff = diff;

            // whichever axis moved since the previous turning point
            let ax = if prev_turn_point.x >= before.x {
                prev_turn_point.x - before.x
            } else {
                before.x - prev_turn_point.x
            };
            let ay = if prev_turn_point.y >= before.y {
                prev_turn_point.y - before.y
            } else {
                before.y - prev_turn_point.y
            };
            let to_use = if ax == 0 { ay } else { ax };
            proof {
                assert((old_diff.0 == 1 ==> old_diff.0 * (i as int - pt@) == i as int - pt@)
                    && (old_diff.0 == -1 ==> old_diff.0 * (i as int - pt@) == -(i as int - pt@))
                    && (old_diff.0 == 0 ==> old_diff.0 * (i as int - pt@) == 0)
                    && (old_diff.1 == 1 ==> old_diff.1 * (i as int - pt@) == i as int - pt@)
                    && (old_diff.1 == -1 ==> old_diff.1 * (i as int - pt@) == -(i as int - pt@))
                    && (old_diff.1 == 0 ==> old_diff.1 * (i as int - pt@) == 0))
                    by (nonlinear_arith)
                {}
                assert(to_use as int == i as int - pt@);
            }
            prev_turn_point = before;
            proof {
                pt@ = i as int;
            }
            emit_turn(width, height, before, old_diff, to_use, walls,
                &mut perfect_run, &mut n_moves);
            proof {
                if (i as int) + 1 < path@.len() {
                    assert(path@[i as int].b == path@[i as int + 1].a);
                    assert(prev_diff.0 * (i as int + 1 - pt@) == prev_diff.0
                        && prev_diff.1 * (i as int + 1 - pt@) == prev_diff.1)
                        by (nonlinear_arith)
                        requires
                            pt@ == i as int,
                    {}
                }
                // the instructions pushed at this turn are exactly what the
                // compressed-list function emits for the ended run
                assert(before == path@[i as int].a);
                assert(diff_at(path@, i as int) == diff);
                assert(diff_at(path@, i as int) != old_diff);
                assert(to_use as int == i as int - old_pt);
                lemma_compress_turn(
                    path@, walls@, width, height, i as int, old_pt, old_diff, diff,
                    old_run, perfect_run@, compress(path@, walls@, width, height));
            }
        }
        i = i + 1;
    }
    // the closing run: one mandatory move, maximal unless the final
    // turning point is the cell one step short of the goal on either axis
    let literal_finish = (prev_turn_point.x == width - 2 && prev_turn_point.y == height - 1)
        || (prev_turn_point.x == width - 1 && prev_turn_point.y == height - 2);
    let last = match_diff(prev_diff, !literal_finish, 1);
    let ghost closing_run = perfect_run@;
    proof {
        lemma_moves_cost_push(perfect_run@, last);
        assert(last == closing_instruction(path@, pt@, prev_diff, width, height));
    }
    perfect_run.push(last);
    n_moves = n_moves + 1;
    proof {
        lemma_compress_close(path@, walls@, width, height, pt@, prev_diff, closing_run,
            compress(path@, walls@, width, height));
    }
    (n_moves, perfect_run)
}

} // verus!
