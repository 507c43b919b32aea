//! The decision pipeline: safety filters, the open-space evaluator, the food
//! pathfinder, and the turn's final selection.

use vstd::prelude::*;

use crate::{
    board_ok, cell_free, head_of, iabs, in_bounds, input_ok, manhattan_spec, path_cell_free,
    rival_body_contains, snake_ok, stacked_spec, tail_of, Battlesnake, Board, Coord, Game,
};
use crate::movement::{
    displaced, get_prob_spec, new_set_spec, sel_spec, set_wf, slot_of, Movement, WeightedMovement,
    WeightedMovementSet,
};
use crate::weight::Weight;

verus! {

/// Called when a game begins; the engine keeps no state between turns, so
/// there is nothing to set up.
pub fn handle_start(_game: &Game, _turn: &u32, _board: &Board, _you: &Battlesnake) {
}

/// Called when a game ends; the engine keeps no state between turns, so
/// there is nothing to tear down.
pub fn handle_end(_game: &Game, _turn: &u32, _board: &Board, _you: &Battlesnake) {
}

/// The Manhattan (taxicab) distance between two cells.
pub fn manhattan_distance(a: &Coord, b: &Coord) -> (r: i32)
    requires
        manhattan_spec(*a, *b) <= i32::MAX,
    ensures
        r == manhattan_spec(*a, *b),
{
    let dx = if a.x >= b.x {
        a.x - b.x
    } else {
        b.x - a.x
    };
    let dy = if a.y >= b.y {
        a.y - b.y
    } else {
        b.y - a.y
    };
    dx + dy
}

/// Whether a coordinate list holds a cell.
pub fn coords_contain(v: &Vec<Coord>, c: &Coord) -> (r: bool)
    ensures
        r == v@.contains(*c),
{
    let mut i: usize = 0;
    while i < v.len()
        invariant
            0 <= i <= v@.len(),
            forall|k: int| 0 <= k < i ==> v@[k] != *c,
        decreases v@.len() - i,
    {
        if v[i] == *c {
            return true;
        }
        i = i + 1;
    }
    false
}

/// Whether the agent's body holds two consecutive identical segments.
pub fn is_stacked(snake: &Battlesnake) -> (r: bool)
    ensures
        r == stacked_spec(*snake),
{
    let mut i: usize = 1;
    while i < snake.body.len()
        invariant
            1 <= i,
            forall|k: int|
                1 <= k < i && k < snake.body@.len() ==> (#[trigger] snake.body@[k])
                    != snake.body@[k - 1],
        decreases snake.body@.len() - i,
    {
        if snake.body[i] == snake.body[i - 1] {
            return true;
        }
        i = i + 1;
    }
    false
}

/// The agent's tail: its last body segment.
pub fn get_tail(snake: &Battlesnake) -> (r: &Coord)
    requires
        snake.body@.len() >= 1,
    ensures
        *r == tail_of(*snake),
{
    &snake.body[snake.body.len() - 1]
}

/// Whether a cell can be entered by the space evaluator's traversal: inside
/// the board and on no agent's body, the evaluating agent's own included.
pub fn pathfinding_is_valid(board: &Board, coord: &Coord) -> (r: bool)
    ensures
        r == cell_free(*board, *coord),
{
    if coord.x < 0 || coord.x >= board.width || coord.y < 0 || coord.y >= board.height {
        return false;
    }
    let mut i: usize = 0;
    while i < board.snakes.len()
        invariant
            0 <= i <= board.snakes@.len(),
            forall|k: int| 0 <= k < i ==> !(#[trigger] board.snakes@[k].body@.contains(*coord)),
        decreases board.snakes@.len() - i,
    {
        if coords_contain(&board.snakes[i].body, coord) {
            return false;
        }
        i = i + 1;
    }
    true
}

/// The direction that takes the head to an adjacent cell; for a diagonal or
/// identical cell the horizontal axis is examined first and Up is the final
/// fallback.
pub open spec fn convert_spec(head: Coord, next: Coord) -> Movement {
    if head.x < next.x {
        Movement::Right
    } else if head.x > next.x {
        Movement::Left
    } else if head.y < next.y {
        Movement::Up
    } else if head.y > next.y {
        Movement::Down
    } else {
        Movement::Up
    }
}

/// Map the step from the head to a neighboring cell onto a direction.
pub fn convert_coord_to_movement(head_coord: &Coord, next_coord: &Coord) -> (r: Movement)
    ensures
        r == convert_spec(*head_coord, *next_coord),
{
    if head_coord.x < next_coord.x {
        Movement::Right
    } else if head_coord.x > next_coord.x {
        Movement::Left
    } else if head_coord.y < next_coord.y {
        Movement::Up
    } else if head_coord.y > next_coord.y {
        Movement::Down
    } else {
        Movement::Up
    }
}

/// Elimination against one agent's body with the tail-vacates exception: a
/// candidate on the body is removed unless it sits on the tail and the agent
/// is not stacked.
pub open spec fn body_slot(
    slot: Option<WeightedMovement>,
    body: Seq<Coord>,
    tail: Coord,
    stacked: bool,
) -> Option<WeightedMovement> {
    match slot {
        None => None,
        Some(c) => if body.contains(c.position) && !(c.position == tail && !stacked) {
            None
        } else {
            Some(c)
        },
    }
}

fn body_filter_one(
    slot: Option<WeightedMovement>,
    body: &Vec<Coord>,
    tail: Coord,
    stacked: bool,
) -> (r: Option<WeightedMovement>)
    ensures
        r == body_slot(slot, body@, tail, stacked),
{
    match slot {
        None => None,
        Some(c) => {
            if coords_contain(body, &c.position) && !(c.position == tail && !stacked) {
                None
            } else {
                Some(c)
            }
        },
    }
}

/// The boundary filter on one slot: a candidate outside the board is removed.
pub open spec fn oob_slot(slot: Option<WeightedMovement>, w: int, h: int) -> Option<
    WeightedMovement,
> {
    match slot {
        None => None,
        Some(c) => if !in_bounds(w, h, c.position) {
            None
        } else {
            Some(c)
        },
    }
}

/// The boundary filter on the whole candidate set.
pub open spec fn oob_spec(s: WeightedMovementSet, w: int, h: int) -> WeightedMovementSet {
    WeightedMovementSet {
        right: oob_slot(s.right, w, h),
        left: oob_slot(s.left, w, h),
        up: oob_slot(s.up, w, h),
        down: oob_slot(s.down, w, h),
    }
}

fn oob_one(slot: Option<WeightedMovement>, width: i32, height: i32) -> (r: Option<
    WeightedMovement,
>)
    ensures
        r == oob_slot(slot, width as int, height as int),
{
    match slot {
        None => None,
        Some(c) => {
            if c.position.x < 0 || c.position.x >= width || c.position.y < 0 || c.position.y
                >= height {
                None
            } else {
                Some(c)
            }
        },
    }
}

/// Eliminate every candidate whose position lies outside the board.
pub fn avoid_out_of_bounds(width: &i32, height: &i32, set: &mut WeightedMovementSet)
    ensures
        *final(set) == oob_spec(*old(set), *width as int, *height as int),
{
    set.right = oob_one(set.right, *width, *height);
    set.left = oob_one(set.left, *width, *height);
    set.up = oob_one(set.up, *width, *height);
    set.down = oob_one(set.down, *width, *height);
}

/// The self filter on the whole candidate set: a candidate on the agent's own
/// body is removed, unless it sits on the tail and the agent is not stacked.
pub open spec fn self_spec(s: WeightedMovementSet, y: Battlesnake) -> WeightedMovementSet {
    WeightedMovementSet {
        right: body_slot(s.right, y.body@, tail_of(y), stacked_spec(y)),
        left: body_slot(s.left, y.body@, tail_of(y), stacked_spec(y)),
        up: body_slot(s.up, y.body@, tail_of(y), stacked_spec(y)),
        down: body_slot(s.down, y.body@, tail_of(y), stacked_spec(y)),
    }
}

/// Eliminate every candidate that would collide with the agent's own body,
/// sparing the tail cell when it is about to vacate.
pub fn avoid_myself(snake: &Battlesnake, set: &mut WeightedMovementSet)
    requires
        snake.body@.len() >= 1,
    ensures
        *final(set) == self_spec(*old(set), *snake),
{
    let my_tail = *get_tail(snake);
    let stacked = is_stacked(snake);
    set.right = body_filter_one(set.right, &snake.body, my_tail, stacked);
    set.left = body_filter_one(set.left, &snake.body, my_tail, stacked);
    set.up = body_filter_one(set.up, &snake.body, my_tail, stacked);
    set.down = body_filter_one(set.down, &snake.body, my_tail, stacked);
}

/// The proximity rescale factor `1 - d/2` applied to a weight, for a
/// Manhattan distance `d <= 2` to a rival head: distance 0 zeroes the
/// weight, distance 1 halves it, distance 2 leaves it unchanged.
pub open spec fn rescale_spec(w: Weight, d: int) -> Weight {
    if d == 0 {
        Weight { num: 0, den: w.den, halves: w.halves }
    } else if d == 1 {
        Weight { num: w.num, den: w.den, halves: (w.halves + 1) as u64 }
    } else {
        w
    }
}

/// One rival's effect on one slot: near the rival's head the weight is
/// rescaled, on the rival's body the candidate is removed with the
/// tail-vacates exception, and otherwise nothing changes.
pub open spec fn rival_slot(slot: Option<WeightedMovement>, r: Battlesnake) -> Option<
    WeightedMovement,
> {
    match slot {
        None => None,
        Some(c) => {
            let d = manhattan_spec(c.position, head_of(r));
            if d <= 2 {
                Some(
                    WeightedMovement {
                        position: c.position,
                        probability: rescale_spec(c.probability, d),
                    },
                )
            } else {
                body_slot(slot, r.body@, tail_of(r), stacked_spec(r))
            }
        },
    }
}

/// One board agent's effect on the candidate set; the deciding agent itself
/// is skipped.
pub open spec fn rival_spec(
    s: WeightedMovementSet,
    r: Battlesnake,
    y: Battlesnake,
) -> WeightedMovementSet {
    if r.id == y.id {
        s
    } else {
        WeightedMovementSet {
            right: rival_slot(s.right, r),
            left: rival_slot(s.left, r),
            up: rival_slot(s.up, r),
            down: rival_slot(s.down, r),
        }
    }
}

/// The rival filter over a list of agents, applied in listing order.
pub open spec fn rivals_spec(
    s: WeightedMovementSet,
    rs: Seq<Battlesnake>,
    y: Battlesnake,
) -> WeightedMovementSet
    decreases rs.len(),
{
    if rs.len() == 0 {
        s
    } else {
        rival_spec(rivals_spec(s, rs.drop_last(), y), rs.last(), y)
    }
}

fn rival_one(slot: Option<WeightedMovement>, r: &Battlesnake) -> (res: Option<WeightedMovement>)
    requires
        r.body@.len() >= 1,
        slot is Some ==> manhattan_spec(slot.unwrap().position, head_of(*r)) <= i32::MAX,
        slot is Some ==> slot.unwrap().probability.halves < u64::MAX,
    ensures
        res == rival_slot(slot, *r),
{
    match slot {
        None => None,
        Some(c) => {
            let head = r.body[0];
            let d = manhattan_distance(&c.position, &head);
            if d <= 2 {
                let w = if d == 0 {
                    Weight { num: 0, den: c.probability.den, halves: c.probability.halves }
                } else if d == 1 {
                    Weight {
                        num: c.probability.num,
                        den: c.probability.den,
                        halves: c.probability.halves + 1,
                    }
                } else {
                    c.probability
                };
                Some(WeightedMovement { position: c.position, probability: w })
            } else {
                let tail = *get_tail(r);
                let stacked = is_stacked(r);
                body_filter_one(slot, &r.body, tail, stacked)
            }
        },
    }
}

/// Eliminate candidates on a rival's body (with the tail-vacates exception)
/// and rescale the weight of candidates within Manhattan distance 2 of a
/// rival's head, accumulating the factors across rivals.
pub fn avoid_baddies(baddies: &Vec<Battlesnake>, snake: &Battlesnake, set: &mut WeightedMovementSet)
    requires
        forall|j: int| 0 <= j < baddies@.len() ==> (#[trigger] baddies@[j]).body@.len() >= 1,
        forall|m: Movement|
            (#[trigger] slot_of(*old(set), m)) is Some ==> slot_of(*old(set), m).unwrap().probability.halves
                + baddies@.len() <= u64::MAX,
        forall|m: Movement, j: int|
            (#[trigger] slot_of(*old(set), m)) is Some && 0 <= j < baddies@.len()
                ==> manhattan_spec(
                slot_of(*old(set), m).unwrap().position,
                head_of(#[trigger] baddies@[j]),
            ) <= i32::MAX,
    ensures
        *final(set) == rivals_spec(*old(set), baddies@, *snake),
{
    let ghost orig = *set;
    let mut j: usize = 0;
    while j < baddies.len()
        invariant
            0 <= j <= baddies@.len(),
            *set == rivals_spec(orig, baddies@.take(j as int), *snake),
            forall|jj: int| 0 <= jj < baddies@.len() ==> (#[trigger] baddies@[jj]).body@.len() >= 1,
            forall|m: Movement|
                (#[trigger] slot_of(orig, m)) is Some ==> slot_of(orig, m).unwrap().probability.halves
                    + baddies@.len() <= u64::MAX,
            forall|m: Movement, jj: int|
                (#[trigger] slot_of(orig, m)) is Some && 0 <= jj < baddies@.len()
                    ==> manhattan_spec(
                    slot_of(orig, m).unwrap().position,
                    head_of(#[trigger] baddies@[jj]),
                ) <= i32::MAX,
            forall|m: Movement|
                (#[trigger] slot_of(*set, m)) is Some ==> slot_of(orig, m) is Some && slot_of(
                    *set,
                    m,
                ).unwrap().position == slot_of(orig, m).unwrap().position && slot_of(
                    *set,
                    m,
                ).unwrap().probability.halves <= slot_of(orig, m).unwrap().probability.halves + j,
        decreases baddies@.len() - j,
    {
        let ghost prev = *set;
        let b = &baddies[j];
        proof {
            assert(slot_of(prev, Movement::Right) == prev.right);
            assert(slot_of(prev, Movement::Left) == prev.left);
            assert(slot_of(prev, Movement::Up) == prev.up);
            assert(slot_of(prev, Movement::Down) == prev.down);
            assert(slot_of(orig, Movement::Right) == orig.right);
            assert(slot_of(orig, Movement::Left) == orig.left);
            assert(slot_of(orig, Movement::Up) == orig.up);
            assert(slot_of(orig, Movement::Down) == orig.down);
            assert(baddies@[j as int].body@.len() >= 1);
        }
        if b.id != snake.id {
            set.right = rival_one(set.right, b);
            set.left = rival_one(set.left, b);
            set.up = rival_one(set.up, b);
            set.down = rival_one(set.down, b);
        }
        proof {
            assert(*set == rival_spec(prev, baddies@[j as int], *snake));
            assert(baddies@.take(j + 1).drop_last() =~= baddies@.take(j as int));
            assert(baddies@.take(j + 1).last() == baddies@[j as int]);
            assert(forall|m: Movement|
                (#[trigger] slot_of(*set, m)) is Some ==> slot_of(prev, m) is Some && slot_of(
                    *set,
                    m,
                ).unwrap().position == slot_of(prev, m).unwrap().position && slot_of(
                    *set,
                    m,
                ).unwrap().probability.halves <= slot_of(prev, m).unwrap().probability.halves + 1);
        }
        j = j + 1;
    }
    proof {
        assert(baddies@.take(baddies@.len() as int) =~= baddies@);
    }
}

/// Two cells one grid step apart.
pub open spec fn adjacent(a: Coord, b: Coord) -> bool {
    manhattan_spec(a, b) == 1
}

/// Coordinates far enough from the `i32` extremes that a one-step neighbor
/// can be computed without wrapping. Every free cell of a well-formed board
/// is in range.
pub open spec fn coord_in_range(c: Coord) -> bool {
    iabs(c.x as int) <= 0x4000_0000 && iabs(c.y as int) <= 0x4000_0000
}

/// The four neighbors of a cell, indexed in the traversal's expansion order.
pub open spec fn nbr(c: Coord, k: int) -> Coord {
    if k == 0 {
        Coord { x: c.x, y: (c.y - 1) as i32 }
    } else if k == 1 {
        Coord { x: c.x, y: (c.y + 1) as i32 }
    } else if k == 2 {
        Coord { x: (c.x - 1) as i32, y: c.y }
    } else {
        Coord { x: (c.x + 1) as i32, y: c.y }
    }
}

/// A walk from `start` that only ever steps onto free cells; the start cell
/// itself need not be free.
pub open spec fn is_flood_path(b: Board, p: Seq<Coord>, start: Coord) -> bool {
    &&& p.len() >= 1
    &&& p[0] == start
    &&& forall|i: int|
        1 <= i < p.len() ==> adjacent(p[i - 1], p[i]) && cell_free(b, #[trigger] p[i])
}

/// The cell `c` can be reached from `start` through free cells.
pub open spec fn flood_reachable(b: Board, start: Coord, c: Coord) -> bool {
    exists|p: Seq<Coord>| is_flood_path(b, p, start) && p.last() == c
}

/// Everything the space evaluator's traversal could ever count from `start`.
pub open spec fn flood_region(b: Board, start: Coord) -> Set<Coord> {
    Set::new(|c: Coord| flood_reachable(b, start, c))
}

/// The traversal's early-exit cutoff: one and a half times the agent's
/// length, rounded down.
pub open spec fn flood_cap(y: Battlesnake) -> int {
    y.length + y.length as int / 2
}

/// What the bounded traversal returns: the reachable area, counted no
/// further than one past the cutoff.
pub open spec fn flood_count_spec(b: Board, y: Battlesnake, start: Coord) -> int {
    if flood_region(b, start).len() > flood_cap(y) {
        flood_cap(y) + 1
    } else {
        flood_region(b, start).len() as int
    }
}

/// A free cell of a well-formed board sits well inside the `i32` range.
proof fn lemma_free_in_range(b: Board, c: Coord)
    requires
        board_ok(b),
        cell_free(b, c),
    ensures
        coord_in_range(c),
{
    assert(b.width as int <= (b.width as int) * (b.height as int)) by (nonlinear_arith)
        requires
            b.width as int >= 1,
            b.height as int >= 1,
    ;
    assert(b.height as int <= (b.width as int) * (b.height as int)) by (nonlinear_arith)
        requires
            b.width as int >= 1,
            b.height as int >= 1,
    ;
}

/// A reachable cell extended by one free step stays reachable.
proof fn lemma_flood_path_extend(b: Board, start: Coord, c: Coord, n: Coord)
    requires
        flood_reachable(b, start, c),
        adjacent(c, n),
        cell_free(b, n),
    ensures
        flood_reachable(b, start, n),
{
    let p = choose|p: Seq<Coord>| is_flood_path(b, p, start) && p.last() == c;
    let q = p.push(n);
    assert(q[0] == p[0]);
    assert(forall|i: int| 1 <= i < p.len() ==> (#[trigger] q[i]) == p[i] && q[i - 1] == p[i - 1]);
    assert(q[q.len() - 1] == n && q[q.len() - 2] == c);
    assert(is_flood_path(b, q, start));
    assert(q.last() == n);
}

/// An adjacent cell is one of the four indexed neighbors.
proof fn lemma_adjacent_is_nbr(a: Coord, c: Coord)
    requires
        adjacent(a, c),
        coord_in_range(a),
    ensures
        exists|k: int| 0 <= k < 4 && c == #[trigger] nbr(a, k),
{
    assert(c == nbr(a, 0) || c == nbr(a, 1) || c == nbr(a, 2) || c == nbr(a, 3));
    if c == nbr(a, 0) {
        assert(0 <= 0 < 4 && c == nbr(a, 0));
    } else if c == nbr(a, 1) {
        assert(0 <= 1 < 4 && c == nbr(a, 1));
    } else if c == nbr(a, 2) {
        assert(0 <= 2 < 4 && c == nbr(a, 2));
    } else {
        assert(0 <= 3 < 4 && c == nbr(a, 3));
    }
}

/// A set of cells that holds the start and every free neighbor of each of
/// its members holds every reachable cell.
proof fn lemma_path_in_closed(b: Board, vs: Seq<Coord>, start: Coord, p: Seq<Coord>)
    requires
        vs.len() >= 1,
        vs[0] == start,
        forall|i: int| 0 <= i < vs.len() ==> coord_in_range(#[trigger] vs[i]),
        forall|i: int, k: int|
            0 <= i < vs.len() && 0 <= k < 4 && cell_free(b, #[trigger] nbr(vs[i], k))
                ==> vs.contains(nbr(vs[i], k)),
        is_flood_path(b, p, start),
    ensures
        vs.contains(p.last()),
    decreases p.len(),
{
    if p.len() == 1 {
        assert(vs[0] == p.last());
        assert(vs.contains(p.last()));
    } else {
        let q = p.drop_last();
        assert(forall|i: int| 1 <= i < q.len() ==> (#[trigger] q[i]) == p[i] && q[i - 1] == p[i - 1]);
        assert(is_flood_path(b, q, start));
        lemma_path_in_closed(b, vs, start, q);
        let prev = q.last();
        let i = choose|i: int| 0 <= i < vs.len() && vs[i] == prev;
        assert(prev == p[p.len() - 2]);
        assert(adjacent(prev, p.last()) && cell_free(b, p.last()));
        lemma_adjacent_is_nbr(prev, p.last());
        let k = choose|k: int| 0 <= k < 4 && p.last() == nbr(prev, k);
        assert(cell_free(b, nbr(vs[i], k)));
        assert(vs.contains(nbr(vs[i], k)));
    }
}

/// The cells of a column of bounded height.
spec fn column_set(x: int, h: int) -> Set<Coord> {
    Set::new(|c: Coord| c.x == x && 0 <= c.y < h)
}

proof fn lemma_column_finite(x: int, h: int)
    requires
        0 <= h <= i32::MAX,
        0 <= x <= i32::MAX,
    ensures
        column_set(x, h).finite(),
    decreases h,
{
    if h == 0 {
        assert(column_set(x, 0) =~= Set::<Coord>::empty());
    } else {
        lemma_column_finite(x, h - 1);
        assert(column_set(x, h) =~= column_set(x, h - 1).insert(
            Coord { x: x as i32, y: (h - 1) as i32 },
        ));
    }
}

/// The cells of a bounded grid.
spec fn grid_set(w: int, h: int) -> Set<Coord> {
    Set::new(|c: Coord| in_bounds(w, h, c))
}

proof fn lemma_grid_finite(w: int, h: int)
    requires
        0 <= w <= i32::MAX,
        0 <= h <= i32::MAX,
    ensures
        grid_set(w, h).finite(),
    decreases w,
{
    if w == 0 {
        assert(grid_set(0, h) =~= Set::<Coord>::empty());
    } else {
        lemma_grid_finite(w - 1, h);
        lemma_column_finite(w - 1, h);
        assert(grid_set(w, h) =~= grid_set(w - 1, h).union(column_set(w - 1, h)));
    }
}

/// The reachable region is finite: it sits inside the board, plus the start
/// cell.
pub proof fn lemma_flood_region_finite(b: Board, start: Coord)
    requires
        0 < b.width,
        0 < b.height,
    ensures
        flood_region(b, start).finite(),
{
    lemma_grid_finite(b.width as int, b.height as int);
    let sup = grid_set(b.width as int, b.height as int).insert(start);
    assert forall|c: Coord| flood_region(b, start).contains(c) implies sup.contains(c) by {
        let p = choose|p: Seq<Coord>| is_flood_path(b, p, start) && p.last() == c;
        if p.len() == 1 {
            assert(c == start);
        } else {
            assert(cell_free(b, p[p.len() - 1]));
        }
    }
    vstd::set_lib::lemma_len_subset(flood_region(b, start), sup);
}

/// The space evaluator's bounded breadth-first traversal: count the cells
/// reachable from `start` through free cells, stopping one past the cutoff.
pub fn flood_fill_bfs(start: &Coord, board: &Board, snake: &Battlesnake) -> (r: u64)
    requires
        board_ok(*board),
        coord_in_range(*start),
    ensures
        r == flood_count_spec(*board, *snake, *start),
{
    let cap: u64 = snake.length as u64 + (snake.length / 2) as u64;
    let mut seen: Vec<Coord> = Vec::new();
    seen.push(*start);
    let mut qi: usize = 0;
    let mut count: u64 = 0;
    proof {
        let p0 = seq![*start];
        assert(is_flood_path(*board, p0, *start) && p0.last() == *start);
        assert(seen@ =~= seq![*start]);
        assert(seen@.no_duplicates());
    }
    while qi < seen.len()
        invariant
            board_ok(*board),
            coord_in_range(*start),
            cap == flood_cap(*snake),
            0 <= qi <= seen@.len(),
            count == qi,
            qi <= cap,
            seen@.len() >= 1,
            seen@[0] == *start,
            seen@.no_duplicates(),
            forall|i: int| 0 <= i < seen@.len() ==> coord_in_range(#[trigger] seen@[i]),
            forall|i: int|
                0 <= i < seen@.len() ==> flood_reachable(*board, *start, #[trigger] seen@[i]),
            forall|i: int, k: int|
                0 <= i < qi && 0 <= k < 4 && cell_free(*board, #[trigger] nbr(seen@[i], k))
                    ==> seen@.contains(nbr(seen@[i], k)),
        decreases cap - qi,
    {
        let cur = seen[qi];
        count = count + 1;
        if count > cap {
            proof {
                lemma_flood_region_finite(*board, *start);
                assert forall|c: Coord| seen@.to_set().contains(c) implies flood_region(
                    *board,
                    *start,
                ).contains(c) by {
                    assert(seen@.contains(c));
                    let i = choose|i: int| 0 <= i < seen@.len() && seen@[i] == c;
                    assert(flood_reachable(*board, *start, seen@[i]));
                }
                vstd::set_lib::lemma_len_subset(seen@.to_set(), flood_region(*board, *start));
                seen@.unique_seq_to_set();
                assert(seen@.len() >= qi + 1);
                assert(flood_region(*board, *start).len() > flood_cap(*snake));
            }
            return count;
        }
        let ghost pre = seen@;
        let n0 = Coord { x: cur.x, y: cur.y - 1 };
        if pathfinding_is_valid(board, &n0) && !coords_contain(&seen, &n0) {
            proof {
                lemma_step_ok(*board, *start, seen@, cur, n0, 0);
            }
            seen.push(n0);
        }
        let n1 = Coord { x: cur.x, y: cur.y + 1 };
        if pathfinding_is_valid(board, &n1) && !coords_contain(&seen, &n1) {
            proof {
                lemma_step_ok(*board, *start, seen@, cur, n1, 1);
            }
            seen.push(n1);
        }
        let n2 = Coord { x: cur.x - 1, y: cur.y };
        if pathfinding_is_valid(board, &n2) && !coords_contain(&seen, &n2) {
            proof {
                lemma_step_ok(*board, *start, seen@, cur, n2, 2);
            }
            seen.push(n2);
        }
        let n3 = Coord { x: cur.x + 1, y: cur.y };
        if pathfinding_is_valid(board, &n3) && !coords_contain(&seen, &n3) {
            proof {
                lemma_step_ok(*board, *start, seen@, cur, n3, 3);
            }
            seen.push(n3);
        }
        proof {
            assert(forall|v: Coord| pre.contains(v) ==> seen@.contains(v)) by {
                assert(forall|i: int| 0 <= i < pre.len() ==> seen@[i] == pre[i]);
                assert forall|v: Coord| pre.contains(v) implies seen@.contains(v) by {
                    let i = choose|i: int| 0 <= i < pre.len() && pre[i] == v;
                    assert(seen@[i] == v);
                }
            }
            assert forall|k: int| 0 <= k < 4 && cell_free(*board, nbr(cur, k)) implies seen@.contains(
                nbr(cur, k),
            ) by {
                if k == 0 {
                    assert(nbr(cur, 0) == Coord { x: cur.x, y: (cur.y - 1) as i32 });
                } else if k == 1 {
                    assert(nbr(cur, 1) == Coord { x: cur.x, y: (cur.y + 1) as i32 });
                } else if k == 2 {
                    assert(nbr(cur, 2) == Coord { x: (cur.x - 1) as i32, y: cur.y });
                } else {
                    assert(nbr(cur, 3) == Coord { x: (cur.x + 1) as i32, y: cur.y });
                }
            }
        }
        qi = qi + 1;
    }
    proof {
        assert forall|c: Coord| flood_region(*board, *start).contains(c) implies seen@.to_set()
            .contains(c) by {
            let p = choose|p: Seq<Coord>| is_flood_path(*board, p, *start) && p.last() == c;
            lemma_path_in_closed(*board, seen@, *start, p);
        }
        assert forall|c: Coord| seen@.to_set().contains(c) implies flood_region(*board, *start)
            .contains(c) by {
            assert(seen@.contains(c));
            let i = choose|i: int| 0 <= i < seen@.len() && seen@[i] == c;
            assert(flood_reachable(*board, *start, seen@[i]));
        }
        assert(flood_region(*board, *start) =~= seen@.to_set());
        seen@.unique_seq_to_set();
        assert(flood_region(*board, *start).len() == seen@.len());
    }
    count
}

/// A newly discovered free neighbor is reachable, in range, and keeps the
/// seen list duplicate-free.
proof fn lemma_step_ok(b: Board, start: Coord, seen: Seq<Coord>, cur: Coord, n: Coord, k: int)
    requires
        board_ok(b),
        seen.no_duplicates(),
        seen.contains(cur),
        flood_reachable(b, start, cur),
        coord_in_range(cur),
        cell_free(b, n),
        !seen.contains(n),
        0 <= k < 4,
        n == nbr(cur, k),
    ensures
        seen.push(n).no_duplicates(),
        flood_reachable(b, start, n),
        coord_in_range(n),
        forall|i: int| 0 <= i < seen.len() ==> seen.push(n)[i] == seen[i],
        seen.push(n)[seen.len() as int] == n,
{
    assert(adjacent(cur, n));
    lemma_flood_path_extend(b, start, cur, n);
    lemma_free_in_range(b, n);
    assert(forall|i: int| 0 <= i < seen.len() ==> seen.push(n)[i] == seen[i]);
    assert(seen.push(n)[seen.len() as int] == n);
    assert forall|i: int, j: int|
        0 <= i < seen.push(n).len() && 0 <= j < seen.push(n).len() && i != j implies seen.push(n)[i]
        != seen.push(n)[j] by {
        if i < seen.len() && j < seen.len() {
        } else if i < seen.len() {
            assert(seen.push(n)[i] == seen[i]);
            assert(seen.contains(seen[i]));
        } else if j < seen.len() {
            assert(seen.push(n)[j] == seen[j]);
            assert(seen.contains(seen[j]));
        }
    }
}


/// The space evaluator's weight multiplier `1 + factor`, as an exact
/// fraction: `area/length` when the area falls short of or only modestly
/// exceeds the length, 1 when they are equal, and capped at `6/5` (a 20%
/// bonus) once the excess passes a fifth of the length.
pub open spec fn space_multiplier(area: int, length: int) -> (int, int) {
    if area < length {
        (area, length)
    } else if area == length {
        (1int, 1int)
    } else if 5 * (area - length) <= length {
        (area, length)
    } else {
        (6int, 5int)
    }
}

/// Compute the space evaluator's multiplier for an accessible area and an
/// agent length.
pub fn flood_fill_multiplier(accessible_area: u64, snake_length: u32) -> (r: (u64, u64))
    requires
        snake_length >= 1,
        accessible_area <= 0x0400_0000_0000_0000,
    ensures
        r.0 as int == space_multiplier(accessible_area as int, snake_length as int).0,
        r.1 as int == space_multiplier(accessible_area as int, snake_length as int).1,
{
    let l: u64 = snake_length as u64;
    if accessible_area < l {
        (accessible_area, l)
    } else if accessible_area == l {
        (1, 1)
    } else if 5 * (accessible_area - l) <= l {
        (accessible_area, l)
    } else {
        (6, 5)
    }
}

/// The space evaluator on one slot: the candidate's weight is multiplied by
/// `1 + factor` for the area reachable from its position.
pub open spec fn flood_slot(
    slot: Option<WeightedMovement>,
    b: Board,
    y: Battlesnake,
) -> Option<WeightedMovement> {
    match slot {
        None => None,
        Some(c) => {
            let m = space_multiplier(flood_count_spec(b, y, c.position), y.length as int);
            Some(
                WeightedMovement {
                    position: c.position,
                    probability: Weight {
                        num: (c.probability.num * m.0) as u64,
                        den: (c.probability.den * m.1) as u64,
                        halves: c.probability.halves,
                    },
                },
            )
        },
    }
}

/// The space evaluator on the whole candidate set.
pub open spec fn flood_spec(s: WeightedMovementSet, b: Board, y: Battlesnake) -> WeightedMovementSet {
    WeightedMovementSet {
        right: flood_slot(s.right, b, y),
        left: flood_slot(s.left, b, y),
        up: flood_slot(s.up, b, y),
        down: flood_slot(s.down, b, y),
    }
}

fn flood_one(slot: Option<WeightedMovement>, board: &Board, snake: &Battlesnake) -> (r: Option<
    WeightedMovement,
>)
    requires
        board_ok(*board),
        snake.length >= 1,
        slot is Some ==> coord_in_range(slot.unwrap().position),
        slot is Some ==> slot.unwrap().probability.num <= 0x10000,
        slot is Some ==> slot.unwrap().probability.den <= 0x10000,
    ensures
        r == flood_slot(slot, *board, *snake),
{
    match slot {
        None => None,
        Some(c) => {
            let area = flood_fill_bfs(&c.position, board, snake);
            proof {
                assert(area <= flood_cap(*snake) + 1);
            }
            let m = flood_fill_multiplier(area, snake.length);
            proof {
                assert(area as int <= 0x1_8000_0000);
                assert(m.0 as int <= 0x1_8000_0000);
                assert(m.1 as int <= 0x1_0000_0000);
                assert((c.probability.num as int) * (m.0 as int) <= 0x10000 * 0x1_8000_0000)
                    by (nonlinear_arith)
                    requires
                        0 <= c.probability.num as int <= 0x10000,
                        0 <= m.0 as int <= 0x1_8000_0000,
                ;
                assert((c.probability.den as int) * (m.1 as int) <= 0x10000 * 0x1_0000_0000)
                    by (nonlinear_arith)
                    requires
                        0 <= c.probability.den as int <= 0x10000,
                        0 <= m.1 as int <= 0x1_0000_0000,
                ;
            }
            Some(
                WeightedMovement {
                    position: c.position,
                    probability: Weight {
                        num: c.probability.num * m.0,
                        den: c.probability.den * m.1,
                        halves: c.probability.halves,
                    },
                },
            )
        },
    }
}

/// Rate every surviving candidate by the open area reachable from its
/// position, multiplying its weight by `1 + factor`.
pub fn apply_flood_fill(board: &Board, you: &Battlesnake, set: &mut WeightedMovementSet)
    requires
        input_ok(*board, *you),
        forall|m: Movement|
            (#[trigger] slot_of(*old(set), m)) is Some ==> coord_in_range(
                slot_of(*old(set), m).unwrap().position,
            ) && slot_of(*old(set), m).unwrap().probability.num <= 0x10000 && slot_of(
                *old(set),
                m,
            ).unwrap().probability.den <= 0x10000,
    ensures
        *final(set) == flood_spec(*old(set), *board, *you),
{
    proof {
        assert(slot_of(*set, Movement::Right) == set.right);
        assert(slot_of(*set, Movement::Left) == set.left);
        assert(slot_of(*set, Movement::Up) == set.up);
        assert(slot_of(*set, Movement::Down) == set.down);
    }
    set.right = flood_one(set.right, board, you);
    set.left = flood_one(set.left, board, you);
    set.up = flood_one(set.up, board, you);
    set.down = flood_one(set.down, board, you);
}

/// The index of the food nearest the head, scanning in listing order and
/// keeping the earlier entry on ties.
pub open spec fn closest_food_idx(head: Coord, foods: Seq<Coord>) -> int
    decreases foods.len(),
{
    if foods.len() <= 1 {
        0
    } else {
        let b = closest_food_idx(head, foods.drop_last());
        if manhattan_spec(head, foods.last()) < manhattan_spec(head, foods[b]) {
            foods.len() - 1
        } else {
            b
        }
    }
}

/// The nearest food to the head, if the board holds any.
pub open spec fn closest_food_spec(head: Coord, foods: Seq<Coord>) -> Option<Coord> {
    if foods.len() == 0 {
        None
    } else {
        Some(foods[closest_food_idx(head, foods)])
    }
}

pub proof fn lemma_closest_idx_bounds(head: Coord, foods: Seq<Coord>)
    requires
        foods.len() >= 1,
    ensures
        0 <= closest_food_idx(head, foods) < foods.len(),
    decreases foods.len(),
{
    if foods.len() > 1 {
        lemma_closest_idx_bounds(head, foods.drop_last());
    }
}

/// Scan the board's food for the entry nearest the head by Manhattan
/// distance, ties broken by listing order.
pub fn find_closest_food(head_coord: &Coord, board: &Board) -> (r: Option<Coord>)
    requires
        forall|j: int|
            0 <= j < board.food@.len() ==> manhattan_spec(*head_coord, #[trigger] board.food@[j])
                <= i32::MAX,
    ensures
        r == closest_food_spec(*head_coord, board.food@),
{
    let foods = &board.food;
    if foods.len() == 0 {
        return None;
    }
    let ghost fseq = board.food@;
    let mut best: Coord = foods[0];
    let mut best_d: i32 = manhattan_distance(head_coord, &best);
    let mut i: usize = 1;
    proof {
        assert(fseq.take(1).len() == 1);
        assert(fseq.take(1)[0] == fseq[0]);
        lemma_closest_idx_bounds(*head_coord, fseq.take(1));
        assert(best == fseq.take(1)[closest_food_idx(*head_coord, fseq.take(1))]);
    }
    while i < foods.len()
        invariant
            1 <= i <= fseq.len(),
            fseq == board.food@,
            foods == &board.food,
            forall|j: int|
                0 <= j < fseq.len() ==> manhattan_spec(*head_coord, #[trigger] fseq[j]) <= i32::MAX,
            0 <= closest_food_idx(*head_coord, fseq.take(i as int)) < i,
            best == fseq[closest_food_idx(*head_coord, fseq.take(i as int))],
            best_d == manhattan_spec(*head_coord, best),
        decreases fseq.len() - i,
    {
        proof {
            assert(fseq.take(i + 1).drop_last() =~= fseq.take(i as int));
            assert(fseq.take(i + 1).last() == fseq[i as int]);
            lemma_closest_idx_bounds(*head_coord, fseq.take(i + 1));
            assert(forall|j: int| 0 <= j < i ==> fseq.take(i as int)[j] == fseq[j]);
        }
        let d = manhattan_distance(head_coord, &foods[i]);
        if d < best_d {
            best = foods[i];
            best_d = d;
        }
        i = i + 1;
    }
    proof {
        assert(fseq.take(fseq.len() as int) =~= fseq);
    }
    Some(best)
}


/// Whether a cell is free for the food path search: inside the board and on
/// no rival's body; the searching agent's own body does not block.
pub fn path_is_free(board: &Board, self_id: u64, coord: &Coord) -> (r: bool)
    ensures
        r == path_cell_free(*board, self_id, *coord),
{
    if coord.x < 0 || coord.x >= board.width || coord.y < 0 || coord.y >= board.height {
        return false;
    }
    let mut i: usize = 0;
    while i < board.snakes.len()
        invariant
            0 <= i <= board.snakes@.len(),
            forall|k: int|
                0 <= k < i ==> (#[trigger] board.snakes@[k]).id == self_id
                    || !board.snakes@[k].body@.contains(*coord),
        decreases board.snakes@.len() - i,
    {
        if board.snakes[i].id != self_id && coords_contain(&board.snakes[i].body, coord) {
            return false;
        }
        i = i + 1;
    }
    true
}

/// The entry the neighbor list holds for the `k`-th neighbor: present with
/// unit cost when that cell is free for the search, absent otherwise.
pub open spec fn nbr_entry(b: Board, self_id: u64, c: Coord, k: int) -> Seq<(Coord, i32)> {
    if path_cell_free(b, self_id, nbr(c, k)) {
        seq![(nbr(c, k), 1i32)]
    } else {
        Seq::empty()
    }
}

/// The path search graph's successor list for a cell: its free neighbors, in
/// expansion order, each at unit cost.
pub open spec fn grid_neighbors(b: Board, self_id: u64, c: Coord) -> Seq<(Coord, i32)> {
    nbr_entry(b, self_id, c, 0) + nbr_entry(b, self_id, c, 1) + nbr_entry(b, self_id, c, 2)
        + nbr_entry(b, self_id, c, 3)
}

/// The successor list for one cell of the path search graph.
pub fn get_neighbors(board: &Board, self_id: u64, coord: &Coord) -> (r: Vec<(Coord, i32)>)
    requires
        board_ok(*board),
        in_bounds(board.width as int, board.height as int, *coord),
    ensures
        r@ == grid_neighbors(*board, self_id, *coord),
{
    proof {
        assert(board.width as int <= 0x3fff_ffff) by (nonlinear_arith)
            requires
                (board.width as int) * (board.height as int) <= 0x3fff_ffff,
                board.width as int >= 1,
                board.height as int >= 1,
        ;
        assert(board.height as int <= 0x3fff_ffff) by (nonlinear_arith)
            requires
                (board.width as int) * (board.height as int) <= 0x3fff_ffff,
                board.width as int >= 1,
                board.height as int >= 1,
        ;
    }
    let mut out: Vec<(Coord, i32)> = Vec::new();
    let n0 = Coord { x: coord.x, y: coord.y - 1 };
    if path_is_free(board, self_id, &n0) {
        out.push((n0, 1));
    }
    let n1 = Coord { x: coord.x, y: coord.y + 1 };
    if path_is_free(board, self_id, &n1) {
        out.push((n1, 1));
    }
    let n2 = Coord { x: coord.x - 1, y: coord.y };
    if path_is_free(board, self_id, &n2) {
        out.push((n2, 1));
    }
    let n3 = Coord { x: coord.x + 1, y: coord.y };
    if path_is_free(board, self_id, &n3) {
        out.push((n3, 1));
    }
    proof {
        assert(n0 == nbr(*coord, 0));
        assert(n1 == nbr(*coord, 1));
        assert(n2 == nbr(*coord, 2));
        assert(n3 == nbr(*coord, 3));
        assert(out@ =~= grid_neighbors(*board, self_id, *coord));
    }
    out
}

/// A unit-cost walk for the food path search: it starts at `start`, ends at
/// `goal`, each later cell is free for the searching agent, and consecutive
/// cells are adjacent. The start cell itself need not be free.
pub open spec fn is_food_path(
    b: Board,
    self_id: u64,
    p: Seq<Coord>,
    start: Coord,
    goal: Coord,
) -> bool {
    &&& p.len() >= 1
    &&& p[0] == start
    &&& p.last() == goal
    &&& forall|i: int|
        1 <= i < p.len() ==> adjacent(p[i - 1], p[i]) && path_cell_free(b, self_id, #[trigger] p[i])
}

/// The cells some rival's body occupies.
pub open spec fn blocked_cells(b: Board, self_id: u64) -> Set<Coord> {
    Set::new(|c: Coord| rival_body_contains(b.snakes@, self_id, c))
}

/// The route the path search settles on, as a function of the grid, the
/// blocked cells, the start and the goal alone: the search is deterministic,
/// so identical inputs yield the identical route.
pub uninterp spec fn astar_route(
    width: int,
    height: int,
    blocked: Set<Coord>,
    start: Coord,
    goal: Coord,
) -> Option<Seq<Coord>>;

/// Relies on `pathfinding::prelude::astar` over the 4-connected grid of
/// cells free for the searching agent, with unit edge costs and the
/// Manhattan-distance heuristic, which is admissible and consistent on such
/// a grid: the call returns a minimal-length path from `start` to `goal`
/// when one exists, `None` when none does, and its choice among equal
/// shortest paths is a deterministic function of its inputs.
#[verifier::external_body]
fn astar_search(board: &Board, self_id: u64, start: &Coord, goal: &Coord) -> (r: Option<
    (Vec<Coord>, i32),
>)
    requires
        board_ok(*board),
        in_bounds(board.width as int, board.height as int, *start),
        in_bounds(board.width as int, board.height as int, *goal),
    ensures
        r is Some <==> exists|q: Seq<Coord>|
            is_food_path(*board, self_id, q, *start, *goal),
        r is Some ==> is_food_path(*board, self_id, r.unwrap().0@, *start, *goal),
        r is Some ==> r.unwrap().1 == r.unwrap().0@.len() - 1,
        r is Some ==> forall|q: Seq<Coord>|
            is_food_path(*board, self_id, q, *start, *goal) ==> q.len() >= r.unwrap().0@.len(),
        (match r {
            Some(pc) => Some(pc.0@),
            None => None::<Seq<Coord>>,
        }) == astar_route(
            board.width as int,
            board.height as int,
            blocked_cells(*board, self_id),
            *start,
            *goal,
        ),
{
    pathfinding::prelude::astar(
        start,
        |p: &Coord| get_neighbors(board, self_id, p),
        |p: &Coord| manhattan_distance(p, goal),
        |p: &Coord| coords_equal(p, goal),
    )
}

/// Whether two cells coincide.
pub fn coords_equal(a: &Coord, b: &Coord) -> (r: bool)
    ensures
        r == (*a == *b),
{
    a.x == b.x && a.y == b.y
}

/// Search for a shortest path from the agent's head to a goal cell over the
/// grid of cells no rival occupies. Returns the path (head and goal
/// included) with its cost, or nothing when the goal cannot be reached.
pub fn find_path_to_food(board: &Board, you: &Battlesnake, goal: &Coord) -> (r: Option<
    (Vec<Coord>, i32),
>)
    requires
        board_ok(*board),
        snake_ok(*board, *you),
        in_bounds(board.width as int, board.height as int, *goal),
    ensures
        r is Some <==> exists|q: Seq<Coord>|
            is_food_path(*board, you.id, q, head_of(*you), *goal),
        r is Some ==> is_food_path(*board, you.id, r.unwrap().0@, head_of(*you), *goal),
        r is Some ==> r.unwrap().1 == r.unwrap().0@.len() - 1,
        r is Some ==> forall|q: Seq<Coord>|
            is_food_path(*board, you.id, q, head_of(*you), *goal) ==> q.len() >= r.unwrap().0@.len(),
        (match r {
            Some(pc) => Some(pc.0@),
            None => None::<Seq<Coord>>,
        }) == astar_route(
            board.width as int,
            board.height as int,
            blocked_cells(*board, you.id),
            head_of(*you),
            *goal,
        ),
{
    let head = you.body[0];
    astar_search(board, you.id, &head, goal)
}


/// The greedy boost applied to the matched direction: `w * (1 + 1/2)`.
pub open spec fn boost_weight(w: Weight) -> Weight {
    Weight { num: (w.num * 3) as u64, den: (w.den * 2) as u64, halves: w.halves }
}

/// Half of a weight, as applied to the non-matched directions.
pub open spec fn damp_weight(w: Weight) -> Weight {
    Weight { num: w.num, den: (w.den * 2) as u64, halves: w.halves }
}

/// The food bias on one slot: the matched direction takes the boosted
/// weight, every other present direction is overwritten with half of it.
pub open spec fn bias_slot(
    slot: Option<WeightedMovement>,
    is_matched: bool,
    boosted: Weight,
) -> Option<WeightedMovement> {
    match slot {
        None => None,
        Some(c) => if is_matched {
            Some(WeightedMovement { position: c.position, probability: boosted })
        } else {
            Some(WeightedMovement { position: c.position, probability: damp_weight(boosted) })
        },
    }
}

/// The food bias on the whole candidate set: the matched direction's weight
/// is boosted by half, and every other present direction's weight is
/// overwritten with half the boosted value, whatever it was before.
pub open spec fn bias_spec(s: WeightedMovementSet, matched: Movement) -> WeightedMovementSet {
    let boosted = boost_weight(get_prob_spec(s, matched));
    WeightedMovementSet {
        right: bias_slot(s.right, matched == Movement::Right, boosted),
        left: bias_slot(s.left, matched == Movement::Left, boosted),
        up: bias_slot(s.up, matched == Movement::Up, boosted),
        down: bias_slot(s.down, matched == Movement::Down, boosted),
    }
}

/// The food stage on the candidate set: only at 50 health or below, and only
/// when the board holds food the search can reach along at least one step,
/// is the set biased toward the first step of the path; otherwise it passes
/// through unchanged.
pub open spec fn food_spec(s: WeightedMovementSet, b: Board, y: Battlesnake) -> WeightedMovementSet {
    if y.health > 50 {
        s
    } else {
        match closest_food_spec(head_of(y), b.food@) {
            None => s,
            Some(f) => match astar_route(
                b.width as int,
                b.height as int,
                blocked_cells(b, y.id),
                head_of(y),
                f,
            ) {
                None => s,
                Some(route) => if route.len() < 2 {
                    s
                } else {
                    bias_spec(s, convert_spec(head_of(y), route[1]))
                },
            },
        }
    }
}

fn bias_one(slot: Option<WeightedMovement>, is_matched: bool, boosted: Weight) -> (r: Option<
    WeightedMovement,
>)
    requires
        boosted.den <= 0x4000_0000_0000_0000,
    ensures
        r == bias_slot(slot, is_matched, boosted),
{
    match slot {
        None => None,
        Some(c) => {
            if is_matched {
                Some(WeightedMovement { position: c.position, probability: boosted })
            } else {
                Some(
                    WeightedMovement {
                        position: c.position,
                        probability: Weight {
                            num: boosted.num,
                            den: boosted.den * 2,
                            halves: boosted.halves,
                        },
                    },
                )
            }
        },
    }
}

/// When health is 50 or below, bias the weights toward the first step of a
/// shortest path to the nearest food: boost the matched direction by half
/// and overwrite every other present direction with half the boosted weight.
pub fn apply_food_bias(board: &Board, you: &Battlesnake, set: &mut WeightedMovementSet)
    requires
        input_ok(*board, *you),
        forall|m: Movement|
            (#[trigger] slot_of(*old(set), m)) is Some ==> slot_of(*old(set), m).unwrap().probability.num
                <= 0x1000_0000_0000_0000 && slot_of(*old(set), m).unwrap().probability.den
                <= 0x1000_0000_0000_0000,
    ensures
        *final(set) == food_spec(*old(set), *board, *you),
{
    if you.health > 50 {
        return ;
    }
    let head = you.body[0];
    proof {
        crate::lemma_dims_sum(board.width as int, board.height as int);
        assert forall|j: int| 0 <= j < board.food@.len() implies manhattan_spec(
            head,
            #[trigger] board.food@[j],
        ) <= i32::MAX by {
            assert(in_bounds(board.width as int, board.height as int, board.food@[j]));
            assert(in_bounds(board.width as int, board.height as int, head));
        }
    }
    let closest = find_closest_food(&head, board);
    let food = match closest {
        None => { return ; },
        Some(f) => f,
    };
    proof {
        lemma_closest_idx_bounds(head, board.food@);
        assert(in_bounds(board.width as int, board.height as int, food));
    }
    let path = find_path_to_food(board, you, &food);
    let (p, _cost) = match path {
        None => { return ; },
        Some(pc) => pc,
    };
    if p.len() < 2 {
        return ;
    }
    let next = p[1];
    let matched = convert_coord_to_movement(&head, &next);
    proof {
        assert(slot_of(*set, Movement::Right) == set.right);
        assert(slot_of(*set, Movement::Left) == set.left);
        assert(slot_of(*set, Movement::Up) == set.up);
        assert(slot_of(*set, Movement::Down) == set.down);
    }
    let w0 = set.get_probability(&matched);
    let boosted = Weight { num: w0.num * 3, den: w0.den * 2, halves: w0.halves };
    set.right = bias_one(set.right, matched == Movement::Right, boosted);
    set.left = bias_one(set.left, matched == Movement::Left, boosted);
    set.up = bias_one(set.up, matched == Movement::Up, boosted);
    set.down = bias_one(set.down, matched == Movement::Down, boosted);
}


/// Through the rival filter a surviving slot keeps its position and
/// denominator, never gains numerator, and gains at most one halving per
/// agent on the board.
pub proof fn lemma_rivals_slots(s: WeightedMovementSet, rs: Seq<Battlesnake>, y: Battlesnake)
    ensures
        forall|m: Movement|
            (#[trigger] slot_of(rivals_spec(s, rs, y), m)) is Some ==> {
                &&& slot_of(s, m) is Some
                &&& slot_of(rivals_spec(s, rs, y), m).unwrap().position == slot_of(
                    s,
                    m,
                ).unwrap().position
                &&& slot_of(rivals_spec(s, rs, y), m).unwrap().probability.num <= slot_of(
                    s,
                    m,
                ).unwrap().probability.num
                &&& slot_of(rivals_spec(s, rs, y), m).unwrap().probability.den == slot_of(
                    s,
                    m,
                ).unwrap().probability.den
                &&& slot_of(rivals_spec(s, rs, y), m).unwrap().probability.halves <= slot_of(
                    s,
                    m,
                ).unwrap().probability.halves + rs.len()
            },
    decreases rs.len(),
{
    if rs.len() > 0 {
        lemma_rivals_slots(s, rs.drop_last(), y);
    }
}


/// After the space evaluator, a surviving slot's weight components stay
/// within fixed bounds when it entered with numerator at most 1 and
/// denominator 1.
pub proof fn lemma_flood_slots_bounded(s3: WeightedMovementSet, b: Board, y: Battlesnake)
    requires
        y.length >= 1,
        forall|m: Movement|
            (#[trigger] slot_of(s3, m)) is Some ==> slot_of(s3, m).unwrap().probability.num <= 1
                && slot_of(s3, m).unwrap().probability.den == 1,
    ensures
        forall|m: Movement|
            (#[trigger] slot_of(flood_spec(s3, b, y), m)) is Some ==> slot_of(
                flood_spec(s3, b, y),
                m,
            ).unwrap().probability.num <= 0x1_8000_0000 && 1 <= slot_of(
                flood_spec(s3, b, y),
                m,
            ).unwrap().probability.den <= 0x1_0000_0000,
{
    let s4 = flood_spec(s3, b, y);
    assert forall|m: Movement| (#[trigger] slot_of(s4, m)) is Some implies slot_of(
        s4,
        m,
    ).unwrap().probability.num <= 0x1_8000_0000 && 1 <= slot_of(s4, m).unwrap().probability.den
        <= 0x1_0000_0000 by {
        assert(slot_of(s3, m) is Some);
        let c = slot_of(s3, m).unwrap();
        let fc = flood_count_spec(b, y, c.position);
        let mult = space_multiplier(fc, y.length as int);
        assert(0 <= fc <= flood_cap(y) + 1);
        assert(flood_cap(y) + 1 <= 0x1_8000_0000);
        assert(mult.0 <= 0x1_8000_0000 && 1 <= mult.1 <= 0x1_0000_0000);
        if c.probability.num == 0 {
            assert(c.probability.num as int * mult.0 == 0);
        } else {
            assert(c.probability.num == 1);
            assert(c.probability.num as int * mult.0 == mult.0);
        }
        assert(c.probability.den as int * mult.1 == mult.1);
    }
}

/// After the food stage, every surviving slot's weight keeps a positive
/// denominator, provided each denominator entered positive and small enough
/// not to overflow a doubling.
pub proof fn lemma_food_wf(s4: WeightedMovementSet, b: Board, y: Battlesnake)
    requires
        forall|m: Movement|
            (#[trigger] slot_of(s4, m)) is Some ==> 1 <= slot_of(s4, m).unwrap().probability.den
                <= 0x1_0000_0000,
    ensures
        set_wf(food_spec(s4, b, y)),
{
    let s5 = food_spec(s4, b, y);
    assert forall|m: Movement| (#[trigger] slot_of(s5, m)) is Some implies slot_of(
        s5,
        m,
    ).unwrap().probability.wf() by {
        assert(get_prob_spec(s4, Movement::Right).den >= 1 || true);
        if y.health > 50 {
        } else {
            match closest_food_spec(head_of(y), b.food@) {
                None => {},
                Some(f) => {
                    match astar_route(
                        b.width as int,
                        b.height as int,
                        blocked_cells(b, y.id),
                        head_of(y),
                        f,
                    ) {
                        None => {},
                        Some(route) => {
                            if route.len() >= 2 {
                                let matched = convert_spec(head_of(y), route[1]);
                                let w0 = get_prob_spec(s4, matched);
                                assert(1 <= w0.den <= 0x1_0000_0000);
                            }
                        },
                    }
                },
            }
        }
    }
}

/// The candidate set after the three safety filters, before any weighting by
/// space or food.
pub open spec fn filtered_spec(b: Board, y: Battlesnake) -> WeightedMovementSet {
    rivals_spec(
        self_spec(oob_spec(new_set_spec(head_of(y)), b.width as int, b.height as int), y),
        b.snakes@,
        y,
    )
}

/// The whole pipeline as a function of the snapshot and the tie-break index:
/// filters, space evaluation, food bias, then selection, with Up as the
/// fallback when every direction has been eliminated.
pub open spec fn decide_spec(b: Board, y: Battlesnake, seed: nat) -> Movement {
    let s5 = food_spec(flood_spec(filtered_spec(b, y), b, y), b, y);
    match sel_spec(s5, seed) {
        Some(m) => m,
        None => Movement::Up,
    }
}

/// Run the filters and both weighting stages, leaving the set ready for
/// selection.
#[verifier::rlimit(60)]
fn run_stages(board: &Board, you: &Battlesnake) -> (s: WeightedMovementSet)
    requires
        input_ok(*board, *you),
    ensures
        s == food_spec(flood_spec(filtered_spec(*board, *you), *board, *you), *board, *you),
        set_wf(s),
{
    let ghost w = board.width as int;
    let ghost h = board.height as int;
    let ghost y = *you;
    proof {
        crate::lemma_dims_sum(w, h);
        assert(board.width as int <= 0x3fff_ffff) by (nonlinear_arith)
            requires
                (board.width as int) * (board.height as int) <= 0x3fff_ffff,
                board.width as int >= 1,
                board.height as int >= 1,
        ;
        assert(board.height as int <= 0x3fff_ffff) by (nonlinear_arith)
            requires
                (board.width as int) * (board.height as int) <= 0x3fff_ffff,
                board.width as int >= 1,
                board.height as int >= 1,
        ;
        assert(you.body@[0] == head_of(*you));
        assert(in_bounds(w, h, head_of(*you)));
    }
    let head = you.body[0];
    let mut moves = WeightedMovementSet::new(&head);
    avoid_out_of_bounds(&board.width, &board.height, &mut moves);
    avoid_myself(you, &mut moves);
    let ghost s2 = self_spec(oob_spec(new_set_spec(head_of(y)), w, h), y);
    proof {
        assert(moves == s2);
        assert forall|m: Movement| (#[trigger] slot_of(s2, m)) is Some implies slot_of(
            s2,
            m,
        ).unwrap().probability == Weight::one_spec() && slot_of(s2, m).unwrap().position
            == displaced(head_of(y), m) by {}
        broadcast use vstd::std_specs::vec::axiom_spec_len;
        assert(board.snakes@.len() == vstd::std_specs::vec::spec_vec_len(&board.snakes));
        assert forall|j: int| 0 <= j < board.snakes@.len() implies (#[trigger] board.snakes@[j]).body@.len()
            >= 1 by {
            assert(snake_ok(*board, board.snakes@[j]));
        }
        assert forall|m: Movement, j: int|
            (#[trigger] slot_of(s2, m)) is Some && 0 <= j < board.snakes@.len() implies manhattan_spec(
            slot_of(s2, m).unwrap().position,
            head_of(#[trigger] board.snakes@[j]),
        ) <= i32::MAX by {
            assert(snake_ok(*board, board.snakes@[j]));
            assert(board.snakes@[j].body@[0] == head_of(board.snakes@[j]));
            assert(in_bounds(w, h, head_of(board.snakes@[j])));
            assert(in_bounds(w, h, head_of(y)));
        }
    }
    avoid_baddies(&board.snakes, you, &mut moves);
    let ghost s3 = filtered_spec(*board, y);
    proof {
        assert(moves == s3);
        lemma_rivals_slots(s2, board.snakes@, y);
        assert forall|m: Movement| (#[trigger] slot_of(s3, m)) is Some implies coord_in_range(
            slot_of(s3, m).unwrap().position,
        ) && slot_of(s3, m).unwrap().probability.num <= 1 && slot_of(s3, m).unwrap().probability.den
            == 1 by {
            assert(slot_of(s3, m).unwrap().position == displaced(head_of(y), m));
            assert(in_bounds(w, h, head_of(y)));
        }
    }
    apply_flood_fill(board, you, &mut moves);
    let ghost s4 = flood_spec(s3, *board, y);
    proof {
        assert(moves == s4);
        lemma_flood_slots_bounded(s3, *board, y);
    }
    apply_food_bias(board, you, &mut moves);
    let ghost s5 = food_spec(s4, *board, y);
    proof {
        assert(moves == s5);
        lemma_food_wf(s4, *board, y);
    }
    moves
}

/// Decide the turn with an injected tie-break index: the same snapshot and
/// index always yield the same direction.
pub fn decide_move(board: &Board, you: &Battlesnake, seed: usize) -> (r: Movement)
    requires
        input_ok(*board, *you),
    ensures
        r == decide_spec(*board, *you, seed as nat),
{
    let moves = run_stages(board, you);
    match moves.pick_movement_seeded(seed) {
        Some(m) => m,
        None => Movement::Up,
    }
}

/// Decide the turn with a random tie-break among the maximum-weight
/// candidates; the result is the pipeline's decision for some tie-break
/// index.
pub fn handle_move(_game: &Game, _turn: &u32, board: &Board, you: &Battlesnake) -> (r: Movement)
    requires
        input_ok(*board, *you),
    ensures
        exists|seed: nat| r == decide_spec(*board, *you, seed),
{
    let moves = run_stages(board, you);
    let picked = moves.pick_movement();
    let ghost seed = choose|seed: nat| picked == sel_spec(moves, seed);
    let r = match picked {
        Some(m) => m,
        None => Movement::Up,
    };
    proof {
        assert(r == decide_spec(*board, *you, seed));
    }
    r
}

} // verus!
