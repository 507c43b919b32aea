//! Move-decision engine for a grid-confined snake agent.
//!
//! Each turn the engine builds a set of four directional candidates from the
//! agent's head, runs safety filters (board boundary, own body, rival bodies
//! and rival-head proximity), rates each surviving candidate by the open area
//! reachable from it, optionally biases the weights toward the first step of a
//! shortest path to the nearest food when health is low, and finally picks a
//! maximum-weight candidate, breaking ties by a random (or injected) index.
#![allow(unused_imports)]

use vstd::prelude::*;

pub mod weight;
pub mod movement;
pub mod logic;
pub mod laws;

verus! {

/// A cell of the board: a pair of integer coordinates.
#[derive(Clone, Copy, PartialEq, Eq, Structural, Hash, Debug)]
pub struct Coord {
    pub x: i32,
    pub y: i32,
}

/// One agent on the board. The head is `body[0]`, the tail is the last body
/// segment. `length` counts the agent's segments and never goes below 1.
pub struct Battlesnake {
    pub id: u64,
    pub health: u32,
    pub length: u32,
    pub body: Vec<Coord>,
}

/// One turn's snapshot of the board: its dimensions, the food on it, and every
/// agent present (the deciding agent included).
pub struct Board {
    pub width: i32,
    pub height: i32,
    pub food: Vec<Coord>,
    pub snakes: Vec<Battlesnake>,
}

/// Game metadata; the decision engine reads nothing from it.
pub struct Game {
    pub id: u64,
}

pub open spec fn iabs(v: int) -> int {
    if v < 0 {
        -v
    } else {
        v
    }
}

pub open spec fn manhattan_spec(a: Coord, b: Coord) -> int {
    iabs(a.x - b.x) + iabs(a.y - b.y)
}

pub open spec fn in_bounds(width: int, height: int, c: Coord) -> bool {
    0 <= c.x < width && 0 <= c.y < height
}

pub open spec fn head_of(s: Battlesnake) -> Coord {
    s.body@[0]
}

pub open spec fn tail_of(s: Battlesnake) -> Coord {
    s.body@.last()
}

/// An agent is stacked when two consecutive body segments coincide, which
/// means its tail will not vacate its cell on this turn.
pub open spec fn stacked_spec(s: Battlesnake) -> bool {
    exists|i: int| 1 <= i < s.body@.len() && (#[trigger] s.body@[i]) == s.body@[i - 1]
}

/// Some agent on the board occupies cell `c`.
pub open spec fn any_body_contains(snakes: Seq<Battlesnake>, c: Coord) -> bool {
    exists|i: int| 0 <= i < snakes.len() && #[trigger] snakes[i].body@.contains(c)
}

/// Some agent other than the one with identifier `self_id` occupies cell `c`.
pub open spec fn rival_body_contains(snakes: Seq<Battlesnake>, self_id: u64, c: Coord) -> bool {
    exists|i: int|
        0 <= i < snakes.len() && snakes[i].id != self_id && #[trigger] snakes[i].body@.contains(c)
}

/// Free for the space evaluator: inside the board and on no agent's body,
/// the evaluating agent's own body included.
pub open spec fn cell_free(b: Board, c: Coord) -> bool {
    in_bounds(b.width as int, b.height as int, c) && !any_body_contains(b.snakes@, c)
}

/// Free for the food path search: inside the board and on no rival's body.
/// The searching agent's own body is not an obstacle here, since it vacates
/// cells as the agent advances along a multi-step path.
pub open spec fn path_cell_free(b: Board, self_id: u64, c: Coord) -> bool {
    in_bounds(b.width as int, b.height as int, c) && !rival_body_contains(b.snakes@, self_id, c)
}

/// A well-formed agent relative to a board: a non-empty body confined to the
/// board, and a positive length.
pub open spec fn snake_ok(b: Board, s: Battlesnake) -> bool {
    &&& s.body@.len() >= 1
    &&& s.length >= 1
    &&& forall|i: int|
        0 <= i < s.body@.len() ==> in_bounds(b.width as int, b.height as int, #[trigger] s.body@[i])
}

/// A well-formed board. The area cap keeps every Manhattan distance and every
/// unit-cost path length over the board within `i32`.
pub open spec fn board_ok(b: Board) -> bool {
    &&& 0 < b.width
    &&& 0 < b.height
    &&& (b.width as int) * (b.height as int) <= 0x3fff_ffff
    &&& forall|i: int|
        0 <= i < b.food@.len() ==> in_bounds(b.width as int, b.height as int, #[trigger] b.food@[i])
    &&& forall|i: int| 0 <= i < b.snakes@.len() ==> snake_ok(b, #[trigger] b.snakes@[i])
}

/// The engine's precondition: a well-formed board and a well-formed deciding
/// agent.
pub open spec fn input_ok(b: Board, y: Battlesnake) -> bool {
    board_ok(b) && snake_ok(b, y)
}

/// On a well-formed board, width + height stays small enough that every
/// Manhattan distance between cells at most one step outside the board fits
/// in `i32`.
pub proof fn lemma_dims_sum(w: int, h: int)
    requires
        1 <= w,
        1 <= h,
        w * h <= 0x3fff_ffff,
    ensures
        w + h <= 0x4000_0000,
{
    assert(w + h <= w * h + 1) by (nonlinear_arith)
        requires
            1 <= w,
            1 <= h,
    ;
}

} // verus!
