//! The weighted candidate set: one slot per direction, each holding the
//! resulting position and a preference weight, or nothing once the direction
//! has been eliminated for the turn.

use vstd::prelude::*;
use vstd::arithmetic::div_mod::lemma_small_mod;

use crate::Coord;
use crate::weight::{w_eq, w_le, weight_eq, weight_le, Weight};

verus! {

/// One of the four cardinal directions the agent can move in.
#[derive(Clone, Copy, PartialEq, Eq, Structural, Debug)]
pub enum Movement {
    Right,
    Left,
    Up,
    Down,
}

impl Movement {
    /// The lower-case wire name of the direction.
    pub fn name(&self) -> (r: &'static str)
        ensures
            *self is Right ==> r@ == "right"@,
            *self is Left ==> r@ == "left"@,
            *self is Up ==> r@ == "up"@,
            *self is Down ==> r@ == "down"@,
    {
        match self {
            Movement::Right => "right",
            Movement::Left => "left",
            Movement::Up => "up",
            Movement::Down => "down",
        }
    }
}

/// The position the head reaches by moving one step in direction `m`.
/// Up increases `y`, Right increases `x`.
pub open spec fn displaced(head: Coord, m: Movement) -> Coord {
    match m {
        Movement::Right => Coord { x: (head.x + 1) as i32, y: head.y },
        Movement::Left => Coord { x: (head.x - 1) as i32, y: head.y },
        Movement::Up => Coord { x: head.x, y: (head.y + 1) as i32 },
        Movement::Down => Coord { x: head.x, y: (head.y - 1) as i32 },
    }
}

/// A directional candidate still eligible this turn.
#[derive(Clone, Copy, PartialEq, Eq, Structural, Debug)]
pub struct WeightedMovement {
    pub position: Coord,
    pub probability: Weight,
}

/// The four candidate slots of one turn. A `None` slot is a direction that a
/// filter has eliminated; elimination is irreversible within the turn.
#[derive(Clone, Copy, PartialEq, Eq, Structural, Debug)]
pub struct WeightedMovementSet {
    pub right: Option<WeightedMovement>,
    pub left: Option<WeightedMovement>,
    pub up: Option<WeightedMovement>,
    pub down: Option<WeightedMovement>,
}

pub open spec fn slot_of(s: WeightedMovementSet, m: Movement) -> Option<WeightedMovement> {
    match m {
        Movement::Right => s.right,
        Movement::Left => s.left,
        Movement::Up => s.up,
        Movement::Down => s.down,
    }
}

/// The set with slot `m` replaced by `v`.
pub open spec fn with_slot(
    s: WeightedMovementSet,
    m: Movement,
    v: Option<WeightedMovement>,
) -> WeightedMovementSet {
    match m {
        Movement::Right => WeightedMovementSet { right: v, ..s },
        Movement::Left => WeightedMovementSet { left: v, ..s },
        Movement::Up => WeightedMovementSet { up: v, ..s },
        Movement::Down => WeightedMovementSet { down: v, ..s },
    }
}

pub open spec fn new_set_spec(head: Coord) -> WeightedMovementSet {
    WeightedMovementSet {
        right: Some(
            WeightedMovement { position: displaced(head, Movement::Right), probability: Weight::one_spec() },
        ),
        left: Some(
            WeightedMovement { position: displaced(head, Movement::Left), probability: Weight::one_spec() },
        ),
        up: Some(
            WeightedMovement { position: displaced(head, Movement::Up), probability: Weight::one_spec() },
        ),
        down: Some(
            WeightedMovement { position: displaced(head, Movement::Down), probability: Weight::one_spec() },
        ),
    }
}

pub open spec fn get_prob_spec(s: WeightedMovementSet, m: Movement) -> Weight {
    match slot_of(s, m) {
        Some(c) => c.probability,
        None => Weight::zero_spec(),
    }
}

/// Every present slot holds a well-formed weight.
pub open spec fn set_wf(s: WeightedMovementSet) -> bool {
    forall|m: Movement| (#[trigger] slot_of(s, m)) is Some ==> slot_of(s, m).unwrap().probability.wf()
}

/// The present candidates, with their directions, in the set's fixed
/// iteration order: Right, Left, Up, Down.
pub open spec fn present_seq(s: WeightedMovementSet) -> Seq<(Movement, WeightedMovement)> {
    let r: Seq<(Movement, WeightedMovement)> = match s.right {
        Some(c) => seq![(Movement::Right, c)],
        None => Seq::empty(),
    };
    let l: Seq<(Movement, WeightedMovement)> = match s.left {
        Some(c) => seq![(Movement::Left, c)],
        None => Seq::empty(),
    };
    let u: Seq<(Movement, WeightedMovement)> = match s.up {
        Some(c) => seq![(Movement::Up, c)],
        None => Seq::empty(),
    };
    let d: Seq<(Movement, WeightedMovement)> = match s.down {
        Some(c) => seq![(Movement::Down, c)],
        None => Seq::empty(),
    };
    r + l + u + d
}

/// The running maximum of the present candidates' weights, scanned in order;
/// a later candidate replaces the maximum when it weighs at least as much.
pub open spec fn fold_max(ps: Seq<(Movement, WeightedMovement)>) -> Weight
    decreases ps.len(),
{
    if ps.len() <= 1 {
        ps[0].1.probability
    } else {
        let m = fold_max(ps.drop_last());
        let lw = ps.last().1.probability;
        if w_le(m, lw) {
            lw
        } else {
            m
        }
    }
}

/// Ties at weight `mx`, as a predicate on present candidates.
pub open spec fn tie_with(mx: Weight) -> spec_fn((Movement, WeightedMovement)) -> bool {
    |p: (Movement, WeightedMovement)| w_eq(p.1.probability, mx)
}

/// The direction of a present candidate.
pub open spec fn dir_of() -> spec_fn((Movement, WeightedMovement)) -> Movement {
    |p: (Movement, WeightedMovement)| p.0
}

/// The directions tied at the maximum weight, in iteration order.
pub open spec fn tied_spec(s: WeightedMovementSet) -> Seq<Movement> {
    let ps = present_seq(s);
    if ps.len() == 0 {
        Seq::empty()
    } else {
        ps.filter(tie_with(fold_max(ps))).map_values(dir_of())
    }
}

/// The direction the selector picks for a given tie-break index: the
/// candidates tied at the maximum weight are listed in iteration order and
/// the index chooses among them, wrapping around.
pub open spec fn sel_spec(s: WeightedMovementSet, seed: nat) -> Option<Movement> {
    let t = tied_spec(s);
    if t.len() == 0 {
        None
    } else {
        Some(t[(seed % t.len()) as int])
    }
}

/// Relies on `rand::Rng::gen_range` on `rand::thread_rng()`: for a non-empty
/// range `0..n` it returns a value of the range.
#[verifier::external_body]
fn random_below(n: usize) -> (r: usize)
    requires
        n >= 1,
    ensures
        r < n,
{
    let mut rng = rand::thread_rng();
    rand::Rng::gen_range(&mut rng, 0..n)
}

impl WeightedMovementSet {
    /// Create the four candidates for a turn: one per direction, at the
    /// position the head reaches that way, all weighted 1.
    pub fn new(head_coord: &Coord) -> (r: WeightedMovementSet)
        requires
            i32::MIN < head_coord.x < i32::MAX,
            i32::MIN < head_coord.y < i32::MAX,
        ensures
            r == new_set_spec(*head_coord),
    {
        WeightedMovementSet {
            right: Some(
                WeightedMovement {
                    position: Coord { x: head_coord.x + 1, y: head_coord.y },
                    probability: Weight::one(),
                },
            ),
            left: Some(
                WeightedMovement {
                    position: Coord { x: head_coord.x - 1, y: head_coord.y },
                    probability: Weight::one(),
                },
            ),
            up: Some(
                WeightedMovement {
                    position: Coord { x: head_coord.x, y: head_coord.y + 1 },
                    probability: Weight::one(),
                },
            ),
            down: Some(
                WeightedMovement {
                    position: Coord { x: head_coord.x, y: head_coord.y - 1 },
                    probability: Weight::one(),
                },
            ),
        }
    }

    /// Eliminate a direction for the rest of the turn. Idempotent.
    pub fn remove(&mut self, movement: &Movement)
        ensures
            *final(self) == with_slot(*old(self), *movement, None),
    {
        match movement {
            Movement::Right => self.right = None,
            Movement::Left => self.left = None,
            Movement::Up => self.up = None,
            Movement::Down => self.down = None,
        }
    }

    /// Overwrite a present direction's weight; a no-op on an eliminated one.
    pub fn update_probability(&mut self, movement: &Movement, probability: Weight)
        ensures
            *final(self) == match slot_of(*old(self), *movement) {
                Some(c) => with_slot(
                    *old(self),
                    *movement,
                    Some(WeightedMovement { position: c.position, probability }),
                ),
                None => *old(self),
            },
    {
        match movement {
            Movement::Right => {
                if let Some(c) = self.right {
                    self.right = Some(WeightedMovement { position: c.position, probability });
                }
            },
            Movement::Left => {
                if let Some(c) = self.left {
                    self.left = Some(WeightedMovement { position: c.position, probability });
                }
            },
            Movement::Up => {
                if let Some(c) = self.up {
                    self.up = Some(WeightedMovement { position: c.position, probability });
                }
            },
            Movement::Down => {
                if let Some(c) = self.down {
                    self.down = Some(WeightedMovement { position: c.position, probability });
                }
            },
        }
    }

    /// A present direction's weight; 0 for an eliminated one.
    pub fn get_probability(&self, movement: &Movement) -> (r: Weight)
        ensures
            r == get_prob_spec(*self, *movement),
    {
        let slot = match movement {
            Movement::Right => &self.right,
            Movement::Left => &self.left,
            Movement::Up => &self.up,
            Movement::Down => &self.down,
        };
        match slot {
            Some(c) => c.probability,
            None => Weight::zero(),
        }
    }

    /// The directions tied at the maximum present weight, in iteration order;
    /// empty when every direction has been eliminated.
    fn tied_movements(&self) -> (r: Vec<Movement>)
        requires
            set_wf(*self),
        ensures
            r@ == tied_spec(*self),
    {
        let mut present: Vec<(Movement, WeightedMovement)> = Vec::new();
        if let Some(c) = self.right {
            present.push((Movement::Right, c));
        }
        if let Some(c) = self.left {
            present.push((Movement::Left, c));
        }
        if let Some(c) = self.up {
            present.push((Movement::Up, c));
        }
        if let Some(c) = self.down {
            present.push((Movement::Down, c));
        }
        proof {
            assert(present@ =~= present_seq(*self));
        }
        if present.len() == 0 {
            let r: Vec<Movement> = Vec::new();
            proof {
                assert(r@ =~= tied_spec(*self));
            }
            return r;
        }
        let ghost ps = present_seq(*self);
        proof {
            lemma_present_seq_wf(*self);
        }
        let mut mx: Weight = present[0].1.probability;
        let mut i: usize = 1;
        proof {
            assert(ps.take(1).drop_last() =~= Seq::<(Movement, WeightedMovement)>::empty());
            assert(mx == fold_max(ps.take(1)));
        }
        while i < present.len()
            invariant
                1 <= i <= present@.len(),
                present@ == ps,
                ps == present_seq(*self),
                forall|k: int| 0 <= k < ps.len() ==> (#[trigger] ps[k]).1.probability.wf(),
                mx == fold_max(ps.take(i as int)),
                mx.wf(),
            decreases present@.len() - i,
        {
            let cur = present[i].1.probability;
            proof {
                assert(ps.take(i + 1).drop_last() =~= ps.take(i as int));
                assert(ps.take(i + 1).last() == ps[i as int]);
            }
            if weight_le(&mx, &cur) {
                mx = cur;
            }
            i = i + 1;
        }
        proof {
            assert(ps.take(ps.len() as int) =~= ps);
        }
        let ghost pred = tie_with(mx);
        let ghost f = dir_of();
        let mut tied: Vec<Movement> = Vec::new();
        let mut j: usize = 0;
        proof {
            reveal(Seq::filter);
            assert(ps.take(0).filter(pred) =~= Seq::<(Movement, WeightedMovement)>::empty());
            assert(tied@ =~= ps.take(0).filter(pred).map_values(f));
        }
        while j < present.len()
            invariant
                0 <= j <= present@.len(),
                present@ == ps,
                ps == present_seq(*self),
                ps.len() >= 1,
                forall|k: int| 0 <= k < ps.len() ==> (#[trigger] ps[k]).1.probability.wf(),
                mx == fold_max(ps),
                mx.wf(),
                pred == tie_with(mx),
                f == dir_of(),
                tied@ == ps.take(j as int).filter(pred).map_values(f),
            decreases present@.len() - j,
        {
            let cur = present[j].1.probability;
            proof {
                assert(ps.take(j + 1).drop_last() =~= ps.take(j as int));
                assert(ps.take(j + 1).last() == ps[j as int]);
            }
            if weight_eq(&cur, &mx) {
                tied.push(present[j].0);
                proof {
                    reveal(Seq::filter);
                    assert(pred(ps[j as int]));
                    assert(ps.take(j + 1).filter(pred) =~= ps.take(j as int).filter(pred).push(
                        ps[j as int],
                    ));
                    assert(ps.take(j + 1).filter(pred).map_values(f) =~= ps.take(j as int).filter(
                        pred,
                    ).map_values(f).push(ps[j as int].0));
                }
            } else {
                proof {
                    reveal(Seq::filter);
                    assert(!pred(ps[j as int]));
                    assert(ps.take(j + 1).filter(pred) =~= ps.take(j as int).filter(pred));
                }
            }
            j = j + 1;
        }
        proof {
            assert(ps.take(ps.len() as int) =~= ps);
            assert(tied@ == tied_spec(*self));
        }
        tied
    }

    /// Pick with an injected tie-break index: deterministic, so the same
    /// snapshot and index always select the same direction.
    pub fn pick_movement_seeded(&self, seed: usize) -> (r: Option<Movement>)
        requires
            set_wf(*self),
        ensures
            r == sel_spec(*self, seed as nat),
    {
        let tied = self.tied_movements();
        if tied.len() == 0 {
            None
        } else {
            Some(tied[seed % tied.len()])
        }
    }

    /// Pick with a random tie-break: some maximum-weight present direction,
    /// uniformly among the tied ones.
    pub fn pick_movement(&self) -> (r: Option<Movement>)
        requires
            set_wf(*self),
        ensures
            exists|seed: nat| r == sel_spec(*self, seed),
    {
        let tied = self.tied_movements();
        if tied.len() == 0 {
            proof {
                assert(sel_spec(*self, 0) is None);
            }
            None
        } else {
            let idx = random_below(tied.len());
            proof {
                lemma_small_mod(idx as nat, tied@.len());
                assert(sel_spec(*self, idx as nat) == Some(tied@[idx as int]));
            }
            Some(tied[idx])
        }
    }
}

/// In a well-formed set, every present candidate's weight is well formed.
pub proof fn lemma_present_seq_wf(s: WeightedMovementSet)
    requires
        set_wf(s),
    ensures
        forall|k: int|
            0 <= k < present_seq(s).len() ==> (#[trigger] present_seq(s)[k]).1.probability.wf(),
{
    assert(slot_of(s, Movement::Right) == s.right);
    assert(slot_of(s, Movement::Left) == s.left);
    assert(slot_of(s, Movement::Up) == s.up);
    assert(slot_of(s, Movement::Down) == s.down);
}

} // verus!
