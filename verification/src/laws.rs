//! The engine's stated laws, proved over the same spec functions its
//! contracts use.

use vstd::prelude::*;
use vstd::arithmetic::power2::{lemma2_to64, lemma_pow2_adds, lemma_pow2_pos, pow2};

use crate::{
    head_of, in_bounds, input_ok, manhattan_spec, stacked_spec, tail_of, Battlesnake, Board, Coord,
};
use crate::logic::{
    adjacent, decide_spec, filtered_spec, flood_spec, food_spec, is_food_path, rescale_spec,
    self_spec, space_multiplier,
};
use crate::movement::{
    displaced, fold_max, present_seq, sel_spec, slot_of, tie_with, tied_spec, Movement,
    WeightedMovement, WeightedMovementSet,
};
use crate::weight::{w_eq, w_le, Weight};

verus! {

/// The self filter never eliminates the agent's own tail cell unless the
/// agent is stacked: the tail vacates on this turn, so the cell is safe.
pub proof fn lemma_self_filter_spares_tail(s: WeightedMovementSet, y: Battlesnake, m: Movement)
    requires
        y.body@.len() >= 1,
        slot_of(s, m) is Some,
        slot_of(s, m).unwrap().position == tail_of(y),
        !stacked_spec(y),
    ensures
        slot_of(self_spec(s, y), m) == slot_of(s, m),
{
}

/// Rival-proximity rescaling is monotonic: for the same starting weight, a
/// smaller Manhattan distance to a rival head (at most 2) yields a weight no
/// greater than a larger one.
pub proof fn lemma_rival_rescale_monotone(w: Weight, d1: int, d2: int)
    requires
        w.wf(),
        w.halves < u64::MAX,
        0 <= d1 <= d2 <= 2,
    ensures
        w_le(rescale_spec(w, d1), rescale_spec(w, d2)),
{
    lemma_pow2_pos(w.halves as nat);
    lemma_pow2_adds(w.halves as nat, 1);
    let a = rescale_spec(w, d1);
    let b = rescale_spec(w, d2);
    lemma2_to64();
    if d1 == 0 {
        assert((a.num as int) * (b.den as int) * (pow2(b.halves as nat) as int) == 0)
            by (nonlinear_arith)
            requires
                a.num == 0,
        ;
        assert((b.num as int) * (a.den as int) * (pow2(a.halves as nat) as int) >= 0)
            by (nonlinear_arith)
            requires
                b.num as int >= 0,
                a.den as int >= 0,
                pow2(a.halves as nat) as int >= 0,
        ;
    } else if d1 == 1 && d2 == 1 {
    } else if d1 == 1 && d2 == 2 {
        // a = (num, den, halves + 1), b = w: halving can only shrink.
        assert(a.halves as int == w.halves + 1);
        assert(pow2(a.halves as nat) == pow2(w.halves as nat) * 2);
        assert((a.num as int) * (b.den as int) * (pow2(b.halves as nat) as int) <= (b.num as int)
            * (a.den as int) * ((pow2(w.halves as nat) as int) * 2)) by (nonlinear_arith)
            requires
                a.num == w.num,
                a.den == w.den,
                b == w,
                pow2(w.halves as nat) as int >= 1,
        ;
    } else {
        assert(a == b);
    }
}

/// The space evaluator's factor is 0 exactly when the accessible area equals
/// the agent's length, and never exceeds 0.2: the weight multiplier
/// `1 + factor` is then exactly 1, and never exceeds 6/5.
pub proof fn lemma_space_factor(area: int, length: int)
    requires
        1 <= length,
        0 <= area,
    ensures
        area == length ==> space_multiplier(area, length) == (1int, 1int),
        5 * space_multiplier(area, length).0 <= 6 * space_multiplier(area, length).1,
{
}

/// Two runs of the pipeline on the identical snapshot with the identical
/// tie-break index decide the identical direction: the decision is a
/// function of the snapshot and the index alone.
pub proof fn lemma_decision_deterministic(
    b: Board,
    y: Battlesnake,
    seed: nat,
    r1: Movement,
    r2: Movement,
)
    requires
        r1 == decide_spec(b, y, seed),
        r2 == decide_spec(b, y, seed),
    ensures
        r1 == r2,
{
}

/// Any food path is at least as long as the straight-line Manhattan distance
/// requires: the path search's heuristic never overestimates the true cost.
pub proof fn lemma_path_at_least_manhattan(
    b: Board,
    self_id: u64,
    p: Seq<Coord>,
    start: Coord,
    goal: Coord,
)
    requires
        is_food_path(b, self_id, p, start, goal),
    ensures
        p.len() >= manhattan_spec(start, goal) + 1,
    decreases p.len(),
{
    if p.len() == 1 {
        assert(start == goal);
    } else {
        let q = p.drop_last();
        assert(forall|i: int| 1 <= i < q.len() ==> (#[trigger] q[i]) == p[i] && q[i - 1] == p[i - 1]);
        assert(is_food_path(b, self_id, q, start, q.last()));
        lemma_path_at_least_manhattan(b, self_id, q, start, q.last());
        assert(adjacent(q.last(), goal));
        assert(manhattan_spec(start, goal) <= manhattan_spec(start, q.last()) + 1);
    }
}

/// Every element a filter keeps comes from the filtered sequence.
proof fn lemma_filter_subset(
    ps: Seq<(Movement, WeightedMovement)>,
    pred: spec_fn((Movement, WeightedMovement)) -> bool,
)
    ensures
        forall|i: int| 0 <= i < ps.filter(pred).len() ==> ps.contains(#[trigger] ps.filter(pred)[i]),
    decreases ps.len(),
{
    reveal(Seq::filter);
    if ps.len() > 0 {
        let q = ps.drop_last();
        lemma_filter_subset(q, pred);
        assert forall|i: int| 0 <= i < ps.filter(pred).len() implies ps.contains(
            #[trigger] ps.filter(pred)[i],
        ) by {
            if i < q.filter(pred).len() {
                assert(q.contains(q.filter(pred)[i]));
                let j = choose|j: int| 0 <= j < q.len() && q[j] == q.filter(pred)[i];
                assert(ps[j] == q[j]);
            } else {
                assert(ps.filter(pred)[i] == ps.last());
                assert(ps[ps.len() - 1] == ps.last());
            }
        }
    }
}

/// A candidate listed among the present ones occupies the slot its direction
/// names.
proof fn lemma_present_elements(s: WeightedMovementSet)
    ensures
        forall|i: int|
            0 <= i < present_seq(s).len() ==> slot_of(s, (#[trigger] present_seq(s)[i]).0) == Some(
                present_seq(s)[i].1,
            ),
{
    assert(slot_of(s, Movement::Right) == s.right);
    assert(slot_of(s, Movement::Left) == s.left);
    assert(slot_of(s, Movement::Up) == s.up);
    assert(slot_of(s, Movement::Down) == s.down);
}

/// The running maximum of the present candidates' weights is one of them.
proof fn lemma_fold_max_mem(ps: Seq<(Movement, WeightedMovement)>)
    requires
        ps.len() >= 1,
    ensures
        exists|i: int| 0 <= i < ps.len() && (#[trigger] ps[i]).1.probability == fold_max(ps),
    decreases ps.len(),
{
    if ps.len() == 1 {
        assert(ps[0].1.probability == fold_max(ps));
    } else {
        let q = ps.drop_last();
        lemma_fold_max_mem(q);
        if w_le(fold_max(q), ps.last().1.probability) {
            assert(ps[ps.len() - 1].1.probability == fold_max(ps));
        } else {
            let i = choose|i: int| 0 <= i < q.len() && (#[trigger] q[i]).1.probability == fold_max(q);
            assert(ps[i].1.probability == fold_max(ps));
        }
    }
}

/// When any direction survives, the selector picks one of the surviving
/// slots, whatever the tie-break index.
proof fn lemma_sel_present(s: WeightedMovementSet, seed: nat)
    requires
        exists|m: Movement| (#[trigger] slot_of(s, m)) is Some,
    ensures
        sel_spec(s, seed) is Some,
        slot_of(s, sel_spec(s, seed).unwrap()) is Some,
{
    let ps = present_seq(s);
    let m0 = choose|m: Movement| (#[trigger] slot_of(s, m)) is Some;
    assert(ps.len() >= 1) by {
        if m0 is Right {
            assert(s.right is Some);
        } else if m0 is Left {
            assert(s.left is Some);
        } else if m0 is Up {
            assert(s.up is Some);
        } else {
            assert(s.down is Some);
        }
    }
    let mx = fold_max(ps);
    let pred = tie_with(mx);
    lemma_fold_max_mem(ps);
    let i = choose|i: int| 0 <= i < ps.len() && (#[trigger] ps[i]).1.probability == mx;
    assert(pred(ps[i]));
    ps.lemma_filter_contains(pred, i);
    assert(ps.filter(pred).len() >= 1);
    let t = tied_spec(s);
    assert(t.len() == ps.filter(pred).len());
    let k = (seed % t.len() as nat) as int;
    assert(0 <= k < t.len());
    lemma_filter_subset(ps, pred);
    assert(ps.contains(ps.filter(pred)[k]));
    let j = choose|j: int| 0 <= j < ps.len() && ps[j] == ps.filter(pred)[k];
    lemma_present_elements(s);
    assert(slot_of(s, ps[j].0) == Some(ps[j].1));
    assert(t[k] == ps.filter(pred)[k].0);
    assert(sel_spec(s, seed) == Some(t[k]));
}

/// When at least one in-bounds candidate survives the safety filters, the
/// decision is a direction whose resulting position lies inside the board.
pub proof fn lemma_select_in_bounds(b: Board, y: Battlesnake, seed: nat)
    requires
        input_ok(b, y),
        exists|m: Movement| (#[trigger] slot_of(filtered_spec(b, y), m)) is Some,
    ensures
        in_bounds(b.width as int, b.height as int, displaced(head_of(y), decide_spec(b, y, seed))),
{
    let s3 = filtered_spec(b, y);
    let s4 = flood_spec(s3, b, y);
    let s5 = food_spec(s4, b, y);
    let s0 = crate::movement::new_set_spec(head_of(y));
    let s1 = crate::logic::oob_spec(s0, b.width as int, b.height as int);
    let s2 = self_spec(s1, y);
    crate::logic::lemma_rivals_slots(s2, b.snakes@, y);
    assert forall|m: Movement| (#[trigger] slot_of(s4, m)) is Some implies slot_of(s3, m) is Some
        && slot_of(s4, m).unwrap().position == slot_of(s3, m).unwrap().position by {}
    assert forall|m: Movement| (#[trigger] slot_of(s5, m)) is Some implies slot_of(s4, m) is Some
        && slot_of(s5, m).unwrap().position == slot_of(s4, m).unwrap().position by {}
    assert forall|m: Movement| (#[trigger] slot_of(s3, m)) is Some implies slot_of(s5, m) is Some by {}
    let m0 = choose|m: Movement| (#[trigger] slot_of(s3, m)) is Some;
    assert(slot_of(s5, m0) is Some);
    lemma_sel_present(s5, seed);
    let m = sel_spec(s5, seed).unwrap();
    assert(decide_spec(b, y, seed) == m);
    assert(slot_of(s5, m) is Some);
    assert(slot_of(s3, m) is Some && slot_of(s3, m).unwrap().position == slot_of(
        s5,
        m,
    ).unwrap().position);
    assert(slot_of(s2, m) is Some && slot_of(s2, m).unwrap().position == slot_of(
        s3,
        m,
    ).unwrap().position);
    assert(slot_of(s1, m) is Some && slot_of(s1, m).unwrap().position == slot_of(
        s2,
        m,
    ).unwrap().position);
    assert(in_bounds(b.width as int, b.height as int, slot_of(s1, m).unwrap().position));
    assert(slot_of(s1, m).unwrap().position == displaced(head_of(y), m));
}


/// On a board whose every cell is free for the searching agent, a path of
/// length exactly the Manhattan distance plus one exists between any two
/// cells: walk the x axis first, then the y axis.
proof fn lemma_manhattan_path_exists(b: Board, self_id: u64, start: Coord, goal: Coord)
    requires
        in_bounds(b.width as int, b.height as int, start),
        in_bounds(b.width as int, b.height as int, goal),
        forall|c: Coord|
            in_bounds(b.width as int, b.height as int, c) ==> #[trigger] crate::path_cell_free(
                b,
                self_id,
                c,
            ),
    ensures
        exists|p: Seq<Coord>|
            is_food_path(b, self_id, p, start, goal) && p.len() == manhattan_spec(start, goal) + 1,
    decreases manhattan_spec(start, goal),
{
    if start == goal {
        let p = seq![start];
        assert(is_food_path(b, self_id, p, start, goal));
        assert(p.len() == manhattan_spec(start, goal) + 1);
    } else {
        let prev = if goal.x > start.x {
            Coord { x: (goal.x - 1) as i32, y: goal.y }
        } else if goal.x < start.x {
            Coord { x: (goal.x + 1) as i32, y: goal.y }
        } else if goal.y > start.y {
            Coord { x: goal.x, y: (goal.y - 1) as i32 }
        } else {
            Coord { x: goal.x, y: (goal.y + 1) as i32 }
        };
        assert(in_bounds(b.width as int, b.height as int, prev));
        assert(manhattan_spec(start, prev) == manhattan_spec(start, goal) - 1);
        lemma_manhattan_path_exists(b, self_id, start, prev);
        let q = choose|q: Seq<Coord>|
            is_food_path(b, self_id, q, start, prev) && q.len() == manhattan_spec(start, prev) + 1;
        let p = q.push(goal);
        assert(adjacent(prev, goal));
        assert(crate::path_cell_free(b, self_id, goal));
        assert(forall|i: int| 1 <= i < q.len() ==> (#[trigger] p[i]) == q[i] && p[i - 1] == q[i - 1]);
        assert(p[p.len() - 1] == goal && p[p.len() - 2] == prev);
        assert(is_food_path(b, self_id, p, start, goal));
        assert(p.len() == manhattan_spec(start, goal) + 1);
    }
}

/// On an obstacle-free grid the heuristic is exact: a minimal food path runs
/// for exactly the Manhattan distance, so a path search that returns a
/// minimal path returns one of that length.
pub proof fn lemma_shortest_on_open_grid(
    b: Board,
    self_id: u64,
    p: Seq<Coord>,
    start: Coord,
    goal: Coord,
)
    requires
        in_bounds(b.width as int, b.height as int, start),
        in_bounds(b.width as int, b.height as int, goal),
        forall|c: Coord|
            in_bounds(b.width as int, b.height as int, c) ==> #[trigger] crate::path_cell_free(
                b,
                self_id,
                c,
            ),
        is_food_path(b, self_id, p, start, goal),
        forall|q: Seq<Coord>| is_food_path(b, self_id, q, start, goal) ==> q.len() >= p.len(),
    ensures
        p.len() == manhattan_spec(start, goal) + 1,
{
    lemma_path_at_least_manhattan(b, self_id, p, start, goal);
    lemma_manhattan_path_exists(b, self_id, start, goal);
    let q = choose|q: Seq<Coord>|
        is_food_path(b, self_id, q, start, goal) && q.len() == manhattan_spec(start, goal) + 1;
    assert(q.len() >= p.len());
}


/// Every present candidate weighs no more than the running maximum.
proof fn lemma_fold_max_ge(ps: Seq<(Movement, WeightedMovement)>)
    requires
        ps.len() >= 1,
        forall|i: int| 0 <= i < ps.len() ==> (#[trigger] ps[i]).1.probability.wf(),
    ensures
        forall|i: int| 0 <= i < ps.len() ==> w_le((#[trigger] ps[i]).1.probability, fold_max(ps)),
        fold_max(ps).wf(),
    decreases ps.len(),
{
    lemma_fold_max_mem(ps);
    let w = choose|i: int| 0 <= i < ps.len() && (#[trigger] ps[i]).1.probability == fold_max(ps);
    assert(fold_max(ps).wf());
    if ps.len() == 1 {
        crate::weight::lemma_w_le_total(ps[0].1.probability, ps[0].1.probability);
    } else {
        let q = ps.drop_last();
        lemma_fold_max_ge(q);
        let m = fold_max(q);
        let lw = ps.last().1.probability;
        assert(ps[ps.len() - 1].1.probability.wf());
        assert forall|i: int| 0 <= i < ps.len() implies w_le(
            (#[trigger] ps[i]).1.probability,
            fold_max(ps),
        ) by {
            if w_le(m, lw) {
                if i < ps.len() - 1 {
                    assert(w_le(q[i].1.probability, m));
                    crate::weight::lemma_w_le_trans(ps[i].1.probability, m, lw);
                } else {
                    crate::weight::lemma_w_le_total(lw, lw);
                }
            } else {
                crate::weight::lemma_w_le_total(m, lw);
                if i < ps.len() - 1 {
                    assert(w_le(q[i].1.probability, m));
                } else {
                    assert(w_le(lw, m));
                }
            }
        }
    }
}

/// A present candidate listed with its direction appears among the present
/// candidates.
proof fn lemma_present_complete(s: WeightedMovementSet, m: Movement)
    requires
        slot_of(s, m) is Some,
    ensures
        exists|i: int|
            0 <= i < present_seq(s).len() && (#[trigger] present_seq(s)[i]) == (
                m,
                slot_of(s, m).unwrap(),
            ),
{
    let ps = present_seq(s);
    let r: int = if s.right is Some {
        1
    } else {
        0
    };
    let l: int = if s.left is Some {
        1
    } else {
        0
    };
    let u: int = if s.up is Some {
        1
    } else {
        0
    };
    match m {
        Movement::Right => {
            assert(ps[0] == (m, slot_of(s, m).unwrap()));
        },
        Movement::Left => {
            assert(ps[r] == (m, slot_of(s, m).unwrap()));
        },
        Movement::Up => {
            assert(ps[r + l] == (m, slot_of(s, m).unwrap()));
        },
        Movement::Down => {
            assert(ps[r + l + u] == (m, slot_of(s, m).unwrap()));
        },
    }
}

/// The selector's pick carries a maximal weight: no present candidate weighs
/// more than the selected direction, whatever the tie-break index.
pub proof fn lemma_selector_picks_maximum(s: WeightedMovementSet, seed: nat, m: Movement)
    requires
        crate::movement::set_wf(s),
        sel_spec(s, seed) == Some(m),
    ensures
        forall|mm: Movement|
            (#[trigger] slot_of(s, mm)) is Some ==> w_le(
                slot_of(s, mm).unwrap().probability,
                crate::movement::get_prob_spec(s, m),
            ),
{
    let ps = present_seq(s);
    assert(ps.len() >= 1) by {
        assert(tied_spec(s).len() >= 1);
    }
    crate::movement::lemma_present_seq_wf(s);
    let mx = fold_max(ps);
    let pred = tie_with(mx);
    let t = tied_spec(s);
    let k = (seed % t.len() as nat) as int;
    assert(0 <= k < t.len());
    assert(t[k] == m);
    ps.lemma_filter_pred(pred, k);
    assert(w_eq(ps.filter(pred)[k].1.probability, mx));
    lemma_filter_subset(ps, pred);
    assert(ps.contains(ps.filter(pred)[k]));
    let j = choose|j: int| 0 <= j < ps.len() && ps[j] == ps.filter(pred)[k];
    lemma_present_elements(s);
    assert(slot_of(s, m) == Some(ps[j].1));
    let selw = crate::movement::get_prob_spec(s, m);
    assert(selw == ps[j].1.probability);
    assert(w_eq(selw, mx));
    lemma_fold_max_ge(ps);
    assert forall|mm: Movement| (#[trigger] slot_of(s, mm)) is Some implies w_le(
        slot_of(s, mm).unwrap().probability,
        selw,
    ) by {
        lemma_present_complete(s, mm);
        let i = choose|i: int|
            0 <= i < ps.len() && (#[trigger] ps[i]) == (mm, slot_of(s, mm).unwrap());
        assert(w_le(ps[i].1.probability, mx));
        assert(w_le(mx, selw));
        crate::weight::lemma_w_le_trans(ps[i].1.probability, mx, selw);
    }
}

} // verus!
