use battlesnake::logic::{
    apply_food_bias, avoid_baddies, avoid_myself, avoid_out_of_bounds, decide_move, handle_end,
    handle_move, handle_start,
};
use battlesnake::movement::{Movement, WeightedMovementSet};
use battlesnake::weight::Weight;
use battlesnake::{Battlesnake, Board, Coord, Game};

fn coords(pts: &[(i32, i32)]) -> Vec<Coord> {
    pts.iter().map(|&(x, y)| Coord { x, y }).collect()
}

fn snake(id: u64, health: u32, length: u32, pts: &[(i32, i32)]) -> Battlesnake {
    Battlesnake { id, health, length, body: coords(pts) }
}

fn board(width: i32, height: i32, food: &[(i32, i32)], snakes: Vec<Battlesnake>) -> Board {
    Board { width, height, food: coords(food), snakes }
}

#[test]
fn scenario_open_board_avoids_own_neck() {
    // 11x11 board, body (5,5),(5,4),(5,3), no rivals, no food, health 100.
    // Down enters the neck segment (5,4), which is not the tail, so the self
    // filter eliminates it; the other three stay and tie.
    let you = snake(1, 100, 3, &[(5, 5), (5, 4), (5, 3)]);
    let b = board(11, 11, &[], vec![snake(1, 100, 3, &[(5, 5), (5, 4), (5, 3)])]);
    let mut set = WeightedMovementSet::new(&you.body[0]);
    avoid_out_of_bounds(&b.width, &b.height, &mut set);
    avoid_myself(&you, &mut set);
    avoid_baddies(&b.snakes, &you, &mut set);
    assert!(set.down.is_none());
    assert!(set.right.is_some());
    assert!(set.left.is_some());
    assert!(set.up.is_some());
    // Selection is uniform over the tied survivors, in order Right, Left, Up.
    assert_eq!(decide_move(&b, &you, 0), Movement::Right);
    assert_eq!(decide_move(&b, &you, 1), Movement::Left);
    assert_eq!(decide_move(&b, &you, 2), Movement::Up);
    assert_eq!(decide_move(&b, &you, 3), Movement::Right);
    for seed in 0..8 {
        assert_ne!(decide_move(&b, &you, seed), Movement::Down);
    }
}

#[test]
fn scenario_boundary_eliminates_left_at_west_wall() {
    // Head at (0,5) on an 11-wide board: Left's position x = -1 is out.
    let you = snake(1, 100, 3, &[(0, 5), (0, 4), (0, 3)]);
    let b = board(11, 11, &[], vec![snake(1, 100, 3, &[(0, 5), (0, 4), (0, 3)])]);
    let mut set = WeightedMovementSet::new(&you.body[0]);
    avoid_out_of_bounds(&b.width, &b.height, &mut set);
    assert!(set.left.is_none());
    assert!(set.right.is_some());
    for seed in 0..8 {
        assert_ne!(decide_move(&b, &you, seed), Movement::Left);
    }
}

#[test]
fn scenario_low_health_boosts_step_toward_food() {
    // Health 30, food at (8,5), head at (5,5), otherwise empty board.
    let you = snake(1, 30, 1, &[(5, 5)]);
    let b = board(11, 11, &[(8, 5)], vec![snake(1, 30, 1, &[(5, 5)])]);
    // The food stage alone: the matched direction (Right) is boosted to 1.5x
    // its prior weight, the others are overwritten with half the boosted
    // weight.
    let mut set = WeightedMovementSet::new(&you.body[0]);
    apply_food_bias(&b, &you, &mut set);
    assert_eq!(
        set.get_probability(&Movement::Right),
        Weight { num: 3, den: 2, halves: 0 }
    );
    for m in [Movement::Left, Movement::Up, Movement::Down] {
        assert_eq!(set.get_probability(&m), Weight { num: 3, den: 4, halves: 0 });
    }
    // The full pipeline then picks Right whatever the tie-break index.
    for seed in 0..8 {
        assert_eq!(decide_move(&b, &you, seed), Movement::Right);
    }
}

#[test]
fn scenario_fully_enclosed_falls_back_to_up() {
    // The agent's body rings its head on all four sides; the duplicated tail
    // keeps the agent stacked, so no tail exception applies.
    let pts = [
        (5, 5),
        (4, 5),
        (4, 6),
        (5, 6),
        (6, 6),
        (6, 5),
        (6, 4),
        (5, 4),
        (4, 4),
        (4, 4),
    ];
    let you = snake(1, 100, 10, &pts);
    let b = board(11, 11, &[], vec![snake(1, 100, 10, &pts)]);
    let mut set = WeightedMovementSet::new(&you.body[0]);
    avoid_out_of_bounds(&b.width, &b.height, &mut set);
    avoid_myself(&you, &mut set);
    assert!(set.right.is_none());
    assert!(set.left.is_none());
    assert!(set.up.is_none());
    assert!(set.down.is_none());
    for seed in 0..4 {
        assert_eq!(decide_move(&b, &you, seed), Movement::Up);
    }
}

#[test]
fn identical_snapshot_and_seed_decide_identically() {
    let mk = || {
        (
            board(
                11,
                11,
                &[(2, 2)],
                vec![
                    snake(1, 40, 3, &[(5, 5), (5, 4), (5, 3)]),
                    snake(2, 90, 3, &[(8, 8), (8, 7), (8, 6)]),
                ],
            ),
            snake(1, 40, 3, &[(5, 5), (5, 4), (5, 3)]),
        )
    };
    for seed in 0..6 {
        let (b1, y1) = mk();
        let (b2, y2) = mk();
        assert_eq!(decide_move(&b1, &y1, seed), decide_move(&b2, &y2, seed));
    }
}

#[test]
fn random_pick_stays_among_survivors() {
    // With a single survivor the random tie-break has no freedom at all.
    let you = snake(1, 100, 2, &[(0, 0), (1, 0)]);
    let b = board(2, 2, &[], vec![snake(1, 100, 2, &[(0, 0), (1, 0)])]);
    // Candidates: Right (1,0) on body (not tail? tail is (1,0): body len 2,
    // not stacked, so Right survives via the tail exception), Up (0,1) free,
    // Left and Down out of bounds.
    let g = Game { id: 7 };
    for _ in 0..16 {
        let m = handle_move(&g, &0, &b, &you);
        assert!(m == Movement::Right || m == Movement::Up);
    }
    handle_start(&g, &0, &b, &you);
    handle_end(&g, &0, &b, &you);
}

#[test]
fn rival_proximity_derates_and_bodies_eliminate() {
    // You at (2,2); rival head at (4,2) with a body stretching east.
    let you = snake(1, 100, 1, &[(2, 2)]);
    let b = board(
        11,
        11,
        &[],
        vec![snake(1, 100, 1, &[(2, 2)]), snake(2, 100, 3, &[(4, 2), (5, 2), (6, 2)])],
    );
    let mut set = WeightedMovementSet::new(&you.body[0]);
    avoid_out_of_bounds(&b.width, &b.height, &mut set);
    avoid_myself(&you, &mut set);
    avoid_baddies(&b.snakes, &you, &mut set);
    // Right lands on (3,2): distance 1 from the rival head: halved.
    assert_eq!(
        set.get_probability(&Movement::Right),
        Weight { num: 1, den: 1, halves: 1 }
    );
    // Up lands on (2,3): distance |4-2| + |2-3| = 3: untouched.
    assert_eq!(set.get_probability(&Movement::Up), Weight { num: 1, den: 1, halves: 0 });
}

#[test]
fn rival_head_on_candidate_zeroes_weight() {
    let you = snake(1, 100, 1, &[(2, 2)]);
    let b = board(
        11,
        11,
        &[],
        vec![snake(1, 100, 1, &[(2, 2)]), snake(2, 100, 1, &[(3, 2)])],
    );
    let mut set = WeightedMovementSet::new(&you.body[0]);
    avoid_baddies(&b.snakes, &you, &mut set);
    let w = set.get_probability(&Movement::Right);
    assert_eq!(w.num, 0);
    // Distance 0 derates but does not eliminate.
    assert!(set.right.is_some());
}

#[test]
fn self_filter_spares_vacating_tail_only() {
    // Not stacked: Down enters the tail cell, which vacates: kept.
    let you = snake(1, 100, 2, &[(5, 5), (5, 4)]);
    let mut set = WeightedMovementSet::new(&you.body[0]);
    avoid_myself(&you, &mut set);
    assert!(set.down.is_some());
    // Stacked: the duplicated tail stays put: eliminated.
    let you2 = snake(1, 100, 3, &[(5, 5), (5, 4), (5, 4)]);
    let mut set2 = WeightedMovementSet::new(&you2.body[0]);
    avoid_myself(&you2, &mut set2);
    assert!(set2.down.is_none());
}
