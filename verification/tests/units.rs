use battlesnake::logic::{
    convert_coord_to_movement, find_closest_food, find_path_to_food, flood_fill_bfs,
    flood_fill_multiplier, get_neighbors, get_tail, is_stacked, manhattan_distance,
    pathfinding_is_valid,
};
use battlesnake::movement::{Movement, WeightedMovementSet};
use battlesnake::weight::{weight_eq, weight_le, Weight};
use battlesnake::{Battlesnake, Board, Coord};

fn coords(pts: &[(i32, i32)]) -> Vec<Coord> {
    pts.iter().map(|&(x, y)| Coord { x, y }).collect()
}

fn snake(id: u64, health: u32, length: u32, pts: &[(i32, i32)]) -> Battlesnake {
    Battlesnake { id, health, length, body: coords(pts) }
}

fn board(width: i32, height: i32, food: &[(i32, i32)], snakes: Vec<Battlesnake>) -> Board {
    Board { width, height, food: coords(food), snakes }
}

#[test]
fn manhattan_distance_is_exact() {
    assert_eq!(manhattan_distance(&Coord { x: 0, y: 0 }, &Coord { x: 3, y: 4 }), 7);
    assert_eq!(manhattan_distance(&Coord { x: 3, y: 4 }, &Coord { x: 0, y: 0 }), 7);
    assert_eq!(manhattan_distance(&Coord { x: -1, y: 2 }, &Coord { x: 1, y: 2 }), 2);
    assert_eq!(manhattan_distance(&Coord { x: 5, y: 5 }, &Coord { x: 5, y: 5 }), 0);
}

#[test]
fn convert_maps_each_axis() {
    let head = Coord { x: 5, y: 5 };
    assert_eq!(convert_coord_to_movement(&head, &Coord { x: 6, y: 5 }), Movement::Right);
    assert_eq!(convert_coord_to_movement(&head, &Coord { x: 4, y: 5 }), Movement::Left);
    assert_eq!(convert_coord_to_movement(&head, &Coord { x: 5, y: 6 }), Movement::Up);
    assert_eq!(convert_coord_to_movement(&head, &Coord { x: 5, y: 4 }), Movement::Down);
    assert_eq!(convert_coord_to_movement(&head, &head), Movement::Up);
}

#[test]
fn stacked_and_tail() {
    let plain = snake(1, 100, 3, &[(5, 5), (5, 4), (5, 3)]);
    assert!(!is_stacked(&plain));
    assert_eq!(*get_tail(&plain), Coord { x: 5, y: 3 });
    let grown = snake(1, 100, 4, &[(5, 5), (5, 4), (5, 3), (5, 3)]);
    assert!(is_stacked(&grown));
    assert_eq!(*get_tail(&grown), Coord { x: 5, y: 3 });
}

#[test]
fn free_cells_respect_all_bodies() {
    let b = board(3, 3, &[], vec![snake(1, 100, 2, &[(1, 1), (1, 0)])]);
    assert!(pathfinding_is_valid(&b, &Coord { x: 0, y: 0 }));
    assert!(!pathfinding_is_valid(&b, &Coord { x: 1, y: 1 }));
    assert!(!pathfinding_is_valid(&b, &Coord { x: 1, y: 0 }));
    assert!(!pathfinding_is_valid(&b, &Coord { x: 3, y: 0 }));
    assert!(!pathfinding_is_valid(&b, &Coord { x: 0, y: -1 }));
}

#[test]
fn flood_fill_counts_exact_area() {
    // A 3x1 corridor with the agent's own body blocking (0,0): from (1,0)
    // only (1,0) and (2,0) are countable.
    let b = board(3, 1, &[], vec![snake(1, 100, 5, &[(0, 0)])]);
    let you = snake(1, 100, 5, &[(0, 0)]);
    assert_eq!(flood_fill_bfs(&Coord { x: 1, y: 0 }, &b, &you), 2);
}

#[test]
fn flood_fill_stops_one_past_cutoff() {
    // Length 1 gives a cutoff of 1: an open 11x11 board stops at 2.
    let b = board(11, 11, &[], vec![snake(1, 100, 1, &[(5, 5)])]);
    let you = snake(1, 100, 1, &[(5, 5)]);
    assert_eq!(flood_fill_bfs(&Coord { x: 5, y: 6 }, &b, &you), 2);
}

#[test]
fn space_multiplier_matches_formula() {
    // accessibleArea == length: factor 0, multiplier exactly 1.
    assert_eq!(flood_fill_multiplier(5, 5), (1, 1));
    // Confinement: area/length below 1.
    assert_eq!(flood_fill_multiplier(4, 5), (4, 5));
    assert_eq!(flood_fill_multiplier(1, 10), (1, 10));
    // Modest excess keeps the exact ratio.
    assert_eq!(flood_fill_multiplier(6, 5), (6, 5));
    assert_eq!(flood_fill_multiplier(11, 10), (11, 10));
    // The bonus caps at 6/5 (factor 0.2).
    assert_eq!(flood_fill_multiplier(10, 5), (6, 5));
    assert_eq!(flood_fill_multiplier(100, 5), (6, 5));
}

#[test]
fn closest_food_prefers_first_listed_on_ties() {
    let head = Coord { x: 5, y: 5 };
    let b = board(11, 11, &[(7, 5), (3, 5)], vec![snake(1, 100, 1, &[(5, 5)])]);
    assert_eq!(find_closest_food(&head, &b), Some(Coord { x: 7, y: 5 }));
    let b2 = board(11, 11, &[(9, 5), (3, 5)], vec![snake(1, 100, 1, &[(5, 5)])]);
    assert_eq!(find_closest_food(&head, &b2), Some(Coord { x: 3, y: 5 }));
    let empty = board(11, 11, &[], vec![snake(1, 100, 1, &[(5, 5)])]);
    assert_eq!(find_closest_food(&head, &empty), None);
}

#[test]
fn path_search_finds_shortest_on_open_grid() {
    // On an obstacle-free grid the shortest path length equals the Manhattan
    // distance.
    let you = snake(1, 30, 1, &[(5, 5)]);
    let b = board(11, 11, &[], vec![snake(1, 30, 1, &[(5, 5)])]);
    for goal in [
        Coord { x: 8, y: 5 },
        Coord { x: 5, y: 9 },
        Coord { x: 0, y: 0 },
        Coord { x: 10, y: 10 },
    ] {
        let (path, cost) = find_path_to_food(&b, &you, &goal).expect("path exists");
        assert_eq!(cost, manhattan_distance(&you.body[0], &goal));
        assert_eq!(path.len() as i32, cost + 1);
        assert_eq!(path[0], you.body[0]);
        assert_eq!(*path.last().unwrap(), goal);
    }
}

#[test]
fn path_search_routes_around_rivals_and_reports_dead_ends() {
    // A rival wall across x = 7 leaves no way to (8,5).
    let wall: Vec<(i32, i32)> = (0..11).map(|y| (7, y)).collect();
    let you = snake(1, 30, 1, &[(5, 5)]);
    let b = board(
        11,
        11,
        &[],
        vec![snake(1, 30, 1, &[(5, 5)]), snake(2, 100, 11, &wall)],
    );
    assert_eq!(find_path_to_food(&b, &you, &Coord { x: 8, y: 5 }), None);
    // A gap at (7,0) forces a detour strictly longer than the bee line.
    let gap: Vec<(i32, i32)> = (1..11).map(|y| (7, y)).collect();
    let b2 = board(
        11,
        11,
        &[],
        vec![snake(1, 30, 1, &[(5, 5)]), snake(2, 100, 10, &gap)],
    );
    let (_, cost) = find_path_to_food(&b2, &you, &Coord { x: 8, y: 5 }).expect("path exists");
    assert_eq!(cost, 3 + 2 * 5);
    // The agent's own body never blocks its food path.
    let you3 = snake(1, 30, 3, &[(5, 5), (6, 5), (7, 5)]);
    let b3 = board(11, 11, &[], vec![snake(1, 30, 3, &[(5, 5), (6, 5), (7, 5)])]);
    let (_, cost3) = find_path_to_food(&b3, &you3, &Coord { x: 8, y: 5 }).expect("path exists");
    assert_eq!(cost3, 3);
}

#[test]
fn neighbors_list_free_cells_in_order() {
    let b = board(3, 3, &[], vec![snake(2, 100, 1, &[(1, 0)])]);
    // From the center, (1,0) is a rival's body; the rest are free.
    let n = get_neighbors(&b, 1, &Coord { x: 1, y: 1 });
    let cells: Vec<Coord> = n.iter().map(|p| p.0).collect();
    assert_eq!(
        cells,
        coords(&[(1, 2), (0, 1), (2, 1)])
    );
    assert!(n.iter().all(|p| p.1 == 1));
    // From a corner only the in-bounds sides appear.
    let n2 = get_neighbors(&b, 1, &Coord { x: 0, y: 0 });
    let cells2: Vec<Coord> = n2.iter().map(|p| p.0).collect();
    assert_eq!(cells2, coords(&[(0, 1)]));
}

#[test]
fn candidate_set_basic_semantics() {
    let head = Coord { x: 5, y: 5 };
    let mut set = WeightedMovementSet::new(&head);
    assert_eq!(set.right.unwrap().position, Coord { x: 6, y: 5 });
    assert_eq!(set.left.unwrap().position, Coord { x: 4, y: 5 });
    assert_eq!(set.up.unwrap().position, Coord { x: 5, y: 6 });
    assert_eq!(set.down.unwrap().position, Coord { x: 5, y: 4 });
    assert_eq!(set.get_probability(&Movement::Up), Weight { num: 1, den: 1, halves: 0 });
    set.remove(&Movement::Up);
    assert!(set.up.is_none());
    // Elimination is idempotent and absent slots read as weight zero.
    set.remove(&Movement::Up);
    assert!(set.up.is_none());
    assert_eq!(set.get_probability(&Movement::Up), Weight { num: 0, den: 1, halves: 0 });
    // Updating an absent slot is a no-op.
    set.update_probability(&Movement::Up, Weight { num: 9, den: 1, halves: 0 });
    assert!(set.up.is_none());
    // Updating a present slot overwrites its weight.
    set.update_probability(&Movement::Down, Weight { num: 7, den: 2, halves: 1 });
    assert_eq!(set.get_probability(&Movement::Down), Weight { num: 7, den: 2, halves: 1 });
}

#[test]
fn selection_compares_weights_as_rationals() {
    let head = Coord { x: 5, y: 5 };
    let mut set = WeightedMovementSet::new(&head);
    set.remove(&Movement::Up);
    set.remove(&Movement::Down);
    // 1/2 written two ways still ties.
    set.update_probability(&Movement::Right, Weight { num: 1, den: 2, halves: 0 });
    set.update_probability(&Movement::Left, Weight { num: 1, den: 1, halves: 1 });
    assert_eq!(set.pick_movement_seeded(0), Some(Movement::Right));
    assert_eq!(set.pick_movement_seeded(1), Some(Movement::Left));
    assert_eq!(set.pick_movement_seeded(2), Some(Movement::Right));
    // A strictly heavier weight wins alone.
    set.update_probability(&Movement::Left, Weight { num: 3, den: 4, halves: 0 });
    assert_eq!(set.pick_movement_seeded(0), Some(Movement::Left));
    assert_eq!(set.pick_movement_seeded(1), Some(Movement::Left));
    // With everything eliminated there is nothing to pick.
    set.remove(&Movement::Right);
    set.remove(&Movement::Left);
    assert_eq!(set.pick_movement_seeded(0), None);
    assert_eq!(set.pick_movement(), None);
    // A single survivor is picked regardless of randomness.
    let mut lone = WeightedMovementSet::new(&head);
    lone.remove(&Movement::Right);
    lone.remove(&Movement::Left);
    lone.remove(&Movement::Up);
    assert_eq!(lone.pick_movement(), Some(Movement::Down));
}

#[test]
fn weight_comparison_handles_extreme_halvings() {
    let tiny = Weight { num: 1, den: 1, halves: 200 };
    let one = Weight { num: 1, den: 1, halves: 0 };
    let zero = Weight { num: 0, den: 1, halves: 0 };
    assert!(weight_le(&tiny, &one));
    assert!(!weight_le(&one, &tiny));
    assert!(weight_le(&zero, &tiny));
    assert!(!weight_le(&tiny, &zero));
    assert!(weight_eq(&tiny, &Weight { num: 2, den: 1, halves: 201 }));
    assert!(weight_eq(&Weight { num: 2, den: 4, halves: 1 }, &Weight { num: 1, den: 1, halves: 2 }));
}

#[test]
fn movement_names_are_wire_strings() {
    assert_eq!(Movement::Up.name(), "up");
    assert_eq!(Movement::Down.name(), "down");
    assert_eq!(Movement::Left.name(), "left");
    assert_eq!(Movement::Right.name(), "right");
}
