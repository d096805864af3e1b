use game_of_life::lexicon::Cell;
use game_of_life::life::{cell_is_alive, make_cell_alive, make_cell_dead, tick, CellSet};

fn set_of(coords: &[(i32, i32)]) -> CellSet {
    let mut s = CellSet::new();
    for &(x, y) in coords {
        s = make_cell_alive(&s, Cell { x, y });
    }
    s
}

#[test]
fn tick_of_empty_set_is_empty() {
    let empty = CellSet::new();
    let next = tick(&empty);
    assert_eq!(next.len(), 0);
    assert!(next.equals(&CellSet::new()));
}

#[test]
fn isolated_cell_dies() {
    let lone = set_of(&[(5, -3)]);
    let next = tick(&lone);
    assert_eq!(next.len(), 0);
    assert!(!cell_is_alive(&next, Cell { x: 5, y: -3 }));
}

#[test]
fn make_cell_alive_is_idempotent() {
    let base = set_of(&[(0, 0), (7, 7)]);
    let c = Cell { x: -2, y: 3 };
    let once = make_cell_alive(&base, c);
    let twice = make_cell_alive(&once, c);
    assert!(twice.equals(&once));
    assert_eq!(once.len(), 3);
    assert_eq!(twice.len(), 3);
}

#[test]
fn make_cell_dead_is_idempotent() {
    let base = set_of(&[(0, 0), (-2, 3), (7, 7)]);
    let c = Cell { x: -2, y: 3 };
    let once = make_cell_dead(&base, c);
    let twice = make_cell_dead(&once, c);
    assert!(twice.equals(&once));
    assert_eq!(once.len(), 2);
    assert_eq!(twice.len(), 2);
}

#[test]
fn membership_follows_alive_and_dead() {
    let s = CellSet::new();
    let c = Cell { x: -1, y: 2 };
    assert!(!cell_is_alive(&s, c));
    let s = make_cell_alive(&s, c);
    assert!(cell_is_alive(&s, c));
    assert!(!cell_is_alive(&s, Cell { x: 2, y: -1 }));
    let s = make_cell_dead(&s, c);
    assert!(!cell_is_alive(&s, c));
}

#[test]
fn block_is_a_still_life() {
    let block = set_of(&[(0, 0), (1, 0), (0, 1), (1, 1)]);
    let next = tick(&block);
    assert!(next.equals(&block));
}

#[test]
fn blinker_oscillates_with_period_two() {
    let horizontal = set_of(&[(0, 1), (1, 1), (2, 1)]);
    let vertical = set_of(&[(1, 0), (1, 1), (1, 2)]);
    let after_one = tick(&horizontal);
    assert!(after_one.equals(&vertical));
    let after_two = tick(&after_one);
    assert!(after_two.equals(&horizontal));
}

#[test]
fn glider_translates_by_one_one_after_four_ticks() {
    let glider = &[(1, 0), (2, 1), (0, 2), (1, 2), (2, 2)];
    let mut state = set_of(glider);
    for _ in 0..4 {
        state = tick(&state);
        assert_eq!(state.len(), 5);
    }
    let translated: Vec<(i32, i32)> = glider.iter().map(|&(x, y)| (x + 1, y + 1)).collect();
    assert!(state.equals(&set_of(&translated)));
}

#[test]
fn negative_coordinates_behave_like_positive_ones() {
    let horizontal = set_of(&[(-10, -7), (-9, -7), (-8, -7)]);
    let vertical = set_of(&[(-9, -8), (-9, -7), (-9, -6)]);
    let after_one = tick(&horizontal);
    assert!(after_one.equals(&vertical));
    let after_two = tick(&after_one);
    assert!(after_two.equals(&horizontal));
}

#[test]
fn cells_are_listed_without_duplicates() {
    let s = set_of(&[(1, 1), (0, 0), (1, 1), (0, 1)]);
    assert_eq!(s.len(), 3);
    let listed = s.cells();
    assert_eq!(listed.len(), 3);
    assert!(listed.contains(&Cell { x: 0, y: 0 }));
    assert!(listed.contains(&Cell { x: 1, y: 1 }));
    assert!(listed.contains(&Cell { x: 0, y: 1 }));
}
