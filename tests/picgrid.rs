use fillapix::{CellState, PictureGrid};

const E: u8 = PictureGrid::EMPTY;

fn grid_from(width: u16, height: u16, hints: &[u8]) -> PictureGrid {
    let mut grid = PictureGrid::new(width, height);
    let values: Vec<CellState> = hints.iter().map(|h| CellState::Unsolved(*h)).collect();
    grid.with_values(values);
    grid
}

#[test]
fn hint_of_each_variant() {
    assert_eq!(CellState::Unsolved(3).hint(), 3);
    assert_eq!(CellState::Shaded(7).hint(), 7);
    assert_eq!(CellState::Unshaded(E).hint(), E);
}

#[test]
fn new_grid_cells_unsolved_without_hint() {
    let grid = PictureGrid::new(3, 2);
    assert_eq!(grid.width(), 3);
    assert_eq!(grid.height(), 2);
    for y in 0..2 {
        for x in 0..3 {
            assert_eq!(grid.get(x, y), Some(CellState::Unsolved(E)));
        }
    }
}

#[test]
fn get_outside_is_unshaded_border() {
    let grid = grid_from(2, 2, &[1, 2, 3, 4]);
    assert_eq!(grid.get(-1, 0), Some(CellState::Unshaded(E)));
    assert_eq!(grid.get(0, -1), Some(CellState::Unshaded(E)));
    assert_eq!(grid.get(2, 1), Some(CellState::Unshaded(E)));
    assert_eq!(grid.get(1, 2), Some(CellState::Unshaded(E)));
    assert_eq!(grid.get(isize::MIN, isize::MAX), Some(CellState::Unshaded(E)));
}

#[test]
fn with_values_is_row_major() {
    let grid = grid_from(3, 2, &[0, 1, 2, 3, 4, 5]);
    assert_eq!(grid.get(0, 0), Some(CellState::Unsolved(0)));
    assert_eq!(grid.get(2, 0), Some(CellState::Unsolved(2)));
    assert_eq!(grid.get(0, 1), Some(CellState::Unsolved(3)));
    assert_eq!(grid.get(2, 1), Some(CellState::Unsolved(5)));
}

#[test]
fn set_in_and_out_of_bounds() {
    let mut grid = grid_from(2, 2, &[1, 2, 3, 4]);
    grid.set(1, 0, CellState::Shaded(9));
    assert_eq!(grid.get(1, 0), Some(CellState::Shaded(9)));
    grid.set(2, 0, CellState::Shaded(9));
    grid.set(-1, -1, CellState::Shaded(9));
    assert_eq!(grid.get(0, 0), Some(CellState::Unsolved(1)));
    assert_eq!(grid.get(0, 1), Some(CellState::Unsolved(3)));
    assert_eq!(grid.get(1, 1), Some(CellState::Unsolved(4)));
}

#[test]
fn set_state_keeps_hint() {
    let mut grid = grid_from(2, 1, &[5, E]);
    grid.set_state(0, 0, CellState::Shaded(0));
    assert_eq!(grid.get(0, 0), Some(CellState::Shaded(5)));
    grid.set_state(0, 0, CellState::Unsolved(1));
    assert_eq!(grid.get(0, 0), Some(CellState::Unsolved(5)));
    grid.set_state(1, 0, CellState::Unshaded(3));
    assert_eq!(grid.get(1, 0), Some(CellState::Unshaded(E)));
}

#[test]
fn set_unsolved_state_changes_unsolved_only() {
    let mut grid = grid_from(2, 1, &[5, 6]);
    grid.set(1, 0, CellState::Shaded(6));
    grid.set_unsolved_state(0, 0, CellState::Unshaded(0));
    grid.set_unsolved_state(1, 0, CellState::Unshaded(0));
    assert_eq!(grid.get(0, 0), Some(CellState::Unshaded(5)));
    assert_eq!(grid.get(1, 0), Some(CellState::Shaded(6)));
}

#[test]
fn fill_shaded_touches_unsolved_block_cells_only() {
    let mut grid = grid_from(4, 4, &[1; 16]);
    grid.set(0, 0, CellState::Unshaded(1));
    grid.fill_shaded(1, 1);
    assert_eq!(grid.get(0, 0), Some(CellState::Unshaded(1)));
    for (x, y) in [(1, 0), (2, 0), (0, 1), (1, 1), (2, 1), (0, 2), (1, 2), (2, 2)] {
        assert_eq!(grid.get(x, y), Some(CellState::Shaded(1)));
    }
    for (x, y) in [(3, 0), (3, 1), (3, 2), (0, 3), (3, 3)] {
        assert_eq!(grid.get(x, y), Some(CellState::Unsolved(1)));
    }
}

#[test]
fn fill_unshaded_at_corner_and_far_away() {
    let mut grid = grid_from(3, 3, &[2; 9]);
    grid.fill_unshaded(0, 0);
    for (x, y) in [(0, 0), (1, 0), (0, 1), (1, 1)] {
        assert_eq!(grid.get(x, y), Some(CellState::Unshaded(2)));
    }
    assert_eq!(grid.get(2, 2), Some(CellState::Unsolved(2)));
    grid.fill_shaded(isize::MIN, isize::MAX);
    grid.fill_shaded(10, 10);
    assert_eq!(grid.get(2, 2), Some(CellState::Unsolved(2)));
    assert_eq!(grid.get(2, 0), Some(CellState::Unsolved(2)));
}

#[test]
fn neighborhood_counts_interior() {
    let mut grid = grid_from(3, 3, &[E; 9]);
    grid.set(0, 0, CellState::Shaded(E));
    grid.set(1, 0, CellState::Shaded(E));
    grid.set(2, 2, CellState::Unshaded(E));
    assert_eq!(grid.num_shaded(1, 1), 2);
    assert_eq!(grid.num_unshaded(1, 1), 1);
    assert_eq!(grid.num_unsolved(1, 1), 6);
    assert!(!grid.is_complete(1, 1));
}

#[test]
fn corner_counts_use_border() {
    let mut grid = grid_from(3, 3, &[E; 9]);
    grid.set(0, 0, CellState::Shaded(E));
    grid.set(1, 1, CellState::Unshaded(E));
    assert_eq!(grid.num_shaded(0, 0), 1);
    assert_eq!(grid.num_unshaded(0, 0), 6);
    assert_eq!(grid.num_unsolved(0, 0), 2);
    assert!(!grid.is_complete(0, 0));
    grid.set(1, 0, CellState::Unshaded(E));
    grid.set(0, 1, CellState::Shaded(E));
    assert_eq!(grid.num_shaded(0, 0), 2);
    assert_eq!(grid.num_unshaded(0, 0), 7);
    assert_eq!(grid.num_unsolved(0, 0), 0);
    assert!(grid.is_complete(0, 0));
}

#[test]
fn one_by_one_corner_has_eight_border_cells() {
    let grid = grid_from(1, 1, &[0]);
    assert_eq!(grid.num_shaded(0, 0), 0);
    assert_eq!(grid.num_unshaded(0, 0), 8);
    assert_eq!(grid.num_unsolved(0, 0), 1);
}

#[test]
fn far_outside_block_is_all_border() {
    let grid = grid_from(2, 2, &[1, 2, 3, 4]);
    assert_eq!(grid.num_unshaded(isize::MAX, isize::MIN), 9);
    assert_eq!(grid.num_unsolved(isize::MAX, isize::MIN), 0);
    assert!(grid.is_complete(-5, 1));
    assert_eq!(grid.num_unsolved(-1, -1), 1);
}

#[test]
fn next_incomplete_finds_first_in_row_major_order() {
    let grid = grid_from(3, 2, &[E, E, E, E, 2, E]);
    assert_eq!(grid.next_incomplete(0, 0), (1, 1, Some(CellState::Unsolved(2))));
    assert_eq!(grid.next_incomplete(1, 1), (1, 1, Some(CellState::Unsolved(2))));
    assert_eq!(grid.next_incomplete(2, 1), (2, 1, None));
    assert_eq!(grid.next_incomplete(-4, 1), (1, 1, Some(CellState::Unsolved(2))));
    assert_eq!(grid.next_incomplete(2, -7), (1, 1, Some(CellState::Unsolved(2))));
    assert_eq!(grid.next_incomplete(3, 0), (3, 0, None));
    assert_eq!(grid.next_incomplete(0, 2), (0, 2, None));
}

#[test]
fn next_incomplete_skips_complete_cells() {
    let mut grid = grid_from(2, 1, &[1, 1]);
    grid.set(0, 0, CellState::Shaded(1));
    grid.set(1, 0, CellState::Unshaded(1));
    assert_eq!(grid.next_incomplete(0, 0), (0, 0, None));
    let empty = PictureGrid::new(0, 3);
    assert_eq!(empty.next_incomplete(-1, 0), (-1, 0, None));
}
