use fillapix::solver::{apply_rule, run_pass, solve};
use fillapix::{CellState, PictureGrid};

const E: u8 = PictureGrid::EMPTY;

fn grid_from(width: u16, height: u16, hints: &[u8]) -> PictureGrid {
    let mut grid = PictureGrid::new(width, height);
    let values: Vec<CellState> = hints.iter().map(|h| CellState::Unsolved(*h)).collect();
    grid.with_values(values);
    grid
}

fn cells(grid: &PictureGrid) -> Vec<CellState> {
    let mut out = Vec::new();
    for y in 0..grid.height() as isize {
        for x in 0..grid.width() as isize {
            out.push(grid.get(x, y).unwrap());
        }
    }
    out
}

fn puzzle() -> PictureGrid {
    grid_from(
        5,
        5,
        &[0, E, 4, 4, E, E, E, 4, E, 6, E, 3, E, 7, 6, E, E, 6, E, 6, 5, E, E, E, 3],
    )
}

#[test]
fn rule_unshades_when_hint_is_met() {
    let mut grid = grid_from(3, 3, &[E, E, E, E, 1, E, E, E, E]);
    grid.set(0, 0, CellState::Shaded(E));
    assert!(apply_rule(&mut grid, 1, 1));
    assert_eq!(grid.get(0, 0), Some(CellState::Shaded(E)));
    assert_eq!(grid.get(1, 1), Some(CellState::Unshaded(1)));
    assert_eq!(grid.get(2, 2), Some(CellState::Unshaded(E)));
}

#[test]
fn rule_shades_when_every_unsolved_cell_is_needed() {
    let mut grid = grid_from(3, 3, &[E, E, E, E, 8, E, E, E, E]);
    grid.set(0, 0, CellState::Unshaded(E));
    assert!(apply_rule(&mut grid, 1, 1));
    assert_eq!(grid.get(0, 0), Some(CellState::Unshaded(E)));
    assert_eq!(grid.get(1, 1), Some(CellState::Shaded(8)));
    assert_eq!(grid.get(2, 0), Some(CellState::Shaded(E)));
}

#[test]
fn rule_leaves_grid_when_undetermined() {
    let mut grid = grid_from(3, 3, &[E, E, E, E, 4, E, E, E, E]);
    assert!(!apply_rule(&mut grid, 1, 1));
    assert!(cells(&grid).iter().all(|c| matches!(c, CellState::Unsolved(_))));
}

#[test]
fn rule_ignores_cells_without_hint_or_outside() {
    let mut grid = grid_from(2, 2, &[E, E, E, E]);
    assert!(!apply_rule(&mut grid, 0, 0));
    assert!(!apply_rule(&mut grid, -1, -1));
    assert!(!apply_rule(&mut grid, 7, 0));
    assert!(cells(&grid).iter().all(|c| *c == CellState::Unsolved(E)));
}

#[test]
fn rule_ignores_complete_cell() {
    let mut grid = grid_from(1, 1, &[0]);
    grid.set(0, 0, CellState::Shaded(0));
    assert!(!apply_rule(&mut grid, 0, 0));
    assert_eq!(grid.get(0, 0), Some(CellState::Shaded(0)));
}

#[test]
fn single_cell_hint_zero_one_pass() {
    let mut grid = grid_from(1, 1, &[0]);
    assert!(run_pass(&mut grid));
    assert_eq!(grid.get(0, 0), Some(CellState::Unshaded(0)));
}

#[test]
fn two_by_two_all_fours_one_pass() {
    let mut grid = grid_from(2, 2, &[4, 4, 4, 4]);
    assert!(run_pass(&mut grid));
    assert_eq!(cells(&grid), vec![CellState::Shaded(4); 4]);
}

#[test]
fn five_by_five_puzzle_reaches_fixpoint() {
    let mut grid = puzzle();
    let passes = solve(&mut grid);
    assert_eq!(passes, 2);
    let n = |h: u8| CellState::Unshaded(h);
    let s = |h: u8| CellState::Shaded(h);
    let u = |h: u8| CellState::Unsolved(h);
    let expected = vec![
        n(0), n(E), s(4), s(4), n(E),
        n(E), n(E), s(4), s(E), n(6),
        n(E), n(3), n(E), n(7), u(6),
        n(E), s(E), s(6), s(E), u(6),
        u(5), s(E), s(E), s(E), u(3),
    ];
    assert_eq!(cells(&grid), expected);
}

#[test]
fn pass_at_fixpoint_changes_nothing() {
    let mut grid = puzzle();
    solve(&mut grid);
    let before = cells(&grid);
    assert!(!run_pass(&mut grid));
    assert_eq!(cells(&grid), before);
    assert_eq!(solve(&mut grid), 0);
    assert_eq!(cells(&grid), before);
}

#[test]
fn productive_passes_at_most_cells() {
    let mut grid = grid_from(1, 1, &[0]);
    assert_eq!(solve(&mut grid), 1);
    let mut grid = grid_from(2, 2, &[4, 4, 4, 4]);
    assert_eq!(solve(&mut grid), 1);
    let mut grid = grid_from(4, 1, &[E, E, E, 0]);
    assert!(solve(&mut grid) <= 4);
    let mut empty = PictureGrid::new(0, 0);
    assert_eq!(solve(&mut empty), 0);
}

#[test]
fn solving_keeps_hints() {
    let hints = [0, E, 4, 4, E, E, E, 4, E, 6, E, 3, E, 7, 6, E, E, 6, E, 6, 5, E, E, E, 3];
    let mut grid = puzzle();
    solve(&mut grid);
    let after: Vec<u8> = cells(&grid).iter().map(|c| c.hint()).collect();
    assert_eq!(after, hints.to_vec());
}

#[test]
fn solved_cells_stay_solved() {
    let mut grid = grid_from(2, 2, &[4, 4, 4, 4]);
    grid.set(1, 1, CellState::Unshaded(4));
    solve(&mut grid);
    assert_eq!(grid.get(1, 1), Some(CellState::Unshaded(4)));
    assert_eq!(grid.get(0, 0), Some(CellState::Unsolved(4)));
}
