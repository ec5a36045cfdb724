use fillapix::picgrid_controller::PictureGridController;
use fillapix::solver::solve;
use fillapix::{CellState, PictureGrid};

const E: u8 = PictureGrid::EMPTY;

fn grid_from(width: u16, height: u16, hints: &[u8]) -> PictureGrid {
    let mut grid = PictureGrid::new(width, height);
    let values: Vec<CellState> = hints.iter().map(|h| CellState::Unsolved(*h)).collect();
    grid.with_values(values);
    grid
}

fn cells(grid: &PictureGrid) -> Vec<CellState> {
    let mut out = Vec::new();
    for y in 0..grid.height() as isize {
        for x in 0..grid.width() as isize {
            out.push(grid.get(x, y).unwrap());
        }
    }
    out
}

const PUZZLE: [u8; 25] = [0, E, 4, 4, E, E, E, 4, E, 6, E, 3, E, 7, 6, E, E, 6, E, 6, 5, E, E, E, 3];

fn run_session(width: u16, height: u16, hints: &[u8], budget: u16) -> (Vec<CellState>, usize) {
    let mut controller = PictureGridController::new(grid_from(width, height, hints));
    while controller.steps_per_update() > budget {
        controller.decrease_steps();
    }
    while controller.steps_per_update() < budget {
        controller.increase_steps();
    }
    controller.toggle_solving();
    let mut updates = 0;
    while controller.is_solving() {
        controller.update();
        updates += 1;
        assert!(updates < 100_000);
    }
    (cells(controller.picgrid()), updates)
}

fn engine(width: u16, height: u16, hints: &[u8]) -> Vec<CellState> {
    let mut grid = grid_from(width, height, hints);
    solve(&mut grid);
    cells(&grid)
}

#[test]
fn new_controller_steps_twice_width() {
    let controller = PictureGridController::new(PictureGrid::new(5, 3));
    assert_eq!(controller.steps_per_update(), 10);
    assert!(!controller.is_solving());
    assert_eq!(controller.cell_pos(), None);
    let controller = PictureGridController::new(PictureGrid::new(0, 0));
    assert_eq!(controller.steps_per_update(), 1);
    let controller = PictureGridController::new(PictureGrid::new(40000, 0));
    assert_eq!(controller.steps_per_update(), u16::MAX);
}

#[test]
fn step_budget_has_floor_one() {
    let mut controller = PictureGridController::new(PictureGrid::new(1, 1));
    assert_eq!(controller.steps_per_update(), 2);
    controller.decrease_steps();
    assert_eq!(controller.steps_per_update(), 1);
    controller.decrease_steps();
    assert_eq!(controller.steps_per_update(), 1);
    controller.increase_steps();
    assert_eq!(controller.steps_per_update(), 2);
}

#[test]
fn toggle_starts_at_origin_and_stops() {
    let mut controller = PictureGridController::new(grid_from(2, 2, &[4, 4, 4, 4]));
    controller.toggle_solving();
    assert!(controller.is_solving());
    assert_eq!(controller.cell_pos(), Some([0, 0]));
    controller.toggle_solving();
    assert!(!controller.is_solving());
    assert_eq!(controller.cell_pos(), None);
    assert_eq!(cells(controller.picgrid()), vec![CellState::Unsolved(4); 4]);
}

#[test]
fn click_cycles_hovered_cell() {
    let mut controller = PictureGridController::new(grid_from(2, 1, &[3, E]));
    controller.hover(Some([0, 0]));
    controller.click();
    assert_eq!(controller.picgrid().get(0, 0), Some(CellState::Shaded(3)));
    controller.click();
    assert_eq!(controller.picgrid().get(0, 0), Some(CellState::Unshaded(3)));
    controller.click();
    assert_eq!(controller.picgrid().get(0, 0), Some(CellState::Unsolved(3)));
    controller.hover(Some([5, 5]));
    controller.click();
    controller.hover(None);
    controller.click();
    assert_eq!(cells(controller.picgrid()), vec![CellState::Unsolved(3), CellState::Unsolved(E)]);
}

#[test]
fn edits_ignored_while_solving() {
    let mut controller = PictureGridController::new(grid_from(2, 1, &[E, E]));
    controller.toggle_solving();
    controller.hover(Some([1, 0]));
    assert_eq!(controller.cell_pos(), Some([0, 0]));
    controller.click();
    assert_eq!(cells(controller.picgrid()), vec![CellState::Unsolved(E); 2]);
}

#[test]
fn update_while_idle_forgets_pointer() {
    let mut controller = PictureGridController::new(grid_from(2, 1, &[E, E]));
    controller.hover(Some([1, 0]));
    controller.update();
    assert_eq!(controller.cell_pos(), None);
}

#[test]
fn messages_report_budget_and_cell() {
    let mut controller = PictureGridController::new(PictureGrid::new(6, 1));
    assert_eq!(
        controller.get_messages(),
        vec!["Press 'x' to toggle algorithm".to_string(), "Steps per Update: 12 ('+'/'-')".to_string()]
    );
    controller.hover(Some([-3, 40]));
    let messages = controller.get_messages();
    assert_eq!(messages.len(), 3);
    assert_eq!(messages[2], "Processing (-3,40)");
}

#[test]
fn session_stops_after_last_pass() {
    let mut controller = PictureGridController::new(grid_from(1, 1, &[0]));
    controller.toggle_solving();
    controller.decrease_steps();
    controller.update();
    assert_eq!(controller.picgrid().get(0, 0), Some(CellState::Unshaded(0)));
    assert!(controller.is_solving());
    assert_eq!(controller.cell_pos(), Some([0, 0]));
    controller.update();
    assert!(!controller.is_solving());
    assert_eq!(controller.cell_pos(), None);
}

#[test]
fn session_on_empty_grid_stops_at_once() {
    let mut controller = PictureGridController::new(PictureGrid::new(0, 4));
    controller.toggle_solving();
    controller.update();
    assert!(!controller.is_solving());
}

#[test]
fn budget_one_session_matches_engine() {
    let (session, _) = run_session(5, 5, &PUZZLE, 1);
    assert_eq!(session, engine(5, 5, &PUZZLE));
    let (session, _) = run_session(2, 2, &[4, 4, 4, 4], 1);
    assert_eq!(session, engine(2, 2, &[4, 4, 4, 4]));
    let hints = [1, E, E, 2, E, E, 3, E, E, E, 2, E];
    let (session, _) = run_session(4, 3, &hints, 1);
    assert_eq!(session, engine(4, 3, &hints));
}

#[test]
fn budget_changes_pace_not_result() {
    let (one, slow) = run_session(5, 5, &PUZZLE, 1);
    let (seven, fast) = run_session(5, 5, &PUZZLE, 7);
    assert_eq!(one, seven);
    assert!(fast < slow);
}
