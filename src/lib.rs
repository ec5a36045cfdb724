//! Fill-a-Pix: a grid of hinted cells and a deductive solver for it.
//!
//! A hint counts how many cells of the 3x3 block centred on its cell are
//! shaded. The grid and its neighbourhood queries are in [`picgrid`], the
//! single-cell deduction rule, full passes and the run to a fixpoint in
//! [`solver`], and the step-budgeted, resumable solving session in
//! [`picgrid_controller`].

pub mod picgrid;
pub mod picgrid_controller;
pub mod solver;

pub use picgrid::CellState;
pub use picgrid::PictureGrid;
pub use picgrid_controller::PictureGridController;
