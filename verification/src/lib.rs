//! Puyo Puyo rules, the Modern queue, placements and routes, and the
//! public-information state of the chance search.

pub mod api;
pub mod board;
pub mod falling;
pub mod game;
pub mod grid;
pub mod mcts;
pub mod selfplay;
pub mod text;

pub use board::{
    Board, Cell, ChainLabels, ParseBoardError, SimulationResult, SimulationSummary, StepResult,
};
pub use grid::{CELL_COUNT, HEIGHT, VISIBLE_HEIGHT, WIDTH};
