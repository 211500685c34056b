//! Judge and instance generator for a turn-based railway construction contest.
//!
//! A solver lays track segments and stations on a square grid. Commuters whose
//! origin and destination both lie near stations of one connected network pay
//! their fare once. The judge replays an action sequence and reports the money
//! left at the end.

mod dsu;
mod grid;
mod instance;
mod replay;
mod text;
mod scoring;
mod generate;

pub use dsu::UnionFind;
pub use grid::{BuildError, GridState, Shape, CELL_COUNT, GRID_SIDE, STATION_COST, TRACK_COST};
pub use instance::{Action, Commuter, Input, Output, MAX_BUDGET, MAX_COMMUTERS, MAX_TURNS, MIN_BUDGET};
pub use replay::{Failure, Phase, Replay, Violation};
pub use text::{ParseError, ParseErrorKind, format_bytes, format_input, parse_action, parse_input, parse_output, read};
pub use scoring::{JudgeError, Snapshot, compute_score, compute_score_details, score};
pub use replay::judge;
pub use generate::{Generation, Mixture, accept_pair, choose_component, draw_mixture, pick_component};
