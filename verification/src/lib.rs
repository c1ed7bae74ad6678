//! Wave-function collapse over a rectangular board of box-drawing tiles.
//!
//! Every cell of the board starts undetermined. One cell at a time is
//! collapsed to a tile of the catalog whose connector codes agree with the
//! neighbours that are already resolved; the cells next to a collapsed cell
//! become the active frontier from which the next cell is taken.
//!
//! - `tile`: tiles, connector codes, and the candidates of a single cell.
//! - `board`: the board, its recomputation and its frontier.
//! - `select`: which cell is collapsed next.
//! - `chance`: the random pick.
//! - `collapse`: one step.
//! - `run`: a whole run.
//! - `catalog`: what a catalog has to offer, and the box-drawing catalog.
//! - `laws`: what holds of every recomputation, step and run.
//! - `count`, `frontier`: what the laws rest on.

pub mod board;
pub mod catalog;
pub mod chance;
pub mod collapse;
pub mod count;
pub mod frontier;
pub mod laws;
pub mod run;
pub mod select;
pub mod tile;
