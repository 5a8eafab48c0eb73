//! A tile-grid puzzle engine: two board physics (a chase on a grid and a
//! gravity puzzle) and a search that finds a cheapest winning sequence of
//! moves.
//!
//! The boards and their rules live in `board`, `game`, `tensor`, `gravity`
//! and `parse`. A search sees a board through the trait `Puzzle`. It builds
//! a graph of states (`store`, over `graph` and `digest`), either by
//! visiting every state that can be reached (`explore`) or by branch and
//! bound (`bound`), and reads the answer off the graph (`solve`, `paths`);
//! or it tries every sequence of actions of one length (`route`).
//! `strategy` is the entry point for all three. What the searches have to do
//! with the game itself is stated in `reach`, `chart` and `laws`.

pub mod board;
pub mod bound;
pub mod chart;
pub mod digest;
pub mod explore;
pub mod game;
pub mod graph;
pub mod gravity;
pub mod laws;
pub mod parse;
pub mod paths;
pub mod pos;
pub mod puzzle;
pub mod reach;
pub mod route;
pub mod solve;
pub mod store;
pub mod strategy;
pub mod tensor;
