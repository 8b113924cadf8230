//! A Battleship engine: board geometry, fleet placement, an exact and a
//! sampling probability engine, and the rules of a game played with them.

pub mod board;
pub mod config;
pub mod determined;
pub mod draws;
pub mod evidence;
pub mod fair;
pub mod fleet;
pub mod game;
pub mod geometry;
pub mod heatmaps;
pub mod laws;
pub mod layout;
pub mod moves;
pub mod order;
pub mod outside;
pub mod panel;
pub mod placed;
pub mod plain;
pub mod play;
pub mod sampling;
pub mod search;
pub mod setup;
pub mod solver;
pub mod status;
pub mod text;
pub mod typed;
