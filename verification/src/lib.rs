//! Decoding and rendering of recorded Minesweeper matches.
//!
//! A match is recorded as a compact text blob. This crate decodes the blob
//! into a board and two timed action logs, replays the logs against the
//! board, and renders the result as a still or an animated image.

pub mod base36;
pub mod commands;
pub mod encoder;
pub mod error;
pub mod game_data;
pub mod minesweeper_logic;
pub mod parser;
pub mod provider;
pub mod renderer;
pub mod text;
pub mod timeline;
