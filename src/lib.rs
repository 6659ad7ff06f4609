//! A single-user todo list: tasks with a priority and a creation time, kept in
//! named groups, and the commands that change them.

pub mod clock;
pub mod display;
pub mod integrity;
pub mod laws;
pub mod model;
pub mod order;
pub mod parse;
pub mod processing;
pub mod store;
pub mod text;
