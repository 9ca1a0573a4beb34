//! A terminal mind-map editor's library: the tree of nodes and its
//! operations, the plain-text file format, the editor's state machine and
//! key bindings, and the content of its screen.
pub mod tree;
pub mod node;
pub mod text;
pub mod file;
pub mod app;
pub mod config;
pub mod input;
pub mod ui;
pub mod laws;
pub mod round_trip;
pub mod behaviour;
