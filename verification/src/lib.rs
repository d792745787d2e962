//! A task list kept as a forest of tasks: its views, its import and export
//! formats, the bulk operations on subtrees and the state machine of the
//! terminal interface.

pub mod text;
pub mod model;
pub mod tree;
pub mod render;
pub mod csv_io;
pub mod markdown;
pub mod ops;
pub mod search;
pub mod edit;
pub mod tui;
pub mod screen;
pub mod cli;
pub mod deadline;
