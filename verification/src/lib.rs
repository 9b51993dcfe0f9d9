//! A manifest generator for a tree of script files: each file is classified
//! by its path, the classified files are folded into one manifest tree, and
//! the tree is rendered as a project document. A walker and a watch loop,
//! both state machines, say which directories to read and when to build
//! anew.

pub mod builder;
pub mod classify;
pub mod generate;
pub mod manifest;
pub mod placement;
pub mod render;
pub mod text;
pub mod walker;
pub mod watch;
