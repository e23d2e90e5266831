//! The logic of a tool that shows a directory as a tree and searches it for file names: which
//! entries are shown and in what order, the lines of the tree, glob matching, the marking of
//! matches, and the state of the two views.
pub mod channel;
pub mod filters;
pub mod glob;
pub mod highlight;
pub mod line;
pub mod listing;
pub mod number;
pub mod outline;
pub mod search;
pub mod session;
pub mod size;
pub mod text;
pub mod time;
pub mod tree;
pub mod walk;
