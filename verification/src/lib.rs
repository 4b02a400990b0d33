//! Compact directory listings (`ls`), directory trees (`tree`) and line,
//! word, byte and character counts (`wc`), each with the exact text it
//! produces stated as a specification and proved.
pub mod cli;
pub mod ls;
pub mod sort;
pub mod text;
pub mod tree;
pub mod wc;
