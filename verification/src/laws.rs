//! What the operations are for, stated on plain bytes and characters.
//!
//! Each law takes the arguments of an operation and a result that it can give for them, and says
//! how the two are related: what is read is what is stored, what is found is the leftmost
//! occurrence, what is parsed is what is spelled.
pub mod bytes;
pub mod integers;
pub mod modules;
pub mod occurrences;
pub mod text;
