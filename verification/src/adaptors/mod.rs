//! Wrappers that add behaviour to a link.

pub mod peekable;
