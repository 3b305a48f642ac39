//! The decisions of the link set: from its state and an event to its next
//! state and the outside work to perform.

pub mod types;
pub mod spec;
pub mod machine;
pub mod laws;
pub mod delivery;
pub mod user_laws;
