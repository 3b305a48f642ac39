//! Manages a set of links between two endpoints, delivering the messages
//! sent across them in order and resending what was not received.

pub mod adaptors;
pub mod connector_manager;
pub mod debug;
pub mod epoch;
pub mod error;
pub mod protocol;
pub mod slice_manager;
pub mod message_manager;
pub mod message_laws;
pub mod link_set;
pub mod links;
pub mod link_impls;
pub mod state;
