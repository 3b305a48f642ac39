//! Links and what the link set keeps about them.

pub mod address;
pub mod latency;
pub mod link;
pub mod link_entry;
pub mod wrapped_link;
pub mod link_manager;
pub mod pipe_link;
