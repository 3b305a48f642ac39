//! Links over concrete transports.

pub mod tcp_link;
