//! Announcing torrents to their trackers.
pub mod scheduler;
pub mod tracker;
pub mod udp;
