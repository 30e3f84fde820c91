//! RatioUp's library: torrents, bencode, the tracker protocols and the
//! scheduling of announces, each function with its contract.
use vstd::prelude::*;

pub mod algorithm;
pub mod announcer;
pub mod bencode;
pub mod config;
pub mod directory;
pub mod json_output;
pub mod messages;
pub mod random;
pub mod text;
pub mod strings;
pub mod torrent;
pub mod utils;
pub mod watcher;
