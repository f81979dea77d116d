//! Verified extraction of structured records from a listing page's
//! document tree: locating fragments by class- and tag-based queries,
//! classifying promotion and tag markers, and parsing sizes and counts.

pub mod dom;
pub mod error;
pub mod selector;
pub mod torrent;
pub mod user;
pub mod utils;
pub mod config;
pub mod strnum;
