//! Ranking and cache-freshness engine for a results board.
//!
//! Raw score rows arrive sorted ascending by score (lower is better). The
//! engine keeps, for each player (solo) or team slot (cooperative), only the
//! best qualifying entry, assigns contiguous 1-based ranks with a points value
//! derived from the rank alone, assembles small top-N previews per map, and
//! tracks the freshness of board-wide cached aggregates so that a write never
//! lets a stale aggregate be served as fresh.

pub mod cache;
pub mod dedup;
pub mod entry;
pub mod points;
pub mod preview;
pub mod rank;
