//! Score rows and ranked rows.
//!
//! A `ScoreEntry` is one solo run; a `PairedScoreEntry` is one cooperative
//! run with two independently trackable player slots. Entries are immutable
//! once fetched within a ranking pass; identity is the player id (or the two
//! slot ids). Timestamps are plain epoch seconds so that the engine works on
//! plain values only.

use vstd::prelude::*;

verus! {

/// One solo score row, already filtered for ban/verification status by the
/// collaborator that fetched it.
pub struct ScoreEntry {
    /// Identity of the player; the empty string is the placeholder sentinel
    /// for system entries and can never occupy a ranked slot.
    pub player_id: String,
    /// Run time; lower is better.
    pub score: i32,
    /// Epoch seconds of the submission.
    pub timestamp: i64,
    /// Free-form comment for the run; empty when absent.
    pub note: String,
    /// Link to a recording of the run; empty when absent.
    pub media_link: String,
    /// Category the run was played under.
    pub category_id: i32,
    /// Map the run was played on.
    pub map_id: String,
}

impl Clone for ScoreEntry {
    fn clone(&self) -> (res: Self)
        ensures
            res == *self,
    {
        ScoreEntry {
            player_id: self.player_id.clone(),
            score: self.score,
            timestamp: self.timestamp,
            note: self.note.clone(),
            media_link: self.media_link.clone(),
            category_id: self.category_id,
            map_id: self.map_id.clone(),
        }
    }
}

/// One cooperative score row: a single team run with two player slots, each
/// of which is tracked on its own during deduplication.
pub struct PairedScoreEntry {
    /// Identity of the first slot; empty is the placeholder sentinel.
    pub player_id_a: String,
    /// Identity of the second slot; empty is the placeholder sentinel.
    pub player_id_b: String,
    /// Run time shared by the team; lower is better.
    pub score: i32,
    /// Whether the first slot hosted the run.
    pub a_is_host: bool,
    /// Comment left by the first slot; empty when absent.
    pub note_a: String,
    /// Comment left by the second slot; empty when absent.
    pub note_b: String,
    /// Epoch seconds of the submission.
    pub timestamp: i64,
    /// Category the run was played under.
    pub category_id: i32,
    /// Map the run was played on.
    pub map_id: String,
}

impl Clone for PairedScoreEntry {
    fn clone(&self) -> (res: Self)
        ensures
            res == *self,
    {
        PairedScoreEntry {
            player_id_a: self.player_id_a.clone(),
            player_id_b: self.player_id_b.clone(),
            score: self.score,
            a_is_host: self.a_is_host,
            note_a: self.note_a.clone(),
            note_b: self.note_b.clone(),
            timestamp: self.timestamp,
            category_id: self.category_id,
            map_id: self.map_id.clone(),
        }
    }
}

/// A solo entry together with its 1-based rank and the points the rank earns.
pub struct RankedEntry {
    /// The deduplicated solo row.
    pub entry: ScoreEntry,
    /// 1-based position in the ranked page; contiguous, best run first.
    pub rank: usize,
    /// Points for this rank, a function of the rank alone.
    pub points: u64,
}

impl Clone for RankedEntry {
    fn clone(&self) -> (res: Self)
        ensures
            res == *self,
    {
        RankedEntry { entry: self.entry.clone(), rank: self.rank, points: self.points }
    }
}

/// A cooperative entry together with its 1-based rank and points.
pub struct PairedRankedEntry {
    /// The deduplicated cooperative row.
    pub entry: PairedScoreEntry,
    /// 1-based position in the ranked page; contiguous, best run first.
    pub rank: usize,
    /// Points for this rank, a function of the rank alone.
    pub points: u64,
}

impl Clone for PairedRankedEntry {
    fn clone(&self) -> (res: Self)
        ensures
            res == *self,
    {
        PairedRankedEntry { entry: self.entry.clone(), rank: self.rank, points: self.points }
    }
}

} // verus!
