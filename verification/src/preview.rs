//! Per-map preview slices and the board-wide aggregate.
//!
//! A preview is the small top-N slice of one map's deduplicated rows, shown
//! on aggregate overview pages. The aggregator takes the raw rows fetched
//! for every known map of a game and assembles one preview record per map;
//! a map with no qualifying rows yields an empty slice, not an error.

use crate::dedup::blank_id;
use crate::dedup::dedup_paired;
use crate::dedup::dedup_paired_spec;
use crate::dedup::dedup_solo;
use crate::dedup::dedup_solo_spec;
use crate::dedup::lemma_dedup_solo_no_duplicates;
use crate::entry::PairedScoreEntry;
use crate::entry::ScoreEntry;
use vstd::prelude::*;

verus! {

/// How many rows an aggregate preview shows per map.
pub const PREVIEW_SIZE: usize = 7;

/// The top-N slice of one map's solo board: deduplicated rows, first `n`.
pub open spec fn preview_solo_spec(raw: Seq<ScoreEntry>, n: nat) -> Seq<ScoreEntry> {
    let kept = dedup_solo_spec(raw);
    if kept.len() <= n {
        kept
    } else {
        kept.take(n as int)
    }
}

/// The top-N slice of one map's cooperative board.
pub open spec fn preview_paired_spec(raw: Seq<PairedScoreEntry>, n: nat) -> Seq<PairedScoreEntry> {
    let kept = dedup_paired_spec(raw);
    if kept.len() <= n {
        kept
    } else {
        kept.take(n as int)
    }
}

/// One map's preview: at most N deduplicated solo rows, best first.
pub struct PreviewRecord {
    /// The map the slice belongs to.
    pub map_id: String,
    /// The deduplicated top rows, in input (hence score) order.
    pub entries: Vec<ScoreEntry>,
}

/// One map's cooperative preview: at most N deduplicated paired rows.
pub struct PairedPreviewRecord {
    /// The map the slice belongs to.
    pub map_id: String,
    /// The deduplicated top rows, in input (hence score) order.
    pub entries: Vec<PairedScoreEntry>,
}

/// Builds the preview for one map from its raw solo rows, sorted ascending
/// by score: deduplicates, then keeps the first `n` rows.
pub fn build_solo_preview(map_id: String, raw: Vec<ScoreEntry>, n: usize) -> (p: PreviewRecord)
    ensures
        p.map_id == map_id,
        p.entries@ == preview_solo_spec(raw@, n as nat),
        p.entries@.len() <= n,
{
    let mut kept = dedup_solo(raw);
    kept.truncate(n);
    PreviewRecord { map_id, entries: kept }
}

/// Builds the cooperative preview for one map from its raw paired rows.
pub fn build_paired_preview(map_id: String, raw: Vec<PairedScoreEntry>, n: usize) -> (p:
    PairedPreviewRecord)
    ensures
        p.map_id == map_id,
        p.entries@ == preview_paired_spec(raw@, n as nat),
        p.entries@.len() <= n,
{
    let mut kept = dedup_paired(raw);
    kept.truncate(n);
    PairedPreviewRecord { map_id, entries: kept }
}

/// Assembles the board-wide solo aggregate: one preview per map, in the
/// order the maps were given, each over that map's own raw rows.
pub fn build_solo_previews(boards: Vec<(String, Vec<ScoreEntry>)>, n: usize) -> (out: Vec<
    PreviewRecord,
>)
    ensures
        out@.len() == boards@.len(),
        forall|i: int|
            0 <= i < out@.len() ==> (#[trigger] out@[i]).map_id == boards@[i].0 && out@[i].entries@
                == preview_solo_spec(boards@[i].1@, n as nat),
{
    let ghost orig = boards@;
    let mut boards = boards;
    let mut out: Vec<PreviewRecord> = Vec::new();
    while boards.len() > 0
        invariant
            out@.len() + boards@.len() == orig.len(),
            boards@ == orig.subrange(out@.len() as int, orig.len() as int),
            forall|i: int|
                0 <= i < out@.len() ==> (#[trigger] out@[i]).map_id == orig[i].0
                    && out@[i].entries@ == preview_solo_spec(orig[i].1@, n as nat),
        decreases boards@.len(),
    {
        let ghost k = out@.len() as int;
        let row = boards.remove(0);
        proof {
            assert(row == orig[k]);
            assert(boards@ =~= orig.subrange(k + 1, orig.len() as int));
        }
        let p = build_solo_preview(row.0, row.1, n);
        out.push(p);
    }
    out
}

/// Assembles the board-wide cooperative aggregate: one preview per map.
pub fn build_paired_previews(boards: Vec<(String, Vec<PairedScoreEntry>)>, n: usize) -> (out: Vec<
    PairedPreviewRecord,
>)
    ensures
        out@.len() == boards@.len(),
        forall|i: int|
            0 <= i < out@.len() ==> (#[trigger] out@[i]).map_id == boards@[i].0 && out@[i].entries@
                == preview_paired_spec(boards@[i].1@, n as nat),
{
    let ghost orig = boards@;
    let mut boards = boards;
    let mut out: Vec<PairedPreviewRecord> = Vec::new();
    while boards.len() > 0
        invariant
            out@.len() + boards@.len() == orig.len(),
            boards@ == orig.subrange(out@.len() as int, orig.len() as int),
            forall|i: int|
                0 <= i < out@.len() ==> (#[trigger] out@[i]).map_id == orig[i].0
                    && out@[i].entries@ == preview_paired_spec(orig[i].1@, n as nat),
        decreases boards@.len(),
    {
        let ghost k = out@.len() as int;
        let row = boards.remove(0);
        proof {
            assert(row == orig[k]);
            assert(boards@ =~= orig.subrange(k + 1, orig.len() as int));
        }
        let p = build_paired_preview(row.0, row.1, n);
        out.push(p);
    }
    out
}

/// A solo preview is well formed: no more rows than the configured size, no
/// blank player id, and no player id twice.
pub proof fn lemma_preview_solo_wf(raw: Seq<ScoreEntry>, n: nat)
    ensures
        ({
            let p = preview_solo_spec(raw, n);
            &&& p.len() <= n
            &&& forall|k: int| 0 <= k < p.len() ==> (#[trigger] p[k]).player_id@ != blank_id()
            &&& forall|k1: int, k2: int|
                0 <= k1 < k2 < p.len() ==> (#[trigger] p[k1]).player_id@ != (
                #[trigger] p[k2]).player_id@
        }),
{
    let kept = dedup_solo_spec(raw);
    let p = preview_solo_spec(raw, n);
    lemma_dedup_solo_no_duplicates(raw);
    assert forall|k: int| 0 <= k < p.len() implies (#[trigger] p[k]).player_id@ != blank_id() by {
        assert(p[k] == kept[k]);
    };
    assert forall|k1: int, k2: int| 0 <= k1 < k2 < p.len() implies (#[trigger] p[k1]).player_id@
        != (#[trigger] p[k2]).player_id@ by {
        assert(p[k1] == kept[k1] && p[k2] == kept[k2]);
    };
}

} // verus!
