//! Rank assignment over deduplicated score rows.
//!
//! Ranks are the 1-based positions in the deduplicated sequence, so they are
//! contiguous and the best run holds rank 1; the points value is derived
//! from the rank alone, and the page is truncated to a configured limit.
//! Rows with numerically equal scores receive different ranks by arrival
//! order rather than being tied: that is the specified behaviour of the
//! board, kept deliberately.

use crate::dedup::dedup_paired;
use crate::dedup::dedup_paired_spec;
use crate::dedup::dedup_solo;
use crate::dedup::dedup_solo_spec;
use crate::dedup::lemma_dedup_solo_no_duplicates;
use crate::dedup::lemma_dedup_solo_pass_through;
use crate::dedup::blank_id;
use crate::entry::PairedRankedEntry;
use crate::entry::PairedScoreEntry;
use crate::entry::RankedEntry;
use crate::entry::ScoreEntry;
use crate::points::points_for_rank;
use crate::points::points_spec;
use crate::points::lemma_points_non_increasing;
use vstd::prelude::*;

verus! {

/// The ranked page over an already-deduplicated solo sequence: entry `i`
/// gets rank `i + 1` and the points of that rank; at most `limit` rows.
pub open spec fn ranked_solo_spec(s: Seq<ScoreEntry>, limit: nat) -> Seq<RankedEntry> {
    Seq::new(
        if s.len() <= limit {
            s.len()
        } else {
            limit
        },
        |i: int|
            RankedEntry {
                entry: s[i],
                rank: (i + 1) as usize,
                points: points_spec((i + 1) as nat) as u64,
            },
    )
}

/// The ranked page over an already-deduplicated cooperative sequence.
pub open spec fn ranked_paired_spec(s: Seq<PairedScoreEntry>, limit: nat) -> Seq<
    PairedRankedEntry,
> {
    Seq::new(
        if s.len() <= limit {
            s.len()
        } else {
            limit
        },
        |i: int|
            PairedRankedEntry {
                entry: s[i],
                rank: (i + 1) as usize,
                points: points_spec((i + 1) as nat) as u64,
            },
    )
}

/// Assigns 1-based ranks by position to an already-deduplicated solo
/// sequence, computes each rank's points, and truncates to `limit` rows.
pub fn assign_ranks(entries: Vec<ScoreEntry>, limit: usize) -> (out: Vec<RankedEntry>)
    ensures
        out@ == ranked_solo_spec(entries@, limit as nat),
{
    let m = if entries.len() <= limit {
        entries.len()
    } else {
        limit
    };
    let mut out: Vec<RankedEntry> = Vec::new();
    let mut i: usize = 0;
    while i < m
        invariant
            i <= m,
            m == if entries@.len() <= limit as nat {
                entries@.len()
            } else {
                limit as nat
            },
            out@.len() == i,
            forall|k: int|
                0 <= k < i ==> #[trigger] out@[k] == ranked_solo_spec(entries@, limit as nat)[k],
        decreases m - i,
    {
        let rank = i + 1;
        let points = points_for_rank(rank);
        out.push(RankedEntry { entry: entries[i].clone(), rank, points });
        i += 1;
    }
    proof {
        assert(out@ =~= ranked_solo_spec(entries@, limit as nat));
    }
    out
}

/// Assigns 1-based ranks by position to an already-deduplicated cooperative
/// sequence, computes each rank's points, and truncates to `limit` rows.
pub fn assign_paired_ranks(entries: Vec<PairedScoreEntry>, limit: usize) -> (out: Vec<
    PairedRankedEntry,
>)
    ensures
        out@ == ranked_paired_spec(entries@, limit as nat),
{
    let m = if entries.len() <= limit {
        entries.len()
    } else {
        limit
    };
    let mut out: Vec<PairedRankedEntry> = Vec::new();
    let mut i: usize = 0;
    while i < m
        invariant
            i <= m,
            m == if entries@.len() <= limit as nat {
                entries@.len()
            } else {
                limit as nat
            },
            out@.len() == i,
            forall|k: int|
                0 <= k < i ==> #[trigger] out@[k] == ranked_paired_spec(entries@, limit as nat)[k],
        decreases m - i,
    {
        let rank = i + 1;
        let points = points_for_rank(rank);
        out.push(PairedRankedEntry { entry: entries[i].clone(), rank, points });
        i += 1;
    }
    proof {
        assert(out@ =~= ranked_paired_spec(entries@, limit as nat));
    }
    out
}

/// The full solo map page: deduplicate the raw rows, then rank and truncate.
pub fn ranked_page_solo(entries: Vec<ScoreEntry>, limit: usize) -> (out: Vec<RankedEntry>)
    ensures
        out@ == ranked_solo_spec(dedup_solo_spec(entries@), limit as nat),
{
    let kept = dedup_solo(entries);
    assign_ranks(kept, limit)
}

/// The full cooperative map page: filters out all obsolete times from the
/// raw rows under the two-slot rule, assigns ranks and points, then
/// truncates to `limit` rows.
pub fn filter_coop_entries(entries: Vec<PairedScoreEntry>, limit: usize) -> (out: Vec<
    PairedRankedEntry,
>)
    ensures
        out@ == ranked_paired_spec(dedup_paired_spec(entries@), limit as nat),
{
    let kept = dedup_paired(entries);
    assign_paired_ranks(kept, limit)
}

/// Ranks in a page are exactly `1..=len` in order, each row keeps its
/// position from the deduplicated sequence, and points never increase as
/// the rank grows.
pub proof fn lemma_ranked_page_shape(s: Seq<ScoreEntry>, limit: nat)
    requires
        s.len() <= usize::MAX,
    ensures
        ({
            let out = ranked_solo_spec(s, limit);
            &&& out.len() == if s.len() <= limit {
                s.len()
            } else {
                limit
            }
            &&& forall|i: int| 0 <= i < out.len() ==> (#[trigger] out[i]).rank == i + 1
            &&& forall|i: int| 0 <= i < out.len() ==> (#[trigger] out[i]).entry == s[i]
            &&& forall|i: int, j: int|
                0 <= i <= j < out.len() ==> (#[trigger] out[i]).points >= (#[trigger] out[j]).points
        }),
{
    let out = ranked_solo_spec(s, limit);
    assert forall|i: int, j: int| 0 <= i <= j < out.len() implies (#[trigger] out[i]).points >= (
    #[trigger] out[j]).points by {
        lemma_points_non_increasing((i + 1) as nat, (j + 1) as nat);
    };
}

/// The cooperative reading of the page shape law.
pub proof fn lemma_ranked_paired_page_shape(s: Seq<PairedScoreEntry>, limit: nat)
    requires
        s.len() <= usize::MAX,
    ensures
        ({
            let out = ranked_paired_spec(s, limit);
            &&& out.len() == if s.len() <= limit {
                s.len()
            } else {
                limit
            }
            &&& forall|i: int| 0 <= i < out.len() ==> (#[trigger] out[i]).rank == i + 1
            &&& forall|i: int| 0 <= i < out.len() ==> (#[trigger] out[i]).entry == s[i]
            &&& forall|i: int, j: int|
                0 <= i <= j < out.len() ==> (#[trigger] out[i]).points >= (#[trigger] out[j]).points
        }),
{
    let out = ranked_paired_spec(s, limit);
    assert forall|i: int, j: int| 0 <= i <= j < out.len() implies (#[trigger] out[i]).points >= (
    #[trigger] out[j]).points by {
        lemma_points_non_increasing((i + 1) as nat, (j + 1) as nat);
    };
}

/// Re-ranking the rows of a ranked page reproduces the page unchanged.
pub proof fn lemma_rank_idempotent(s: Seq<ScoreEntry>, limit: nat)
    ensures
        ranked_solo_spec(
            ranked_solo_spec(s, limit).map_values(|r: RankedEntry| r.entry),
            limit,
        ) == ranked_solo_spec(s, limit),
{
    let out = ranked_solo_spec(s, limit);
    let es = out.map_values(|r: RankedEntry| r.entry);
    assert(ranked_solo_spec(es, limit) =~= out);
}

/// Running the whole solo pipeline — deduplicate, rank, truncate — on the
/// rows of its own output is a no-op: membership and ranks are unchanged.
pub proof fn lemma_pipeline_idempotent_solo(s: Seq<ScoreEntry>, limit: nat)
    ensures
        ({
            let page = ranked_solo_spec(dedup_solo_spec(s), limit);
            let again = page.map_values(|r: RankedEntry| r.entry);
            ranked_solo_spec(dedup_solo_spec(again), limit) == page
        }),
{
    let kept = dedup_solo_spec(s);
    let page = ranked_solo_spec(kept, limit);
    let again = page.map_values(|r: RankedEntry| r.entry);
    lemma_dedup_solo_no_duplicates(s);
    assert forall|i: int| 0 <= i < again.len() implies (#[trigger] again[i]).player_id@
        != blank_id() by {
        assert(again[i] == kept[i]);
    };
    assert forall|i: int, j: int| 0 <= i < j < again.len() implies (#[trigger] again[i]).player_id@
        != (#[trigger] again[j]).player_id@ by {
        assert(again[i] == kept[i] && again[j] == kept[j]);
    };
    lemma_dedup_solo_pass_through(again);
    assert(ranked_solo_spec(again, limit) =~= page);
}

} // verus!
