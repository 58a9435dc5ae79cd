use results_board::dedup::dedup_paired;
use results_board::dedup::dedup_solo;
use results_board::entry::PairedScoreEntry;
use results_board::entry::ScoreEntry;
use results_board::points::points_for_rank;
use results_board::points::MAX_POINTS;
use results_board::rank::assign_ranks;
use results_board::rank::filter_coop_entries;
use results_board::rank::ranked_page_solo;

fn entry(pid: &str, score: i32) -> ScoreEntry {
    ScoreEntry {
        player_id: pid.to_string(),
        score,
        timestamp: 0,
        note: String::new(),
        media_link: String::new(),
        category_id: 1,
        map_id: "47458".to_string(),
    }
}

fn pair(a: &str, b: &str, score: i32) -> PairedScoreEntry {
    PairedScoreEntry {
        player_id_a: a.to_string(),
        player_id_b: b.to_string(),
        score,
        a_is_host: true,
        note_a: String::new(),
        note_b: String::new(),
        timestamp: 0,
        category_id: 1,
        map_id: "47825".to_string(),
    }
}

#[test]
fn solo_dedup_keeps_first_occurrence() {
    // raw solo input [(P1,100),(P2,150),(P1,200)] keeps [(P1,100),(P2,150)]
    let raw = vec![entry("P1", 100), entry("P2", 150), entry("P1", 200)];
    let out = dedup_solo(raw);
    assert_eq!(out.len(), 2);
    assert_eq!(out[0].player_id, "P1");
    assert_eq!(out[0].score, 100);
    assert_eq!(out[1].player_id, "P2");
    assert_eq!(out[1].score, 150);
}

#[test]
fn solo_dedup_empty_input() {
    let out = dedup_solo(Vec::new());
    assert!(out.is_empty());
}

#[test]
fn solo_dedup_blank_id_never_kept() {
    let raw = vec![entry("", 50), entry("P1", 100), entry("", 150)];
    let out = dedup_solo(raw);
    assert_eq!(out.len(), 1);
    assert_eq!(out[0].player_id, "P1");
}

#[test]
fn solo_dedup_is_idempotent() {
    let raw = vec![entry("P1", 100), entry("P2", 150), entry("P1", 200), entry("P3", 300)];
    let once = dedup_solo(raw);
    let twice = dedup_solo(once.clone());
    assert_eq!(once.len(), twice.len());
    for (a, b) in once.iter().zip(twice.iter()) {
        assert_eq!(a.player_id, b.player_id);
        assert_eq!(a.score, b.score);
    }
}

#[test]
fn pair_dedup_keeps_row_with_any_fresh_slot() {
    // [(A,B,100),(A,C,150),(D,B,200)]: every row introduces a new player,
    // so all three are kept, in order.
    let raw = vec![pair("A", "B", 100), pair("A", "C", 150), pair("D", "B", 200)];
    let out = dedup_paired(raw);
    assert_eq!(out.len(), 3);
    assert_eq!(out[0].score, 100);
    assert_eq!(out[1].score, 150);
    assert_eq!(out[2].score, 200);
}

#[test]
fn pair_dedup_discards_only_when_both_slots_seen() {
    let raw = vec![pair("A", "B", 100), pair("B", "A", 150), pair("A", "C", 200)];
    let out = dedup_paired(raw);
    // second row: both A and B already used -> discarded;
    // third row: C is fresh -> kept.
    assert_eq!(out.len(), 2);
    assert_eq!(out[0].score, 100);
    assert_eq!(out[1].score, 200);
}

#[test]
fn pair_dedup_blank_slots_count_as_used() {
    let raw = vec![pair("", "", 100), pair("", "X", 150)];
    let out = dedup_paired(raw);
    // first row: both slots blank -> discarded; second: X fresh -> kept.
    assert_eq!(out.len(), 1);
    assert_eq!(out[0].player_id_b, "X");
}

#[test]
fn pair_dedup_is_idempotent() {
    let raw = vec![pair("A", "B", 100), pair("A", "C", 150), pair("B", "C", 200)];
    let once = dedup_paired(raw);
    let twice = dedup_paired(once.clone());
    assert_eq!(once.len(), twice.len());
    for (a, b) in once.iter().zip(twice.iter()) {
        assert_eq!(a.score, b.score);
    }
}

#[test]
fn points_curve_exact_values() {
    assert_eq!(points_for_rank(1), MAX_POINTS);
    assert_eq!(points_for_rank(1), 200);
    assert_eq!(points_for_rank(2), 100);
    assert_eq!(points_for_rank(3), 66);
    assert_eq!(points_for_rank(200), 1);
    assert_eq!(points_for_rank(201), 0);
}

#[test]
fn points_never_increase_with_rank() {
    let mut last = points_for_rank(1);
    for rank in 2..500 {
        let p = points_for_rank(rank);
        assert!(p <= last);
        last = p;
    }
}

#[test]
fn ranks_are_contiguous_from_one() {
    let raw = vec![entry("P1", 100), entry("P2", 150), entry("P3", 200)];
    let out = assign_ranks(raw, 10);
    assert_eq!(out.len(), 3);
    for (i, r) in out.iter().enumerate() {
        assert_eq!(r.rank, i + 1);
        assert_eq!(r.points, points_for_rank(i + 1));
    }
}

#[test]
fn rank_truncates_to_limit() {
    let raw = vec![entry("P1", 100), entry("P2", 150), entry("P3", 200)];
    let out = assign_ranks(raw, 2);
    assert_eq!(out.len(), 2);
    assert_eq!(out[1].rank, 2);
}

#[test]
fn equal_scores_get_distinct_ranks_by_arrival() {
    let raw = vec![entry("P1", 100), entry("P2", 100)];
    let out = assign_ranks(raw, 10);
    assert_eq!(out[0].rank, 1);
    assert_eq!(out[1].rank, 2);
    assert_eq!(out[0].entry.player_id, "P1");
    assert_eq!(out[1].entry.player_id, "P2");
}

#[test]
fn ranked_page_full_example() {
    // dedup then rank: [(P1,100),(P2,150),(P1,200)] with limit 10 gives
    // P1 rank 1 with the maximum points, P2 rank 2 with fewer points.
    let raw = vec![entry("P1", 100), entry("P2", 150), entry("P1", 200)];
    let out = ranked_page_solo(raw, 10);
    assert_eq!(out.len(), 2);
    assert_eq!(out[0].entry.player_id, "P1");
    assert_eq!(out[0].rank, 1);
    assert_eq!(out[0].points, MAX_POINTS);
    assert_eq!(out[1].entry.player_id, "P2");
    assert_eq!(out[1].rank, 2);
    assert!(out[1].points < MAX_POINTS);
}

#[test]
fn ranked_page_rerun_is_noop() {
    let raw = vec![entry("P1", 100), entry("P2", 150), entry("P1", 200), entry("P3", 300)];
    let page = ranked_page_solo(raw, 10);
    let again: Vec<ScoreEntry> = page.iter().map(|r| r.entry.clone()).collect();
    let page2 = ranked_page_solo(again, 10);
    assert_eq!(page.len(), page2.len());
    for (a, b) in page.iter().zip(page2.iter()) {
        assert_eq!(a.entry.player_id, b.entry.player_id);
        assert_eq!(a.rank, b.rank);
        assert_eq!(a.points, b.points);
    }
}

#[test]
fn coop_page_filters_and_ranks() {
    let raw = vec![pair("A", "B", 100), pair("B", "A", 150), pair("A", "C", 200)];
    let out = filter_coop_entries(raw, 10);
    assert_eq!(out.len(), 2);
    assert_eq!(out[0].rank, 1);
    assert_eq!(out[0].points, MAX_POINTS);
    assert_eq!(out[0].entry.score, 100);
    assert_eq!(out[1].rank, 2);
    assert_eq!(out[1].entry.score, 200);
}

#[test]
fn coop_page_truncates_to_limit() {
    let raw = vec![
        pair("A", "B", 100),
        pair("C", "D", 150),
        pair("E", "F", 200),
        pair("G", "H", 250),
    ];
    let out = filter_coop_entries(raw, 3);
    assert_eq!(out.len(), 3);
    assert_eq!(out[2].rank, 3);
    assert_eq!(out[2].entry.score, 200);
}
