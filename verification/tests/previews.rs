use results_board::entry::PairedScoreEntry;
use results_board::entry::ScoreEntry;
use results_board::preview::build_paired_preview;
use results_board::preview::build_paired_previews;
use results_board::preview::build_solo_preview;
use results_board::preview::build_solo_previews;
use results_board::preview::PREVIEW_SIZE;

fn entry(pid: &str, score: i32) -> ScoreEntry {
    ScoreEntry {
        player_id: pid.to_string(),
        score,
        timestamp: 0,
        note: String::new(),
        media_link: String::new(),
        category_id: 1,
        map_id: "47458".to_string(),
    }
}

fn pair(a: &str, b: &str, score: i32) -> PairedScoreEntry {
    PairedScoreEntry {
        player_id_a: a.to_string(),
        player_id_b: b.to_string(),
        score,
        a_is_host: false,
        note_a: String::new(),
        note_b: String::new(),
        timestamp: 0,
        category_id: 1,
        map_id: "47825".to_string(),
    }
}

#[test]
fn preview_with_exactly_n_rows_is_unchanged() {
    // seven distinct players after dedup, preview size seven: all seven
    // come back, in unmodified order.
    let raw: Vec<ScoreEntry> =
        (0..7).map(|i| entry(&format!("P{}", i), 100 + i)).collect();
    let p = build_solo_preview("47458".to_string(), raw, PREVIEW_SIZE);
    assert_eq!(p.entries.len(), 7);
    for (i, e) in p.entries.iter().enumerate() {
        assert_eq!(e.player_id, format!("P{}", i));
        assert_eq!(e.score, 100 + i as i32);
    }
}

#[test]
fn preview_with_no_rows_is_empty_not_an_error() {
    let p = build_solo_preview("47458".to_string(), Vec::new(), PREVIEW_SIZE);
    assert_eq!(p.map_id, "47458");
    assert!(p.entries.is_empty());
}

#[test]
fn preview_truncates_past_n() {
    let raw: Vec<ScoreEntry> =
        (0..20).map(|i| entry(&format!("P{}", i), 100 + i)).collect();
    let p = build_solo_preview("47458".to_string(), raw, PREVIEW_SIZE);
    assert_eq!(p.entries.len(), 7);
    assert_eq!(p.entries[6].player_id, "P6");
}

#[test]
fn preview_dedups_before_truncating() {
    // eight raw rows but only two players: the preview keeps each player's
    // best row only, so duplicates cannot crowd the slice.
    let mut raw = Vec::new();
    for i in 0..4 {
        raw.push(entry("P1", 100 + i));
        raw.push(entry("P2", 200 + i));
    }
    let p = build_solo_preview("47458".to_string(), raw, PREVIEW_SIZE);
    assert_eq!(p.entries.len(), 2);
    assert_eq!(p.entries[0].player_id, "P1");
    assert_eq!(p.entries[0].score, 100);
    assert_eq!(p.entries[1].player_id, "P2");
    assert_eq!(p.entries[1].score, 200);
}

#[test]
fn paired_preview_keeps_two_slot_rule() {
    let raw = vec![pair("A", "B", 100), pair("B", "A", 150), pair("A", "C", 200)];
    let p = build_paired_preview("47825".to_string(), raw, PREVIEW_SIZE);
    assert_eq!(p.entries.len(), 2);
    assert_eq!(p.entries[0].score, 100);
    assert_eq!(p.entries[1].score, 200);
}

#[test]
fn board_wide_solo_previews_one_record_per_map() {
    let boards = vec![
        ("47458".to_string(), vec![entry("P1", 100), entry("P1", 120), entry("P2", 150)]),
        ("47455".to_string(), Vec::new()),
        ("47452".to_string(), vec![entry("P3", 90)]),
    ];
    let out = build_solo_previews(boards, PREVIEW_SIZE);
    assert_eq!(out.len(), 3);
    assert_eq!(out[0].map_id, "47458");
    assert_eq!(out[0].entries.len(), 2);
    assert_eq!(out[1].map_id, "47455");
    assert!(out[1].entries.is_empty());
    assert_eq!(out[2].map_id, "47452");
    assert_eq!(out[2].entries[0].player_id, "P3");
}

#[test]
fn board_wide_paired_previews_one_record_per_map() {
    let boards = vec![
        ("47825".to_string(), vec![pair("A", "B", 100), pair("B", "A", 110)]),
        ("47828".to_string(), Vec::new()),
    ];
    let out = build_paired_previews(boards, PREVIEW_SIZE);
    assert_eq!(out.len(), 2);
    assert_eq!(out[0].map_id, "47825");
    assert_eq!(out[0].entries.len(), 1);
    assert_eq!(out[1].map_id, "47828");
    assert!(out[1].entries.is_empty());
}
