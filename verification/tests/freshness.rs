use results_board::cache::CacheCoordinator;
use results_board::cache::ReadAction;

#[test]
fn unknown_key_starts_stale_and_claims_recompute() {
    let mut c = CacheCoordinator::new();
    let key = "sp_previews".to_string();
    let a = c.begin_read(&key);
    assert!(matches!(a, ReadAction::Recompute));
}

#[test]
fn single_flight_after_invalidate() {
    // after invalidate(key), the next read triggers exactly one recompute:
    // the first reader recomputes, concurrent readers await, and once the
    // recompute lands every reader is served the cached aggregate.
    let mut c = CacheCoordinator::new();
    let key = "coop_previews".to_string();
    let a = c.begin_read(&key);
    assert!(matches!(a, ReadAction::Recompute));
    c.finish_recompute(&key, true);
    c.invalidate(&key);

    let first = c.begin_read(&key);
    assert!(matches!(first, ReadAction::Recompute));
    let second = c.begin_read(&key);
    assert!(matches!(second, ReadAction::AwaitInFlight));
    let third = c.begin_read(&key);
    assert!(matches!(third, ReadAction::AwaitInFlight));

    c.finish_recompute(&key, true);
    let after = c.begin_read(&key);
    assert!(matches!(after, ReadAction::ServeCached));
}

#[test]
fn fresh_key_serves_without_recompute() {
    let mut c = CacheCoordinator::new();
    let key = "sp_previews".to_string();
    assert!(matches!(c.begin_read(&key), ReadAction::Recompute));
    c.finish_recompute(&key, true);
    for _ in 0..5 {
        assert!(matches!(c.begin_read(&key), ReadAction::ServeCached));
    }
}

#[test]
fn failed_recompute_leaves_key_stale() {
    // a collaborator error or a failed blob write must not mark the key
    // fresh: the next reader retries the recompute.
    let mut c = CacheCoordinator::new();
    let key = "sp_previews".to_string();
    assert!(matches!(c.begin_read(&key), ReadAction::Recompute));
    c.finish_recompute(&key, false);
    assert!(matches!(c.begin_read(&key), ReadAction::Recompute));
}

#[test]
fn invalidation_during_recompute_wins() {
    // a write lands while a recompute is in flight: the late success report
    // must not mark the key fresh, or the write would be invisible.
    let mut c = CacheCoordinator::new();
    let key = "sp_previews".to_string();
    assert!(matches!(c.begin_read(&key), ReadAction::Recompute));
    c.invalidate(&key);
    c.finish_recompute(&key, true);
    assert!(matches!(c.begin_read(&key), ReadAction::Recompute));
}

#[test]
fn keys_are_independent() {
    let mut c = CacheCoordinator::new();
    let sp = "sp_previews".to_string();
    let coop = "coop_previews".to_string();
    assert!(matches!(c.begin_read(&sp), ReadAction::Recompute));
    c.finish_recompute(&sp, true);
    assert!(matches!(c.begin_read(&coop), ReadAction::Recompute));
    c.finish_recompute(&coop, true);

    c.invalidate(&sp);
    assert!(matches!(c.begin_read(&coop), ReadAction::ServeCached));
    assert!(matches!(c.begin_read(&sp), ReadAction::Recompute));
    assert!(matches!(c.begin_read(&coop), ReadAction::ServeCached));
}

#[test]
fn finish_without_claim_is_ignored() {
    let mut c = CacheCoordinator::new();
    let key = "sp_previews".to_string();
    c.finish_recompute(&key, true);
    // the key was never claimed, so it must still be stale.
    assert!(matches!(c.begin_read(&key), ReadAction::Recompute));
}
