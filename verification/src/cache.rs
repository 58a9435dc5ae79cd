//! Freshness coordination for board-wide cached aggregates.
//!
//! One cache key per aggregate family (for example one key for all solo
//! previews and one for all cooperative previews). A key never referenced
//! before is `Stale`. A read of a stale key claims the single recompute:
//! the coordinator moves the key to `InFlight` and tells exactly that
//! caller to recompute, while later readers of the same key are told to
//! await the in-flight result rather than issuing redundant recomputations.
//! The recompute itself — fetching rows, building previews, persisting the
//! blob — happens outside the coordinator, which is told afterwards whether
//! compute *and* persist succeeded: only then does the key become `Fresh`.
//! On failure the key returns to `Stale`, so the next reader retries, and a
//! freshly computed value may still be handed to the current caller without
//! ever being served as cached. Any write that changes underlying data
//! invalidates the key after the mutation commits; an invalidation during
//! an in-flight recompute wins, so that result is never marked fresh.

use vstd::prelude::*;

verus! {

/// Whether a cached aggregate may be served without recomputation.
#[derive(Clone, Copy, Debug, PartialEq, Eq, Structural)]
pub enum Freshness {
    /// The cached value, if any, may not be trusted; a read must recompute.
    Stale,
    /// One reader is recomputing; others await that single result.
    InFlight,
    /// The persisted value reflects the underlying data and may be served.
    Fresh,
}

/// What the coordinator tells a reader to do.
#[derive(Clone, Copy, Debug, PartialEq, Eq, Structural)]
pub enum ReadAction {
    /// The key is fresh: serve the persisted aggregate, no recomputation.
    ServeCached,
    /// The key was stale and this caller holds the single recompute: build
    /// the aggregate, persist it, then report the outcome.
    Recompute,
    /// Another reader's recompute is in flight: await its result.
    AwaitInFlight,
}

/// What a read does to a key's freshness: claiming a stale key puts the
/// recompute in flight; fresh and in-flight keys are left as they are.
pub open spec fn read_next(st: Freshness) -> Freshness {
    match st {
        Freshness::Stale => Freshness::InFlight,
        _ => st,
    }
}

/// What a read tells the caller to do, from the key's freshness alone.
pub open spec fn read_action(st: Freshness) -> ReadAction {
    match st {
        Freshness::Stale => ReadAction::Recompute,
        Freshness::InFlight => ReadAction::AwaitInFlight,
        Freshness::Fresh => ReadAction::ServeCached,
    }
}

/// What reporting a recompute outcome does to a key's freshness: an
/// in-flight key becomes fresh only on success; a key no longer in flight
/// (invalidated meanwhile, or never claimed) is left as it is.
pub open spec fn finish_next(st: Freshness, success: bool) -> Freshness {
    if st == Freshness::InFlight {
        if success {
            Freshness::Fresh
        } else {
            Freshness::Stale
        }
    } else {
        st
    }
}

/// One key's freshness entry in the coordinator's table.
struct CacheSlot {
    key: String,
    state: Freshness,
}

/// The freshness state machine over all cache keys.
///
/// Exclusively owns every key's freshness: no other component reads or
/// writes the flags directly, so the invalidation protocol cannot be
/// bypassed.
pub struct CacheCoordinator {
    slots: Vec<CacheSlot>,
}

/// The freshness of key `k` in a slot table: its first entry's state, or
/// `Stale` for a key never referenced before.
spec fn state_in(slots: Seq<CacheSlot>, k: Seq<char>) -> Freshness
    decreases slots.len(),
{
    if slots.len() == 0 {
        Freshness::Stale
    } else if slots.first().key@ == k {
        slots.first().state
    } else {
        state_in(slots.drop_first(), k)
    }
}

proof fn lemma_state_in_found(slots: Seq<CacheSlot>, i: int, k: Seq<char>)
    requires
        0 <= i < slots.len(),
        slots[i].key@ == k,
        forall|j: int| 0 <= j < i ==> (#[trigger] slots[j]).key@ != k,
    ensures
        state_in(slots, k) == slots[i].state,
    decreases i,
{
    if i > 0 {
        assert(slots[0].key@ != k);
        let rest = slots.drop_first();
        assert(rest[i - 1] == slots[i]);
        assert forall|j: int| 0 <= j < i - 1 implies (#[trigger] rest[j]).key@ != k by {
            assert(rest[j] == slots[j + 1]);
        };
        lemma_state_in_found(rest, i - 1, k);
    }
}

proof fn lemma_state_in_absent(slots: Seq<CacheSlot>, k: Seq<char>)
    requires
        forall|j: int| 0 <= j < slots.len() ==> (#[trigger] slots[j]).key@ != k,
    ensures
        state_in(slots, k) == Freshness::Stale,
    decreases slots.len(),
{
    if slots.len() > 0 {
        let rest = slots.drop_first();
        assert forall|j: int| 0 <= j < rest.len() implies (#[trigger] rest[j]).key@ != k by {
            assert(rest[j] == slots[j + 1]);
        };
        lemma_state_in_absent(rest, k);
    }
}

proof fn lemma_state_in_update(slots: Seq<CacheSlot>, i: int, slot2: CacheSlot)
    requires
        0 <= i < slots.len(),
        slot2.key@ == slots[i].key@,
        forall|j: int| 0 <= j < i ==> (#[trigger] slots[j]).key@ != slots[i].key@,
    ensures
        state_in(slots.update(i, slot2), slots[i].key@) == slot2.state,
        forall|k2: Seq<char>|
            k2 != slots[i].key@ ==> state_in(slots.update(i, slot2), k2) == state_in(slots, k2),
    decreases i,
{
    let k = slots[i].key@;
    let upd = slots.update(i, slot2);
    if i == 0 {
        assert(upd.first() == slot2);
        assert forall|k2: Seq<char>| k2 != k implies state_in(upd, k2) == state_in(slots, k2) by {
            assert(upd.drop_first() =~= slots.drop_first());
            assert(state_in(upd, k2) == state_in(upd.drop_first(), k2));
            assert(state_in(slots, k2) == state_in(slots.drop_first(), k2));
        };
    } else {
        assert(upd.first() == slots.first());
        let rest = slots.drop_first();
        assert(upd.drop_first() =~= rest.update(i - 1, slot2));
        assert(rest[i - 1] == slots[i]);
        assert forall|j: int| 0 <= j < i - 1 implies (#[trigger] rest[j]).key@ != k by {
            assert(rest[j] == slots[j + 1]);
        };
        lemma_state_in_update(rest, i - 1, slot2);
        assert(slots.first().key@ != k);
        assert(state_in(upd, k) == state_in(rest.update(i - 1, slot2), k));
        assert forall|k2: Seq<char>| k2 != k implies state_in(upd, k2) == state_in(slots, k2) by {
            if slots.first().key@ != k2 {
                assert(state_in(upd, k2) == state_in(rest.update(i - 1, slot2), k2));
                assert(state_in(rest.update(i - 1, slot2), k2) == state_in(rest, k2));
                assert(state_in(slots, k2) == state_in(rest, k2));
            }
        };
    }
}

proof fn lemma_state_in_push(slots: Seq<CacheSlot>, slot2: CacheSlot)
    requires
        forall|j: int| 0 <= j < slots.len() ==> (#[trigger] slots[j]).key@ != slot2.key@,
    ensures
        state_in(slots.push(slot2), slot2.key@) == slot2.state,
        forall|k2: Seq<char>|
            k2 != slot2.key@ ==> state_in(slots.push(slot2), k2) == state_in(slots, k2),
    decreases slots.len(),
{
    let pushed = slots.push(slot2);
    if slots.len() == 0 {
        assert(pushed.first() == slot2);
        assert forall|k2: Seq<char>| k2 != slot2.key@ implies state_in(pushed, k2) == state_in(
            slots,
            k2,
        ) by {
            assert(pushed.drop_first() =~= Seq::<CacheSlot>::empty());
            assert(state_in(pushed, k2) == state_in(pushed.drop_first(), k2));
            assert(state_in(pushed.drop_first(), k2) == Freshness::Stale);
        };
    } else {
        assert(pushed.first() == slots.first());
        let rest = slots.drop_first();
        assert(pushed.drop_first() =~= rest.push(slot2));
        assert forall|j: int| 0 <= j < rest.len() implies (#[trigger] rest[j]).key@
            != slot2.key@ by {
            assert(rest[j] == slots[j + 1]);
        };
        lemma_state_in_push(rest, slot2);
        assert(slots[0].key@ != slot2.key@);
        assert(state_in(pushed, slot2.key@) == state_in(rest.push(slot2), slot2.key@));
        assert forall|k2: Seq<char>| k2 != slot2.key@ implies state_in(pushed, k2) == state_in(
            slots,
            k2,
        ) by {
            if slots.first().key@ != k2 {
                assert(state_in(pushed, k2) == state_in(rest.push(slot2), k2));
                assert(state_in(rest.push(slot2), k2) == state_in(rest, k2));
                assert(state_in(slots, k2) == state_in(rest, k2));
            }
        };
    }
}

impl CacheCoordinator {
    /// The freshness of key `k`: `Stale` for a key never referenced before.
    pub closed spec fn state_of(self, k: Seq<char>) -> Freshness {
        state_in(self.slots@, k)
    }

    /// A coordinator with every key stale.
    pub fn new() -> (c: Self)
        ensures
            forall|k: Seq<char>| #[trigger] c.state_of(k) == Freshness::Stale,
    {
        let c = CacheCoordinator { slots: Vec::new() };
        proof {
            assert forall|k: Seq<char>| #[trigger] c.state_of(k) == Freshness::Stale by {
                assert(c.slots@.len() == 0);
            };
        }
        c
    }

    /// First slot holding `key`, and the fact that no earlier slot does.
    fn find_slot(&self, key: &String) -> (r: Option<usize>)
        ensures
            match r {
                Some(i) => i < self.slots@.len() && self.slots@[i as int].key@ == key@ && forall|
                    j: int,
                |
                    0 <= j < i ==> (#[trigger] self.slots@[j]).key@ != key@,
                None => forall|j: int|
                    0 <= j < self.slots@.len() ==> (#[trigger] self.slots@[j]).key@ != key@,
            },
    {
        let mut i: usize = 0;
        while i < self.slots.len()
            invariant
                i <= self.slots@.len(),
                forall|j: int| 0 <= j < i ==> (#[trigger] self.slots@[j]).key@ != key@,
            decreases self.slots@.len() - i,
        {
            if self.slots[i].key == *key {
                return Some(i);
            }
            i += 1;
        }
        None
    }

    /// Replaces the slot at `i`, keeping its key, so that it holds `st`.
    fn set_state(&mut self, i: usize, st: Freshness)
        requires
            i < old(self).slots@.len(),
            forall|j: int|
                0 <= j < i ==> (#[trigger] old(self).slots@[j]).key@ != old(
                    self,
                ).slots@[i as int].key@,
        ensures
            final(self).state_of(old(self).slots@[i as int].key@) == st,
            forall|k2: Seq<char>|
                k2 != old(self).slots@[i as int].key@ ==> final(self).state_of(k2) == old(
                    self,
                ).state_of(k2),
    {
        let slot = self.slots.remove(i);
        let slot2 = CacheSlot { key: slot.key, state: st };
        self.slots.insert(i, slot2);
        proof {
            assert(self.slots@ =~= old(self).slots@.update(i as int, slot2));
            lemma_state_in_update(old(self).slots@, i as int, slot2);
        }
    }

    /// Serves a read request for `key`: says whether to serve the cached
    /// aggregate, to recompute it (this caller alone holds the recompute),
    /// or to await the recompute already in flight. No other key changes.
    pub fn begin_read(&mut self, key: &String) -> (a: ReadAction)
        ensures
            a == read_action(old(self).state_of(key@)),
            final(self).state_of(key@) == read_next(old(self).state_of(key@)),
            forall|k2: Seq<char>|
                k2 != key@ ==> final(self).state_of(k2) == old(self).state_of(k2),
    {
        match self.find_slot(key) {
            Some(i) => {
                proof {
                    lemma_state_in_found(self.slots@, i as int, key@);
                }
                match self.slots[i].state {
                    Freshness::Fresh => ReadAction::ServeCached,
                    Freshness::InFlight => ReadAction::AwaitInFlight,
                    Freshness::Stale => {
                        self.set_state(i, Freshness::InFlight);
                        ReadAction::Recompute
                    },
                }
            },
            None => {
                proof {
                    lemma_state_in_absent(self.slots@, key@);
                }
                let slot = CacheSlot { key: key.clone(), state: Freshness::InFlight };
                proof {
                    lemma_state_in_push(self.slots@, slot);
                }
                self.slots.push(slot);
                ReadAction::Recompute
            },
        }
    }

    /// Reports the outcome of the recompute this caller was handed for
    /// `key`: `success` means the aggregate was both rebuilt and persisted.
    /// The key becomes fresh only from in flight and only on success; on
    /// failure it returns to stale so the next reader retries. If the key
    /// was invalidated while the recompute ran, the report is ignored and
    /// the key stays stale. No other key changes.
    pub fn finish_recompute(&mut self, key: &String, success: bool)
        ensures
            final(self).state_of(key@) == finish_next(old(self).state_of(key@), success),
            forall|k2: Seq<char>|
                k2 != key@ ==> final(self).state_of(k2) == old(self).state_of(k2),
    {
        match self.find_slot(key) {
            Some(i) => {
                proof {
                    lemma_state_in_found(self.slots@, i as int, key@);
                }
                match self.slots[i].state {
                    Freshness::InFlight => {
                        if success {
                            self.set_state(i, Freshness::Fresh);
                        } else {
                            self.set_state(i, Freshness::Stale);
                        }
                    },
                    _ => {},
                }
            },
            None => {
                proof {
                    lemma_state_in_absent(self.slots@, key@);
                }
            },
        }
    }

    /// Marks `key` stale: called by every write path after its mutation of
    /// the underlying data has committed, and on a persistence read fault
    /// (flag fresh but blob missing or corrupt) to force a recompute. Wins
    /// over an in-flight recompute: its late report will not mark the key
    /// fresh. No other key changes.
    pub fn invalidate(&mut self, key: &String)
        ensures
            final(self).state_of(key@) == Freshness::Stale,
            forall|k2: Seq<char>|
                k2 != key@ ==> final(self).state_of(k2) == old(self).state_of(k2),
    {
        match self.find_slot(key) {
            Some(i) => {
                self.set_state(i, Freshness::Stale);
            },
            None => {
                proof {
                    lemma_state_in_absent(self.slots@, key@);
                }
            },
        }
    }
}

/// The actions handed to `n` consecutive readers of one key, starting from
/// freshness `st`, with no recompute outcome reported in between.
pub open spec fn reads_from(st: Freshness, n: nat) -> Seq<ReadAction>
    decreases n,
{
    if n == 0 {
        Seq::empty()
    } else {
        seq![read_action(st)] + reads_from(read_next(st), (n - 1) as nat)
    }
}

proof fn lemma_reads_in_flight(n: nat)
    ensures
        reads_from(Freshness::InFlight, n).len() == n,
        forall|i: int|
            0 <= i < n ==> reads_from(Freshness::InFlight, n)[i] == ReadAction::AwaitInFlight,
    decreases n,
{
    if n > 0 {
        lemma_reads_in_flight((n - 1) as nat);
        let acts = reads_from(Freshness::InFlight, n);
        let rest = reads_from(Freshness::InFlight, (n - 1) as nat);
        assert forall|i: int| 0 <= i < n implies acts[i] == ReadAction::AwaitInFlight by {
            if i >= 1 {
                assert(acts[i] == rest[i - 1]);
            }
        };
    }
}

/// After an invalidation, any number of consecutive readers of the key
/// trigger exactly one recompute — the first reader, no other — and every
/// later reader in the stale window awaits that single in-flight result.
pub proof fn lemma_single_flight(n: nat)
    requires
        n >= 1,
    ensures
        ({
            let acts = reads_from(Freshness::Stale, n);
            &&& acts.len() == n
            &&& acts[0] == ReadAction::Recompute
            &&& forall|i: int| 1 <= i < n ==> acts[i] == ReadAction::AwaitInFlight
        }),
{
    lemma_reads_in_flight((n - 1) as nat);
    let acts = reads_from(Freshness::Stale, n);
    let rest = reads_from(Freshness::InFlight, (n - 1) as nat);
    assert forall|i: int| 1 <= i < n implies acts[i] == ReadAction::AwaitInFlight by {
        assert(acts[i] == rest[i - 1]);
    };
}

/// Once a recompute has been reported successful, the key is fresh and
/// every subsequent reader is served the cached aggregate, with no further
/// recomputation, until the next invalidation.
pub proof fn lemma_fresh_is_served(n: nat)
    ensures
        finish_next(Freshness::InFlight, true) == Freshness::Fresh,
        reads_from(Freshness::Fresh, n).len() == n,
        forall|i: int| 0 <= i < n ==> reads_from(Freshness::Fresh, n)[i] == ReadAction::ServeCached,
    decreases n,
{
    if n > 0 {
        lemma_fresh_is_served((n - 1) as nat);
        let acts = reads_from(Freshness::Fresh, n);
        let rest = reads_from(Freshness::Fresh, (n - 1) as nat);
        assert forall|i: int| 0 <= i < n implies acts[i] == ReadAction::ServeCached by {
            if i >= 1 {
                assert(acts[i] == rest[i - 1]);
            }
        };
    }
}

/// A failed recompute — the collaborator erred or the blob could not be
/// persisted — leaves the key stale: nothing partial is ever cached, and
/// the next reader claims a fresh recompute and retries.
pub proof fn lemma_failed_recompute_stays_stale()
    ensures
        finish_next(Freshness::InFlight, false) == Freshness::Stale,
        read_action(Freshness::Stale) == ReadAction::Recompute,
{
}

} // verus!
