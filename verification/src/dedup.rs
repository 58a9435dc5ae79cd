//! Deduplication of raw score rows.
//!
//! Input rows arrive sorted ascending by score, so the best run of a player
//! comes first; keeping the first occurrence of each player id is therefore
//! the same as keeping the best. Solo rows keep one slot per distinct player
//! id. Cooperative rows have two independent player slots and a row is
//! discarded only when *both* of its slots already have a better result: a
//! row in which at least one slot appears for the first time is always kept.
//! The empty player id is the placeholder sentinel and counts as already
//! seen, so it can never occupy a ranked slot.

use crate::entry::PairedScoreEntry;
use crate::entry::ScoreEntry;
use vstd::prelude::*;

verus! {

/// The placeholder player id: a blank id never occupies a ranked slot.
pub open spec fn blank_id() -> Seq<char> {
    Seq::<char>::empty()
}

/// The ids counted as used before any row is processed: only the sentinel.
pub open spec fn initial_seen() -> Set<Seq<char>> {
    Set::empty().insert(blank_id())
}

/// Ids held by a seen-list, as a set.
pub open spec fn id_set(ids: Seq<String>) -> Set<Seq<char>> {
    Set::new(|p: Seq<char>| exists|k: int| 0 <= k < ids.len() && (#[trigger] ids[k])@ == p)
}

/// Solo deduplication, one pass from the front: a row is kept when its
/// player id is not yet in `seen`, and its id becomes seen either way.
pub open spec fn dedup_solo_rec(s: Seq<ScoreEntry>, seen: Set<Seq<char>>) -> Seq<ScoreEntry>
    decreases s.len(),
{
    if s.len() == 0 {
        Seq::empty()
    } else if seen.contains(s.first().player_id@) {
        dedup_solo_rec(s.drop_first(), seen)
    } else {
        seq![s.first()] + dedup_solo_rec(s.drop_first(), seen.insert(s.first().player_id@))
    }
}

/// What the solo deduplicator returns: the subsequence keeping, for each
/// distinct non-blank player id, only its first (hence best) occurrence.
pub open spec fn dedup_solo_spec(s: Seq<ScoreEntry>) -> Seq<ScoreEntry> {
    dedup_solo_rec(s, initial_seen())
}

/// The player ids used by rows before position `i`, plus the sentinel.
pub open spec fn solo_seen_before(s: Seq<ScoreEntry>, i: int) -> Set<Seq<char>> {
    Set::new(
        |p: Seq<char>|
            p == blank_id() || exists|j: int| 0 <= j < i && (#[trigger] s[j]).player_id@ == p,
    )
}

/// Whether the solo row at position `i` survives deduplication: its id is
/// non-blank and no earlier row used it.
pub open spec fn solo_kept(s: Seq<ScoreEntry>, i: int) -> bool {
    !solo_seen_before(s, i).contains(s[i].player_id@)
}

/// The kept solo rows at positions `i` and later, in input order.
pub open spec fn dedup_solo_from(s: Seq<ScoreEntry>, i: int) -> Seq<ScoreEntry>
    decreases s.len() - i when 0 <= i <= s.len()
{
    if i >= s.len() {
        Seq::empty()
    } else if solo_kept(s, i) {
        seq![s[i]] + dedup_solo_from(s, i + 1)
    } else {
        dedup_solo_from(s, i + 1)
    }
}

/// Cooperative deduplication, one pass from the front: a row is discarded
/// only when both of its slots are already in `seen`; both slot ids become
/// seen either way.
pub open spec fn dedup_paired_rec(s: Seq<PairedScoreEntry>, seen: Set<Seq<char>>) -> Seq<
    PairedScoreEntry,
>
    decreases s.len(),
{
    if s.len() == 0 {
        Seq::empty()
    } else {
        let e = s.first();
        let seen2 = seen.insert(e.player_id_a@).insert(e.player_id_b@);
        if seen.contains(e.player_id_a@) && seen.contains(e.player_id_b@) {
            dedup_paired_rec(s.drop_first(), seen2)
        } else {
            seq![e] + dedup_paired_rec(s.drop_first(), seen2)
        }
    }
}

/// What the pair deduplicator returns: the subsequence of rows in which at
/// least one slot appears for the first time.
pub open spec fn dedup_paired_spec(s: Seq<PairedScoreEntry>) -> Seq<PairedScoreEntry> {
    dedup_paired_rec(s, initial_seen())
}

/// The slot ids used by rows before position `i`, plus the sentinel.
pub open spec fn paired_seen_before(s: Seq<PairedScoreEntry>, i: int) -> Set<Seq<char>> {
    Set::new(
        |p: Seq<char>|
            p == blank_id() || exists|j: int|
                0 <= j < i && ((#[trigger] s[j]).player_id_a@ == p || s[j].player_id_b@ == p),
    )
}

/// Whether the cooperative row at position `i` survives deduplication: not
/// both of its slots were used by earlier rows (or blank).
pub open spec fn paired_kept(s: Seq<PairedScoreEntry>, i: int) -> bool {
    !(paired_seen_before(s, i).contains(s[i].player_id_a@) && paired_seen_before(s, i).contains(
        s[i].player_id_b@,
    ))
}

/// The kept cooperative rows at positions `i` and later, in input order.
pub open spec fn dedup_paired_from(s: Seq<PairedScoreEntry>, i: int) -> Seq<PairedScoreEntry>
    decreases s.len() - i when 0 <= i <= s.len()
{
    if i >= s.len() {
        Seq::empty()
    } else if paired_kept(s, i) {
        seq![s[i]] + dedup_paired_from(s, i + 1)
    } else {
        dedup_paired_from(s, i + 1)
    }
}

proof fn lemma_solo_seen_step(s: Seq<ScoreEntry>, i: int)
    requires
        0 <= i < s.len(),
    ensures
        solo_seen_before(s, i + 1) =~= solo_seen_before(s, i).insert(s[i].player_id@),
{
    let lhs = solo_seen_before(s, i + 1);
    let rhs = solo_seen_before(s, i).insert(s[i].player_id@);
    assert forall|p: Seq<char>| lhs.contains(p) implies rhs.contains(p) by {
        if p != blank_id() {
            let j = choose|j: int| 0 <= j < i + 1 && (#[trigger] s[j]).player_id@ == p;
            if j < i {
                assert(solo_seen_before(s, i).contains(p));
            }
        }
    };
    assert forall|p: Seq<char>| rhs.contains(p) implies lhs.contains(p) by {
        if p == s[i].player_id@ {
            assert((s[i]).player_id@ == p);
        } else if p != blank_id() {
            let j = choose|j: int| 0 <= j < i && (#[trigger] s[j]).player_id@ == p;
            assert((s[j]).player_id@ == p && 0 <= j < i + 1);
        }
    };
}

proof fn lemma_dedup_solo_from_rec(s: Seq<ScoreEntry>, i: int, seen: Set<Seq<char>>)
    requires
        0 <= i <= s.len(),
        seen == solo_seen_before(s, i),
    ensures
        dedup_solo_rec(s.subrange(i, s.len() as int), seen) == dedup_solo_from(s, i),
    decreases s.len() - i,
{
    let suf = s.subrange(i, s.len() as int);
    if i == s.len() {
        assert(suf =~= Seq::<ScoreEntry>::empty());
    } else {
        let pid = s[i].player_id@;
        assert(suf.first() == s[i]);
        assert(suf.drop_first() =~= s.subrange(i + 1, s.len() as int));
        lemma_solo_seen_step(s, i);
        if solo_kept(s, i) {
            lemma_dedup_solo_from_rec(s, i + 1, seen.insert(pid));
        } else {
            assert(solo_seen_before(s, i).insert(pid) =~= solo_seen_before(s, i));
            lemma_dedup_solo_from_rec(s, i + 1, seen);
        }
    }
}

/// The solo deduplicator keeps exactly the rows whose player id is non-blank
/// and not used by any earlier row, in ascending input order: output order
/// is input order restricted to the kept positions.
pub proof fn lemma_dedup_solo_characterization(s: Seq<ScoreEntry>)
    ensures
        dedup_solo_spec(s) == dedup_solo_from(s, 0),
{
    assert(initial_seen() =~= solo_seen_before(s, 0));
    assert(s.subrange(0, s.len() as int) =~= s);
    lemma_dedup_solo_from_rec(s, 0, initial_seen());
}

proof fn lemma_dedup_solo_rec_distinct(s: Seq<ScoreEntry>, seen: Set<Seq<char>>)
    ensures
        ({
            let out = dedup_solo_rec(s, seen);
            &&& forall|k: int|
                0 <= k < out.len() ==> !seen.contains((#[trigger] out[k]).player_id@)
            &&& forall|k1: int, k2: int|
                0 <= k1 < k2 < out.len() ==> (#[trigger] out[k1]).player_id@ != (
                #[trigger] out[k2]).player_id@
            &&& forall|k: int| 0 <= k < out.len() ==> s.contains(#[trigger] out[k])
        }),
    decreases s.len(),
{
    let out = dedup_solo_rec(s, seen);
    if s.len() > 0 {
        let e = s.first();
        let pid = e.player_id@;
        let rest = s.drop_first();
        if seen.contains(pid) {
            lemma_dedup_solo_rec_distinct(rest, seen);
            let rest_out = dedup_solo_rec(rest, seen);
            assert(out == rest_out);
            assert forall|k: int| 0 <= k < out.len() implies !seen.contains(
                (#[trigger] out[k]).player_id@,
            ) by {
                assert(!seen.contains(rest_out[k].player_id@));
            };
            assert forall|k1: int, k2: int| 0 <= k1 < k2 < out.len() implies (
            #[trigger] out[k1]).player_id@ != (#[trigger] out[k2]).player_id@ by {
                assert(rest_out[k1].player_id@ != rest_out[k2].player_id@);
            };
            assert forall|k: int| 0 <= k < out.len() implies s.contains(#[trigger] out[k]) by {
                assert(rest.contains(rest_out[k]));
                let j = choose|j: int| 0 <= j < rest.len() && #[trigger] rest[j] == out[k];
                assert(s[j + 1] == out[k]);
            };
        } else {
            let rest_out = dedup_solo_rec(rest, seen.insert(pid));
            lemma_dedup_solo_rec_distinct(rest, seen.insert(pid));
            assert(out == seq![e] + rest_out);
            assert forall|k: int| 0 <= k < out.len() implies !seen.contains(
                (#[trigger] out[k]).player_id@,
            ) by {
                if k >= 1 {
                    assert(out[k] == rest_out[k - 1]);
                }
            };
            assert forall|k1: int, k2: int| 0 <= k1 < k2 < out.len() implies (
            #[trigger] out[k1]).player_id@ != (#[trigger] out[k2]).player_id@ by {
                assert(out[k2] == rest_out[k2 - 1]);
                if k1 >= 1 {
                    assert(out[k1] == rest_out[k1 - 1]);
                } else {
                    assert(!seen.insert(pid).contains(rest_out[k2 - 1].player_id@));
                }
            };
            assert forall|k: int| 0 <= k < out.len() implies s.contains(#[trigger] out[k]) by {
                if k == 0 {
                    assert(s[0] == out[0]);
                } else {
                    assert(out[k] == rest_out[k - 1]);
                    assert(rest.contains(rest_out[k - 1]));
                    let j = choose|j: int| 0 <= j < rest.len() && #[trigger] rest[j] == out[k];
                    assert(s[j + 1] == out[k]);
                }
            };
        }
    }
}

/// The solo deduplicator's output has no blank player id, no player id
/// twice, and every kept row occurs in the input.
pub proof fn lemma_dedup_solo_no_duplicates(s: Seq<ScoreEntry>)
    ensures
        ({
            let out = dedup_solo_spec(s);
            &&& forall|k: int| 0 <= k < out.len() ==> (#[trigger] out[k]).player_id@ != blank_id()
            &&& forall|k1: int, k2: int|
                0 <= k1 < k2 < out.len() ==> (#[trigger] out[k1]).player_id@ != (
                #[trigger] out[k2]).player_id@
            &&& forall|k: int| 0 <= k < out.len() ==> s.contains(#[trigger] out[k])
        }),
{
    lemma_dedup_solo_rec_distinct(s, initial_seen());
}

proof fn lemma_dedup_solo_rec_pass(s: Seq<ScoreEntry>, seen: Set<Seq<char>>)
    requires
        forall|i: int| 0 <= i < s.len() ==> !seen.contains((#[trigger] s[i]).player_id@),
        forall|i: int, j: int|
            0 <= i < j < s.len() ==> (#[trigger] s[i]).player_id@ != (#[trigger] s[j]).player_id@,
    ensures
        dedup_solo_rec(s, seen) == s,
    decreases s.len(),
{
    if s.len() == 0 {
        assert(dedup_solo_rec(s, seen) =~= s);
    } else {
        let e = s.first();
        let pid = e.player_id@;
        let rest = s.drop_first();
        assert(!seen.contains((s[0]).player_id@));
        assert forall|i: int| 0 <= i < rest.len() implies !seen.insert(pid).contains(
            (#[trigger] rest[i]).player_id@,
        ) by {
            assert(rest[i] == s[i + 1]);
            assert((s[0]).player_id@ != (s[i + 1]).player_id@);
        };
        assert forall|i: int, j: int| 0 <= i < j < rest.len() implies (
        #[trigger] rest[i]).player_id@ != (#[trigger] rest[j]).player_id@ by {
            assert(rest[i] == s[i + 1] && rest[j] == s[j + 1]);
        };
        lemma_dedup_solo_rec_pass(rest, seen.insert(pid));
        assert(seq![e] + rest =~= s);
    }
}

/// On input that is already deduplicated — no blank ids and no repeated
/// player ids — the solo deduplicator is a no-op.
pub proof fn lemma_dedup_solo_pass_through(s: Seq<ScoreEntry>)
    requires
        forall|i: int| 0 <= i < s.len() ==> (#[trigger] s[i]).player_id@ != blank_id(),
        forall|i: int, j: int|
            0 <= i < j < s.len() ==> (#[trigger] s[i]).player_id@ != (#[trigger] s[j]).player_id@,
    ensures
        dedup_solo_spec(s) == s,
{
    lemma_dedup_solo_rec_pass(s, initial_seen());
}

/// Re-running the solo deduplicator on its own output changes nothing.
pub proof fn lemma_dedup_solo_idempotent(s: Seq<ScoreEntry>)
    ensures
        dedup_solo_spec(dedup_solo_spec(s)) == dedup_solo_spec(s),
{
    lemma_dedup_solo_rec_distinct(s, initial_seen());
    let out = dedup_solo_spec(s);
    assert forall|i: int| 0 <= i < out.len() implies (#[trigger] out[i]).player_id@
        != blank_id() by {
        assert(!initial_seen().contains(out[i].player_id@));
    };
    lemma_dedup_solo_pass_through(out);
}

proof fn lemma_paired_seen_step(s: Seq<PairedScoreEntry>, i: int)
    requires
        0 <= i < s.len(),
    ensures
        paired_seen_before(s, i + 1) =~= paired_seen_before(s, i).insert(
            s[i].player_id_a@,
        ).insert(s[i].player_id_b@),
{
    let lhs = paired_seen_before(s, i + 1);
    let rhs = paired_seen_before(s, i).insert(s[i].player_id_a@).insert(s[i].player_id_b@);
    assert forall|p: Seq<char>| lhs.contains(p) implies rhs.contains(p) by {
        if p != blank_id() {
            let j = choose|j: int|
                0 <= j < i + 1 && ((#[trigger] s[j]).player_id_a@ == p || s[j].player_id_b@ == p);
            if j < i {
                assert(paired_seen_before(s, i).contains(p));
            }
        }
    };
    assert forall|p: Seq<char>| rhs.contains(p) implies lhs.contains(p) by {
        if p == s[i].player_id_a@ || p == s[i].player_id_b@ {
            assert(0 <= i < i + 1 && ((s[i]).player_id_a@ == p || (s[i]).player_id_b@ == p));
        } else if p != blank_id() {
            let j = choose|j: int|
                0 <= j < i && ((#[trigger] s[j]).player_id_a@ == p || s[j].player_id_b@ == p);
            assert(0 <= j < i + 1 && ((s[j]).player_id_a@ == p || (s[j]).player_id_b@ == p));
        }
    };
}

proof fn lemma_dedup_paired_from_rec(s: Seq<PairedScoreEntry>, i: int, seen: Set<Seq<char>>)
    requires
        0 <= i <= s.len(),
        seen == paired_seen_before(s, i),
    ensures
        dedup_paired_rec(s.subrange(i, s.len() as int), seen) == dedup_paired_from(s, i),
    decreases s.len() - i,
{
    let suf = s.subrange(i, s.len() as int);
    if i == s.len() {
        assert(suf =~= Seq::<PairedScoreEntry>::empty());
    } else {
        let a = s[i].player_id_a@;
        let b = s[i].player_id_b@;
        assert(suf.first() == s[i]);
        assert(suf.drop_first() =~= s.subrange(i + 1, s.len() as int));
        lemma_paired_seen_step(s, i);
        lemma_dedup_paired_from_rec(s, i + 1, seen.insert(a).insert(b));
    }
}

/// The pair deduplicator keeps exactly the rows in which at least one slot
/// id is neither blank nor used by any earlier row, in ascending input
/// order; a row is discarded only when both slots were already seen.
pub proof fn lemma_dedup_paired_characterization(s: Seq<PairedScoreEntry>)
    ensures
        dedup_paired_spec(s) == dedup_paired_from(s, 0),
{
    assert(initial_seen() =~= paired_seen_before(s, 0));
    assert(s.subrange(0, s.len() as int) =~= s);
    lemma_dedup_paired_from_rec(s, 0, initial_seen());
}

proof fn lemma_dedup_paired_rec_idem(
    s: Seq<PairedScoreEntry>,
    sub: Set<Seq<char>>,
    sup: Set<Seq<char>>,
)
    requires
        sub.subset_of(sup),
    ensures
        dedup_paired_rec(dedup_paired_rec(s, sup), sub) == dedup_paired_rec(s, sup),
    decreases s.len(),
{
    if s.len() > 0 {
        let e = s.first();
        let a = e.player_id_a@;
        let b = e.player_id_b@;
        let sup2 = sup.insert(a).insert(b);
        let sub2 = sub.insert(a).insert(b);
        let rest = s.drop_first();
        if sup.contains(a) && sup.contains(b) {
            lemma_dedup_paired_rec_idem(rest, sub, sup2);
        } else {
            let rest_out = dedup_paired_rec(rest, sup2);
            let out = seq![e] + rest_out;
            assert(out.first() == e);
            assert(out.drop_first() =~= rest_out);
            lemma_dedup_paired_rec_idem(rest, sub2, sup2);
        }
    }
}

/// Re-running the pair deduplicator on its own output changes nothing: a row
/// kept because one slot was new stays kept when even fewer ids are used.
pub proof fn lemma_dedup_paired_idempotent(s: Seq<PairedScoreEntry>)
    ensures
        dedup_paired_spec(dedup_paired_spec(s)) == dedup_paired_spec(s),
{
    lemma_dedup_paired_rec_idem(s, initial_seen(), initial_seen());
}

/// Linear membership test against the seen-list.
fn contains_id(ids: &Vec<String>, id: &String) -> (r: bool)
    ensures
        r == id_set(ids@).contains(id@),
{
    let mut j: usize = 0;
    while j < ids.len()
        invariant
            j <= ids@.len(),
            forall|k: int| 0 <= k < j ==> (#[trigger] ids@[k])@ != id@,
        decreases ids@.len() - j,
    {
        if ids[j] == *id {
            proof {
                assert(0 <= j < ids@.len() && (ids@[j as int])@ == id@);
            }
            return true;
        }
        j += 1;
    }
    false
}

/// A seen-list holding only the sentinel id.
fn new_seen_list() -> (ids: Vec<String>)
    ensures
        id_set(ids@) == initial_seen(),
{
    let mut ids: Vec<String> = Vec::new();
    ids.push(String::new());
    proof {
        let s0 = Seq::<String>::empty();
        assert(id_set(s0) =~= Set::<Seq<char>>::empty());
        assert(ids@ =~= s0.push(ids@[0]));
        lemma_id_set_push(s0, ids@[0]);
        assert((ids@[0])@ == blank_id());
        assert(id_set(ids@) =~= initial_seen());
    }
    ids
}

proof fn lemma_id_set_push(ids: Seq<String>, x: String)
    ensures
        id_set(ids.push(x)) =~= id_set(ids).insert(x@),
{
    let lhs = id_set(ids.push(x));
    let rhs = id_set(ids).insert(x@);
    assert forall|p: Seq<char>| lhs.contains(p) implies rhs.contains(p) by {
        let k = choose|k: int| 0 <= k < ids.push(x).len() && (#[trigger] ids.push(x)[k])@ == p;
        if k < ids.len() {
            assert(ids[k] == ids.push(x)[k]);
        } else {
            assert(ids.push(x)[k] == x);
        }
    };
    assert forall|p: Seq<char>| rhs.contains(p) implies lhs.contains(p) by {
        if p == x@ {
            assert((ids.push(x)[ids.len() as int])@ == p);
        } else {
            let k = choose|k: int| 0 <= k < ids.len() && (#[trigger] ids[k])@ == p;
            assert((ids.push(x)[k])@ == p);
        }
    };
}

/// Keeps, for each distinct non-blank player id, only its first occurrence,
/// in input order. With input sorted ascending by score, first is best.
pub fn dedup_solo(entries: Vec<ScoreEntry>) -> (out: Vec<ScoreEntry>)
    ensures
        out@ == dedup_solo_spec(entries@),
{
    let ghost s = entries@;
    let mut out: Vec<ScoreEntry> = Vec::new();
    let mut seen = new_seen_list();
    proof {
        assert(s.subrange(0, s.len() as int) =~= s);
    }
    let n = entries.len();
    let mut i: usize = 0;
    while i < n
        invariant
            i <= n,
            n == s.len(),
            entries@ == s,
            dedup_solo_spec(s) == out@ + dedup_solo_rec(
                s.subrange(i as int, s.len() as int),
                id_set(seen@),
            ),
        decreases n - i,
    {
        let ghost suf = s.subrange(i as int, s.len() as int);
        let ghost ids0 = seen@;
        let ghost out0 = out@;
        proof {
            assert(suf.first() == s[i as int]);
            assert(suf.drop_first() =~= s.subrange(i as int + 1, s.len() as int));
        }
        if !contains_id(&seen, &entries[i].player_id) {
            let kept = entries[i].clone();
            out.push(kept);
            seen.push(entries[i].player_id.clone());
            proof {
                lemma_id_set_push(ids0, entries@[i as int].player_id);
                let rest = dedup_solo_rec(suf.drop_first(), id_set(seen@));
                assert(out0 + (seq![s[i as int]] + rest) =~= (out0 + seq![s[i as int]]) + rest);
            }
        }
        i += 1;
    }
    proof {
        assert(s.subrange(n as int, n as int) =~= Seq::<ScoreEntry>::empty());
    }
    out
}

/// Discards a cooperative row only when both of its slots already have a
/// better (earlier) result; a row in which at least one slot is new is kept,
/// in input order. With input sorted ascending by score, earlier is better.
pub fn dedup_paired(entries: Vec<PairedScoreEntry>) -> (out: Vec<PairedScoreEntry>)
    ensures
        out@ == dedup_paired_spec(entries@),
{
    let ghost s = entries@;
    let mut out: Vec<PairedScoreEntry> = Vec::new();
    let mut seen = new_seen_list();
    proof {
        assert(s.subrange(0, s.len() as int) =~= s);
    }
    let n = entries.len();
    let mut i: usize = 0;
    while i < n
        invariant
            i <= n,
            n == s.len(),
            entries@ == s,
            dedup_paired_spec(s) == out@ + dedup_paired_rec(
                s.subrange(i as int, s.len() as int),
                id_set(seen@),
            ),
        decreases n - i,
    {
        let ghost suf = s.subrange(i as int, s.len() as int);
        let ghost ids0 = seen@;
        let ghost out0 = out@;
        proof {
            assert(suf.first() == s[i as int]);
            assert(suf.drop_first() =~= s.subrange(i as int + 1, s.len() as int));
        }
        let a_seen = contains_id(&seen, &entries[i].player_id_a);
        let b_seen = contains_id(&seen, &entries[i].player_id_b);
        if !(a_seen && b_seen) {
            let kept = entries[i].clone();
            out.push(kept);
        }
        seen.push(entries[i].player_id_a.clone());
        let ghost ids1 = seen@;
        seen.push(entries[i].player_id_b.clone());
        proof {
            lemma_id_set_push(ids0, entries@[i as int].player_id_a);
            lemma_id_set_push(ids1, entries@[i as int].player_id_b);
            let e = s[i as int];
            let seen2 = id_set(ids0).insert(e.player_id_a@).insert(e.player_id_b@);
            assert(id_set(seen@) =~= seen2);
            let rest = dedup_paired_rec(suf.drop_first(), seen2);
            if !(a_seen && b_seen) {
                assert(out0 + (seq![e] + rest) =~= (out0 + seq![e]) + rest);
            }
        }
        i += 1;
    }
    proof {
        assert(s.subrange(n as int, n as int) =~= Seq::<PairedScoreEntry>::empty());
    }
    out
}

} // verus!
