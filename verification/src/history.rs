//! Check outcomes and the newest-first ranking of a target's history.
//!
//! A history is a sequence of outcomes in the order in which they were
//! appended. Ranking puts later `observed_at` first; of two outcomes with the
//! same `observed_at`, the one appended later ranks first.

use vstd::prelude::*;

verus! {

/// One recorded poll of one target. Timestamps count microseconds since the
/// Unix epoch.
#[derive(Clone, Copy, Debug, PartialEq, Eq, Structural)]
pub struct CheckOutcome {
    pub target_id: i64,
    pub status_code: i64,
    pub observed_at: i64,
}

/// The predicate "belongs to `target`".
pub open spec fn of_target(target: int) -> spec_fn(CheckOutcome) -> bool {
    |o: CheckOutcome| o.target_id == target
}

/// The outcomes of `target` in `log`, in the order in which they were appended.
pub open spec fn history_of(log: Seq<CheckOutcome>, target: int) -> Seq<CheckOutcome> {
    log.filter(of_target(target))
}

/// The place that an outcome observed at `at` takes in `ranked`: behind every
/// leading entry that was observed strictly later.
pub open spec fn place_of(ranked: Seq<CheckOutcome>, at: int) -> nat
    decreases ranked.len(),
{
    if ranked.len() == 0 || ranked[0].observed_at <= at {
        0
    } else {
        1 + place_of(ranked.drop_first(), at)
    }
}

/// `history` ranked newest first.
pub open spec fn newest_first(history: Seq<CheckOutcome>) -> Seq<CheckOutcome>
    decreases history.len(),
{
    if history.len() == 0 {
        Seq::empty()
    } else {
        let ranked = newest_first(history.drop_last());
        ranked.insert(place_of(ranked, history.last().observed_at as int) as int, history.last())
    }
}

/// The first `k` entries of `s`, or all of `s` if it has fewer.
pub open spec fn prefix(s: Seq<CheckOutcome>, k: nat) -> Seq<CheckOutcome> {
    if s.len() <= k {
        s
    } else {
        s.take(k as int)
    }
}

/// The `k` newest outcomes of `history`, newest first.
pub open spec fn recent(history: Seq<CheckOutcome>, k: nat) -> Seq<CheckOutcome> {
    prefix(newest_first(history), k)
}

/// The `k` newest outcomes of `target` in `log`, newest first.
pub open spec fn recent_of(log: Seq<CheckOutcome>, target: int, k: nat) -> Seq<CheckOutcome> {
    recent(history_of(log, target), k)
}

/// What a bounded ranking `kept` of at most `k` entries becomes when `o` is
/// appended to the history behind it.
pub open spec fn keep_newest(kept: Seq<CheckOutcome>, o: CheckOutcome, k: nat) -> Seq<
    CheckOutcome,
> {
    let p = place_of(kept, o.observed_at as int);
    if p >= k {
        kept
    } else {
        prefix(kept.insert(p as int, o), k)
    }
}

/// `ranked` is ordered by `observed_at`, latest first.
pub open spec fn is_newest_first(ranked: Seq<CheckOutcome>) -> bool {
    forall|i: int, j: int|
        0 <= i < j < ranked.len() ==> ranked[i].observed_at >= ranked[j].observed_at
}

/// `place_of` is the only index that has strictly later entries before it and
/// none at it.
pub proof fn lemma_place_of(ranked: Seq<CheckOutcome>, at: int)
    ensures
        place_of(ranked, at) <= ranked.len(),
        forall|i: int| 0 <= i < place_of(ranked, at) ==> ranked[i].observed_at > at,
        place_of(ranked, at) < ranked.len() ==> ranked[place_of(ranked, at) as int].observed_at
            <= at,
    decreases ranked.len(),
{
    if ranked.len() == 0 || ranked[0].observed_at <= at {
    } else {
        let rest = ranked.drop_first();
        lemma_place_of(rest, at);
        assert forall|i: int| 0 <= i < place_of(ranked, at) implies ranked[i].observed_at
            > at by {
            if i > 0 {
                assert(ranked[i] == rest[i - 1]);
            }
        }
        if place_of(ranked, at) < ranked.len() {
            assert(ranked[place_of(ranked, at) as int] == rest[place_of(rest, at) as int]);
        }
    }
}

/// An index with strictly later entries before it and none at it is `place_of`.
pub proof fn lemma_place_of_is(ranked: Seq<CheckOutcome>, at: int, p: int)
    requires
        0 <= p <= ranked.len(),
        forall|i: int| 0 <= i < p ==> ranked[i].observed_at > at,
        p < ranked.len() ==> ranked[p].observed_at <= at,
    ensures
        place_of(ranked, at) == p,
{
    lemma_place_of(ranked, at);
    let q = place_of(ranked, at) as int;
    if q < p {
        assert(ranked[q].observed_at > at);
    } else if p < q {
        assert(ranked[p].observed_at > at);
    }
}

/// Ranking keeps every outcome of the history, each as often as it occurs.
pub proof fn lemma_newest_first_permutes(history: Seq<CheckOutcome>)
    ensures
        newest_first(history).len() == history.len(),
        newest_first(history).to_multiset() == history.to_multiset(),
    decreases history.len(),
{
    if history.len() == 0 {
        assert(newest_first(history) =~= history);
    } else {
        let ranked = newest_first(history.drop_last());
        let o = history.last();
        lemma_newest_first_permutes(history.drop_last());
        lemma_place_of(ranked, o.observed_at as int);
        let p = place_of(ranked, o.observed_at as int) as int;
        vstd::seq_lib::to_multiset_insert(ranked, p, o);
        vstd::seq_lib::to_multiset_build(history.drop_last(), o);
        assert(history.drop_last().push(o) =~= history);
    }
}

/// A ranking is ordered by `observed_at`, latest first.
pub proof fn lemma_newest_first_ordered(history: Seq<CheckOutcome>)
    ensures
        is_newest_first(newest_first(history)),
    decreases history.len(),
{
    if history.len() > 0 {
        let ranked = newest_first(history.drop_last());
        let o = history.last();
        lemma_newest_first_ordered(history.drop_last());
        lemma_newest_first_permutes(history.drop_last());
        lemma_place_of(ranked, o.observed_at as int);
        let p = place_of(ranked, o.observed_at as int) as int;
        let out = ranked.insert(p, o);
        assert forall|i: int, j: int| 0 <= i < j < out.len() implies out[i].observed_at
            >= out[j].observed_at by {
            if j < p {
                assert(out[i] == ranked[i] && out[j] == ranked[j]);
            } else if j == p {
                assert(out[i] == ranked[i]);
            } else if i < p {
                assert(out[i] == ranked[i] && out[j] == ranked[j - 1]);
                if p < j - 1 {
                    assert(ranked[p].observed_at >= ranked[j - 1].observed_at);
                }
            } else if i == p {
                assert(out[j] == ranked[j - 1]);
                if p < j - 1 {
                    assert(ranked[p].observed_at >= ranked[j - 1].observed_at);
                }
            } else {
                assert(out[i] == ranked[i - 1] && out[j] == ranked[j - 1]);
            }
        }
    }
}

/// An outcome that is no older than any outcome of the history ranks first
/// once it is appended.
pub proof fn lemma_latest_ranks_first(history: Seq<CheckOutcome>, o: CheckOutcome)
    requires
        forall|i: int| 0 <= i < history.len() ==> history[i].observed_at <= o.observed_at,
    ensures
        newest_first(history.push(o)).len() == history.len() + 1,
        newest_first(history.push(o))[0] == o,
{
    let ranked = newest_first(history);
    assert(history.push(o).drop_last() =~= history);
    lemma_newest_first_permutes(history);
    lemma_newest_first_permutes(history.push(o));
    if ranked.len() > 0 {
        assert(ranked.to_multiset().count(ranked[0]) > 0) by {
            vstd::seq_lib::to_multiset_contains(ranked, ranked[0]);
            assert(ranked.contains(ranked[0]));
        }
        vstd::seq_lib::to_multiset_contains(history, ranked[0]);
        let i = choose|i: int| 0 <= i < history.len() && history[i] == ranked[0];
        assert(history[i].observed_at <= o.observed_at);
    }
    lemma_place_of_is(ranked, o.observed_at as int, 0);
}

/// Cutting a ranking to `m` entries cuts the place of a new outcome to `m`.
proof fn lemma_place_of_take(ranked: Seq<CheckOutcome>, at: int, m: int)
    requires
        0 <= m <= ranked.len(),
    ensures
        place_of(ranked.take(m), at) == if place_of(ranked, at) <= m {
            place_of(ranked, at)
        } else {
            m as nat
        },
{
    lemma_place_of(ranked, at);
    let p = place_of(ranked, at) as int;
    let q = if p <= m { p } else { m };
    lemma_place_of_is(ranked.take(m), at, q);
}

/// Ranking a history that grew by one outcome and keeping `k` is the same as
/// putting that outcome into the `k` kept before.
pub proof fn lemma_recent_push(history: Seq<CheckOutcome>, o: CheckOutcome, k: nat)
    ensures
        recent(history.push(o), k) == keep_newest(recent(history, k), o, k),
{
    let ranked = newest_first(history);
    let at = o.observed_at as int;
    assert(history.push(o).drop_last() =~= history);
    lemma_place_of(ranked, at);
    let p = place_of(ranked, at) as int;
    let grown = ranked.insert(p, o);
    assert(newest_first(history.push(o)) == grown);
    let kept = prefix(ranked, k);
    if ranked.len() <= k {
        assert(kept == ranked);
        if p >= k {
            assert(grown =~= ranked.push(o));
            assert(prefix(grown, k) =~= ranked);
        }
    } else {
        lemma_place_of_take(ranked, at, k as int);
        if p >= k {
            assert(prefix(grown, k) =~= kept);
        } else {
            assert(prefix(grown, k) =~= prefix(kept.insert(p, o), k));
        }
    }
}

/// The `k` newest are at most `k`, are all of the history when it has no more
/// than `k`, and are ordered latest first.
pub proof fn lemma_recent_bounded_and_ordered(history: Seq<CheckOutcome>, k: nat)
    ensures
        recent(history, k).len() == if history.len() <= k {
            history.len()
        } else {
            k
        },
        is_newest_first(recent(history, k)),
{
    lemma_newest_first_permutes(history);
    lemma_newest_first_ordered(history);
    let ranked = newest_first(history);
    let kept = recent(history, k);
    assert forall|i: int, j: int| 0 <= i < j < kept.len() implies kept[i].observed_at
        >= kept[j].observed_at by {
        assert(kept[i] == ranked[i] && kept[j] == ranked[j]);
    }
}

/// Ranks `outcome` into `kept` if its place is among the first `k`, and
/// drops what then falls behind the first `k`.
pub fn rank_into(kept: &mut Vec<CheckOutcome>, outcome: CheckOutcome, k: usize)
    ensures
        final(kept)@ == keep_newest(old(kept)@, outcome, k as nat),
        old(kept)@.len() <= k ==> final(kept)@.len() <= k,
{
    let mut p: usize = 0;
    while p < kept.len() && kept[p].observed_at > outcome.observed_at
        invariant
            p <= kept@.len(),
            kept@ == old(kept)@,
            forall|i: int| 0 <= i < p ==> kept@[i].observed_at > outcome.observed_at,
        decreases kept@.len() - p,
    {
        p = p + 1;
    }
    proof {
        lemma_place_of_is(kept@, outcome.observed_at as int, p as int);
    }
    if p < k {
        kept.insert(p, outcome);
        if kept.len() > k {
            kept.truncate(k);
        }
    }
}

/// The `k` newest outcomes of `target` in `log`, newest first.
pub fn recent_in_log(log: &Vec<CheckOutcome>, target: i64, k: usize) -> (kept: Vec<CheckOutcome>)
    ensures
        kept@ == recent_of(log@, target as int, k as nat),
        kept@.len() <= k,
        is_newest_first(kept@),
{
    let mut kept: Vec<CheckOutcome> = Vec::new();
    let mut j: usize = 0;
    proof {
        assert(log@.take(0) =~= Seq::<CheckOutcome>::empty());
        reveal(Seq::filter);
        assert(history_of(log@.take(0), target as int) =~= Seq::<CheckOutcome>::empty());
    }
    while j < log.len()
        invariant
            j <= log@.len(),
            kept@ == recent_of(log@.take(j as int), target as int, k as nat),
            kept@.len() <= k,
        decreases log@.len() - j,
    {
        let o = log[j];
        proof {
            let before = log@.take(j as int);
            assert(log@.take(j + 1) =~= before.push(o));
            before.lemma_filter_push(o, of_target(target as int));
            if o.target_id == target {
                lemma_recent_push(history_of(before, target as int), o, k as nat);
            }
        }
        if o.target_id == target {
            rank_into(&mut kept, o, k);
        }
        j = j + 1;
    }
    proof {
        assert(log@.take(log@.len() as int) =~= log@);
        lemma_recent_bounded_and_ordered(history_of(log@, target as int), k as nat);
    }
    kept
}

} // verus!
