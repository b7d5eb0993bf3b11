//! Properties of every evaluation, proved over the model in `retention`.
use crate::retention::{
    bucket_bottom, bucket_count, bucket_top, dropped, fill, fill_policies, fill_policy, hits,
    in_window, is_latest, is_newest_in, kept, kept_keys, latest, newest_in, valid_policies,
    PeriodicRetentionPolicy,
};
use vstd::prelude::*;

verus! {

/// Total of the `count` fields of `ps`.
pub open spec fn sum_counts(ps: Seq<PeriodicRetentionPolicy>) -> nat
    decreases ps.len(),
{
    if ps.len() == 0 {
        0
    } else {
        sum_counts(ps.drop_last()) + ps.last().count as nat
    }
}

/// A finite set with a member in `(lo, hi]` has a newest such member.
proof fn lemma_newest_exists(s: Set<u64>, lo: int, hi: int)
    requires
        s.finite(),
        hits(s, lo, hi),
    ensures
        is_newest_in(s, newest_in(s, lo, hi), lo, hi),
    decreases s.len(),
{
    let x = choose|t: u64| s.contains(t) && in_window(t, lo, hi);
    let r = s.remove(x);
    if hits(r, lo, hi) {
        lemma_newest_exists(r, lo, hi);
        let y = newest_in(r, lo, hi);
        let m = if x < y { y } else { x };
        assert(is_newest_in(s, m, lo, hi));
    } else {
        assert(is_newest_in(s, x, lo, hi));
    }
}

/// A finite non-empty set has a newest member.
proof fn lemma_latest_exists(s: Set<u64>)
    requires
        s.finite(),
        !s.is_empty(),
    ensures
        is_latest(s, latest(s)),
{
    let x = s.choose();
    assert(hits(s, -1, 0xffff_ffff_ffff_ffff));
    lemma_newest_exists(s, -1, 0xffff_ffff_ffff_ffff);
    assert(is_latest(s, newest_in(s, -1, 0xffff_ffff_ffff_ffff)));
}

/// A bucket step only adds, and only adds entries.
proof fn lemma_fill_grows(entries: Set<u64>, kept: Set<u64>, lo: int, hi: int)
    requires
        entries.finite(),
    ensures
        kept.subset_of(fill(entries, kept, lo, hi)),
        fill(entries, kept, lo, hi).subset_of(kept.union(entries)),
{
    if !hits(kept, lo, hi) && hits(entries, lo, hi) {
        lemma_newest_exists(entries, lo, hi);
    }
}

proof fn lemma_fill_policy_grows(
    entries: Set<u64>,
    kept: Set<u64>,
    anchor: u64,
    p: PeriodicRetentionPolicy,
    n: nat,
)
    requires
        entries.finite(),
    ensures
        kept.subset_of(fill_policy(entries, kept, anchor, p, n)),
        fill_policy(entries, kept, anchor, p, n).subset_of(kept.union(entries)),
    decreases n,
{
    if n > 0 {
        lemma_fill_policy_grows(entries, kept, anchor, p, (n - 1) as nat);
        lemma_fill_grows(
            entries,
            fill_policy(entries, kept, anchor, p, (n - 1) as nat),
            bucket_bottom(anchor, p.interval, n - 1),
            bucket_top(anchor, p.interval, n - 1),
        );
    }
}

proof fn lemma_fill_policies_grows(
    entries: Set<u64>,
    kept: Set<u64>,
    anchor: u64,
    ps: Seq<PeriodicRetentionPolicy>,
)
    requires
        entries.finite(),
    ensures
        kept.subset_of(fill_policies(entries, kept, anchor, ps)),
        fill_policies(entries, kept, anchor, ps).subset_of(kept.union(entries)),
    decreases ps.len(),
{
    if ps.len() > 0 {
        lemma_fill_policies_grows(entries, kept, anchor, ps.drop_last());
        lemma_fill_policy_grows(
            entries,
            fill_policies(entries, kept, anchor, ps.drop_last()),
            anchor,
            ps.last(),
            bucket_count(ps.last()),
        );
    }
}

/// The kept timestamps are timestamps of the input, and include its newest.
proof fn lemma_kept_keys_bounds(ps: Seq<PeriodicRetentionPolicy>, entries: Set<u64>)
    requires
        entries.finite(),
        !entries.is_empty(),
    ensures
        is_latest(entries, latest(entries)),
        kept_keys(ps, entries).contains(latest(entries)),
        kept_keys(ps, entries).subset_of(entries),
{
    lemma_latest_exists(entries);
    let anchor = latest(entries);
    lemma_fill_policies_grows(entries, set![anchor], anchor, ps);
}

/// A bucket step decides the same over a smaller pool that still holds
/// what it keeps.
proof fn lemma_fill_agree(
    entries: Set<u64>,
    pool: Set<u64>,
    kept: Set<u64>,
    lo: int,
    hi: int,
)
    requires
        entries.finite(),
        pool.subset_of(entries),
        fill(entries, kept, lo, hi).subset_of(pool),
    ensures
        fill(pool, kept, lo, hi) == fill(entries, kept, lo, hi),
{
    if !hits(kept, lo, hi) && hits(entries, lo, hi) {
        lemma_newest_exists(entries, lo, hi);
        let m = newest_in(entries, lo, hi);
        assert(pool.contains(m));
        assert(is_newest_in(pool, m, lo, hi));
        let q = newest_in(pool, lo, hi);
        assert(is_newest_in(pool, q, lo, hi));
    } else if !hits(kept, lo, hi) {
        assert(!hits(pool, lo, hi));
    }
}

proof fn lemma_fill_policy_agree(
    entries: Set<u64>,
    pool: Set<u64>,
    kept: Set<u64>,
    anchor: u64,
    p: PeriodicRetentionPolicy,
    n: nat,
)
    requires
        entries.finite(),
        pool.subset_of(entries),
        fill_policy(entries, kept, anchor, p, n).subset_of(pool),
    ensures
        fill_policy(pool, kept, anchor, p, n) == fill_policy(entries, kept, anchor, p, n),
    decreases n,
{
    if n > 0 {
        let prev = fill_policy(entries, kept, anchor, p, (n - 1) as nat);
        let lo = bucket_bottom(anchor, p.interval, n - 1);
        let hi = bucket_top(anchor, p.interval, n - 1);
        lemma_fill_grows(entries, prev, lo, hi);
        lemma_fill_policy_agree(entries, pool, kept, anchor, p, (n - 1) as nat);
        lemma_fill_agree(entries, pool, prev, lo, hi);
    }
}

proof fn lemma_fill_policies_agree(
    entries: Set<u64>,
    pool: Set<u64>,
    kept: Set<u64>,
    anchor: u64,
    ps: Seq<PeriodicRetentionPolicy>,
)
    requires
        entries.finite(),
        pool.subset_of(entries),
        fill_policies(entries, kept, anchor, ps).subset_of(pool),
    ensures
        fill_policies(pool, kept, anchor, ps) == fill_policies(entries, kept, anchor, ps),
    decreases ps.len(),
{
    if ps.len() > 0 {
        let prev = fill_policies(entries, kept, anchor, ps.drop_last());
        lemma_fill_policy_grows(entries, prev, anchor, ps.last(), bucket_count(ps.last()));
        lemma_fill_policies_agree(entries, pool, kept, anchor, ps.drop_last());
        lemma_fill_policy_agree(entries, pool, prev, anchor, ps.last(), bucket_count(ps.last()));
    }
}

/// Every entry is in exactly one half of the result, with its payload.
pub proof fn lemma_partition<T>(ps: Seq<PeriodicRetentionPolicy>, m: Map<u64, T>)
    ensures
        kept(ps, m).dom().disjoint(dropped(ps, m).dom()),
        kept(ps, m).union_prefer_right(dropped(ps, m)) == m,
{
    assert(kept(ps, m).union_prefer_right(dropped(ps, m)) =~= m);
}

/// The newest entry is always kept.
pub proof fn lemma_anchor_kept<T>(ps: Seq<PeriodicRetentionPolicy>, m: Map<u64, T>, t: u64)
    requires
        m.dom().finite(),
        m.contains_key(t),
        forall|u: u64| m.contains_key(u) ==> u <= t,
    ensures
        kept(ps, m).contains_key(t),
        kept(ps, m)[t] == m[t],
{
    lemma_kept_keys_bounds(ps, m.dom());
    assert(is_latest(m.dom(), t));
}

/// Evaluating again on what was kept keeps all of it and drops nothing.
pub proof fn lemma_idempotent<T>(ps: Seq<PeriodicRetentionPolicy>, m: Map<u64, T>)
    requires
        m.dom().finite(),
    ensures
        kept(ps, kept(ps, m)) == kept(ps, m),
        dropped(ps, kept(ps, m)) == Map::<u64, T>::empty(),
{
    let entries = m.dom();
    let once = kept(ps, m);
    if entries.is_empty() {
        assert(once.dom() =~= Set::<u64>::empty());
        assert(kept(ps, once) =~= once);
        assert(dropped(ps, once) =~= Map::<u64, T>::empty());
    } else {
        lemma_kept_keys_bounds(ps, entries);
        let anchor = latest(entries);
        let pool = kept_keys(ps, entries);
        assert(once.dom() =~= pool);
        assert(is_latest(pool, anchor));
        let a2 = latest(pool);
        assert(is_latest(pool, a2));
        assert(a2 == anchor);
        lemma_fill_policies_agree(entries, pool, set![anchor], anchor, ps);
        assert(kept_keys(ps, pool) == pool);
        assert(kept(ps, once) =~= once);
        assert(dropped(ps, once) =~= Map::<u64, T>::empty());
    }
}

/// The first bucket of a policy never adds: it either holds the anchor or
/// lies wholly after it.
proof fn lemma_first_bucket_adds_nothing(
    entries: Set<u64>,
    kept: Set<u64>,
    anchor: u64,
    p: PeriodicRetentionPolicy,
)
    requires
        is_latest(entries, anchor),
        kept.contains(anchor),
        p.interval > 0,
    ensures
        fill(entries, kept, bucket_bottom(anchor, p.interval, 0), bucket_top(anchor, p.interval, 0))
            == kept,
{
    let i = p.interval;
    let lo = bucket_bottom(anchor, i, 0);
    let hi = bucket_top(anchor, i, 0);
    assert(0 <= anchor % i < i) by (nonlinear_arith)
        requires
            i > 0,
    ;
    if anchor % i > 0 {
        assert(in_window(anchor, lo, hi));
        assert(hits(kept, lo, hi));
    } else {
        assert(lo == anchor);
        assert(!hits(entries, lo, hi));
    }
}

/// A bucket step adds at most one timestamp.
proof fn lemma_fill_len(entries: Set<u64>, kept: Set<u64>, lo: int, hi: int)
    requires
        kept.finite(),
    ensures
        fill(entries, kept, lo, hi).finite(),
        fill(entries, kept, lo, hi).len() <= kept.len() + 1,
{
}

/// After `n >= 1` buckets a policy has added at most `n - 1` timestamps.
proof fn lemma_fill_policy_len(
    entries: Set<u64>,
    kept: Set<u64>,
    anchor: u64,
    p: PeriodicRetentionPolicy,
    n: nat,
)
    requires
        kept.finite(),
        is_latest(entries, anchor),
        kept.contains(anchor),
        p.interval > 0,
        n >= 1,
    ensures
        fill_policy(entries, kept, anchor, p, n).finite(),
        fill_policy(entries, kept, anchor, p, n).len() + 1 <= kept.len() + n,
    decreases n,
{
    if n == 1 {
        assert(fill_policy(entries, kept, anchor, p, 0) == kept);
        lemma_first_bucket_adds_nothing(entries, kept, anchor, p);
    } else {
        lemma_fill_policy_len(entries, kept, anchor, p, (n - 1) as nat);
        lemma_fill_len(
            entries,
            fill_policy(entries, kept, anchor, p, (n - 1) as nat),
            bucket_bottom(anchor, p.interval, n - 1),
            bucket_top(anchor, p.interval, n - 1),
        );
    }
}

proof fn lemma_fill_policies_len(
    entries: Set<u64>,
    kept: Set<u64>,
    anchor: u64,
    ps: Seq<PeriodicRetentionPolicy>,
)
    requires
        entries.finite(),
        kept.finite(),
        is_latest(entries, anchor),
        kept.contains(anchor),
        valid_policies(ps),
    ensures
        fill_policies(entries, kept, anchor, ps).finite(),
        fill_policies(entries, kept, anchor, ps).len() <= kept.len() + sum_counts(ps),
    decreases ps.len(),
{
    if ps.len() > 0 {
        let rest = ps.drop_last();
        assert(valid_policies(rest)) by {
            assert forall|k: int| 0 <= k < rest.len() implies rest[k].interval > 0 by {
                assert(rest[k] == ps[k]);
            }
        }
        assert(ps.last().interval > 0) by {
            assert(ps.last() == ps[ps.len() - 1]);
        }
        lemma_fill_policies_len(entries, kept, anchor, rest);
        lemma_fill_policies_grows(entries, kept, anchor, rest);
        lemma_fill_policy_len(
            entries,
            fill_policies(entries, kept, anchor, rest),
            anchor,
            ps.last(),
            bucket_count(ps.last()),
        );
    }
}

/// At most one entry is kept for the anchor plus one per counted bucket of
/// each policy.
pub proof fn lemma_keep_bounded<T>(ps: Seq<PeriodicRetentionPolicy>, m: Map<u64, T>)
    requires
        m.dom().finite(),
        valid_policies(ps),
    ensures
        kept(ps, m).len() <= 1 + sum_counts(ps),
{
    let entries = m.dom();
    if entries.is_empty() {
        assert(kept(ps, m).dom() =~= Set::<u64>::empty());
    } else {
        lemma_kept_keys_bounds(ps, entries);
        let anchor = latest(entries);
        lemma_fill_policies_len(entries, set![anchor], anchor, ps);
        assert(kept(ps, m).dom() =~= kept_keys(ps, entries));
    }
}

} // verus!
