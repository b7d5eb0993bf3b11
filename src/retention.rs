use std::collections::BTreeMap;
use vstd::prelude::*;
use vstd::std_specs::cmp::OrdSpec;
use vstd::std_specs::iter::IteratorSpec;

verus! {

/// "Keep up to `count` entries, one per `interval` seconds, counting back
/// from the newest entry."
///
/// Buckets are aligned to whole multiples of `interval`: the first bucket is
/// the aligned period that holds the newest entry (or the one just after it,
/// when the newest entry sits exactly on a boundary), and `count` further
/// buckets reach back from there.
#[derive(Debug, Clone, Copy)]
pub struct PeriodicRetentionPolicy {
    pub interval: u64,
    pub count: u32,
}

/// The two halves of an evaluation: what survives and what may be deleted.
pub struct RetentionResult<T> {
    pub keep: BTreeMap<u64, T>,
    pub drop: BTreeMap<u64, T>,
}

/// `t` lies in the bucket `(lo, hi]`.
pub open spec fn in_window(t: u64, lo: int, hi: int) -> bool {
    lo < t && t <= hi
}

/// Some member of `s` lies in the bucket `(lo, hi]`.
pub open spec fn hits(s: Set<u64>, lo: int, hi: int) -> bool {
    exists|t: u64| s.contains(t) && in_window(t, lo, hi)
}

/// `m` is the largest member of `s` in the bucket `(lo, hi]`.
pub open spec fn is_newest_in(s: Set<u64>, m: u64, lo: int, hi: int) -> bool {
    &&& s.contains(m)
    &&& in_window(m, lo, hi)
    &&& forall|t: u64| s.contains(t) && in_window(t, lo, hi) ==> t <= m
}

/// The newest member of `s` in the bucket `(lo, hi]` (meaningful when `hits`).
pub open spec fn newest_in(s: Set<u64>, lo: int, hi: int) -> u64 {
    choose|m: u64| is_newest_in(s, m, lo, hi)
}

/// `m` is the largest member of `s`.
pub open spec fn is_latest(s: Set<u64>, m: u64) -> bool {
    s.contains(m) && forall|t: u64| s.contains(t) ==> t <= m
}

/// The newest timestamp of a non-empty set: the anchor of every bucket.
pub open spec fn latest(s: Set<u64>) -> u64 {
    choose|m: u64| is_latest(s, m)
}

/// Upper (inclusive) end of bucket `n` of a policy with the given interval:
/// the anchor rounded down to a multiple of `interval`, plus one interval,
/// minus `n` intervals. The lower (exclusive) end is one interval below.
pub open spec fn bucket_top(anchor: u64, interval: u64, n: int) -> int {
    anchor - anchor % interval + interval - n * interval
}

pub open spec fn bucket_bottom(anchor: u64, interval: u64, n: int) -> int {
    bucket_top(anchor, interval, n) - interval
}

/// One bucket: if nothing kept lies in it yet, keep the newest entry that
/// does, if there is one.
pub open spec fn fill(entries: Set<u64>, kept: Set<u64>, lo: int, hi: int) -> Set<u64> {
    if hits(kept, lo, hi) || !hits(entries, lo, hi) {
        kept
    } else {
        kept.insert(newest_in(entries, lo, hi))
    }
}

/// The kept set after the first `n` buckets of policy `p`.
pub open spec fn fill_policy(
    entries: Set<u64>,
    kept: Set<u64>,
    anchor: u64,
    p: PeriodicRetentionPolicy,
    n: nat,
) -> Set<u64>
    decreases n,
{
    if n == 0 {
        kept
    } else {
        let before = fill_policy(entries, kept, anchor, p, (n - 1) as nat);
        fill(
            entries,
            before,
            bucket_bottom(anchor, p.interval, n - 1),
            bucket_top(anchor, p.interval, n - 1),
        )
    }
}

/// Number of buckets a policy looks at: the anchor's own period and
/// `count` more.
pub open spec fn bucket_count(p: PeriodicRetentionPolicy) -> nat {
    p.count as nat + 1
}

/// The kept set after all buckets of every policy in `ps`, in order.
pub open spec fn fill_policies(
    entries: Set<u64>,
    kept: Set<u64>,
    anchor: u64,
    ps: Seq<PeriodicRetentionPolicy>,
) -> Set<u64>
    decreases ps.len(),
{
    if ps.len() == 0 {
        kept
    } else {
        let before = fill_policies(entries, kept, anchor, ps.drop_last());
        fill_policy(entries, before, anchor, ps.last(), bucket_count(ps.last()))
    }
}

/// The timestamps that an evaluation keeps: the newest entry, then every
/// bucket of every policy filled in order.
pub open spec fn kept_keys(ps: Seq<PeriodicRetentionPolicy>, entries: Set<u64>) -> Set<u64> {
    if entries.is_empty() {
        Set::empty()
    } else {
        let anchor = latest(entries);
        fill_policies(entries, set![anchor], anchor, ps)
    }
}

/// The entries that an evaluation keeps.
pub open spec fn kept<T>(ps: Seq<PeriodicRetentionPolicy>, m: Map<u64, T>) -> Map<u64, T> {
    m.restrict(kept_keys(ps, m.dom()))
}

/// The entries that an evaluation drops.
pub open spec fn dropped<T>(ps: Seq<PeriodicRetentionPolicy>, m: Map<u64, T>) -> Map<u64, T> {
    m.remove_keys(kept_keys(ps, m.dom()))
}

/// Every policy has a positive interval.
pub open spec fn valid_policies(ps: Seq<PeriodicRetentionPolicy>) -> bool {
    forall|i: int| 0 <= i < ps.len() ==> ps[i].interval > 0
}

/// The timestamps of `m`, in increasing order.
fn timestamps<T>(m: &BTreeMap<u64, T>) -> (ks: Vec<u64>)
    ensures
        ks@.to_set() == m@.dom(),
        increasing(ks@),
{
    broadcast use vstd::std_specs::btree::axiom_spec_keys_iter;
    broadcast use lemma_increasing_keys;

    let mut ks: Vec<u64> = Vec::new();
    proof {
        assert(vstd::std_specs::btree::key_obeys_cmp_spec::<u64>());
    }
    for k in it: m.keys()
        invariant
            ks.len() == it.index(),
            it.seq().unref().to_set() == m@.dom(),
            ks@ == it.seq().unref().take(it.index()),
            it.index() == it.seq().len() ==> ks@.to_set() == m@.dom(),
            forall|a: int, b: int| 0 <= a < b < it.seq().len() ==> *it.seq()[a] < *it.seq()[b],
    {
        ks.push(*k);
        assert(ks@ =~= it.seq().unref().take(it.index() + 1));
        assert(it.index() + 1 == it.seq().len() ==> ks@ =~= it.seq().unref());
    }
    ks
}

/// Whether any of `ks` lies in the bucket `(lo, hi]`.
fn any_in_window(ks: &Vec<u64>, lo: i128, hi: i128) -> (r: bool)
    ensures
        r == hits(ks@.to_set(), lo as int, hi as int),
{
    let mut i: usize = 0;
    while i < ks.len()
        invariant
            0 <= i <= ks.len(),
            forall|j: int| 0 <= j < i ==> !in_window(#[trigger] ks@[j], lo as int, hi as int),
        decreases ks.len() - i,
    {
        let t = ks[i];
        if lo < t as i128 && t as i128 <= hi {
            assert(ks@.to_set().contains(t));
            return true;
        }
        i += 1;
    }
    assert forall|t: u64| ks@.to_set().contains(t) implies !in_window(t, lo as int, hi as int) by {
        let j = ks@.index_of(t);
        assert(ks@[j] == t);
    }
    false
}

/// `ks` is strictly increasing.
pub open spec fn increasing(ks: Seq<u64>) -> bool {
    forall|a: int, b: int| 0 <= a < b < ks.len() ==> ks[a] < ks[b]
}

/// The newest of the increasing `ks` in the bucket `(lo, hi]`, if one lies
/// there, found by binary search.
fn newest_in_window(ks: &Vec<u64>, lo: i128, hi: i128) -> (r: Option<u64>)
    requires
        increasing(ks@),
    ensures
        match r {
            Some(m) => is_newest_in(ks@.to_set(), m, lo as int, hi as int) && m == newest_in(
                ks@.to_set(),
                lo as int,
                hi as int,
            ),
            None => !hits(ks@.to_set(), lo as int, hi as int),
        },
{
    // Narrow down to the number of keys at or below `hi`.
    let mut below: usize = 0;
    let mut above: usize = ks.len();
    while below < above
        invariant
            0 <= below <= above <= ks.len(),
            increasing(ks@),
            forall|j: int| 0 <= j < below ==> #[trigger] ks@[j] <= hi,
            forall|j: int| above <= j < ks.len() ==> #[trigger] ks@[j] > hi,
        decreases above - below,
    {
        let mid = below + (above - below) / 2;
        if ks[mid] as i128 <= hi {
            below = mid + 1;
        } else {
            above = mid;
        }
    }
    let ghost set = ks@.to_set();
    if below > 0 && lo < ks[below - 1] as i128 {
        let t = ks[below - 1];
        assert forall|u: u64| set.contains(u) && in_window(u, lo as int, hi as int) implies u
            <= t by {
            let j = ks@.index_of(u);
            assert(ks@[j] == u);
        }
        assert(set.contains(t));
        assert(is_newest_in(set, t, lo as int, hi as int));
        let ghost m = newest_in(set, lo as int, hi as int);
        assert(is_newest_in(set, m, lo as int, hi as int));
        Some(t)
    } else {
        assert forall|u: u64| set.contains(u) implies !in_window(u, lo as int, hi as int) by {
            let j = ks@.index_of(u);
            assert(ks@[j] == u);
            if j < below - 1 {
                assert(ks@[j] < ks@[below - 1]);
            }
        }
        None
    }
}

/// The last of the non-empty increasing `ks` is its largest.
proof fn lemma_last_is_latest(ks: Seq<u64>)
    requires
        ks.len() > 0,
        increasing(ks),
    ensures
        is_latest(ks.to_set(), ks.last()),
        latest(ks.to_set()) == ks.last(),
{
    let set = ks.to_set();
    assert(set.contains(ks[ks.len() - 1]));
    assert forall|t: u64| set.contains(t) implies t <= ks.last() by {
        let j = ks.index_of(t);
        assert(ks[j] == t);
        if j < ks.len() - 1 {
            assert(ks[j] < ks[ks.len() - 1]);
        }
    }
    assert(is_latest(set, ks.last()));
    let m = latest(set);
    assert(is_latest(set, m));
}

/// Partition `inputs` into the entries that the policies retain and the rest.
///
/// The newest entry is always kept. Then, for each policy in order and each
/// of its buckets from the newest back, a bucket that holds no kept entry
/// yet gets its newest entry kept, if it holds any. Everything else is
/// dropped. Payloads are moved, never inspected.
pub fn apply<T>(policies: &[PeriodicRetentionPolicy], inputs: BTreeMap<u64, T>) -> (r:
    RetentionResult<T>)
    requires
        valid_policies(policies@),
    ensures
        r.keep@ == kept(policies@, inputs@),
        r.drop@ == dropped(policies@, inputs@),
{
    let ks = timestamps(&inputs);
    let ghost entries = inputs@.dom();
    if ks.len() == 0 {
        assert(entries =~= Set::<u64>::empty());
        let r = RetentionResult { keep: BTreeMap::new(), drop: inputs };
        assert(r.keep@ =~= kept(policies@, inputs@));
        assert(r.drop@ =~= dropped(policies@, inputs@));
        return r;
    }
    let anchor = ks[ks.len() - 1];
    proof {
        lemma_last_is_latest(ks@);
    }
    let ghost start = set![anchor];
    let mut kk: Vec<u64> = Vec::new();
    kk.push(anchor);
    assert(kk@ =~= seq![anchor]);
    assert forall|x: u64| kk@.contains(x) <==> start.contains(x) by {
        if kk@.contains(x) {
            assert(kk@[kk@.index_of(x)] == x);
        }
        if x == anchor {
            assert(kk@[0] == x);
        }
    }
    assert(kk@.to_set() =~= start);
    let mut i: usize = 0;
    while i < policies.len()
        invariant
            0 <= i <= policies.len(),
            valid_policies(policies@),
            ks@.to_set() == entries,
            increasing(ks@),
            anchor == latest(entries),
            start == set![anchor],
            kk@.no_duplicates(),
            kk@.to_set() == fill_policies(entries, start, anchor, policies@.take(i as int)),
            kk@.to_set().subset_of(entries),
        decreases policies.len() - i,
    {
        let p = policies[i];
        let ghost before = kk@.to_set();
        let steps: u64 = p.count as u64 + 1;
        let mut n: u64 = 0;
        while n < steps
            invariant
                0 <= n <= steps,
                steps == bucket_count(p),
                p.interval > 0,
                ks@.to_set() == entries,
                increasing(ks@),
                kk@.no_duplicates(),
                kk@.to_set() == fill_policy(entries, before, anchor, p, n as nat),
                kk@.to_set().subset_of(entries),
            decreases steps - n,
        {
            assert((n as int) * (p.interval as int) <= 0x1_0000_0000 * 0xffff_ffff_ffff_ffff)
                by (nonlinear_arith)
                requires
                    n <= 0x1_0000_0000,
                    p.interval <= 0xffff_ffff_ffff_ffff,
            ;
            assert(anchor % p.interval <= anchor) by (nonlinear_arith)
                requires
                    p.interval > 0,
            ;
            let hi: i128 = (anchor - anchor % p.interval) as i128 + p.interval as i128 - (n as i128)
                * (p.interval as i128);
            let lo: i128 = hi - p.interval as i128;
            assert(hi == bucket_top(anchor, p.interval, n as int));
            assert(lo == bucket_bottom(anchor, p.interval, n as int));
            if !any_in_window(&kk, lo, hi) {
                if let Some(m) = newest_in_window(&ks, lo, hi) {
                    let ghost m_spec = newest_in(entries, lo as int, hi as int);
                    assert(is_newest_in(entries, m_spec, lo as int, hi as int));
                    proof {
                        if kk@.contains(m) {
                            assert(kk@.to_set().contains(m));
                            assert(hits(kk@.to_set(), lo as int, hi as int));
                        }
                        kk@.lemma_push_to_set_commute(m);
                    }
                    kk.push(m);
                    assert(kk@.to_set() =~= fill_policy(entries, before, anchor, p, (n + 1) as nat));
                }
            }
            n += 1;
        }
        assert(policies@.take(i + 1).drop_last() =~= policies@.take(i as int));
        i += 1;
    }
    assert(policies@.take(policies.len() as int) =~= policies@);
    assert(kk@.to_set() == kept_keys(policies@, entries));
    let ghost all = inputs@;
    let mut rest = inputs;
    let mut keep: BTreeMap<u64, T> = BTreeMap::new();
    let mut j: usize = 0;
    while j < kk.len()
        invariant
            0 <= j <= kk.len(),
            kk@.no_duplicates(),
            kk@.to_set().subset_of(all.dom()),
            keep@ == all.restrict(kk@.take(j as int).to_set()),
            rest@ == all.remove_keys(kk@.take(j as int).to_set()),
        decreases kk.len() - j,
    {
        let k = kk[j];
        assert(kk@.to_set().contains(k));
        assert(!kk@.take(j as int).contains(k));
        assert(rest@.contains_key(k));
        if let Some(v) = rest.remove(&k) {
            keep.insert(k, v);
        }
        assert(kk@.take(j + 1) =~= kk@.take(j as int).push(k));
        proof {
            kk@.take(j as int).lemma_push_to_set_commute(k);
        }
        assert(kk@.take(j + 1).to_set() =~= kk@.take(j as int).to_set().insert(k));
        assert(keep@ =~= all.restrict(kk@.take(j + 1).to_set()));
        assert(rest@ =~= all.remove_keys(kk@.take(j + 1).to_set()));
        j += 1;
    }
    assert(kk@.take(kk.len() as int) =~= kk@);
    RetentionResult { keep, drop: rest }
}

/// Keys that a map yields in increasing order are strictly increasing
/// integers.
broadcast proof fn lemma_increasing_keys(s: Seq<&u64>)
    ensures
        #[trigger] vstd::std_specs::btree::increasing_seq(s) ==> forall|a: int, b: int|
            0 <= a < b < s.len() ==> *s[a] < *s[b],
{
    broadcast use vstd::laws_cmp::group_laws_cmp;

    if vstd::std_specs::btree::increasing_seq(s) {
        assert(vstd::laws_cmp::obeys_cmp::<&u64>());
        vstd::std_specs::btree::axiom_increasing_seq_meaning(s);
        assert forall|a: int, b: int| 0 <= a < b < s.len() implies *s[a] < *s[b] by {
            assert(<&u64 as OrdSpec>::cmp_spec(&s[a], &s[b]) is Less);
        }
    }
}

} // verus!
