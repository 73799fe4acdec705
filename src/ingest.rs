use vstd::prelude::*;
use crate::sequence::Sequence;
use crate::clustering::{
    Clustering,
    above_threshold, cluster_index, entries_wf, lemma_cluster_index_unique, lemma_member_index_unique, exceeds, has_cluster, has_member, member_index,
    members_recorded, pair_count, recorded, ClusterView, MembersView,
};

verus! {

/// One observation: key symbols, value symbols, increment.
pub type Observation = (Seq<u8>, Seq<u8>, nat);

/// The clusters after recording `obs` in order, starting from `es`.
pub open spec fn ingested(es: Seq<ClusterView>, obs: Seq<Observation>) -> Seq<ClusterView>
    decreases obs.len(),
{
    if obs.len() == 0 {
        es
    } else {
        let o = obs.last();
        recorded(ingested(es, obs.drop_last()), o.0, o.1, o.2)
    }
}

/// Sum of the increments of `obs` for the pair (`k`, `v`).
pub open spec fn tally(obs: Seq<Observation>, k: Seq<u8>, v: Seq<u8>) -> nat
    decreases obs.len(),
{
    if obs.len() == 0 {
        0
    } else {
        tally(obs.drop_last(), k, v) + if obs.last().0 == k && obs.last().1 == v {
            obs.last().2
        } else {
            0
        }
    }
}

proof fn lemma_members_recorded(ms: MembersView, v: Seq<u8>, inc: nat, v2: Seq<u8>)
    requires
        crate::clustering::distinct_values(ms),
    ensures
        crate::clustering::distinct_values(members_recorded(ms, v, inc)),
        members_recorded(ms, v, inc).len() > 0,
        has_member(members_recorded(ms, v, inc), v2) == (has_member(ms, v2) || v2 == v),
        has_member(members_recorded(ms, v, inc), v2) ==> {
            let r = members_recorded(ms, v, inc);
            r[member_index(r, v2)].1 == (if has_member(ms, v2) { ms[member_index(ms, v2)].1 } else { 0 })
                + (if v2 == v { inc } else { 0 })
        },
{
    let r = members_recorded(ms, v, inc);
    if has_member(ms, v) {
        let j = member_index(ms, v);
        assert forall|a: int, b: int| 0 <= a < b < r.len() implies r[a].0 != r[b].0 by {
            assert(ms[a].0 != ms[b].0);
        }
        assert(r[j].0 == v);
    } else {
        assert forall|a: int, b: int| 0 <= a < b < r.len() implies r[a].0 != r[b].0 by {
            if b < ms.len() {
                assert(ms[a].0 != ms[b].0);
            }
        }
        assert(r[ms.len() as int].0 == v);
    }
    if has_member(r, v2) {
        let w = member_index(r, v2);
        if has_member(ms, v2) {
            let j2 = member_index(ms, v2);
            if has_member(ms, v) {
                assert(r[j2].0 == v2);
            } else {
                assert(r[j2].0 == v2);
            }
            lemma_member_index_unique(r, v2, j2);
        } else {
            if has_member(ms, v) {
                assert(r[w].0 == ms[w].0 || w == member_index(ms, v));
            } else {
                assert(w == ms.len());
            }
        }
    } else {
        if has_member(ms, v2) {
            let j2 = member_index(ms, v2);
            assert(r[j2].0 == v2);
        }
        if v2 == v {
            if has_member(ms, v) {
                assert(r[member_index(ms, v)].0 == v);
            } else {
                assert(r[ms.len() as int].0 == v);
            }
        }
    }
}

/// Recording keeps the clusters well formed and adds the increment to the
/// count of its own pair and to no other.
pub proof fn lemma_recorded_count(es: Seq<ClusterView>, k: Seq<u8>, v: Seq<u8>, inc: nat, k2: Seq<u8>, v2: Seq<u8>)
    requires
        entries_wf(es),
    ensures
        entries_wf(recorded(es, k, v, inc)),
        pair_count(recorded(es, k, v, inc), k2, v2) == pair_count(es, k2, v2) + if k2 == k && v2 == v {
            inc
        } else {
            0
        },
{
    let r = recorded(es, k, v, inc);
    if has_cluster(es, k) {
        let i = cluster_index(es, k);
        lemma_members_recorded(es[i].1, v, inc, v2);
        assert forall|a: int, b: int| 0 <= a < b < r.len() implies r[a].0 != r[b].0 by {
            assert(es[a].0 != es[b].0);
        }
        assert forall|a: int| 0 <= a < r.len() implies (#[trigger] r[a].1).len() > 0
            && crate::clustering::distinct_values(r[a].1) by {
            assert(es[a].1.len() > 0);
        }
        if has_cluster(es, k2) {
            let i2 = cluster_index(es, k2);
            assert(r[i2].0 == k2);
            lemma_cluster_index_unique(r, k2, i2);
            if i2 == i {
                assert(k2 == k);
            } else {
                assert(k2 != k);
                assert(r[i2] == es[i2]);
            }
        } else {
            if has_cluster(r, k2) {
                let w = cluster_index(r, k2);
                assert(es[w].0 == r[w].0);
            }
        }
    } else {
        let n = es.len() as int;
        assert forall|a: int, b: int| 0 <= a < b < r.len() implies r[a].0 != r[b].0 by {
            if b < n {
                assert(es[a].0 != es[b].0);
            } else {
                assert(es[a].0 != k);
            }
        }
        assert forall|a: int| 0 <= a < r.len() implies (#[trigger] r[a].1).len() > 0
            && crate::clustering::distinct_values(r[a].1) by {
            if a < n {
                assert(es[a].1.len() > 0);
            }
        }
        if has_cluster(es, k2) {
            let i2 = cluster_index(es, k2);
            assert(r[i2].0 == k2);
            lemma_cluster_index_unique(r, k2, i2);
            assert(r[i2] == es[i2]);
            assert(k2 != k);
        } else if k2 == k {
            lemma_cluster_index_unique(r, k2, n);
            let ms = r[n].1;
            if v2 == v {
                lemma_member_index_unique(ms, v2, 0);
            } else {
                assert(!has_member(ms, v2)) by {
                    if has_member(ms, v2) {
                        let w = member_index(ms, v2);
                        assert(w == 0);
                    }
                }
            }
        } else {
            assert(!has_cluster(r, k2)) by {
                if has_cluster(r, k2) {
                    let w = cluster_index(r, k2);
                    if w < n {
                        assert(es[w].0 == k2);
                    }
                }
            }
        }
    }
}

/// After ingesting `obs`, each pair's count is its count before plus the
/// increments that `obs` holds for it.
pub proof fn lemma_ingested_count(es: Seq<ClusterView>, obs: Seq<Observation>, k: Seq<u8>, v: Seq<u8>)
    requires
        entries_wf(es),
    ensures
        entries_wf(ingested(es, obs)),
        pair_count(ingested(es, obs), k, v) == pair_count(es, k, v) + tally(obs, k, v),
    decreases obs.len(),
{
    if obs.len() > 0 {
        let o = obs.last();
        lemma_ingested_count(es, obs.drop_last(), k, v);
        lemma_recorded_count(ingested(es, obs.drop_last()), o.0, o.1, o.2, k, v);
    }
}

proof fn lemma_tally_remove(obs: Seq<Observation>, i: int, k: Seq<u8>, v: Seq<u8>)
    requires
        0 <= i < obs.len(),
    ensures
        tally(obs, k, v) == tally(obs.remove(i), k, v) + if obs[i].0 == k && obs[i].1 == v {
            obs[i].2
        } else {
            0
        },
    decreases obs.len(),
{
    if i < obs.len() - 1 {
        lemma_tally_remove(obs.drop_last(), i, k, v);
        assert(obs.remove(i).drop_last() =~= obs.drop_last().remove(i));
        assert(obs.remove(i).last() == obs.last());
    } else {
        assert(obs.remove(i) =~= obs.drop_last());
    }
}

proof fn lemma_tally_permutation(obs1: Seq<Observation>, obs2: Seq<Observation>, k: Seq<u8>, v: Seq<u8>)
    requires
        obs1.to_multiset() == obs2.to_multiset(),
    ensures
        tally(obs1, k, v) == tally(obs2, k, v),
    decreases obs1.len(),
{
    broadcast use vstd::seq_lib::group_to_multiset_ensures;

    if obs1.len() == 0 {
        assert(obs2.to_multiset().len() == 0);
        assert(obs2.len() == 0);
    } else {
        let x = obs1.last();
        let d = obs1.drop_last();
        assert(obs1 == d.push(x));
        assert(obs1.to_multiset() == d.to_multiset().insert(x));
        assert(obs2.to_multiset().count(x) > 0);
        assert(obs2.contains(x));
        let j = choose|j: int| 0 <= j < obs2.len() && obs2[j] == x;
        vstd::seq_lib::to_multiset_remove(obs2, j);
        assert(d.to_multiset() =~= obs2.remove(j).to_multiset());
        lemma_tally_permutation(d, obs2.remove(j), k, v);
        lemma_tally_remove(obs2, j, k, v);
    }
}

/// Ingesting the same observations in any order gives every (key, value)
/// pair the same count.
pub proof fn lemma_record_order_independent(
    es: Seq<ClusterView>,
    obs1: Seq<Observation>,
    obs2: Seq<Observation>,
    k: Seq<u8>,
    v: Seq<u8>,
)
    requires
        entries_wf(es),
        obs1.to_multiset() == obs2.to_multiset(),
    ensures
        pair_count(ingested(es, obs1), k, v) == pair_count(ingested(es, obs2), k, v),
{
    lemma_ingested_count(es, obs1, k, v);
    lemma_ingested_count(es, obs2, k, v);
    lemma_tally_permutation(obs1, obs2, k, v);
}

/// Filtering at a higher threshold keeps only keys that a lower one keeps.
pub proof fn lemma_filter_monotone(es: Seq<ClusterView>, t1: nat, t2: nat, k: Seq<u8>)
    requires
        t1 <= t2,
    ensures
        has_cluster(above_threshold(es, t2), k) ==> has_cluster(above_threshold(es, t1), k),
{
    broadcast use vstd::seq_lib::group_filter_ensures;

    let f2 = above_threshold(es, t2);
    let f1 = above_threshold(es, t1);
    if has_cluster(f2, k) {
        let i = cluster_index(f2, k);
        let c = f2[i];
        assert(f2.contains(c));
        es.lemma_filter_contains_rev(exceeds(t2), c);
        es.lemma_filter_pred(exceeds(t2), i);
        let w = choose|w: int| 0 <= w < es.len() && es[w] == c;
        assert(exceeds(t1)(es[w]));
        assert(f1.contains(c));
        let u = choose|u: int| 0 <= u < f1.len() && f1[u] == c;
        assert(f1[u].0 == k);
    }
}

/// The observations of `obs` as symbols and counts.
pub open spec fn observations<const K: usize, const V: usize>(obs: Seq<(Sequence<K>, Sequence<V>, usize)>) -> Seq<Observation> {
    obs.map_values(|o: (Sequence<K>, Sequence<V>, usize)| (o.0@, o.1@, o.2 as nat))
}

proof fn lemma_tally_prefix(obs: Seq<Observation>, j: int, k: Seq<u8>, v: Seq<u8>)
    requires
        0 <= j <= obs.len(),
    ensures
        tally(obs.take(j), k, v) <= tally(obs, k, v),
    decreases obs.len(),
{
    if j < obs.len() {
        lemma_tally_prefix(obs.drop_last(), j, k, v);
        assert(obs.drop_last().take(j) =~= obs.take(j));
    } else {
        assert(obs.take(j) =~= obs);
    }
}

impl<const K: usize, const V: usize> Clustering<K, V> {
    /// Records every observation of `obs` in order.
    pub fn record_all(&mut self, obs: &[(Sequence<K>, Sequence<V>, usize)])
        requires
            old(self).wf(),
            forall|i: int| 0 <= i < obs@.len() ==> (#[trigger] obs@[i]).0.wf() && obs@[i].1.wf(),
            forall|k: Seq<u8>, v: Seq<u8>|
                pair_count(old(self).entries(), k, v) + tally(observations(obs@), k, v) <= usize::MAX,
        ensures
            final(self).wf(),
            final(self).entries() == ingested(old(self).entries(), observations(obs@)),
    {
        let ghost start = self.entries();
        let ghost all = observations(obs@);
        let mut i: usize = 0;
        while i < obs.len()
            invariant
                self.wf(),
                entries_wf(start),
                all == observations(obs@),
                i <= obs@.len(),
                forall|a: int| 0 <= a < obs@.len() ==> (#[trigger] obs@[a]).0.wf() && obs@[a].1.wf(),
                forall|k: Seq<u8>, v: Seq<u8>| pair_count(start, k, v) + tally(all, k, v) <= usize::MAX,
                self.entries() == ingested(start, all.take(i as int)),
            decreases obs@.len() - i,
        {
            let o = &obs[i];
            proof {
                let k = o.0@;
                let v = o.1@;
                lemma_ingested_count(start, all.take(i as int), k, v);
                assert(all.take(i + 1).drop_last() =~= all.take(i as int));
                assert(all.take(i + 1).last() == (k, v, o.2 as nat));
                assert(tally(all.take(i + 1), k, v) == tally(all.take(i as int), k, v) + o.2);
                lemma_tally_prefix(all, i + 1, k, v);
                assert(pair_count(start, k, v) + tally(all, k, v) <= usize::MAX);
            }
            self.record(&o.0, &o.1, o.2);
            i = i + 1;
        }
        proof {
            assert(all.take(i as int) =~= all);
        }
    }
}

} // verus!
