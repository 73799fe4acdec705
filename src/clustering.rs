use vstd::prelude::*;
use crate::sequence::{Sequence, BARCODE_LENGTH, CDR_LENGTH, CDR, UMI};

verus! {

/// The members of a cluster as (value symbols, count), in order of first observation.
pub type MembersView = Seq<(Seq<u8>, nat)>;

/// A cluster as (key symbols, members).
pub type ClusterView = (Seq<u8>, MembersView);

/// Index of the first member of `ms` whose value is `v`, if any.
pub open spec fn member_index(ms: MembersView, v: Seq<u8>) -> int {
    choose|j: int| 0 <= j < ms.len() && ms[j].0 == v
}

/// Whether some member of `ms` has value `v`.
pub open spec fn has_member(ms: MembersView, v: Seq<u8>) -> bool {
    exists|j: int| 0 <= j < ms.len() && ms[j].0 == v
}

/// Index of the cluster of `es` with key `k`, if any.
pub open spec fn cluster_index(es: Seq<ClusterView>, k: Seq<u8>) -> int {
    choose|i: int| 0 <= i < es.len() && es[i].0 == k
}

/// Whether some cluster of `es` has key `k`.
pub open spec fn has_cluster(es: Seq<ClusterView>, k: Seq<u8>) -> bool {
    exists|i: int| 0 <= i < es.len() && es[i].0 == k
}

/// The members after adding `inc` to value `v` (a new member at the end if absent).
pub open spec fn members_recorded(ms: MembersView, v: Seq<u8>, inc: nat) -> MembersView {
    if has_member(ms, v) {
        let j = member_index(ms, v);
        ms.update(j, (v, ms[j].1 + inc))
    } else {
        ms.push((v, inc))
    }
}

/// The clusters after recording `inc` observations of `v` under key `k`.
pub open spec fn recorded(es: Seq<ClusterView>, k: Seq<u8>, v: Seq<u8>, inc: nat) -> Seq<ClusterView> {
    if has_cluster(es, k) {
        let i = cluster_index(es, k);
        es.update(i, (k, members_recorded(es[i].1, v, inc)))
    } else {
        es.push((k, seq![(v, inc)]))
    }
}

/// Sum of the counts of `ms`.
pub open spec fn members_total(ms: MembersView) -> nat
    decreases ms.len(),
{
    if ms.len() == 0 {
        0
    } else {
        members_total(ms.drop_last()) + ms.last().1
    }
}

/// The largest count of `ms` (0 where there is none).
pub open spec fn members_max(ms: MembersView) -> nat
    decreases ms.len(),
{
    if ms.len() == 0 {
        0
    } else if members_max(ms.drop_last()) >= ms.last().1 {
        members_max(ms.drop_last())
    } else {
        ms.last().1
    }
}

/// The counts of `ms`, in order.
pub open spec fn counts_of(ms: MembersView) -> Seq<usize> {
    ms.map_values(|m: (Seq<u8>, nat)| m.1 as usize)
}

/// Every cluster's counts add up to a `usize`.
pub open spec fn totals_fit(es: Seq<ClusterView>) -> bool {
    forall|i: int| 0 <= i < es.len() ==> members_total(#[trigger] es[i].1) <= usize::MAX
}

/// The count of value `v` under key `k` (0 where there is none).
pub open spec fn pair_count(es: Seq<ClusterView>, k: Seq<u8>, v: Seq<u8>) -> nat {
    if has_cluster(es, k) && has_member(es[cluster_index(es, k)].1, v) {
        let ms = es[cluster_index(es, k)].1;
        ms[member_index(ms, v)].1
    } else {
        0
    }
}

/// The clusters whose total count exceeds `t`, in their order.
pub open spec fn above_threshold(es: Seq<ClusterView>, t: nat) -> Seq<ClusterView> {
    es.filter(exceeds(t))
}

/// Whether a cluster's counts add up to more than `t`.
pub open spec fn exceeds(t: nat) -> spec_fn(ClusterView) -> bool {
    |c: ClusterView| members_total(c.1) > t
}

/// Values of `ms` are pairwise distinct.
pub open spec fn distinct_values(ms: MembersView) -> bool {
    forall|a: int, b: int| 0 <= a < b < ms.len() ==> ms[a].0 != ms[b].0
}

/// Keys of `es` are pairwise distinct, and each cluster has at least one
/// member, with distinct values.
pub open spec fn entries_wf(es: Seq<ClusterView>) -> bool {
    &&& forall|a: int, b: int| 0 <= a < b < es.len() ==> es[a].0 != es[b].0
    &&& forall|a: int| 0 <= a < es.len() ==> (#[trigger] es[a].1).len() > 0 && distinct_values(es[a].1)
}

/// A cluster found at `i` is the one that `cluster_index` names.
pub proof fn lemma_cluster_index_unique(es: Seq<ClusterView>, k: Seq<u8>, i: int)
    requires
        entries_wf(es),
        0 <= i < es.len(),
        es[i].0 == k,
    ensures
        has_cluster(es, k),
        cluster_index(es, k) == i,
{
    assert(has_cluster(es, k));
    let c = cluster_index(es, k);
    if c != i {
        if c < i {
            assert(es[c].0 != es[i].0);
        } else {
            assert(es[i].0 != es[c].0);
        }
    }
}

/// A member found at `j` is the one that `member_index` names.
pub proof fn lemma_member_index_unique(ms: MembersView, v: Seq<u8>, j: int)
    requires
        distinct_values(ms),
        0 <= j < ms.len(),
        ms[j].0 == v,
    ensures
        has_member(ms, v),
        member_index(ms, v) == j,
{
    assert(has_member(ms, v));
    let c = member_index(ms, v);
    if c != j {
        if c < j {
            assert(ms[c].0 != ms[j].0);
        } else {
            assert(ms[j].0 != ms[c].0);
        }
    }
}

/// The total of a prefix is at most the total.
pub proof fn lemma_total_prefix(ms: MembersView, j: int)
    requires
        0 <= j <= ms.len(),
    ensures
        members_total(ms.take(j)) <= members_total(ms),
    decreases ms.len(),
{
    if j < ms.len() {
        lemma_total_prefix(ms.drop_last(), j);
        assert(ms.drop_last().take(j) =~= ms.take(j));
    } else {
        assert(ms.take(j) =~= ms);
    }
}

/// Keeping some clusters keeps keys distinct and clusters well formed.
pub proof fn lemma_filter_keeps_wf(es: Seq<ClusterView>, t: nat)
    requires
        entries_wf(es),
    ensures
        entries_wf(above_threshold(es, t)),
    decreases es.len(),
{
    reveal(Seq::filter);
    let p = exceeds(t);
    let f = above_threshold(es, t);
    if es.len() > 0 {
        let d = es.drop_last();
        assert(entries_wf(d));
        lemma_filter_keeps_wf(d, t);
        let fd = above_threshold(d, t);
        assert(es.drop_last() == d);
        if p(es.last()) {
            assert(f == fd.push(es.last()));
            assert forall|a: int, b: int| 0 <= a < b < f.len() implies f[a].0 != f[b].0 by {
                if b == f.len() - 1 {
                    assert(fd.contains(fd[a]));
                    d.lemma_filter_contains_rev(p, fd[a]);
                    let w = choose|w: int| 0 <= w < d.len() && d[w] == fd[a];
                    assert(es[w] == d[w]);
                }
            }
        }
    }
}

/// Variable regions seen with each barcode.
pub type UMItoCDRClustering = Clustering<BARCODE_LENGTH, CDR_LENGTH>;

/// Barcodes seen with each variable region.
pub type CDRtoUMIClustering = Clustering<CDR_LENGTH, BARCODE_LENGTH>;

/// Records one read pair in both indexes: the barcode's side counts the
/// variable region only where fewer than 55 in 100 of its symbols are
/// ambiguous (else it adds 0, which still creates the entry); the variable
/// region's side always counts the barcode.
pub fn record_pair(umi_to_cdr: &mut UMItoCDRClustering, cdr_to_umi: &mut CDRtoUMIClustering, umi: &UMI, cdr: &CDR)
    requires
        old(umi_to_cdr).wf(),
        old(cdr_to_umi).wf(),
        umi.wf(),
        cdr.wf(),
        pair_count(old(umi_to_cdr).entries(), umi@, cdr@) < usize::MAX,
        pair_count(old(cdr_to_umi).entries(), cdr@, umi@) < usize::MAX,
    ensures
        final(umi_to_cdr).wf(),
        final(cdr_to_umi).wf(),
        final(umi_to_cdr).entries() == recorded(
            old(umi_to_cdr).entries(),
            umi@,
            cdr@,
            if 100 * crate::sequence::count_symbol(cdr@, crate::sequence::AMBIGUOUS) < 55 * CDR_LENGTH { 1 } else { 0 },
        ),
        final(cdr_to_umi).entries() == recorded(old(cdr_to_umi).entries(), cdr@, umi@, 1),
{
    let inc: usize = if cdr.is_mostly_called() { 1 } else { 0 };
    umi_to_cdr.record(umi, cdr, inc);
    cdr_to_umi.record(cdr, umi, 1);
}

/// A member's count is at most the cluster's total.
pub proof fn lemma_member_within_total(ms: MembersView, j: int)
    requires
        0 <= j < ms.len(),
    ensures
        ms[j].1 <= members_total(ms),
    decreases ms.len(),
{
    if j < ms.len() - 1 {
        lemma_member_within_total(ms.drop_last(), j);
    }
}

/// All observations of one key: the values seen with it and how often.
pub struct Cluster<const K: usize, const V: usize> {
    key: Sequence<K>,
    members: Vec<(Sequence<V>, usize)>,
}

impl<const K: usize, const V: usize> View for Cluster<K, V> {
    type V = ClusterView;

    closed spec fn view(&self) -> ClusterView {
        (self.key@, self.members@.map_values(|m: (Sequence<V>, usize)| (m.0@, m.1 as nat)))
    }
}

impl<const K: usize, const V: usize> Cluster<K, V> {
    /// Key and values have their fixed widths.
    pub closed spec fn wf(&self) -> bool {
        &&& self.key.wf()
        &&& forall|j: int| 0 <= j < self.members@.len() ==> (#[trigger] self.members@[j]).0.wf()
    }

    /// The key of the cluster.
    pub fn key(&self) -> (r: &Sequence<K>)
        requires
            self.wf(),
        ensures
            r@ == self@.0,
            r.wf(),
    {
        &self.key
    }

    /// Number of distinct values in the cluster.
    pub fn len(&self) -> (r: usize)
        ensures
            r == self@.1.len(),
    {
        self.members.len()
    }

    /// The `j`-th value of the cluster.
    pub fn value(&self, j: usize) -> (r: &Sequence<V>)
        requires
            self.wf(),
            j < self@.1.len(),
        ensures
            r@ == self@.1[j as int].0,
            r.wf(),
    {
        &self.members[j].0
    }

    /// Whether the counts of the cluster add up to more than `t`.
    pub fn total_exceeds(&self, t: usize) -> (r: bool)
        ensures
            r == (members_total(self@.1) > t),
    {
        let mut sum: u128 = 0;
        let mut j: usize = 0;
        while j < self.members.len()
            invariant
                j <= self.members@.len(),
                sum <= t,
                sum == members_total(self@.1.take(j as int)),
            decreases self.members@.len() - j,
        {
            proof {
                assert(self@.1.take(j + 1).drop_last() =~= self@.1.take(j as int));
            }
            sum = sum + self.members[j].1 as u128;
            j = j + 1;
            if sum > t as u128 {
                proof {
                    lemma_total_prefix(self@.1, j as int);
                }
                return true;
            }
        }
        proof {
            assert(self@.1.take(j as int) =~= self@.1);
        }
        false
    }

    /// Sum of the counts of the cluster.
    pub fn total(&self) -> (r: usize)
        requires
            members_total(self@.1) <= usize::MAX,
        ensures
            r == members_total(self@.1),
    {
        let mut sum: usize = 0;
        let mut j: usize = 0;
        while j < self.members.len()
            invariant
                j <= self.members@.len(),
                members_total(self@.1) <= usize::MAX,
                sum == members_total(self@.1.take(j as int)),
            decreases self.members@.len() - j,
        {
            proof {
                assert(self@.1.take(j + 1).drop_last() =~= self@.1.take(j as int));
                lemma_total_prefix(self@.1, j + 1);
            }
            sum = sum + self.members[j].1;
            j = j + 1;
        }
        proof {
            assert(self@.1.take(j as int) =~= self@.1);
        }
        sum
    }

    /// The counts of the members, in order.
    pub fn counts(&self) -> (r: Vec<usize>)
        ensures
            r@ == counts_of(self@.1),
            forall|j: int| 0 <= j < r@.len() ==> r@[j] as nat == self@.1[j].1,
    {
        let mut out: Vec<usize> = Vec::new();
        let mut j: usize = 0;
        while j < self.members.len()
            invariant
                j <= self.members@.len(),
                out@ =~= counts_of(self@.1).take(j as int),
            decreases self.members@.len() - j,
        {
            out.push(self.members[j].1);
            j = j + 1;
        }
        proof {
            assert(counts_of(self@.1).take(j as int) =~= counts_of(self@.1));
        }
        out
    }

    /// The largest count of the cluster.
    pub fn max_count(&self) -> (r: usize)
        ensures
            r == members_max(self@.1),
    {
        let mut best: usize = 0;
        let mut j: usize = 0;
        while j < self.members.len()
            invariant
                j <= self.members@.len(),
                best == members_max(self@.1.take(j as int)),
            decreases self.members@.len() - j,
        {
            proof {
                assert(self@.1.take(j + 1).drop_last() =~= self@.1.take(j as int));
            }
            if self.members[j].1 > best {
                best = self.members[j].1;
            }
            j = j + 1;
        }
        proof {
            assert(self@.1.take(j as int) =~= self@.1);
        }
        best
    }

    /// Position of value `v` among the members, if it is one.
    pub fn find(&self, v: &Sequence<V>) -> (r: Option<usize>)
        ensures
            r matches Some(j) ==> j < self@.1.len() && self@.1[j as int].0 == v@,
            r is None ==> !has_member(self@.1, v@),
    {
        let mut j: usize = 0;
        while j < self.members.len()
            invariant
                j <= self.members@.len(),
                forall|a: int| 0 <= a < j ==> self@.1[a].0 != v@,
            decreases self.members@.len() - j,
        {
            if self.members[j].0.same_symbols(v) {
                return Some(j);
            }
            j = j + 1;
        }
        None
    }

    /// How often the `j`-th value was counted.
    pub fn count(&self, j: usize) -> (r: usize)
        requires
            j < self@.1.len(),
        ensures
            r == self@.1[j as int].1,
    {
        self.members[j].1
    }
}

/// A counted index from key sequences of width `K` to the value sequences of
/// width `V` seen with each of them.
pub struct Clustering<const K: usize, const V: usize> {
    clusters: Vec<Cluster<K, V>>,
}

impl<const K: usize, const V: usize> Clustering<K, V> {
    /// The clusters, in storage order.
    pub closed spec fn entries(&self) -> Seq<ClusterView> {
        self.clusters@.map_values(|c: Cluster<K, V>| c@)
    }

    /// Keys distinct, clusters non-empty with distinct values, all widths fixed.
    pub open spec fn wf(&self) -> bool {
        &&& entries_wf(self.entries())
        &&& self.widths_ok()
    }

    /// Every key and value has its fixed width.
    pub closed spec fn widths_ok(&self) -> bool {
        forall|i: int| 0 <= i < self.clusters@.len() ==> (#[trigger] self.clusters@[i]).wf()
    }

    /// An index with no clusters.
    pub fn new() -> (r: Self)
        ensures
            r.wf(),
            r.entries() == Seq::<ClusterView>::empty(),
    {
        let r = Clustering { clusters: Vec::new() };
        proof {
            assert(r.entries() =~= Seq::<ClusterView>::empty());
        }
        r
    }

    /// Position of the cluster with key `k`, if there is one.
    pub fn find(&self, k: &Sequence<K>) -> (r: Option<usize>)
        ensures
            r matches Some(i) ==> i < self.entries().len() && self.entries()[i as int].0 == k@,
            r is None ==> !has_cluster(self.entries(), k@),
    {
        let mut i: usize = 0;
        while i < self.clusters.len()
            invariant
                i <= self.clusters@.len(),
                forall|a: int| 0 <= a < i ==> self.entries()[a].0 != k@,
            decreases self.clusters@.len() - i,
        {
            if self.clusters[i].key.same_symbols(k) {
                return Some(i);
            }
            i = i + 1;
        }
        None
    }

    /// Adds `increment` to the count of `value` under `key`, creating the
    /// cluster and the member at 0 first where they are missing.
    pub fn record(&mut self, key: &Sequence<K>, value: &Sequence<V>, increment: usize)
        requires
            old(self).wf(),
            key.wf(),
            value.wf(),
            pair_count(old(self).entries(), key@, value@) + increment <= usize::MAX,
        ensures
            final(self).wf(),
            final(self).entries() == recorded(old(self).entries(), key@, value@, increment as nat),
    {
        let ghost es = self.entries();
        match self.find(key) {
            Some(i) => {
                proof {
                    lemma_cluster_index_unique(es, key@, i as int);
                }
                let ghost ms = es[i as int].1;
                match self.clusters[i].find(value) {
                    Some(j) => {
                        proof {
                            lemma_member_index_unique(ms, value@, j as int);
                        }
                        let c = self.clusters[i].members[j].1;
                        self.clusters[i].members[j].1 = c + increment;
                        proof {
                            assert(self.clusters@[i as int]@.1 =~= members_recorded(ms, value@, increment as nat));
                        }
                    },
                    None => {
                        self.clusters[i].members.push((value.duplicate(), increment));
                        proof {
                            assert(self.clusters@[i as int]@.1 =~= members_recorded(ms, value@, increment as nat));
                        }
                    },
                }
                proof {
                    assert(self.clusters@[i as int]@.0 == key@);
                    assert(self.entries() =~= recorded(es, key@, value@, increment as nat));
                }
            },
            None => {
                let mut members: Vec<(Sequence<V>, usize)> = Vec::new();
                members.push((value.duplicate(), increment));
                self.clusters.push(Cluster { key: key.duplicate(), members });
                proof {
                    assert(self.clusters@.last()@.1 =~= seq![(value@, increment as nat)]);
                    assert(self.entries() =~= recorded(es, key@, value@, increment as nat));
                }
            },
        }
    }

    /// Removes every cluster whose counts add up to `threshold` or less; the
    /// others keep their order and contents.
    pub fn filter_threshold(&mut self, threshold: usize)
        requires
            old(self).wf(),
        ensures
            final(self).wf(),
            final(self).entries() == above_threshold(old(self).entries(), threshold as nat),
    {
        let ghost es = self.entries();
        let ghost cs = self.clusters@;
        let ghost n = cs.len();
        let mut source: Vec<Cluster<K, V>> = Vec::new();
        std::mem::swap(&mut self.clusters, &mut source);
        let mut reversed: Vec<Cluster<K, V>> = Vec::new();
        while source.len() > 0
            invariant
                n == cs.len(),
                source@.len() + reversed@.len() == n,
                source@ == cs.take(source@.len() as int),
                forall|a: int| 0 <= a < reversed@.len() ==> reversed@[a] == cs[n - 1 - a],
            decreases source@.len(),
        {
            let ghost before = source@;
            let c = source.pop().unwrap();
            proof {
                assert(source@ =~= before.drop_last());
                assert(c == cs[before.len() - 1]);
                assert(source@ =~= cs.take(source@.len() as int));
            }
            reversed.push(c);
        }
        let mut kept: Vec<Cluster<K, V>> = Vec::new();
        let ghost pred = exceeds(threshold as nat);
        while reversed.len() > 0
            invariant
                n == cs.len(),
                es == cs.map_values(|c: Cluster<K, V>| c@),
                entries_wf(es),
                forall|i: int| 0 <= i < n ==> (#[trigger] cs[i]).wf(),
                reversed@.len() <= n,
                forall|a: int| 0 <= a < reversed@.len() ==> reversed@[a] == cs[n - 1 - a],
                kept@.map_values(|c: Cluster<K, V>| c@) == es.take(n - reversed@.len()).filter(pred),
                forall|a: int| 0 <= a < kept@.len() ==> (#[trigger] kept@[a]).wf(),
                pred == exceeds(threshold as nat),
            decreases reversed@.len(),
        {
            let ghost k = n - reversed@.len();
            let ghost before = reversed@;
            let c = reversed.pop().unwrap();
            proof {
                reveal(Seq::filter);
                assert(reversed@ =~= before.drop_last());
                assert(c == cs[k]);
                assert(es.take(k + 1).drop_last() =~= es.take(k));
                assert(es.take(k + 1).last() == c@);
                assert(c@ == es[k]);
            }
            if c.total_exceeds(threshold) {
                kept.push(c);
                proof {
                    assert(kept@.map_values(|c: Cluster<K, V>| c@) =~= es.take(k + 1).filter(pred));
                }
            } else {
                proof {
                    assert(kept@.map_values(|c: Cluster<K, V>| c@) =~= es.take(k + 1).filter(pred));
                }
            }
        }
        self.clusters = kept;
        proof {
            assert(es.take(n as int) =~= es);
            lemma_filter_keeps_wf(es, threshold as nat);
        }
    }

    /// The largest count of each cluster, in storage order.
    pub fn max_counts(&self) -> (r: Vec<usize>)
        ensures
            r@.len() == self.entries().len(),
            forall|i: int| 0 <= i < r@.len() ==> r@[i] as nat == members_max(self.entries()[i].1),
    {
        let mut out: Vec<usize> = Vec::new();
        let mut i: usize = 0;
        while i < self.clusters.len()
            invariant
                i <= self.clusters@.len(),
                out@.len() == i,
                forall|a: int| 0 <= a < i ==> out@[a] as nat == members_max(self.entries()[a].1),
            decreases self.clusters@.len() - i,
        {
            out.push(self.clusters[i].max_count());
            i = i + 1;
        }
        out
    }

    /// Whether every cluster's counts add up to a `usize`.
    pub fn totals_fit(&self) -> (r: bool)
        ensures
            r == totals_fit(self.entries()),
    {
        let mut i: usize = 0;
        while i < self.clusters.len()
            invariant
                i <= self.clusters@.len(),
                forall|a: int| 0 <= a < i ==> members_total(#[trigger] self.entries()[a].1) <= usize::MAX,
            decreases self.clusters@.len() - i,
        {
            if self.clusters[i].total_exceeds(usize::MAX) {
                assert(members_total(self.entries()[i as int].1) > usize::MAX);
                return false;
            }
            i = i + 1;
        }
        true
    }

    /// The count of `value` under `key` (0 where there is none).
    pub fn pair_count(&self, key: &Sequence<K>, value: &Sequence<V>) -> (r: usize)
        requires
            self.wf(),
        ensures
            r == pair_count(self.entries(), key@, value@),
    {
        match self.find(key) {
            Some(i) => {
                proof {
                    lemma_cluster_index_unique(self.entries(), key@, i as int);
                }
                match self.clusters[i].find(value) {
                    Some(j) => {
                        proof {
                            lemma_member_index_unique(self.entries()[i as int].1, value@, j as int);
                        }
                        self.clusters[i].count(j)
                    },
                    None => 0,
                }
            },
            None => 0,
        }
    }

    /// Number of clusters.
    pub fn len(&self) -> (r: usize)
        ensures
            r == self.entries().len(),
    {
        self.clusters.len()
    }

    /// The `i`-th cluster.
    pub fn cluster(&self, i: usize) -> (r: &Cluster<K, V>)
        requires
            self.wf(),
            i < self.entries().len(),
        ensures
            r@ == self.entries()[i as int],
            r.wf(),
    {
        &self.clusters[i]
    }
}

} // verus!
