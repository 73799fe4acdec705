use vstd::prelude::*;
use crate::clustering::{above_threshold, exceeds, has_cluster, ClusterView, UMItoCDRClustering};
use crate::sequence::UMI;

verus! {

/// Whether a barcode is missing from the clusters `es`.
pub open spec fn missing_from(es: Seq<ClusterView>) -> spec_fn(Seq<u8>) -> bool {
    |u: Seq<u8>| !has_cluster(es, u)
}

/// The symbols of each barcode of `us`.
pub open spec fn umi_views(us: Seq<UMI>) -> Seq<Seq<u8>> {
    us.map_values(|u: UMI| u@)
}

/// The reference barcodes that are not keys of the index, with their number.
pub fn find_set_difference(affinity_umis: &[UMI], umi_index: &UMItoCDRClustering) -> (r: (usize, Vec<UMI>))
    requires
        umi_index.wf(),
        forall|i: int| 0 <= i < affinity_umis@.len() ==> (#[trigger] affinity_umis@[i]).wf(),
    ensures
        umi_views(r.1@) == umi_views(affinity_umis@).filter(missing_from(umi_index.entries())),
        r.0 == r.1@.len(),
        forall|i: int| 0 <= i < r.1@.len() ==> (#[trigger] r.1@[i]).wf(),
{
    let ghost p = missing_from(umi_index.entries());
    let ghost all = umi_views(affinity_umis@);
    let mut not_found: Vec<UMI> = Vec::new();
    let mut i: usize = 0;
    while i < affinity_umis.len()
        invariant
            umi_index.wf(),
            p == missing_from(umi_index.entries()),
            all == umi_views(affinity_umis@),
            forall|a: int| 0 <= a < affinity_umis@.len() ==> (#[trigger] affinity_umis@[a]).wf(),
            i <= affinity_umis@.len(),
            umi_views(not_found@) == all.take(i as int).filter(p),
            not_found@.len() <= i,
            forall|a: int| 0 <= a < not_found@.len() ==> (#[trigger] not_found@[a]).wf(),
        decreases affinity_umis@.len() - i,
    {
        proof {
            reveal(Seq::filter);
            assert(all.take(i + 1).drop_last() =~= all.take(i as int));
            assert(all.take(i + 1).last() == affinity_umis@[i as int]@);
        }
        let u = &affinity_umis[i];
        match umi_index.find(u) {
            Some(_) => {},
            None => {
                not_found.push(u.duplicate());
            },
        }
        proof {
            assert(umi_views(not_found@) =~= all.take(i + 1).filter(p));
        }
        i = i + 1;
    }
    proof {
        assert(all.take(i as int) =~= all);
    }
    (not_found.len(), not_found)
}

/// Filtering at `a` and then at `b >= a` is filtering at `b`.
pub proof fn lemma_filter_twice(es: Seq<ClusterView>, a: nat, b: nat)
    requires
        a <= b,
    ensures
        above_threshold(above_threshold(es, a), b) == above_threshold(es, b),
    decreases es.len(),
{
    reveal(Seq::filter);
    if es.len() > 0 {
        let d = es.drop_last();
        lemma_filter_twice(d, a, b);
        let fa = above_threshold(d, a);
        if exceeds(a)(es.last()) {
            assert(fa.push(es.last()).drop_last() =~= fa);
        }
    }
}

/// For each threshold from 0 to `threshold` in turn, prunes the index at it
/// and records which reference barcodes are then missing. The index is left
/// pruned at `threshold`.
pub fn threshold_experiment(affinity_umis: &[UMI], umi_index: &mut UMItoCDRClustering, threshold: usize)
    -> (r: Vec<(usize, (usize, Vec<UMI>))>)
    requires
        old(umi_index).wf(),
        threshold < usize::MAX,
        forall|i: int| 0 <= i < affinity_umis@.len() ==> (#[trigger] affinity_umis@[i]).wf(),
    ensures
        final(umi_index).wf(),
        final(umi_index).entries() == above_threshold(old(umi_index).entries(), threshold as nat),
        r@.len() == threshold + 1,
        forall|t: int| 0 <= t < r@.len() ==> {
            &&& (#[trigger] r@[t]).0 == t
            &&& umi_views(r@[t].1.1@) == umi_views(affinity_umis@).filter(
                missing_from(above_threshold(old(umi_index).entries(), t as nat)))
            &&& r@[t].1.0 == r@[t].1.1@.len()
        },
{
    let ghost start = umi_index.entries();
    let mut results: Vec<(usize, (usize, Vec<UMI>))> = Vec::new();
    let mut t: usize = 0;
    while t <= threshold
        invariant
            umi_index.wf(),
            threshold < usize::MAX,
            t <= threshold + 1,
            forall|i: int| 0 <= i < affinity_umis@.len() ==> (#[trigger] affinity_umis@[i]).wf(),
            t == 0 ==> umi_index.entries() == start,
            t > 0 ==> umi_index.entries() == above_threshold(start, (t - 1) as nat),
            results@.len() == t,
            forall|s: int| 0 <= s < results@.len() ==> {
                &&& (#[trigger] results@[s]).0 == s
                &&& umi_views(results@[s].1.1@) == umi_views(affinity_umis@).filter(
                    missing_from(above_threshold(start, s as nat)))
                &&& results@[s].1.0 == results@[s].1.1@.len()
            },
        decreases threshold + 1 - t,
    {
        umi_index.filter_threshold(t);
        proof {
            if t > 0 {
                lemma_filter_twice(start, (t - 1) as nat, t as nat);
            }
        }
        let found = find_set_difference(affinity_umis, umi_index);
        results.push((t, found));
        t = t + 1;
    }
    results
}

} // verus!
