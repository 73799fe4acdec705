use vstd::prelude::*;
use crate::alignment::{global_alignment, rendered};
use crate::clustering::{
    cluster_index, distinct_values, has_cluster, members_max, members_total, pair_count, totals_fit,
    CDRtoUMIClustering, Cluster, ClusterView, MembersView, UMItoCDRClustering,
};
use crate::codon::translated;
use crate::ranking::{is_member_majority, is_member_ranking, is_ranking, majority_member, rank_by_key, rank_members};
use crate::sequence::{positionwise_diff, BARCODE_LENGTH, CDR_LENGTH, CDR_PROTEIN_LENGTH, CDR, UMI};

verus! {

/// The annotated diff of `other` against `reference` under their global alignment.
pub open spec fn annotated_diff(reference: Seq<u8>, other: Seq<u8>) -> Seq<u8> {
    rendered(global_alignment(other, reference).1, other)
}

/// The largest count of each cluster, as the key that orders clusters for display.
pub open spec fn display_keys(es: Seq<ClusterView>) -> Seq<usize> {
    es.map_values(|c: ClusterView| members_max(c.1) as usize)
}

/// A member of a barcode's cluster other than its majority.
pub struct MinorityReport {
    /// Position of the member in its cluster.
    pub member: usize,
    /// How often it was counted.
    pub count: usize,
    /// Annotated diff of the member against the majority.
    pub diff: Vec<u8>,
    /// Annotated diff of the member's translation against the majority's.
    pub protein_diff: Vec<u8>,
}

/// Summary of one barcode's cluster.
pub struct UmiClusterReport {
    /// Position of the cluster in the index.
    pub cluster: usize,
    /// Sum of the counts of the cluster.
    pub copies: usize,
    /// Member positions by descending count; the first is the majority.
    pub ranking: Vec<usize>,
    /// Translation of the majority.
    pub majority_protein: Vec<u8>,
    /// The other members, in ranking order.
    pub minorities: Vec<MinorityReport>,
}

/// `m` reports the member at rank `p + 1` of `ms` against the majority.
pub open spec fn minority_ok(ms: MembersView, ranking: Seq<usize>, p: int, m: MinorityReport) -> bool {
    let majority = ms[ranking[0] as int].0;
    let member = ms[ranking[p + 1] as int].0;
    &&& m.member == ranking[p + 1]
    &&& m.count as nat == ms[m.member as int].1
    &&& m.diff@ == annotated_diff(majority, member)
    &&& m.protein_diff@ == annotated_diff(translated(majority), translated(member))
}

/// `r` is the report of cluster `index`, whose members are `ms`.
pub open spec fn umi_report_ok(ms: MembersView, index: int, r: UmiClusterReport) -> bool {
    &&& r.cluster == index
    &&& r.copies as nat == members_total(ms)
    &&& is_member_ranking(ms, r.ranking@)
    &&& r.majority_protein@ == translated(ms[r.ranking@[0] as int].0)
    &&& r.minorities@.len() == ms.len() - 1
    &&& forall|p: int| 0 <= p < r.minorities@.len() ==> minority_ok(ms, r.ranking@, p, #[trigger] r.minorities@[p])
}

/// Reports one barcode's cluster: its majority variable region, the total,
/// and each other member's diff against the majority, in nucleotides and in
/// protein.
pub fn umi_cluster_report(cluster: &Cluster<BARCODE_LENGTH, CDR_LENGTH>, index: usize) -> (r: UmiClusterReport)
    requires
        cluster.wf(),
        cluster@.1.len() > 0,
        distinct_values(cluster@.1),
        members_total(cluster@.1) <= usize::MAX,
    ensures
        umi_report_ok(cluster@.1, index as int, r),
{
    let ghost ms = cluster@.1;
    let ranking = rank_members(cluster);
    let copies = cluster.total();
    let reference = cluster.value(ranking[0]);
    let reference_protein = reference.to_protein::<CDR_PROTEIN_LENGTH>();
    let mut minorities: Vec<MinorityReport> = Vec::new();
    let mut p: usize = 1;
    while p < ranking.len()
        invariant
            ms == cluster@.1,
            cluster.wf(),
            distinct_values(ms),
            is_member_ranking(ms, ranking@),
            ranking@.len() == ms.len(),
            ms.len() > 0,
            1 <= p <= ranking@.len(),
            reference@ == ms[ranking@[0] as int].0,
            reference.wf(),
            reference_protein.wf(),
            reference_protein@ == translated(reference@),
            minorities@.len() == p - 1,
            forall|a: int| 0 <= a < minorities@.len() ==> minority_ok(ms, ranking@, a, #[trigger] minorities@[a]),
        decreases ranking@.len() - p,
    {
        let j = ranking[p];
        let member = cluster.value(j);
        let count = cluster.count(j);
        let (diff, _, _) = reference.pretty_align(member);
        let member_protein = member.to_protein::<CDR_PROTEIN_LENGTH>();
        let (protein_diff, _, _) = reference_protein.pretty_align(&member_protein);
        minorities.push(MinorityReport { member: j, count, diff, protein_diff });
        p = p + 1;
    }
    UmiClusterReport { cluster: index, copies, ranking, majority_protein: crate::sequence::copy_bytes(reference_protein.symbols()), minorities }
}

/// Reports every cluster of the barcode index, clusters by descending largest
/// count (ties in storage order), together with the histogram of minority
/// member counts.
pub fn print_umi_to_cdr(umi_to_cdr: &UMItoCDRClustering) -> (r: (Vec<UmiClusterReport>, Vec<(usize, usize)>))
    requires
        umi_to_cdr.wf(),
        totals_fit(umi_to_cdr.entries()),
    ensures
        r.0@.len() == umi_to_cdr.entries().len(),
        is_ranking(display_keys(umi_to_cdr.entries()), r.0@.map_values(|c: UmiClusterReport| c.cluster)),
        forall|p: int| 0 <= p < r.0@.len() ==> umi_report_ok(
            umi_to_cdr.entries()[(#[trigger] r.0@[p]).cluster as int].1,
            r.0@[p].cluster as int,
            r.0@[p],
        ),
        distinct_sizes(r.1@),
        forall|i: int| 0 <= i < r.1@.len() ==> (#[trigger] r.1@[i]).1 > 0,
        forall|s: usize| histogram_count(r.1@, s) == if occurrences(minority_sizes(r.0@), s) <= usize::MAX {
            occurrences(minority_sizes(r.0@), s)
        } else {
            usize::MAX as nat
        },
{
    let ghost es = umi_to_cdr.entries();
    let keys = umi_to_cdr.max_counts();
    proof {
        assert(keys@ =~= display_keys(es));
    }
    let order = rank_by_key(keys.as_slice());
    let mut reports: Vec<UmiClusterReport> = Vec::new();
    let mut p: usize = 0;
    while p < order.len()
        invariant
            es == umi_to_cdr.entries(),
            umi_to_cdr.wf(),
            totals_fit(es),
            is_ranking(display_keys(es), order@),
            order@.len() == es.len(),
            p <= order@.len(),
            reports@.len() == p,
            forall|a: int| 0 <= a < p ==> (#[trigger] reports@[a]).cluster == order@[a],
            forall|a: int| 0 <= a < p ==> umi_report_ok(es[(#[trigger] reports@[a]).cluster as int].1, reports@[a].cluster as int, reports@[a]),
        decreases order@.len() - p,
    {
        let i = order[p];
        let c = umi_to_cdr.cluster(i);
        proof {
            assert(members_total(es[i as int].1) <= usize::MAX);
            assert(es[i as int].1.len() > 0);
            assert(distinct_values(es[i as int].1));
        }
        reports.push(umi_cluster_report(c, i));
        p = p + 1;
    }
    proof {
        assert(reports@.map_values(|c: UmiClusterReport| c.cluster) =~= order@);
    }
    let sizes = collect_minority_sizes(reports.as_slice());
    let h = histogram(sizes.as_slice());
    (reports, h)
}

/// How a barcode seen with a minority variable region is placed in the
/// barcode index.
pub struct CrossReference {
    /// Number of other variable regions seen with the barcode.
    pub other_partners: usize,
    /// How often the barcode was counted with variable regions other than this one.
    pub seen_with_others: usize,
    /// Position of the barcode's majority variable region in its cluster.
    pub majority: usize,
    /// The count of that majority.
    pub majority_count: usize,
    /// Whether this pairing is counted at least as often as the majority.
    pub is_majority_partner: bool,
    /// Annotated diff of the barcode's majority variable region against this one.
    pub majority_diff: Vec<u8>,
}

/// `x` places barcode `umi` seen with variable region `cdr` in the clusters `es`.
pub open spec fn cross_reference_ok(es: Seq<ClusterView>, umi: Seq<u8>, cdr: Seq<u8>, x: CrossReference) -> bool {
    let row = es[cluster_index(es, umi)].1;
    let own = pair_count(es, umi, cdr);
    &&& x.other_partners == row.len() - 1
    &&& x.seen_with_others == members_total(row) - own
    &&& is_member_majority(row, x.majority as int)
    &&& x.majority_count == row[x.majority as int].1
    &&& x.is_majority_partner == (own >= row[x.majority as int].1)
    &&& x.majority_diff@ == annotated_diff(cdr, row[x.majority as int].0)
}

/// Looks up barcode `umi` in the barcode index to place its pairing with `cdr`;
/// `None` where the barcode is not in the index.
pub fn cross_reference(umi_to_cdr: &UMItoCDRClustering, umi: &UMI, cdr: &CDR) -> (r: Option<CrossReference>)
    requires
        umi_to_cdr.wf(),
        totals_fit(umi_to_cdr.entries()),
        cdr.wf(),
    ensures
        r is None <==> !has_cluster(umi_to_cdr.entries(), umi@),
        r matches Some(x) ==> cross_reference_ok(umi_to_cdr.entries(), umi@, cdr@, x),
{
    let ghost es = umi_to_cdr.entries();
    match umi_to_cdr.find(umi) {
        None => None,
        Some(i) => {
            proof {
                crate::clustering::lemma_cluster_index_unique(es, umi@, i as int);
            }
            let row = umi_to_cdr.cluster(i);
            let own = umi_to_cdr.pair_count(umi, cdr);
            let total = row.total();
            proof {
                assert(members_total(es[i as int].1) <= usize::MAX);
                if own > 0 {
                    let ms = es[i as int].1;
                    let j = crate::clustering::member_index(ms, cdr@);
                    crate::clustering::lemma_member_within_total(ms, j);
                }
            }
            let majority = majority_member(row);
            let majority_count = row.count(majority);
            let (majority_diff, _, _) = cdr.pretty_align(row.value(majority));
            Some(CrossReference {
                other_partners: row.len() - 1,
                seen_with_others: total - own,
                majority,
                majority_count,
                is_majority_partner: own >= majority_count,
                majority_diff,
            })
        },
    }
}

/// A member of a variable region's cluster other than its majority.
pub struct CdrMinorityReport {
    /// Position of the member in its cluster.
    pub member: usize,
    /// How often it was counted.
    pub count: usize,
    /// Position-wise diff of the member against the majority.
    pub diff: Vec<u8>,
    /// Where the member stands in the barcode index, when one was given and
    /// holds it.
    pub cross: Option<CrossReference>,
}

/// Summary of one variable region's cluster.
pub struct CdrClusterReport {
    /// Position of the cluster in the index.
    pub cluster: usize,
    /// Sum of the counts of the cluster.
    pub copies: usize,
    /// Member positions by descending count; the first is the majority.
    pub ranking: Vec<usize>,
    /// The other members, in ranking order.
    pub minorities: Vec<CdrMinorityReport>,
}

/// `m` reports the member at rank `p + 1` of cluster `c` (key and members)
/// against the majority, placed in `companion` where one is given.
pub open spec fn cdr_minority_ok(
    c: ClusterView,
    ranking: Seq<usize>,
    p: int,
    companion: Option<Seq<ClusterView>>,
    m: CdrMinorityReport,
) -> bool {
    let ms = c.1;
    let member = ms[ranking[p + 1] as int].0;
    &&& m.member == ranking[p + 1]
    &&& m.count as nat == ms[m.member as int].1
    &&& m.diff@ == positionwise_diff(ms[ranking[0] as int].0, member)
    &&& match companion {
        None => m.cross is None,
        Some(es) => m.cross matches Some(x) && cross_reference_ok(es, member, c.0, x),
    }
}

/// `r` is the report of cluster `index`, which is `c`.
pub open spec fn cdr_report_ok(c: ClusterView, index: int, companion: Option<Seq<ClusterView>>, r: CdrClusterReport) -> bool {
    &&& r.cluster == index
    &&& r.copies as nat == members_total(c.1)
    &&& is_member_ranking(c.1, r.ranking@)
    &&& r.minorities@.len() == c.1.len() - 1
    &&& forall|p: int| 0 <= p < r.minorities@.len() ==> cdr_minority_ok(c, r.ranking@, p, companion, #[trigger] r.minorities@[p])
}

/// The clusters of an optional companion index.
pub open spec fn companion_view(companion: Option<&UMItoCDRClustering>) -> Option<Seq<ClusterView>> {
    match companion {
        None => None,
        Some(u) => Some(u.entries()),
    }
}

/// Whether an optional companion index is well formed with totals that fit.
pub open spec fn companion_ok(companion: Option<&UMItoCDRClustering>) -> bool {
    match companion {
        None => true,
        Some(u) => u.wf() && totals_fit(u.entries()),
    }
}

/// Every value of `ms` is a key of the companion index, where one is given.
pub open spec fn companion_covers(companion: Option<&UMItoCDRClustering>, ms: MembersView) -> bool {
    match companion {
        None => true,
        Some(u) => forall|j: int| 0 <= j < ms.len() ==> has_cluster(u.entries(), #[trigger] ms[j].0),
    }
}

/// Whether every barcode of the variable-region index is a key of the barcode
/// index, as it is when both come from one ingestion.
pub fn companion_covers_index(cdr_to_umi: &CDRtoUMIClustering, umi_to_cdr: &UMItoCDRClustering) -> (r: bool)
    requires
        cdr_to_umi.wf(),
    ensures
        r == forall|i: int| 0 <= i < cdr_to_umi.entries().len() ==> companion_covers(
            Some(umi_to_cdr),
            #[trigger] cdr_to_umi.entries()[i].1,
        ),
{
    let ghost es = cdr_to_umi.entries();
    let mut i: usize = 0;
    while i < cdr_to_umi.len()
        invariant
            es == cdr_to_umi.entries(),
            cdr_to_umi.wf(),
            i <= es.len(),
            forall|a: int| 0 <= a < i ==> companion_covers(Some(umi_to_cdr), #[trigger] es[a].1),
        decreases es.len() - i,
    {
        let c = cdr_to_umi.cluster(i);
        let mut j: usize = 0;
        while j < c.len()
            invariant
                es == cdr_to_umi.entries(),
                i < es.len(),
                c@ == es[i as int],
                c.wf(),
                j <= c@.1.len(),
                forall|b: int| 0 <= b < j ==> has_cluster(umi_to_cdr.entries(), #[trigger] c@.1[b].0),
            decreases c@.1.len() - j,
        {
            if umi_to_cdr.find(c.value(j)).is_none() {
                proof {
                    assert(!has_cluster(umi_to_cdr.entries(), c@.1[j as int].0));
                    assert(!companion_covers(Some(umi_to_cdr), es[i as int].1));
                    assert(es[i as int] == cdr_to_umi.entries()[i as int]);
                }
                return false;
            }
            j = j + 1;
        }
        i = i + 1;
    }
    true
}

/// Reports one variable region's cluster: the total, and each other member's
/// position-wise diff against the majority, placed in the barcode index where
/// one is given.
pub fn cdr_cluster_report(
    cluster: &Cluster<CDR_LENGTH, BARCODE_LENGTH>,
    index: usize,
    companion: Option<&UMItoCDRClustering>,
) -> (r: CdrClusterReport)
    requires
        cluster.wf(),
        cluster@.1.len() > 0,
        distinct_values(cluster@.1),
        members_total(cluster@.1) <= usize::MAX,
        companion_ok(companion),
        companion_covers(companion, cluster@.1),
    ensures
        cdr_report_ok(cluster@, index as int, companion_view(companion), r),
{
    let ghost ms = cluster@.1;
    let ranking = rank_members(cluster);
    let copies = cluster.total();
    let reference = cluster.value(ranking[0]);
    let key = cluster.key();
    let mut minorities: Vec<CdrMinorityReport> = Vec::new();
    let mut p: usize = 1;
    while p < ranking.len()
        invariant
            ms == cluster@.1,
            key@ == cluster@.0,
            key.wf(),
            cluster.wf(),
            companion_ok(companion),
            companion_covers(companion, ms),
            is_member_ranking(ms, ranking@),
            ranking@.len() == ms.len(),
            ms.len() > 0,
            1 <= p <= ranking@.len(),
            reference@ == ms[ranking@[0] as int].0,
            reference.wf(),
            minorities@.len() == p - 1,
            forall|a: int| 0 <= a < minorities@.len() ==> cdr_minority_ok(
                cluster@, ranking@, a, companion_view(companion), #[trigger] minorities@[a]),
        decreases ranking@.len() - p,
    {
        let j = ranking[p];
        let member = cluster.value(j);
        let count = cluster.count(j);
        let diff = reference.normal_align(member);
        let cross = match companion {
            None => None,
            Some(u) => {
                proof {
                    assert(ranking@[p as int] < ms.len());
                    assert(companion == Some(u));
                    assert(companion_covers(Some(u), ms));
                    assert(has_cluster(u.entries(), ms[j as int].0));
                }
                cross_reference(u, member, key)
            },
        };
        minorities.push(CdrMinorityReport { member: j, count, diff, cross });
        p = p + 1;
    }
    CdrClusterReport { cluster: index, copies, ranking, minorities }
}

/// Reports every cluster of the variable-region index, clusters by
/// descending largest count (ties in storage order), placing each minority
/// barcode in the barcode index where one is given.
pub fn print_cdr_to_umi(cdr_to_umi: &CDRtoUMIClustering, umi_to_cdr_opt: Option<&UMItoCDRClustering>) -> (r: Vec<CdrClusterReport>)
    requires
        cdr_to_umi.wf(),
        totals_fit(cdr_to_umi.entries()),
        companion_ok(umi_to_cdr_opt),
        forall|i: int| 0 <= i < cdr_to_umi.entries().len() ==> companion_covers(
            umi_to_cdr_opt,
            #[trigger] cdr_to_umi.entries()[i].1,
        ),
    ensures
        r@.len() == cdr_to_umi.entries().len(),
        is_ranking(display_keys(cdr_to_umi.entries()), r@.map_values(|c: CdrClusterReport| c.cluster)),
        forall|p: int| 0 <= p < r@.len() ==> cdr_report_ok(
            cdr_to_umi.entries()[(#[trigger] r@[p]).cluster as int],
            r@[p].cluster as int,
            companion_view(umi_to_cdr_opt),
            r@[p],
        ),
{
    let ghost es = cdr_to_umi.entries();
    let keys = cdr_to_umi.max_counts();
    proof {
        assert(keys@ =~= display_keys(es));
    }
    let order = rank_by_key(keys.as_slice());
    let mut reports: Vec<CdrClusterReport> = Vec::new();
    let mut p: usize = 0;
    while p < order.len()
        invariant
            es == cdr_to_umi.entries(),
            cdr_to_umi.wf(),
            totals_fit(es),
            companion_ok(umi_to_cdr_opt),
            forall|a: int| 0 <= a < es.len() ==> companion_covers(umi_to_cdr_opt, #[trigger] es[a].1),
            is_ranking(display_keys(es), order@),
            order@.len() == es.len(),
            p <= order@.len(),
            reports@.len() == p,
            forall|a: int| 0 <= a < p ==> (#[trigger] reports@[a]).cluster == order@[a],
            forall|a: int| 0 <= a < p ==> cdr_report_ok(es[(#[trigger] reports@[a]).cluster as int], reports@[a].cluster as int, companion_view(umi_to_cdr_opt), reports@[a]),
        decreases order@.len() - p,
    {
        let i = order[p];
        let c = cdr_to_umi.cluster(i);
        proof {
            assert(members_total(es[i as int].1) <= usize::MAX);
            assert(es[i as int].1.len() > 0);
            assert(distinct_values(es[i as int].1));
        }
        reports.push(cdr_cluster_report(c, i, umi_to_cdr_opt));
        p = p + 1;
    }
    proof {
        assert(reports@.map_values(|c: CdrClusterReport| c.cluster) =~= order@);
    }
    reports
}

/// The counts of all minority members of `reports`, report by report.
pub open spec fn minority_sizes(reports: Seq<UmiClusterReport>) -> Seq<usize>
    decreases reports.len(),
{
    if reports.len() == 0 {
        Seq::empty()
    } else {
        minority_sizes(reports.drop_last()) + reports.last().minorities@.map_values(|m: MinorityReport| m.count)
    }
}

/// Number of times `s` occurs in `sizes`.
pub open spec fn occurrences(sizes: Seq<usize>, s: usize) -> nat
    decreases sizes.len(),
{
    if sizes.len() == 0 {
        0
    } else {
        occurrences(sizes.drop_last(), s) + if sizes.last() == s { 1nat } else { 0nat }
    }
}

/// The entry for size `s` in histogram `h` (0 where there is none).
pub open spec fn histogram_count(h: Seq<(usize, usize)>, s: usize) -> nat {
    if exists|i: int| 0 <= i < h.len() && h[i].0 == s {
        h[choose|i: int| 0 <= i < h.len() && h[i].0 == s].1 as nat
    } else {
        0
    }
}

/// Sizes of `h` are distinct.
pub open spec fn distinct_sizes(h: Seq<(usize, usize)>) -> bool {
    forall|a: int, b: int| 0 <= a < b < h.len() ==> h[a].0 != h[b].0
}

/// The counts of the minority members of all reports, in order.
pub fn collect_minority_sizes(reports: &[UmiClusterReport]) -> (r: Vec<usize>)
    ensures
        r@ == minority_sizes(reports@),
{
    let mut out: Vec<usize> = Vec::new();
    let mut i: usize = 0;
    while i < reports.len()
        invariant
            i <= reports@.len(),
            out@ == minority_sizes(reports@.take(i as int)),
        decreases reports@.len() - i,
    {
        let ghost start = out@;
        let ms = &reports[i].minorities;
        let mut j: usize = 0;
        while j < ms.len()
            invariant
                j <= ms@.len(),
                ms == reports@[i as int].minorities,
                out@ =~= start + ms@.map_values(|m: MinorityReport| m.count).take(j as int),
            decreases ms@.len() - j,
        {
            out.push(ms[j].count);
            j = j + 1;
        }
        proof {
            assert(reports@.take(i + 1).drop_last() =~= reports@.take(i as int));
            assert(ms@.map_values(|m: MinorityReport| m.count).take(j as int) =~= ms@.map_values(|m: MinorityReport| m.count));
        }
        i = i + 1;
    }
    proof {
        assert(reports@.take(i as int) =~= reports@);
    }
    out
}

/// For each distinct size of `sizes`, how often it occurs (capped at
/// `usize::MAX`), in order of first occurrence.
pub fn histogram(sizes: &[usize]) -> (r: Vec<(usize, usize)>)
    ensures
        distinct_sizes(r@),
        forall|i: int| 0 <= i < r@.len() ==> (#[trigger] r@[i]).1 > 0,
        forall|s: usize| histogram_count(r@, s) == if occurrences(sizes@, s) <= usize::MAX {
            occurrences(sizes@, s)
        } else {
            usize::MAX as nat
        },
{
    let mut h: Vec<(usize, usize)> = Vec::new();
    let mut i: usize = 0;
    while i < sizes.len()
        invariant
            i <= sizes@.len(),
            distinct_sizes(h@),
            forall|a: int| 0 <= a < h@.len() ==> (#[trigger] h@[a]).1 > 0,
            forall|s: usize| histogram_count(h@, s) == if occurrences(sizes@.take(i as int), s) <= usize::MAX {
                occurrences(sizes@.take(i as int), s)
            } else {
                usize::MAX as nat
            },
        decreases sizes@.len() - i,
    {
        let s = sizes[i];
        let ghost before = h@;
        proof {
            assert(sizes@.take(i + 1).drop_last() =~= sizes@.take(i as int));
            assert(sizes@.take(i + 1).last() == s);
        }
        let mut k: usize = 0;
        while k < h.len() && h[k].0 != s
            invariant
                k <= h@.len(),
                forall|a: int| 0 <= a < k ==> h@[a].0 != s,
            decreases h@.len() - k,
        {
            k = k + 1;
        }
        if k < h.len() {
            let c = h[k].1;
            let n = if c < usize::MAX { c + 1 } else { c };
            h.set(k, (s, n));
            proof {
                lemma_histogram_index(before, s, k as int);
                assert forall|t: usize| t != s implies histogram_count(h@, t) == histogram_count(before, t) by {
                    lemma_histogram_same(before, h@, t);
                }
                lemma_histogram_index(h@, s, k as int);
            }
        } else {
            h.push((s, 1));
            proof {
                assert(histogram_count(before, s) == 0);
                lemma_histogram_index(h@, s, k as int);
                assert forall|t: usize| t != s implies histogram_count(h@, t) == histogram_count(before, t) by {
                    lemma_histogram_same(before, h@, t);
                }
            }
        }
        proof {
            let next = sizes@.take(i + 1);
            let prev = sizes@.take(i as int);
            assert forall|t: usize| histogram_count(h@, t) == if occurrences(next, t) <= usize::MAX {
                occurrences(next, t)
            } else {
                usize::MAX as nat
            } by {
                assert(occurrences(next, t) == occurrences(prev, t) + if t == s { 1nat } else { 0nat });
                assert(histogram_count(before, t) == if occurrences(prev, t) <= usize::MAX {
                    occurrences(prev, t)
                } else {
                    usize::MAX as nat
                });
            }
        }
        i = i + 1;
    }
    proof {
        assert(sizes@.take(i as int) =~= sizes@);
    }
    h
}

proof fn lemma_histogram_index(h: Seq<(usize, usize)>, s: usize, k: int)
    requires
        distinct_sizes(h),
        0 <= k < h.len(),
        h[k].0 == s,
    ensures
        histogram_count(h, s) == h[k].1,
{
    let c = choose|i: int| 0 <= i < h.len() && h[i].0 == s;
    if c < k {
        assert(h[c].0 != h[k].0);
    } else if c > k {
        assert(h[k].0 != h[c].0);
    }
}

proof fn lemma_histogram_same(h1: Seq<(usize, usize)>, h2: Seq<(usize, usize)>, t: usize)
    requires
        distinct_sizes(h1),
        distinct_sizes(h2),
        forall|a: int| 0 <= a < h1.len() && h1[a].0 == t ==> a < h2.len() && h2[a] == h1[a],
        forall|a: int| 0 <= a < h2.len() && h2[a].0 == t ==> a < h1.len() && h1[a] == h2[a],
    ensures
        histogram_count(h2, t) == histogram_count(h1, t),
{
    if exists|i: int| 0 <= i < h1.len() && h1[i].0 == t {
        let c = choose|i: int| 0 <= i < h1.len() && h1[i].0 == t;
        lemma_histogram_index(h1, t, c);
        lemma_histogram_index(h2, t, c);
    } else {
        if exists|i: int| 0 <= i < h2.len() && h2[i].0 == t {
            let c = choose|i: int| 0 <= i < h2.len() && h2[i].0 == t;
            assert(h1[c] == h2[c]);
        }
    }
}

} // verus!
