use umi_cluster::affinity::{find_set_difference, threshold_experiment};
use umi_cluster::alignment::EditOp;
use umi_cluster::clustering::{record_pair, CDRtoUMIClustering, Clustering, UMItoCDRClustering};
use umi_cluster::codon::{translate, translate_codon};
use umi_cluster::config::Config;
use umi_cluster::ranking::rank_by_key;
use umi_cluster::report::{collect_minority_sizes, companion_covers_index, cross_reference, histogram, print_cdr_to_umi, print_umi_to_cdr};
use umi_cluster::sequence::{LengthMismatch, Sequence, CDR, UMI};

fn seq<const N: usize>(s: &str) -> Sequence<N> {
    let q = vec![b'I'; s.len()];
    Sequence::<N>::construct(s.as_bytes(), &q).unwrap()
}

fn repeat(pattern: &str, n: usize) -> String {
    pattern.chars().cycle().take(n).collect()
}

fn umi(s: &str) -> UMI {
    seq::<28>(&repeat(s, 28))
}

fn cdr(s: &str) -> CDR {
    seq::<63>(&repeat(s, 63))
}

#[test]
fn construct_round_trips_symbols_and_quality() {
    let s = Sequence::<4>::construct(b"ACGT", b"!#%I").unwrap();
    assert_eq!(s.symbols(), b"ACGT");
    assert_eq!(s.quality(), b"!#%I");
}

#[test]
fn construct_rejects_wrong_lengths() {
    let e = Sequence::<4>::construct(b"ACG", b"!!!").err().unwrap();
    assert_eq!(e, LengthMismatch { expected: 4, symbols: 3, quality: 3 });
    let e = Sequence::<4>::construct(b"ACGT", b"!!!!!").err().unwrap();
    assert_eq!(e, LengthMismatch { expected: 4, symbols: 4, quality: 5 });
    assert!(Sequence::<0>::construct(b"", b"").is_ok());
}

#[test]
fn ratio_of_ambiguous_symbols() {
    assert_eq!(seq::<4>("ACGT").ratio_ns(), (0, 4));
    assert_eq!(seq::<4>("NNNN").ratio_ns(), (4, 4));
    assert_eq!(seq::<4>("ANGN").ratio_ns(), (2, 4));
    assert_eq!(seq::<4>("ANGN").ambiguous_count(), 2);
}

#[test]
fn admission_gate_at_fifty_five_percent() {
    // 34 of 63 ambiguous is under 55%, 35 is not.
    let under = format!("{}{}", "N".repeat(34), "A".repeat(29));
    let over = format!("{}{}", "N".repeat(35), "A".repeat(28));
    assert!(seq::<63>(&under).is_mostly_called());
    assert!(!seq::<63>(&over).is_mostly_called());
}

#[test]
fn hamming_distance_counts_differences() {
    let a = seq::<4>("AAAA");
    let b = seq::<4>("AAAT");
    assert_eq!(a.hamming_distance(&a), 0);
    assert_eq!(a.hamming_distance(&b), 1);
    assert_eq!(seq::<4>("ACGT").hamming_distance(&seq::<4>("TGCA")), 4);
}

#[test]
fn equality_ignores_quality() {
    let a = Sequence::<4>::construct(b"ACGT", b"!!!!").unwrap();
    let b = Sequence::<4>::construct(b"ACGT", b"IIII").unwrap();
    assert!(a.same_symbols(&b));
    assert!(!a.same_symbols(&seq::<4>("ACGA")));
}

#[test]
fn translation_of_three_codons() {
    let s = Sequence::<9>::construct(b"ATGAAATAG", b"ABCDEFGHI").unwrap();
    let p: Sequence<3> = s.to_protein::<3>();
    assert_eq!(p.symbols(), b"MK*");
    assert_eq!(p.quality(), b"ABC");
    assert_eq!(translate(b"ATGAAATAA"), b"MK*".to_vec());
    assert_eq!(translate_codon(b'T', b'G', b'A'), b'*');
    assert_eq!(translate_codon(b'A', b'N', b'G'), b'X');
    assert_eq!(translate(b"TGGCC"), b"W".to_vec());
}

#[test]
fn identical_sequences_align_with_matches_only() {
    let a = seq::<8>("ACGTACGT");
    let (score, ops) = a.align(&a);
    assert_eq!(score, 8);
    assert_eq!(ops, vec![EditOp::Match; 8]);
    let (diff, cursor, score) = a.pretty_align(&a);
    assert_eq!(diff, b"--------".to_vec());
    assert_eq!(cursor, 8);
    assert_eq!(score, 8);
}

#[test]
fn pretty_align_shows_substitution() {
    let a = seq::<8>("ACGTACGT");
    let b = seq::<8>("ACGAACGT");
    let (diff, cursor, score) = a.pretty_align(&b);
    assert_eq!(diff, b"---A----".to_vec());
    assert_eq!(cursor, 8);
    assert_eq!(score, 6);
}

#[test]
fn normal_align_marks_differences() {
    let a = seq::<4>("ACGT");
    let b = seq::<4>("AGGA");
    assert_eq!(a.normal_align(&b), b"-G-A".to_vec());
    assert_eq!(a.normal_align(&a), b"----".to_vec());
}

#[test]
fn record_order_does_not_change_counts() {
    let k1 = seq::<2>("AC");
    let k2 = seq::<2>("GT");
    let v1 = seq::<3>("AAA");
    let v2 = seq::<3>("CCC");
    let mut one: Clustering<2, 3> = Clustering::new();
    one.record(&k1, &v1, 1);
    one.record(&k2, &v2, 2);
    one.record(&k1, &v2, 1);
    one.record(&k1, &v1, 3);
    let mut two: Clustering<2, 3> = Clustering::new();
    two.record(&k1, &v1, 3);
    two.record(&k1, &v2, 1);
    two.record(&k1, &v1, 1);
    two.record(&k2, &v2, 2);
    for (k, v, n) in [(&k1, &v1, 4), (&k1, &v2, 1), (&k2, &v2, 2), (&k2, &v1, 0)] {
        assert_eq!(one.pair_count(k, v), n);
        assert_eq!(two.pair_count(k, v), n);
    }
    assert_eq!(one.len(), 2);
}

#[test]
fn zero_increment_still_creates_entry() {
    let mut c: Clustering<2, 3> = Clustering::new();
    c.record(&seq::<2>("AC"), &seq::<3>("AAA"), 0);
    assert_eq!(c.len(), 1);
    assert_eq!(c.cluster(0).len(), 1);
    assert_eq!(c.cluster(0).count(0), 0);
}

#[test]
fn filter_threshold_is_monotonic() {
    let mut base: Clustering<2, 3> = Clustering::new();
    base.record(&seq::<2>("AA"), &seq::<3>("AAA"), 1);
    base.record(&seq::<2>("CC"), &seq::<3>("AAA"), 2);
    base.record(&seq::<2>("CC"), &seq::<3>("CCC"), 1);
    base.record(&seq::<2>("GG"), &seq::<3>("AAA"), 5);
    let keys = |c: &Clustering<2, 3>| -> Vec<Vec<u8>> {
        (0..c.len()).map(|i| c.cluster(i).key().symbols().to_vec()).collect()
    };
    let mut low = Clustering::<2, 3>::new();
    let mut high = Clustering::<2, 3>::new();
    for i in 0..base.len() {
        let cl = base.cluster(i);
        for j in 0..cl.len() {
            low.record(cl.key(), cl.value(j), cl.count(j));
            high.record(cl.key(), cl.value(j), cl.count(j));
        }
    }
    low.filter_threshold(1);
    high.filter_threshold(3);
    assert_eq!(keys(&low), vec![b"CC".to_vec(), b"GG".to_vec()]);
    assert_eq!(keys(&high), vec![b"GG".to_vec()]);
    for k in keys(&high) {
        assert!(keys(&low).contains(&k));
    }
    base.filter_threshold(0);
    assert_eq!(base.len(), 3);
}

#[test]
fn ranking_by_descending_key_keeps_ties_in_order() {
    assert_eq!(rank_by_key(&[1, 3, 2, 3]), vec![1, 3, 2, 0]);
    assert_eq!(rank_by_key(&[]), Vec::<usize>::new());
}

#[test]
fn histogram_counts_sizes() {
    let h = histogram(&[1, 2, 1, 5, 1]);
    assert_eq!(h, vec![(1, 3), (2, 1), (5, 1)]);
}

#[test]
fn end_to_end_umi_cluster_report() {
    let u1 = umi("ACGT");
    let c1 = cdr("ACG");
    let c2 = cdr("ACT");
    let mut umi_to_cdr: UMItoCDRClustering = Clustering::new();
    let mut cdr_to_umi: CDRtoUMIClustering = Clustering::new();
    record_pair(&mut umi_to_cdr, &mut cdr_to_umi, &u1, &c1);
    record_pair(&mut umi_to_cdr, &mut cdr_to_umi, &u1, &c2);
    record_pair(&mut umi_to_cdr, &mut cdr_to_umi, &u1, &c1);
    assert_eq!(umi_to_cdr.len(), 1);
    assert_eq!(umi_to_cdr.cluster(0).len(), 2);
    assert_eq!(umi_to_cdr.pair_count(&u1, &c1), 2);
    assert_eq!(umi_to_cdr.pair_count(&u1, &c2), 1);
    assert_eq!(cdr_to_umi.len(), 2);

    let (reports, hist) = print_umi_to_cdr(&umi_to_cdr);
    assert_eq!(reports.len(), 1);
    let r = &reports[0];
    assert_eq!(r.copies, 3);
    let majority = umi_to_cdr.cluster(0).value(r.ranking[0]);
    assert!(majority.same_symbols(&c1));
    assert_eq!(r.minorities.len(), 1);
    assert_eq!(r.minorities[0].count, 1);
    assert!(r.minorities[0].diff.iter().any(|&b| b != b'-'));
    assert_eq!(r.majority_protein.len(), 21);
    assert_eq!(hist, vec![(1, 1)]);
    assert_eq!(collect_minority_sizes(&reports), vec![1]);
}

#[test]
fn end_to_end_equal_members_render_no_difference() {
    let c1 = cdr("ACG");
    let (diff, _, _) = c1.pretty_align(&cdr("ACG"));
    assert!(diff.iter().all(|&b| b == b'-'));
    assert_eq!(diff.len(), 63);
}

#[test]
fn ambiguous_cdr_not_counted_for_umi() {
    let u1 = umi("ACGT");
    let bad = cdr("N");
    let mut umi_to_cdr: UMItoCDRClustering = Clustering::new();
    let mut cdr_to_umi: CDRtoUMIClustering = Clustering::new();
    record_pair(&mut umi_to_cdr, &mut cdr_to_umi, &u1, &bad);
    assert_eq!(umi_to_cdr.pair_count(&u1, &bad), 0);
    assert_eq!(umi_to_cdr.len(), 1);
    assert_eq!(cdr_to_umi.pair_count(&bad, &u1), 1);
}

#[test]
fn cdr_report_cross_references_barcodes() {
    let u1 = umi("ACGT");
    let u2 = umi("TTGA");
    let c1 = cdr("ACG");
    let c2 = cdr("ACT");
    let mut umi_to_cdr: UMItoCDRClustering = Clustering::new();
    let mut cdr_to_umi: CDRtoUMIClustering = Clustering::new();
    record_pair(&mut umi_to_cdr, &mut cdr_to_umi, &u1, &c1);
    record_pair(&mut umi_to_cdr, &mut cdr_to_umi, &u1, &c1);
    record_pair(&mut umi_to_cdr, &mut cdr_to_umi, &u2, &c1);
    record_pair(&mut umi_to_cdr, &mut cdr_to_umi, &u2, &c2);
    record_pair(&mut umi_to_cdr, &mut cdr_to_umi, &u2, &c2);

    let x = cross_reference(&umi_to_cdr, &u2, &c1).unwrap();
    assert_eq!(x.other_partners, 1);
    assert_eq!(x.seen_with_others, 2);
    assert_eq!(x.majority_count, 2);
    assert!(!x.is_majority_partner);
    assert!(umi_to_cdr.cluster(1).value(x.majority).same_symbols(&c2));
    assert!(cross_reference(&umi_to_cdr, &umi("GGGG"), &c1).is_none());

    assert!(companion_covers_index(&cdr_to_umi, &umi_to_cdr));
    assert!(!companion_covers_index(&cdr_to_umi, &Clustering::new()));
    let reports = print_cdr_to_umi(&cdr_to_umi, Some(&umi_to_cdr));
    assert_eq!(reports.len(), 2);
    let first = &reports[0];
    assert_eq!(first.cluster, 0);
    assert_eq!(first.copies, 3);
    assert_eq!(first.minorities.len(), 1);
    assert_eq!(first.minorities[0].count, 1);
    assert_eq!(first.minorities[0].diff.len(), 28);
    assert!(first.minorities[0].cross.is_some());
    let plain = print_cdr_to_umi(&cdr_to_umi, None);
    assert!(plain[0].minorities[0].cross.is_none());
}

#[test]
fn set_difference_and_threshold_sweep() {
    let u1 = umi("ACGT");
    let u2 = umi("TTGA");
    let u3 = umi("GGGG");
    let mut index: UMItoCDRClustering = Clustering::new();
    index.record(&u1, &cdr("ACG"), 1);
    index.record(&u2, &cdr("ACG"), 3);
    let reference = vec![u1.duplicate(), u2.duplicate(), u3.duplicate()];
    let (n, missing) = find_set_difference(&reference, &index);
    assert_eq!(n, 1);
    assert!(missing[0].same_symbols(&u3));
    let sweep = threshold_experiment(&reference, &mut index, 3);
    let counts: Vec<(usize, usize)> = sweep.iter().map(|(t, (n, _))| (*t, *n)).collect();
    assert_eq!(counts, vec![(0, 1), (1, 2), (2, 2), (3, 3)]);
    assert_eq!(index.len(), 0);
}

#[test]
fn config_defaults_and_mode() {
    let d = Config::default();
    assert_eq!(d.print_type, "umi");
    assert_eq!(d.take, 180000000);
    assert!(!d.qual);
    assert!(!d.reports_umi_clusters());
    let c = Config { print_type: "cdr".to_string(), take: 1, qual: true };
    assert!(c.reports_umi_clusters());
}

#[test]
fn equality_operator_compares_symbols_only() {
    let a = Sequence::<4>::construct(b"ACGT", b"!!!!").unwrap();
    let b = Sequence::<4>::construct(b"ACGT", b"IIII").unwrap();
    assert!(a == b);
    assert!(a != seq::<4>("ACGA"));
}

#[test]
fn pretty_align_shows_gaps_for_a_shift() {
    let a = seq::<8>("ACGTACGT");
    let b = seq::<8>("CGTACGTA");
    let (score, ops) = a.align(&b);
    assert_eq!(score, -3);
    assert_eq!(ops.iter().filter(|o| **o == EditOp::Match).count(), 7);
    let (diff, cursor, s) = a.pretty_align(&b);
    assert_eq!(s, -3);
    assert_eq!(diff.len(), 9);
    assert!(diff.contains(&b'X'));
    assert!(diff.contains(&b'^'));
    assert_eq!(cursor, 7);
}

#[test]
fn equal_counts_rank_by_symbol_order() {
    let u1 = umi("ACGT");
    let mut index: UMItoCDRClustering = Clustering::new();
    index.record(&u1, &cdr("T"), 1);
    index.record(&u1, &cdr("C"), 1);
    index.record(&u1, &cdr("G"), 2);
    let (reports, hist) = print_umi_to_cdr(&index);
    assert_eq!(reports[0].ranking, vec![2, 1, 0]);
    assert_eq!(hist, vec![(1, 2)]);
}

#[test]
fn different_sequences_score_below_length() {
    let a = seq::<8>("ACGTACGT");
    let b = seq::<8>("ACGTACGA");
    let (score, _) = a.align(&b);
    assert!(score < 8);
}

#[test]
fn record_all_in_either_order_gives_same_counts() {
    let obs = vec![
        (seq::<2>("AC"), seq::<3>("AAA"), 1usize),
        (seq::<2>("GT"), seq::<3>("CCC"), 2),
        (seq::<2>("AC"), seq::<3>("AAA"), 3),
    ];
    let reversed: Vec<_> = obs.iter().rev().map(|(k, v, n)| (k.duplicate(), v.duplicate(), *n)).collect();
    let mut one: Clustering<2, 3> = Clustering::new();
    let mut two: Clustering<2, 3> = Clustering::new();
    one.record_all(&obs);
    two.record_all(&reversed);
    for (k, v, _) in &obs {
        assert_eq!(one.pair_count(k, v), two.pair_count(k, v));
    }
    assert_eq!(one.pair_count(&seq::<2>("AC"), &seq::<3>("AAA")), 4);
}
