use vstd::prelude::*;
use crate::clustering::{distinct_values, Cluster, MembersView};

verus! {

/// Position `a` comes before position `b`: a larger key, or an equal key and
/// an earlier position.
pub open spec fn precedes(keys: Seq<usize>, a: int, b: int) -> bool {
    keys[a] > keys[b] || (keys[a] == keys[b] && a < b)
}

/// `r` lists every position of `keys` once, by descending key, equal keys in
/// their order in `keys`.
pub open spec fn is_ranking(keys: Seq<usize>, r: Seq<usize>) -> bool {
    &&& r.len() == keys.len()
    &&& forall|p: int| 0 <= p < r.len() ==> (#[trigger] r[p]) < keys.len()
    &&& forall|p: int, q: int| 0 <= p < q < r.len() ==> precedes(keys, r[p] as int, r[q] as int)
}

/// The positions of `keys` ranked by descending key; ties keep their order.
pub fn rank_by_key(keys: &[usize]) -> (r: Vec<usize>)
    ensures
        is_ranking(keys@, r@),
{
    let mut out: Vec<usize> = Vec::new();
    let mut i: usize = 0;
    while i < keys.len()
        invariant
            i <= keys@.len(),
            out@.len() == i,
            forall|p: int| 0 <= p < out@.len() ==> (#[trigger] out@[p]) < i,
            forall|p: int, q: int| 0 <= p < q < out@.len() ==> precedes(keys@, out@[p] as int, out@[q] as int),
        decreases keys@.len() - i,
    {
        let mut pos: usize = 0;
        while pos < out.len() && keys[out[pos]] >= keys[i]
            invariant
                i < keys@.len(),
                pos <= out@.len(),
                forall|p: int| 0 <= p < out@.len() ==> (#[trigger] out@[p]) < i,
                forall|p: int| 0 <= p < pos ==> keys@[#[trigger] out@[p] as int] >= keys@[i as int],
            decreases out@.len() - pos,
        {
            pos = pos + 1;
        }
        let ghost before = out@;
        out.insert(pos, i);
        proof {
            assert forall|p: int, q: int| 0 <= p < q < out@.len() implies precedes(keys@, out@[p] as int, out@[q] as int) by {
                if q < pos {
                    assert(out@[p] == before[p] && out@[q] == before[q]);
                } else if q == pos {
                    assert(out@[p] == before[p]);
                } else if p == pos {
                    assert(out@[q] == before[q - 1]);
                    assert(keys@[before[pos as int] as int] < keys@[i as int]);
                    if q - 1 > pos {
                        assert(precedes(keys@, before[pos as int] as int, before[q - 1] as int));
                    }
                } else if p < pos {
                    assert(out@[p] == before[p] && out@[q] == before[q - 1]);
                } else {
                    assert(out@[p] == before[p - 1] && out@[q] == before[q - 1]);
                }
            }
        }
        i = i + 1;
    }
    out
}

/// `a` comes before `b` in lexicographic byte order, at a position where
/// both have a symbol.
pub open spec fn lex_lt(a: Seq<u8>, b: Seq<u8>) -> bool {
    exists|i: int| 0 <= i < a.len() && i < b.len() && #[trigger] a[i] < b[i] && forall|m: int| 0 <= m < i ==> a[m] == b[m]
}

/// Lexicographic order is transitive.
pub proof fn lemma_lex_transitive(a: Seq<u8>, b: Seq<u8>, c: Seq<u8>)
    requires
        lex_lt(a, b),
        lex_lt(b, c),
    ensures
        lex_lt(a, c),
{
    let i = choose|i: int| 0 <= i < a.len() && i < b.len() && #[trigger] a[i] < b[i] && forall|m: int| 0 <= m < i ==> a[m] == b[m];
    let j = choose|j: int| 0 <= j < b.len() && j < c.len() && #[trigger] b[j] < c[j] && forall|m: int| 0 <= m < j ==> b[m] == c[m];
    let k = if i < j { i } else { j };
    assert(a[k] < c[k]);
    assert(forall|m: int| 0 <= m < k ==> a[m] == c[m]);
}

/// Lexicographic order is irreflexive.
pub proof fn lemma_lex_irreflexive(a: Seq<u8>)
    ensures
        !lex_lt(a, a),
{
}

/// Compares two byte strings of one length: negative where `a` comes first,
/// positive where `b` does, zero where they are equal.
pub fn compare_symbols(a: &[u8], b: &[u8]) -> (r: i8)
    requires
        a@.len() == b@.len(),
    ensures
        r < 0 ==> lex_lt(a@, b@),
        r > 0 ==> lex_lt(b@, a@),
        r == 0 ==> a@ == b@,
{
    let mut i: usize = 0;
    while i < a.len()
        invariant
            a@.len() == b@.len(),
            i <= a@.len(),
            forall|m: int| 0 <= m < i ==> a@[m] == b@[m],
        decreases a@.len() - i,
    {
        if a[i] < b[i] {
            assert(a@[i as int] < b@[i as int]);
            return -1;
        }
        if a[i] > b[i] {
            assert(b@[i as int] < a@[i as int]);
            return 1;
        }
        i = i + 1;
    }
    assert(a@ =~= b@);
    0
}

/// Member `a` of `ms` comes before member `b`: a larger count, or an equal
/// count and a lexicographically smaller value.
pub open spec fn member_precedes(ms: MembersView, a: int, b: int) -> bool {
    ms[a].1 > ms[b].1 || (ms[a].1 == ms[b].1 && lex_lt(ms[a].0, ms[b].0))
}

/// `r` lists every member position of `ms` once, by descending count, equal
/// counts in lexicographic order of their values.
pub open spec fn is_member_ranking(ms: MembersView, r: Seq<usize>) -> bool {
    &&& r.len() == ms.len()
    &&& forall|p: int| 0 <= p < r.len() ==> (#[trigger] r[p]) < ms.len()
    &&& forall|p: int, q: int| 0 <= p < q < r.len() ==> member_precedes(ms, r[p] as int, r[q] as int)
}

/// Member `j` of `ms` comes before every other member.
pub open spec fn is_member_majority(ms: MembersView, j: int) -> bool {
    &&& 0 <= j < ms.len()
    &&& forall|a: int| 0 <= a < ms.len() && a != j ==> member_precedes(ms, j, a)
}

proof fn lemma_member_precedes_transitive(ms: MembersView, a: int, b: int, c: int)
    requires
        member_precedes(ms, a, b),
        member_precedes(ms, b, c),
    ensures
        member_precedes(ms, a, c),
{
    if ms[a].1 == ms[b].1 && ms[b].1 == ms[c].1 {
        lemma_lex_transitive(ms[a].0, ms[b].0, ms[c].0);
    }
}

/// Whether member `a` comes before member `b`, decided on the cluster; for
/// distinct members exactly one of the two comes first.
fn member_before<const K: usize, const V: usize>(cluster: &Cluster<K, V>, a: usize, b: usize) -> (r: bool)
    requires
        cluster.wf(),
        distinct_values(cluster@.1),
        a < cluster@.1.len(),
        b < cluster@.1.len(),
        a != b,
    ensures
        r == member_precedes(cluster@.1, a as int, b as int),
        !r ==> member_precedes(cluster@.1, b as int, a as int),
{
    let ca = cluster.count(a);
    let cb = cluster.count(b);
    if ca != cb {
        return ca > cb;
    }
    let c = compare_symbols(cluster.value(a).symbols(), cluster.value(b).symbols());
    proof {
        let ms = cluster@.1;
        if a < b {
            assert(ms[a as int].0 != ms[b as int].0);
        } else {
            assert(ms[b as int].0 != ms[a as int].0);
        }
        if c < 0 {
            if lex_lt(ms[b as int].0, ms[a as int].0) {
                lemma_lex_transitive(ms[a as int].0, ms[b as int].0, ms[a as int].0);
            }
        }
    }
    c < 0
}

/// The member positions of a cluster by descending count; equal counts in
/// lexicographic order of their values.
pub fn rank_members<const K: usize, const V: usize>(cluster: &Cluster<K, V>) -> (r: Vec<usize>)
    requires
        cluster.wf(),
        distinct_values(cluster@.1),
    ensures
        is_member_ranking(cluster@.1, r@),
{
    let ghost ms = cluster@.1;
    let n = cluster.len();
    let mut out: Vec<usize> = Vec::new();
    let mut i: usize = 0;
    while i < n
        invariant
            ms == cluster@.1,
            cluster.wf(),
            distinct_values(ms),
            n == ms.len(),
            i <= n,
            out@.len() == i,
            forall|p: int| 0 <= p < out@.len() ==> (#[trigger] out@[p]) < i,
            forall|p: int, q: int| 0 <= p < q < out@.len() ==> member_precedes(ms, out@[p] as int, out@[q] as int),
        decreases n - i,
    {
        let mut pos: usize = 0;
        while pos < out.len() && member_before(cluster, out[pos], i)
            invariant
                ms == cluster@.1,
                cluster.wf(),
                distinct_values(ms),
                n == ms.len(),
                i < n,
                pos <= out@.len(),
                forall|p: int| 0 <= p < out@.len() ==> (#[trigger] out@[p]) < i,
                forall|p: int| 0 <= p < pos ==> member_precedes(ms, #[trigger] out@[p] as int, i as int),
            decreases out@.len() - pos,
        {
            pos = pos + 1;
        }
        proof {
            if pos < out@.len() {
                assert(member_precedes(ms, i as int, out@[pos as int] as int));
            }
        }
        let ghost before = out@;
        out.insert(pos, i);
        proof {
            assert forall|p: int, q: int| 0 <= p < q < out@.len() implies member_precedes(ms, out@[p] as int, out@[q] as int) by {
                if q < pos {
                    assert(out@[p] == before[p] && out@[q] == before[q]);
                } else if q == pos {
                    assert(out@[p] == before[p]);
                } else if p == pos {
                    assert(out@[q] == before[q - 1]);
                    if q - 1 > pos {
                        lemma_member_precedes_transitive(ms, i as int, before[pos as int] as int, before[q - 1] as int);
                    }
                } else if p < pos {
                    assert(out@[p] == before[p] && out@[q] == before[q - 1]);
                } else {
                    assert(out@[p] == before[p - 1] && out@[q] == before[q - 1]);
                }
            }
        }
        i = i + 1;
    }
    out
}

/// Position of the majority of a cluster: the largest count, the
/// lexicographically smallest value among equals.
pub fn majority_member<const K: usize, const V: usize>(cluster: &Cluster<K, V>) -> (r: usize)
    requires
        cluster.wf(),
        distinct_values(cluster@.1),
        cluster@.1.len() > 0,
    ensures
        is_member_majority(cluster@.1, r as int),
{
    let ghost ms = cluster@.1;
    let n = cluster.len();
    let mut best: usize = 0;
    let mut j: usize = 1;
    while j < n
        invariant
            ms == cluster@.1,
            cluster.wf(),
            distinct_values(ms),
            n == ms.len(),
            best < j <= n,
            forall|a: int| 0 <= a < j && a != best ==> member_precedes(ms, best as int, a),
        decreases n - j,
    {
        let ghost previous = best;
        if member_before(cluster, j, best) {
            best = j;
            proof {
                assert forall|a: int| 0 <= a < j + 1 && a != best implies member_precedes(ms, best as int, a) by {
                    if a != previous && a < j {
                        lemma_member_precedes_transitive(ms, best as int, previous as int, a);
                    }
                }
            }
        }
        j = j + 1;
    }
    best
}

} // verus!
