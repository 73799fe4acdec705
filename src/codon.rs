use vstd::prelude::*;
use crate::sequence::Sequence;

verus! {

/// Residue for a codon that holds a symbol other than A, C, G or T.
pub const UNKNOWN_RESIDUE: u8 = 88;

/// The amino-acid symbol of the codon `(a, b, c)` under the standard genetic
/// code; `*` for the stop codons TAA, TAG and TGA, and
/// `UNKNOWN_RESIDUE` for any codon holding a symbol outside A, C, G, T.
pub open spec fn codon_residue(a: u8, b: u8, c: u8) -> u8 {
    match (a, b, c) {
        (65u8, 84u8, 65u8) => 73u8, // ATA -> I
        (65u8, 84u8, 67u8) => 73u8, // ATC -> I
        (65u8, 84u8, 84u8) => 73u8, // ATT -> I
        (65u8, 84u8, 71u8) => 77u8, // ATG -> M
        (65u8, 67u8, 65u8) => 84u8, // ACA -> T
        (65u8, 67u8, 67u8) => 84u8, // ACC -> T
        (65u8, 67u8, 71u8) => 84u8, // ACG -> T
        (65u8, 67u8, 84u8) => 84u8, // ACT -> T
        (65u8, 65u8, 67u8) => 78u8, // AAC -> N
        (65u8, 65u8, 84u8) => 78u8, // AAT -> N
        (65u8, 65u8, 65u8) => 75u8, // AAA -> K
        (65u8, 65u8, 71u8) => 75u8, // AAG -> K
        (65u8, 71u8, 67u8) => 83u8, // AGC -> S
        (65u8, 71u8, 84u8) => 83u8, // AGT -> S
        (65u8, 71u8, 65u8) => 82u8, // AGA -> R
        (65u8, 71u8, 71u8) => 82u8, // AGG -> R
        (67u8, 84u8, 65u8) => 76u8, // CTA -> L
        (67u8, 84u8, 67u8) => 76u8, // CTC -> L
        (67u8, 84u8, 71u8) => 76u8, // CTG -> L
        (67u8, 84u8, 84u8) => 76u8, // CTT -> L
        (67u8, 67u8, 65u8) => 80u8, // CCA -> P
        (67u8, 67u8, 67u8) => 80u8, // CCC -> P
        (67u8, 67u8, 71u8) => 80u8, // CCG -> P
        (67u8, 67u8, 84u8) => 80u8, // CCT -> P
        (67u8, 65u8, 67u8) => 72u8, // CAC -> H
        (67u8, 65u8, 84u8) => 72u8, // CAT -> H
        (67u8, 65u8, 65u8) => 81u8, // CAA -> Q
        (67u8, 65u8, 71u8) => 81u8, // CAG -> Q
        (67u8, 71u8, 65u8) => 82u8, // CGA -> R
        (67u8, 71u8, 67u8) => 82u8, // CGC -> R
        (67u8, 71u8, 71u8) => 82u8, // CGG -> R
        (67u8, 71u8, 84u8) => 82u8, // CGT -> R
        (71u8, 84u8, 65u8) => 86u8, // GTA -> V
        (71u8, 84u8, 67u8) => 86u8, // GTC -> V
        (71u8, 84u8, 71u8) => 86u8, // GTG -> V
        (71u8, 84u8, 84u8) => 86u8, // GTT -> V
        (71u8, 67u8, 65u8) => 65u8, // GCA -> A
        (71u8, 67u8, 67u8) => 65u8, // GCC -> A
        (71u8, 67u8, 71u8) => 65u8, // GCG -> A
        (71u8, 67u8, 84u8) => 65u8, // GCT -> A
        (71u8, 65u8, 67u8) => 68u8, // GAC -> D
        (71u8, 65u8, 84u8) => 68u8, // GAT -> D
        (71u8, 65u8, 65u8) => 69u8, // GAA -> E
        (71u8, 65u8, 71u8) => 69u8, // GAG -> E
        (71u8, 71u8, 65u8) => 71u8, // GGA -> G
        (71u8, 71u8, 67u8) => 71u8, // GGC -> G
        (71u8, 71u8, 71u8) => 71u8, // GGG -> G
        (71u8, 71u8, 84u8) => 71u8, // GGT -> G
        (84u8, 67u8, 65u8) => 83u8, // TCA -> S
        (84u8, 67u8, 67u8) => 83u8, // TCC -> S
        (84u8, 67u8, 71u8) => 83u8, // TCG -> S
        (84u8, 67u8, 84u8) => 83u8, // TCT -> S
        (84u8, 84u8, 67u8) => 70u8, // TTC -> F
        (84u8, 84u8, 84u8) => 70u8, // TTT -> F
        (84u8, 84u8, 65u8) => 76u8, // TTA -> L
        (84u8, 84u8, 71u8) => 76u8, // TTG -> L
        (84u8, 65u8, 67u8) => 89u8, // TAC -> Y
        (84u8, 65u8, 84u8) => 89u8, // TAT -> Y
        (84u8, 65u8, 65u8) => 42u8, // TAA -> *
        (84u8, 65u8, 71u8) => 42u8, // TAG -> *
        (84u8, 71u8, 67u8) => 67u8, // TGC -> C
        (84u8, 71u8, 84u8) => 67u8, // TGT -> C
        (84u8, 71u8, 65u8) => 42u8, // TGA -> *
        (84u8, 71u8, 71u8) => 87u8, // TGG -> W
        _ => UNKNOWN_RESIDUE,
    }
}

/// The residues of the consecutive non-overlapping codons of `s`.
pub open spec fn translated(s: Seq<u8>) -> Seq<u8> {
    Seq::new(s.len() / 3, |i: int| codon_residue(s[3 * i], s[3 * i + 1], s[3 * i + 2]))
}

/// Looks up the residue of one codon.
pub fn translate_codon(a: u8, b: u8, c: u8) -> (r: u8)
    ensures
        r == codon_residue(a, b, c),
{
    match (a, b, c) {
        (65u8, 84u8, 65u8) => 73u8, // ATA -> I
        (65u8, 84u8, 67u8) => 73u8, // ATC -> I
        (65u8, 84u8, 84u8) => 73u8, // ATT -> I
        (65u8, 84u8, 71u8) => 77u8, // ATG -> M
        (65u8, 67u8, 65u8) => 84u8, // ACA -> T
        (65u8, 67u8, 67u8) => 84u8, // ACC -> T
        (65u8, 67u8, 71u8) => 84u8, // ACG -> T
        (65u8, 67u8, 84u8) => 84u8, // ACT -> T
        (65u8, 65u8, 67u8) => 78u8, // AAC -> N
        (65u8, 65u8, 84u8) => 78u8, // AAT -> N
        (65u8, 65u8, 65u8) => 75u8, // AAA -> K
        (65u8, 65u8, 71u8) => 75u8, // AAG -> K
        (65u8, 71u8, 67u8) => 83u8, // AGC -> S
        (65u8, 71u8, 84u8) => 83u8, // AGT -> S
        (65u8, 71u8, 65u8) => 82u8, // AGA -> R
        (65u8, 71u8, 71u8) => 82u8, // AGG -> R
        (67u8, 84u8, 65u8) => 76u8, // CTA -> L
        (67u8, 84u8, 67u8) => 76u8, // CTC -> L
        (67u8, 84u8, 71u8) => 76u8, // CTG -> L
        (67u8, 84u8, 84u8) => 76u8, // CTT -> L
        (67u8, 67u8, 65u8) => 80u8, // CCA -> P
        (67u8, 67u8, 67u8) => 80u8, // CCC -> P
        (67u8, 67u8, 71u8) => 80u8, // CCG -> P
        (67u8, 67u8, 84u8) => 80u8, // CCT -> P
        (67u8, 65u8, 67u8) => 72u8, // CAC -> H
        (67u8, 65u8, 84u8) => 72u8, // CAT -> H
        (67u8, 65u8, 65u8) => 81u8, // CAA -> Q
        (67u8, 65u8, 71u8) => 81u8, // CAG -> Q
        (67u8, 71u8, 65u8) => 82u8, // CGA -> R
        (67u8, 71u8, 67u8) => 82u8, // CGC -> R
        (67u8, 71u8, 71u8) => 82u8, // CGG -> R
        (67u8, 71u8, 84u8) => 82u8, // CGT -> R
        (71u8, 84u8, 65u8) => 86u8, // GTA -> V
        (71u8, 84u8, 67u8) => 86u8, // GTC -> V
        (71u8, 84u8, 71u8) => 86u8, // GTG -> V
        (71u8, 84u8, 84u8) => 86u8, // GTT -> V
        (71u8, 67u8, 65u8) => 65u8, // GCA -> A
        (71u8, 67u8, 67u8) => 65u8, // GCC -> A
        (71u8, 67u8, 71u8) => 65u8, // GCG -> A
        (71u8, 67u8, 84u8) => 65u8, // GCT -> A
        (71u8, 65u8, 67u8) => 68u8, // GAC -> D
        (71u8, 65u8, 84u8) => 68u8, // GAT -> D
        (71u8, 65u8, 65u8) => 69u8, // GAA -> E
        (71u8, 65u8, 71u8) => 69u8, // GAG -> E
        (71u8, 71u8, 65u8) => 71u8, // GGA -> G
        (71u8, 71u8, 67u8) => 71u8, // GGC -> G
        (71u8, 71u8, 71u8) => 71u8, // GGG -> G
        (71u8, 71u8, 84u8) => 71u8, // GGT -> G
        (84u8, 67u8, 65u8) => 83u8, // TCA -> S
        (84u8, 67u8, 67u8) => 83u8, // TCC -> S
        (84u8, 67u8, 71u8) => 83u8, // TCG -> S
        (84u8, 67u8, 84u8) => 83u8, // TCT -> S
        (84u8, 84u8, 67u8) => 70u8, // TTC -> F
        (84u8, 84u8, 84u8) => 70u8, // TTT -> F
        (84u8, 84u8, 65u8) => 76u8, // TTA -> L
        (84u8, 84u8, 71u8) => 76u8, // TTG -> L
        (84u8, 65u8, 67u8) => 89u8, // TAC -> Y
        (84u8, 65u8, 84u8) => 89u8, // TAT -> Y
        (84u8, 65u8, 65u8) => 42u8, // TAA -> *
        (84u8, 65u8, 71u8) => 42u8, // TAG -> *
        (84u8, 71u8, 67u8) => 67u8, // TGC -> C
        (84u8, 71u8, 84u8) => 67u8, // TGT -> C
        (84u8, 71u8, 65u8) => 42u8, // TGA -> *
        (84u8, 71u8, 71u8) => 87u8, // TGG -> W
        _ => UNKNOWN_RESIDUE,
    }
}

/// Translates the symbols of `s` codon by codon.
pub fn translate(s: &[u8]) -> (r: Vec<u8>)
    ensures
        r@ == translated(s@),
{
    let mut out: Vec<u8> = Vec::new();
    let len: usize = s.len();
    let n: usize = len / 3;
    let mut i: usize = 0;
    while i < n
        invariant
            len == s@.len(),
            n == s@.len() / 3,
            i <= n,
            out@ =~= Seq::new(i as nat, |j: int| codon_residue(s@[3 * j], s@[3 * j + 1], s@[3 * j + 2])),
        decreases n - i,
    {
        assert(3 * i + 2 < s@.len()) by (nonlinear_arith)
            requires
                i < n,
                n == s@.len() / 3,
        ;
        let r = translate_codon(s[3 * i], s[3 * i + 1], s[3 * i + 2]);
        out.push(r);
        i = i + 1;
    }
    out
}

impl<const N: usize> Sequence<N> {
    /// The protein-space sequence: one residue per codon, with the quality
    /// symbols of the first `M` positions of this sequence (the residues get
    /// no quality of their own).
    pub fn to_protein<const M: usize>(&self) -> (r: Sequence<M>)
        requires
            self.wf(),
            3 * M == N,
        ensures
            r.wf(),
            r@ == translated(self@),
            r.quality_view() == self.quality_view().subrange(0, M as int),
    {
        let residues = translate(self.symbols());
        let q = self.quality();
        let first = protein_quality(q, M);
        let r = Sequence::<M>::construct(residues.as_slice(), first.as_slice());
        assert(r is Ok);
        r.unwrap()
    }
}

/// The quality symbols that a translation of a sequence with qualities `q`
/// into `m` residues carries: the first `m` of them.
pub fn protein_quality(q: &[u8], m: usize) -> (r: Vec<u8>)
    requires
        m <= q@.len(),
    ensures
        r@ == q@.subrange(0, m as int),
{
    let mut v: Vec<u8> = Vec::new();
    let mut i: usize = 0;
    while i < m
        invariant
            i <= m,
            m <= q@.len(),
            v@ == q@.subrange(0, i as int),
        decreases m - i,
    {
        v.push(q[i]);
        i = i + 1;
        proof {
            assert(v@ =~= q@.subrange(0, i as int));
        }
    }
    v
}

} // verus!
