use vstd::prelude::*;

verus! {

/// The ambiguity symbol: a base the sequencer could not call.
pub const AMBIGUOUS: u8 = 78;

/// Number of occurrences of `c` in `s`.
pub open spec fn count_symbol(s: Seq<u8>, c: u8) -> nat
    decreases s.len(),
{
    if s.len() == 0 {
        0
    } else {
        count_symbol(s.drop_last(), c) + if s.last() == c { 1nat } else { 0nat }
    }
}

/// Number of positions below `a.len()` at which `a` and `b` differ.
pub open spec fn differing_positions(a: Seq<u8>, b: Seq<u8>) -> nat
    decreases a.len(),
{
    if a.len() == 0 {
        0
    } else {
        differing_positions(a.drop_last(), b) + if a.last() != b[a.len() - 1] {
            1nat
        } else {
            0nat
        }
    }
}

/// Width of a variable region (CDR).
pub const CDR_LENGTH: usize = 63;

/// Width of a barcode (UMI).
pub const BARCODE_LENGTH: usize = 28;

/// Width of the translation of a variable region.
pub const CDR_PROTEIN_LENGTH: usize = 21;

/// A variable region.
pub type CDR = Sequence<CDR_LENGTH>;

/// A barcode.
pub type UMI = Sequence<BARCODE_LENGTH>;

/// The translation of a variable region.
pub type CdrProtein = Sequence<CDR_PROTEIN_LENGTH>;

/// Marker for a position at which two sequences agree.
pub const NO_DIFFERENCE: u8 = 45;

/// What a position-wise diff shows for symbols `a` and `b`.
pub open spec fn diff_symbol(a: u8, b: u8) -> u8 {
    if a != b {
        b
    } else {
        NO_DIFFERENCE
    }
}

/// The position-wise diff of `b` against `a`, over the length of `a`.
pub open spec fn positionwise_diff(a: Seq<u8>, b: Seq<u8>) -> Seq<u8> {
    Seq::new(a.len(), |j: int| diff_symbol(a[j], b[j]))
}

/// A symbol occurs at most as often as the sequence is long.
pub proof fn lemma_count_symbol_bound(s: Seq<u8>, c: u8)
    ensures
        count_symbol(s, c) <= s.len(),
    decreases s.len(),
{
    if s.len() > 0 {
        lemma_count_symbol_bound(s.drop_last(), c);
    }
}

/// A sequence with no ambiguity symbol has none counted; one made only of
/// them has all of its positions counted.
pub proof fn lemma_ambiguity_extremes(s: Seq<u8>)
    ensures
        (forall|i: int| 0 <= i < s.len() ==> s[i] != AMBIGUOUS) ==> count_symbol(s, AMBIGUOUS) == 0,
        (forall|i: int| 0 <= i < s.len() ==> s[i] == AMBIGUOUS) ==> count_symbol(s, AMBIGUOUS) == s.len(),
    decreases s.len(),
{
    if s.len() > 0 {
        lemma_ambiguity_extremes(s.drop_last());
        assert(forall|i: int| 0 <= i < s.len() - 1 ==> s.drop_last()[i] == s[i]);
    }
}

/// A sequence differs from itself at no position.
pub proof fn lemma_no_distance_to_self(a: Seq<u8>)
    ensures
        differing_positions(a, a) == 0,
{
    lemma_no_distance_to_self_prefix(a, a.len() as int);
    assert(a.take(a.len() as int) =~= a);
}

proof fn lemma_no_distance_to_self_prefix(a: Seq<u8>, n: int)
    requires
        0 <= n <= a.len(),
    ensures
        differing_positions(a.take(n), a) == 0,
    decreases n,
{
    if n > 0 {
        assert(a.take(n).drop_last() =~= a.take(n - 1));
        lemma_no_distance_to_self_prefix(a, n - 1);
    }
}

/// Why a sequence could not be built from a pair of slices.
#[derive(Debug, Clone, Copy, PartialEq, Eq, Structural)]
pub struct LengthMismatch {
    /// The fixed width of the sequence that was asked for.
    pub expected: usize,
    /// Length of the symbol slice that was given.
    pub symbols: usize,
    /// Length of the quality slice that was given.
    pub quality: usize,
}

/// A sequence of exactly `N` symbols, each with a quality symbol.
/// Identity is given by the symbols alone.
pub struct Sequence<const N: usize> {
    symbols: Vec<u8>,
    quality: Vec<u8>,
}

impl<const N: usize> View for Sequence<N> {
    type V = Seq<u8>;

    closed spec fn view(&self) -> Seq<u8> {
        self.symbols@
    }
}

impl<const N: usize> Sequence<N> {
    /// The quality symbols, one per position.
    pub closed spec fn quality_view(&self) -> Seq<u8> {
        self.quality@
    }

    /// Both arrays hold exactly `N` entries.
    pub open spec fn wf(&self) -> bool {
        self@.len() == N && self.quality_view().len() == N
    }

    /// Builds a sequence from its symbols and qualities; both must hold `N` entries.
    pub fn construct(symbols: &[u8], quality: &[u8]) -> (r: Result<Self, LengthMismatch>)
        ensures
            r is Ok <==> (symbols@.len() == N && quality@.len() == N),
            r matches Ok(s) ==> s.wf() && s@ == symbols@ && s.quality_view() == quality@,
            r matches Err(e) ==> e == (LengthMismatch {
                expected: N,
                symbols: symbols@.len() as usize,
                quality: quality@.len() as usize,
            }),
    {
        if symbols.len() != N || quality.len() != N {
            return Err(LengthMismatch { expected: N, symbols: symbols.len(), quality: quality.len() });
        }
        let s = copy_bytes(symbols);
        let q = copy_bytes(quality);
        Ok(Sequence { symbols: s, quality: q })
    }

    /// A copy with the same symbols and qualities.
    pub fn duplicate(&self) -> (r: Self)
        ensures
            r@ == self@,
            r.quality_view() == self.quality_view(),
            r.wf() == self.wf(),
    {
        Sequence { symbols: copy_bytes(self.symbols.as_slice()), quality: copy_bytes(self.quality.as_slice()) }
    }

    /// The symbols.
    pub fn symbols(&self) -> (r: &[u8])
        ensures
            r@ == self@,
    {
        self.symbols.as_slice()
    }

    /// The quality symbols.
    pub fn quality(&self) -> (r: &[u8])
        ensures
            r@ == self.quality_view(),
    {
        self.quality.as_slice()
    }

    /// Whether both sequences hold the same symbols; quality plays no part.
    pub fn same_symbols(&self, other: &Self) -> (r: bool)
        ensures
            r == (self@ == other@),
    {
        bytes_equal(self.symbols.as_slice(), other.symbols.as_slice())
    }

    /// Number of ambiguity symbols.
    pub fn ambiguous_count(&self) -> (r: usize)
        ensures
            r == count_symbol(self@, AMBIGUOUS),
    {
        let mut n: usize = 0;
        let mut i: usize = 0;
        while i < self.symbols.len()
            invariant
                i <= self.symbols@.len(),
                n == count_symbol(self.symbols@.subrange(0, i as int), AMBIGUOUS),
                n <= i,
            decreases self.symbols@.len() - i,
        {
            proof {
                assert(self.symbols@.subrange(0, i + 1).drop_last() =~= self.symbols@.subrange(0, i as int));
            }
            if self.symbols[i] == AMBIGUOUS {
                n = n + 1;
            }
            i = i + 1;
        }
        proof {
            assert(self.symbols@.subrange(0, i as int) =~= self.symbols@);
        }
        n
    }

    /// The share of ambiguity symbols, as (ambiguity symbols, `N`).
    pub fn ratio_ns(&self) -> (r: (usize, usize))
        requires
            self.wf(),
        ensures
            r.0 == count_symbol(self@, AMBIGUOUS),
            r.1 == N,
    {
        (self.ambiguous_count(), N)
    }

    /// Whether fewer than 55 in 100 symbols are ambiguous: the admission gate
    /// for counting a read towards a barcode's majority vote.
    pub fn is_mostly_called(&self) -> (r: bool)
        requires
            self.wf(),
        ensures
            r == (100 * count_symbol(self@, AMBIGUOUS) < 55 * N),
    {
        let n = self.ambiguous_count();
        proof {
            lemma_count_symbol_bound(self@, AMBIGUOUS);
        }
        if N > usize::MAX / 100 {
            (n as u128) * 100 < 55 * (N as u128)
        } else {
            n * 100 < 55 * N
        }
    }

    /// Number of positions at which the symbols of the two sequences differ.
    pub fn hamming_distance(&self, other: &Self) -> (r: usize)
        requires
            self.wf(),
            other.wf(),
        ensures
            r == differing_positions(self@, other@),
    {
        let mut d: usize = 0;
        let mut i: usize = 0;
        while i < N
            invariant
                i <= N,
                self.symbols@.len() == N,
                other.symbols@.len() == N,
                d == differing_positions(self.symbols@.subrange(0, i as int), other.symbols@),
                d <= i,
            decreases N - i,
        {
            proof {
                assert(self.symbols@.subrange(0, i + 1).drop_last() =~= self.symbols@.subrange(0, i as int));
            }
            if self.symbols[i] != other.symbols[i] {
                d = d + 1;
            }
            i = i + 1;
        }
        proof {
            assert(self.symbols@.subrange(0, i as int) =~= self.symbols@);
        }
        d
    }

    /// Position-wise diff: at each position the symbol of `other` where it
    /// differs from `self`, else `-`.
    pub fn normal_align(&self, other: &Self) -> (r: Vec<u8>)
        requires
            self.wf(),
            other.wf(),
        ensures
            r@ == positionwise_diff(self@, other@),
    {
        let mut out: Vec<u8> = Vec::new();
        let mut i: usize = 0;
        while i < N
            invariant
                i <= N,
                self.symbols@.len() == N,
                other.symbols@.len() == N,
                out@ =~= Seq::new(i as nat, |j: int| diff_symbol(self.symbols@[j], other.symbols@[j])),
            decreases N - i,
        {
            if self.symbols[i] != other.symbols[i] {
                out.push(other.symbols[i]);
            } else {
                out.push(NO_DIFFERENCE);
            }
            i = i + 1;
        }
        out
    }
}

impl<const N: usize> PartialEq for Sequence<N> {
    /// Sequences are equal when their symbols are; quality plays no part.
    fn eq(&self, other: &Self) -> (r: bool) {
        self.same_symbols(other)
    }
}

impl<const N: usize> vstd::std_specs::cmp::PartialEqSpecImpl for Sequence<N> {
    open spec fn obeys_eq_spec() -> bool {
        true
    }

    open spec fn eq_spec(&self, other: &Self) -> bool {
        self@ == other@
    }
}

impl<const N: usize> Eq for Sequence<N> {
}

/// A fresh vector holding the bytes of `b`.
pub fn copy_bytes(b: &[u8]) -> (r: Vec<u8>)
    ensures
        r@ == b@,
{
    let mut v: Vec<u8> = Vec::new();
    let mut i: usize = 0;
    while i < b.len()
        invariant
            i <= b@.len(),
            v@ == b@.subrange(0, i as int),
        decreases b@.len() - i,
    {
        v.push(b[i]);
        i = i + 1;
        proof {
            assert(v@ =~= b@.subrange(0, i as int));
        }
    }
    proof {
        assert(b@.subrange(0, i as int) =~= b@);
    }
    v
}

/// Whether two byte slices are equal.
pub fn bytes_equal(a: &[u8], b: &[u8]) -> (r: bool)
    ensures
        r == (a@ == b@),
{
    if a.len() != b.len() {
        return false;
    }
    let mut i: usize = 0;
    while i < a.len()
        invariant
            i <= a@.len(),
            a@.len() == b@.len(),
            forall|j: int| 0 <= j < i ==> a@[j] == b@[j],
        decreases a@.len() - i,
    {
        if a[i] != b[i] {
            return false;
        }
        i = i + 1;
    }
    proof {
        assert(a@ =~= b@);
    }
    true
}

} // verus!
