use vstd::prelude::*;
use crate::sequence::{Sequence, NO_DIFFERENCE};

verus! {

/// Score of aligning two equal symbols.
pub const MATCH_SCORE: i32 = 1;

/// Score of aligning two different symbols.
pub const MISMATCH_SCORE: i32 = -1;

/// Score of the first position of a gap.
pub const GAP_OPEN: i32 = -5;

/// Score of each further position of the same gap.
pub const GAP_EXTEND: i32 = -1;

/// Longest sequence that the aligner is asked to handle.
pub const MAX_ALIGN_LEN: usize = 1024;

/// Marker for a position of the first sequence that the second lacks.
pub const DELETION_MARK: u8 = 88;

/// Marker for a position of the second sequence that the first lacks.
pub const INSERTION_MARK: u8 = 94;

/// One step of a pairwise alignment of `x` against `y`.
#[derive(Debug, Clone, Copy, PartialEq, Eq, Structural)]
pub enum EditOp {
    /// Equal symbols of `x` and `y`.
    Match,
    /// Different symbols of `x` and `y`.
    Subst,
    /// A symbol of `y` against a gap in `x`.
    Del,
    /// A symbol of `x` against a gap in `y`.
    Ins,
    /// The given number of symbols of `x` left out.
    Xclip(usize),
    /// The given number of symbols of `y` left out.
    Yclip(usize),
}

/// Symbols of `x` that one step consumes.
pub open spec fn x_step(op: EditOp) -> nat {
    match op {
        EditOp::Match | EditOp::Subst | EditOp::Ins => 1,
        EditOp::Xclip(k) => k as nat,
        _ => 0,
    }
}

/// Symbols of `y` that one step consumes.
pub open spec fn y_step(op: EditOp) -> nat {
    match op {
        EditOp::Match | EditOp::Subst | EditOp::Del => 1,
        EditOp::Yclip(k) => k as nat,
        _ => 0,
    }
}

/// Symbols of `x` consumed by `ops`.
pub open spec fn x_consumed(ops: Seq<EditOp>) -> nat
    decreases ops.len(),
{
    if ops.len() == 0 {
        0
    } else {
        x_consumed(ops.drop_last()) + x_step(ops.last())
    }
}

/// Symbols of `y` consumed by `ops`.
pub open spec fn y_consumed(ops: Seq<EditOp>) -> nat
    decreases ops.len(),
{
    if ops.len() == 0 {
        0
    } else {
        y_consumed(ops.drop_last()) + y_step(ops.last())
    }
}

/// Whether a step is a clip.
pub open spec fn is_clip(op: EditOp) -> bool {
    op is Xclip || op is Yclip
}

/// `ops` is a global alignment of `x` against `y`: it consumes both wholly,
/// clips nothing, and says `Match` exactly where the aligned symbols are equal.
pub open spec fn is_global_alignment(x: Seq<u8>, y: Seq<u8>, ops: Seq<EditOp>) -> bool {
    &&& forall|i: int| 0 <= i < ops.len() ==> !is_clip(#[trigger] ops[i])
    &&& x_consumed(ops) == x.len()
    &&& y_consumed(ops) == y.len()
    &&& forall|i: int|
        0 <= i < ops.len() && (ops[i] is Match || ops[i] is Subst) ==> ((#[trigger] ops[i] is Match)
            <==> x[x_consumed(ops.take(i)) as int] == y[y_consumed(ops.take(i)) as int])
}

/// Score of step `i` of `ops`: a gap step that follows a gap step of the same
/// kind extends it, any other gap step opens one.
pub open spec fn op_score(ops: Seq<EditOp>, i: int) -> int {
    match ops[i] {
        EditOp::Match => MATCH_SCORE as int,
        EditOp::Subst => MISMATCH_SCORE as int,
        EditOp::Del => if i > 0 && ops[i - 1] is Del {
            GAP_EXTEND as int
        } else {
            GAP_OPEN as int
        },
        EditOp::Ins => if i > 0 && ops[i - 1] is Ins {
            GAP_EXTEND as int
        } else {
            GAP_OPEN as int
        },
        _ => 0,
    }
}

/// Total score of `ops`.
pub open spec fn alignment_score(ops: Seq<EditOp>) -> int
    decreases ops.len(),
{
    if ops.len() == 0 {
        0
    } else {
        alignment_score(ops.drop_last()) + op_score(ops, ops.len() - 1)
    }
}

/// `ops` is a global alignment of `x` against `y` of score `score`, and no
/// global alignment of the two scores more.
pub open spec fn is_optimal_global(x: Seq<u8>, y: Seq<u8>, score: int, ops: Seq<EditOp>) -> bool {
    &&& is_global_alignment(x, y, ops)
    &&& score == alignment_score(ops)
    &&& forall|o: Seq<EditOp>| #[trigger] is_global_alignment(x, y, o) ==> alignment_score(o) <= score
}

/// The (score, operations) that the aligner returns for `x` against `y`;
/// where several alignments are optimal, which one it returns.
pub uninterp spec fn global_alignment(x: Seq<u8>, y: Seq<u8>) -> (int, Seq<EditOp>);

/// Substitution score of a pair of symbols.
pub fn substitution_score(a: u8, b: u8) -> (r: i32)
    ensures
        r == if a == b { MATCH_SCORE } else { MISMATCH_SCORE },
{
    if a == b {
        MATCH_SCORE
    } else {
        MISMATCH_SCORE
    }
}

/// Relies on bio's `Aligner::with_capacity` and `Aligner::global`: the
/// dynamic-programming global alignment of `x` against `y` under an affine gap
/// score (`gap_open` for a gap's first position, `gap_extend` for each further
/// one), with clipping priced out (`global` sets every clip penalty to the
/// minimum score), returns an optimal alignment and its score; Match and Subst
/// are told apart by equality of the aligned symbols.
#[verifier::external_body]
fn global_align(x: &[u8], y: &[u8]) -> (r: (i32, Vec<EditOp>))
    requires
        x@.len() <= MAX_ALIGN_LEN,
        y@.len() <= MAX_ALIGN_LEN,
    ensures
        (r.0 as int, r.1@) == global_alignment(x@, y@),
        is_optimal_global(x@, y@, r.0 as int, r.1@),
{
    let mut aligner = bio::alignment::pairwise::Aligner::with_capacity(
        x.len(), y.len(), GAP_OPEN, GAP_EXTEND, |a: u8, b: u8| substitution_score(a, b));
    let alignment = aligner.global(x, y);
    let ops = alignment.operations.iter().map(|op| match *op {
        bio::alignment::AlignmentOperation::Match => EditOp::Match,
        bio::alignment::AlignmentOperation::Subst => EditOp::Subst,
        bio::alignment::AlignmentOperation::Del => EditOp::Del,
        bio::alignment::AlignmentOperation::Ins => EditOp::Ins,
        bio::alignment::AlignmentOperation::Xclip(k) => EditOp::Xclip(k),
        bio::alignment::AlignmentOperation::Yclip(k) => EditOp::Yclip(k),
    }).collect();
    (alignment.score, ops)
}


/// Whether a step leaves the cursor into `x` where it is.
pub open spec fn is_gap(op: EditOp) -> bool {
    op is Del || op is Ins
}

/// The cursor into `x` after `ops`: one step for each operation that is not a gap.
pub open spec fn cursor(ops: Seq<EditOp>) -> nat
    decreases ops.len(),
{
    if ops.len() == 0 {
        0
    } else {
        cursor(ops.drop_last()) + if is_gap(ops.last()) { 0nat } else { 1nat }
    }
}

/// What one step adds to the annotated diff, with the cursor into `x` at `c`.
pub open spec fn rendered_step(op: EditOp, c: nat, x: Seq<u8>) -> Seq<u8> {
    match op {
        EditOp::Match => seq![NO_DIFFERENCE],
        EditOp::Subst => seq![x[c as int]],
        EditOp::Del => seq![DELETION_MARK],
        EditOp::Ins => seq![INSERTION_MARK],
        _ => Seq::empty(),
    }
}

/// The annotated diff of `ops` against the symbols `x`.
pub open spec fn rendered(ops: Seq<EditOp>, x: Seq<u8>) -> Seq<u8>
    decreases ops.len(),
{
    if ops.len() == 0 {
        Seq::empty()
    } else {
        rendered(ops.drop_last(), x) + rendered_step(ops.last(), cursor(ops.drop_last()), x)
    }
}

/// Every substitution of `ops` finds its symbol among the `n` symbols of `x`.
pub open spec fn renders_within(ops: Seq<EditOp>, n: nat) -> bool {
    forall|i: int| 0 <= i < ops.len() && (#[trigger] ops[i] is Subst) ==> cursor(ops.take(i)) < n
}

/// Renders an alignment trace against the symbols `x`: `-` for a match, the
/// symbol of `x` under the cursor for a substitution, `X` for a deletion and
/// `^` for an insertion. Gaps hold the cursor back, so that it stays in step
/// with `x` through runs of gaps and substitutions. Returns the diff and the
/// final cursor.
pub fn render_alignment(ops: &[EditOp], x: &[u8]) -> (r: (Vec<u8>, usize))
    requires
        renders_within(ops@, x@.len()),
    ensures
        r.0@ == rendered(ops@, x@),
        r.1 == cursor(ops@),
{
    let mut out: Vec<u8> = Vec::new();
    let mut index: usize = 0;
    let mut i: usize = 0;
    while i < ops.len()
        invariant
            i <= ops@.len(),
            renders_within(ops@, x@.len()),
            out@ == rendered(ops@.take(i as int), x@),
            index == cursor(ops@.take(i as int)),
            index <= i,
        decreases ops@.len() - i,
    {
        proof {
            assert(ops@.take(i + 1).drop_last() =~= ops@.take(i as int));
        }
        match ops[i] {
            EditOp::Match => {
                out.push(NO_DIFFERENCE);
                index = index + 1;
            },
            EditOp::Subst => {
                out.push(x[index]);
                index = index + 1;
            },
            EditOp::Del => {
                out.push(DELETION_MARK);
            },
            EditOp::Ins => {
                out.push(INSERTION_MARK);
            },
            _ => {
                index = index + 1;
            },
        }
        i = i + 1;
    }
    proof {
        assert(ops@.take(i as int) =~= ops@);
    }
    (out, index)
}

/// Symbols of `x` consumed by a prefix of `ops` are at most those consumed by `ops`.
pub proof fn lemma_x_consumed_prefix(ops: Seq<EditOp>, j: int)
    requires
        0 <= j < ops.len(),
    ensures
        x_consumed(ops.take(j)) + x_step(ops[j]) <= x_consumed(ops),
    decreases ops.len(),
{
    if j == ops.len() - 1 {
        assert(ops.take(j) =~= ops.drop_last());
    } else {
        lemma_x_consumed_prefix(ops.drop_last(), j);
        assert(ops.drop_last().take(j) =~= ops.take(j));
    }
}

/// Without clips the cursor never passes the symbols of `x` consumed.
pub proof fn lemma_cursor_within_x(ops: Seq<EditOp>)
    requires
        forall|i: int| 0 <= i < ops.len() ==> !is_clip(#[trigger] ops[i]),
    ensures
        cursor(ops) <= x_consumed(ops),
    decreases ops.len(),
{
    if ops.len() > 0 {
        let d = ops.drop_last();
        assert forall|i: int| 0 <= i < d.len() implies !is_clip(#[trigger] d[i]) by {
            assert(d[i] == ops[i]);
        }
        lemma_cursor_within_x(d);
        assert(!is_clip(ops[ops.len() - 1]));
    }
}

/// A global alignment of `x` against `y` can be rendered against `x`.
pub proof fn lemma_alignment_renders(x: Seq<u8>, y: Seq<u8>, ops: Seq<EditOp>)
    requires
        is_global_alignment(x, y, ops),
    ensures
        renders_within(ops, x.len()),
{
    assert forall|i: int| 0 <= i < ops.len() && (#[trigger] ops[i] is Subst) implies cursor(ops.take(i)) < x.len() by {
        let p = ops.take(i);
        assert forall|k: int| 0 <= k < p.len() implies !is_clip(#[trigger] p[k]) by {
            assert(p[k] == ops[k]);
        }
        lemma_cursor_within_x(p);
        lemma_x_consumed_prefix(ops, i);
    }
}


/// Number of `Match` steps in `ops`.
pub open spec fn match_count(ops: Seq<EditOp>) -> nat
    decreases ops.len(),
{
    if ops.len() == 0 {
        0
    } else {
        match_count(ops.drop_last()) + if ops.last() is Match { 1nat } else { 0nat }
    }
}

/// The trace of `n` matches.
pub open spec fn all_matches(n: nat) -> Seq<EditOp> {
    Seq::new(n, |i: int| EditOp::Match)
}

proof fn lemma_all_matches(n: nat)
    ensures
        x_consumed(all_matches(n)) == n,
        y_consumed(all_matches(n)) == n,
        alignment_score(all_matches(n)) == n,
    decreases n,
{
    if n > 0 {
        assert(all_matches(n).drop_last() =~= all_matches((n - 1) as nat));
        lemma_all_matches((n - 1) as nat);
    }
}

proof fn lemma_all_matches_aligns(x: Seq<u8>)
    ensures
        is_global_alignment(x, x, all_matches(x.len())),
{
    let m = all_matches(x.len());
    lemma_all_matches(x.len());
    assert forall|i: int| 0 <= i < m.len() && (m[i] is Match || m[i] is Subst) implies ((#[trigger] m[i] is Match)
        <==> x[x_consumed(m.take(i)) as int] == x[y_consumed(m.take(i)) as int]) by {
        assert(m.take(i) =~= all_matches(i as nat));
        lemma_all_matches(i as nat);
    }
}

proof fn lemma_score_bound(ops: Seq<EditOp>)
    requires
        forall|i: int| 0 <= i < ops.len() ==> !is_clip(#[trigger] ops[i]),
    ensures
        alignment_score(ops) <= 2 * match_count(ops) - ops.len(),
        match_count(ops) <= x_consumed(ops),
        match_count(ops) <= ops.len(),
    decreases ops.len(),
{
    if ops.len() > 0 {
        let d = ops.drop_last();
        assert forall|i: int| 0 <= i < d.len() implies !is_clip(#[trigger] d[i]) by {
            assert(d[i] == ops[i]);
        }
        lemma_score_bound(d);
        assert(!is_clip(ops[ops.len() - 1]));
    }
}

proof fn lemma_all_counted_matches(ops: Seq<EditOp>)
    requires
        match_count(ops) == ops.len(),
    ensures
        forall|i: int| 0 <= i < ops.len() ==> #[trigger] ops[i] == EditOp::Match,
    decreases ops.len(),
{
    if ops.len() > 0 {
        let d = ops.drop_last();
        lemma_match_count_bound(d);
        lemma_all_counted_matches(d);
        assert forall|i: int| 0 <= i < ops.len() implies #[trigger] ops[i] == EditOp::Match by {
            if i < d.len() {
                assert(d[i] == ops[i]);
            }
        }
    }
}

proof fn lemma_match_count_bound(ops: Seq<EditOp>)
    ensures
        match_count(ops) <= ops.len(),
    decreases ops.len(),
{
    if ops.len() > 0 {
        lemma_match_count_bound(ops.drop_last());
    }
}

/// An optimal global alignment of a sequence against itself matches every
/// position and scores the length times the match score.
pub proof fn lemma_self_alignment(x: Seq<u8>, score: int, ops: Seq<EditOp>)
    requires
        is_optimal_global(x, x, score, ops),
    ensures
        score == x.len() * MATCH_SCORE,
        ops == all_matches(x.len()),
{
    lemma_all_matches_aligns(x);
    lemma_all_matches(x.len());
    assert(alignment_score(all_matches(x.len())) <= score);
    lemma_score_bound(ops);
    lemma_all_counted_matches(ops);
    assert(ops =~= all_matches(x.len()));
}

impl<const N: usize> Sequence<N> {
    /// Global alignment of `other` against this sequence: its score and trace.
    pub fn align(&self, other: &Self) -> (r: (i32, Vec<EditOp>))
        requires
            self.wf(),
            other.wf(),
            N <= MAX_ALIGN_LEN,
        ensures
            (r.0 as int, r.1@) == global_alignment(other@, self@),
            is_optimal_global(other@, self@, r.0 as int, r.1@),
            r.0 <= N,
            r.0 == N <==> self@ == other@,
            self@ == other@ ==> r.1@ == all_matches(N as nat),
    {
        let r = global_align(other.symbols(), self.symbols());
        proof {
            lemma_score_at_most_len(other@, self@, r.0 as int, r.1@);
            if self@ == other@ {
                lemma_self_alignment(other@, r.0 as int, r.1@);
            }
        }
        r
    }

    /// Annotated diff of `other` against this sequence (see
    /// `render_alignment`), the final cursor and the alignment score.
    pub fn pretty_align(&self, other: &Self) -> (r: (Vec<u8>, usize, i32))
        requires
            self.wf(),
            other.wf(),
            N <= MAX_ALIGN_LEN,
        ensures
            r.0@ == rendered(global_alignment(other@, self@).1, other@),
            r.1 == cursor(global_alignment(other@, self@).1),
            r.2 == global_alignment(other@, self@).0,
            self@ == other@ ==> r.0@ == Seq::new(N as nat, |i: int| NO_DIFFERENCE) && r.2 == N,
            self@ != other@ && (forall|i: int| 0 <= i < N ==> other@[i] != NO_DIFFERENCE) ==> exists|p: int|
                0 <= p < r.0@.len() && r.0@[p] != NO_DIFFERENCE,
    {
        let (score, ops) = self.align(other);
        proof {
            lemma_alignment_renders(other@, self@, ops@);
        }
        let (diff, index) = render_alignment(ops.as_slice(), other.symbols());
        proof {
            if self@ == other@ {
                lemma_self_alignment(other@, score as int, ops@);
                lemma_render_matches(N as nat, other@);
            }
            lemma_difference_shows(other@, self@, score as int, ops@);
        }
        let r = (diff, index, score);
        proof {
            if self@ != other@ && (forall|i: int| 0 <= i < N ==> other@[i] != NO_DIFFERENCE) {
                assert(forall|i: int| 0 <= i < other@.len() ==> other@[i] != NO_DIFFERENCE);
                let p = choose|p: int| 0 <= p < rendered(ops@, other@).len() && rendered(ops@, other@)[p] != NO_DIFFERENCE;
                assert(r.0@[p] != NO_DIFFERENCE);
            }
        }
        r
    }
}

/// An optimal global alignment of two sequences of one length scores at most
/// their length, and exactly that only when they are equal.
pub proof fn lemma_score_at_most_len(x: Seq<u8>, y: Seq<u8>, score: int, ops: Seq<EditOp>)
    requires
        is_optimal_global(x, y, score, ops),
        x.len() == y.len(),
    ensures
        score <= x.len(),
        score == x.len() ==> x == y,
{
    lemma_score_bound(ops);
    if score == x.len() {
        lemma_all_counted_matches(ops);
        assert(ops =~= all_matches(ops.len()));
        lemma_all_match_equal(x, y, ops);
    }
}

/// A global alignment of two sequences of one length that matches at every
/// step aligns equal sequences.
proof fn lemma_all_match_equal(x: Seq<u8>, y: Seq<u8>, ops: Seq<EditOp>)
    requires
        is_global_alignment(x, y, ops),
        ops == all_matches(ops.len()),
    ensures
        x == y,
{
    lemma_all_matches(ops.len());
    assert forall|i: int| 0 <= i < x.len() implies x[i] == y[i] by {
        assert(ops.take(i) =~= all_matches(i as nat));
        lemma_all_matches(i as nat);
        assert(ops[i] is Match);
    }
    assert(x =~= y);
}

/// The rendering of a non-clip step `i` shows up in the rendering of `ops`.
proof fn lemma_step_rendered(ops: Seq<EditOp>, x: Seq<u8>, i: int)
    requires
        0 <= i < ops.len(),
        !is_clip(ops[i]),
    ensures
        exists|p: int| 0 <= p < rendered(ops, x).len()
            && rendered(ops, x)[p] == rendered_step(ops[i], cursor(ops.take(i)), x)[0],
    decreases ops.len(),
{
    let d = ops.drop_last();
    if i == ops.len() - 1 {
        assert(ops.take(i) =~= d);
        let p = rendered(d, x).len() as int;
        assert(rendered(ops, x)[p] == rendered_step(ops[i], cursor(ops.take(i)), x)[0]);
    } else {
        assert(d[i] == ops[i]);
        assert(d.take(i) =~= ops.take(i));
        lemma_step_rendered(d, x, i);
        let p = choose|p: int| 0 <= p < rendered(d, x).len()
            && rendered(d, x)[p] == rendered_step(d[i], cursor(d.take(i)), x)[0];
        assert(rendered(ops, x)[p] == rendered(d, x)[p]);
    }
}

/// Two different sequences of one length render with at least one position
/// other than `-`, as long as `x` itself holds no `-`.
pub proof fn lemma_difference_shows(x: Seq<u8>, y: Seq<u8>, score: int, ops: Seq<EditOp>)
    requires
        is_optimal_global(x, y, score, ops),
        x.len() == y.len(),
    ensures
        x != y && (forall|i: int| 0 <= i < x.len() ==> x[i] != NO_DIFFERENCE) ==> exists|p: int|
            0 <= p < rendered(ops, x).len() && rendered(ops, x)[p] != NO_DIFFERENCE,
{
    if x != y && (forall|i: int| 0 <= i < x.len() ==> x[i] != NO_DIFFERENCE) {
        if forall|i: int| 0 <= i < ops.len() ==> ops[i] is Match {
            assert(ops =~= all_matches(ops.len()));
            lemma_all_match_equal(x, y, ops);
        }
        let i = choose|i: int| 0 <= i < ops.len() && !(ops[i] is Match);
        lemma_step_rendered(ops, x, i);
        lemma_alignment_renders(x, y, ops);
    }
}

proof fn lemma_render_matches(n: nat, x: Seq<u8>)
    ensures
        rendered(all_matches(n), x) == Seq::new(n, |i: int| NO_DIFFERENCE),
    decreases n,
{
    if n > 0 {
        assert(all_matches(n).drop_last() =~= all_matches((n - 1) as nat));
        lemma_render_matches((n - 1) as nat, x);
        assert(rendered(all_matches(n), x) =~= Seq::new(n, |i: int| NO_DIFFERENCE));
    }
}

} // verus!
