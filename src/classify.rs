//! Classifies the solution set of the linear system that a reduced matrix
//! represents, its last column being the right-hand side.
use vstd::prelude::*;
use crate::eliminate::{
    PivotStep, eliminate, elimination_run, exact_arith, in_rref, strictly_increasing, zero_block,
};
use crate::matrix::{Matrix, column_of};

verus! {

/// How many solutions the system has; a unique one comes with its values.
#[derive(Clone, Debug, PartialEq)]
pub enum SolutionClassification<T> {
    Unique(Vec<T>),
    NoSolution,
    Many,
}

/// The mathematical counterpart of [`SolutionClassification`].
pub ghost enum SolutionSet<T> {
    Unique(Seq<T>),
    NoSolution,
    Many,
}

impl<T> View for SolutionClassification<T> {
    type V = SolutionSet<T>;

    open spec fn view(&self) -> SolutionSet<T> {
        match self {
            SolutionClassification::Unique(v) => SolutionSet::Unique(v@),
            SolutionClassification::NoSolution => SolutionSet::NoSolution,
            SolutionClassification::Many => SolutionSet::Many,
        }
    }
}

/// A valid pivot-column list for a matrix with `cols` columns.
pub open spec fn valid_pivots(p: Seq<usize>, cols: nat) -> bool {
    &&& strictly_increasing(p)
    &&& forall|k: int| 0 <= k < p.len() ==> #[trigger] p[k] < cols
}

/// The augmented column itself became a pivot: some row reads `0 = nonzero`.
pub open spec fn augmented_is_pivot(p: Seq<usize>, cols: nat) -> bool {
    p.len() > 0 && p.last() == cols - 1
}

/// Every coefficient column, `0..cols - 1`, is a pivot column.
pub open spec fn coefficients_pivoted(p: Seq<usize>, cols: nat) -> bool {
    forall|c: usize| c < cols - 1 ==> #[trigger] p.contains(c)
}

/// The classification of the system given by the reduced grid `g` and its pivots `p`.
pub open spec fn classification_of<T>(g: Seq<Seq<T>>, p: Seq<usize>) -> SolutionSet<T> {
    let cols = g[0].len();
    if augmented_is_pivot(p, cols) {
        SolutionSet::NoSolution
    } else if coefficients_pivoted(p, cols) {
        SolutionSet::Unique(column_of(g, cols - 1))
    } else {
        SolutionSet::Many
    }
}

/// A strictly increasing list below `bound` that holds each of `0..=j` starts `0, 1, ..., j`.
proof fn lemma_prefix_identity(p: Seq<usize>, bound: nat, j: usize)
    requires
        valid_pivots(p, bound),
        forall|c: usize| c <= j ==> #[trigger] p.contains(c),
    ensures
        j < p.len(),
        forall|k: int| 0 <= k <= j ==> #[trigger] p[k] == k,
    decreases j,
{
    assert(p.contains(j));
    let w = choose|w: int| 0 <= w < p.len() && p[w] == j;
    if j > 0 {
        lemma_prefix_identity(p, bound, (j - 1) as usize);
        assert(w >= j) by {
            if w < j {
                assert(p[w] == w);
            }
        }
        assert(p[j as int] <= p[w]) by {
            if j < w {
                assert(p[j as int] < p[w]);
            }
        }
        assert(p[j as int] > p[j - 1]);
    } else {
        assert(p[0] <= p[w]) by {
            if 0 < w {
                assert(p[0] < p[w]);
            }
        }
    }
}

/// A strictly increasing list of `len` values below `len` is `0, 1, ..., len - 1`.
proof fn lemma_full_list(p: Seq<usize>, len: nat)
    requires
        valid_pivots(p, len),
        p.len() == len,
    ensures
        forall|k: int| 0 <= k < p.len() ==> #[trigger] p[k] == k,
{
    assert forall|k: int| 0 <= k < p.len() implies #[trigger] p[k] == k by {
        lemma_upper_bound(p, k, 0);
        lemma_upper_bound(p, len - 1, k);
    }
}

/// In a strictly increasing list, `p[k]` trails `p[last]` by at least `last - k`.
proof fn lemma_upper_bound(p: Seq<usize>, last: int, k: int)
    requires
        strictly_increasing(p),
        0 <= k <= last < p.len(),
    ensures
        p[k] + (last - k) <= p[last],
    decreases last - k,
{
    if k < last {
        lemma_upper_bound(p, last, k + 1);
        assert(p[k] < p[k + 1]);
    }
}

/// Classifies the system given by a reduced matrix and its pivot columns.
pub fn classify<T: Copy>(m: &Matrix<T>, pivots: &Vec<usize>) -> (r: SolutionClassification<T>)
    requires
        m.wf(),
        valid_pivots(pivots@, m@[0].len()),
    ensures
        r@ == classification_of(m@, pivots@),
{
    let cols = m.num_cols();
    let n = pivots.len();
    if n > 0 && pivots[n - 1] == cols - 1 {
        return SolutionClassification::NoSolution;
    }
    let ghost p = pivots@;
    proof {
        assert forall|k: int| 0 <= k < p.len() implies #[trigger] p[k] < cols - 1 by {
            lemma_upper_bound(p, p.len() - 1, k);
        }
        if n > 0 {
            lemma_upper_bound(p, n - 1, 0);
        }
    }
    if n == cols - 1 {
        proof {
            lemma_full_list(p, (cols - 1) as nat);
            assert forall|c: usize| c < cols - 1 implies #[trigger] p.contains(c) by {
                assert(p[c as int] == c);
            }
        }
        SolutionClassification::Unique(m.col(cols - 1))
    } else {
        proof {
            if coefficients_pivoted(p, cols as nat) {
                lemma_prefix_identity(p, (cols - 1) as nat, (cols - 2) as usize);
            }
        }
        SolutionClassification::Many
    }
}

/// Classification is a pure function of the reduced matrix and its pivot list:
/// the same pair always yields the same classification.
pub proof fn lemma_classify_consistent<T>(
    g1: Seq<Seq<T>>,
    p1: Seq<usize>,
    g2: Seq<Seq<T>>,
    p2: Seq<usize>,
)
    requires
        g1 == g2,
        p1 == p2,
    ensures
        classification_of(g1, p1) == classification_of(g2, p2),
{
}

/// Reduces `m` in place (see [`eliminate`]) and classifies the resulting system.
/// Returns the pivot columns found and the classification.
pub fn solve<T: Copy>(
    m: &mut Matrix<T>,
    is_nonzero: impl Fn(T) -> bool + Copy,
    recip: impl Fn(T) -> T,
    neg: impl Fn(T) -> T,
    times: impl Fn(T, T) -> T + Copy,
    mul_add: impl Fn(T, T, T) -> T + Copy,
) -> (r: (Vec<usize>, SolutionClassification<T>))
    requires
        old(m).wf(),
        forall|x: T| #[trigger] is_nonzero.requires((x,)),
        forall|x: T| #[trigger] recip.requires((x,)),
        forall|x: T| #[trigger] neg.requires((x,)),
        forall|a: T, b: T| #[trigger] times.requires((a, b)),
        forall|a: T, b: T, c: T| #[trigger] mul_add.requires((a, b, c)),
    ensures
        final(m).wf(),
        final(m)@.len() == old(m)@.len(),
        final(m)@[0].len() == old(m)@[0].len(),
        valid_pivots(r.0@, old(m)@[0].len()),
        r.0@.len() <= old(m)@.len(),
        exact_arith(is_nonzero, recip, neg, times, mul_add) ==> in_rref(
            final(m)@,
            r.0@,
            is_nonzero,
            recip,
            times,
        ),
        exists|steps: Seq<PivotStep<T>>|
            elimination_run(old(m)@, steps, r.0@, final(m)@, is_nonzero, recip, neg, times, mul_add),
        r.0@.len() == 0 ==> zero_block(old(m)@, is_nonzero, 0, 0, old(m)@[0].len() as int),
        r.1@ == classification_of(final(m)@, r.0@),
{
    let pivots = eliminate(m, is_nonzero, recip, neg, times, mul_add);
    let c = classify(m, &pivots);
    (pivots, c)
}

} // verus!
