//! Gauss–Jordan elimination: drives a matrix to reduced row-echelon form by
//! elementary row operations and records the pivot columns it finds.
use vstd::prelude::*;
use crate::matrix::{Matrix, swapped_rows};

verus! {

/// The caller's zero test reports `x` as non-zero.
pub open spec fn nonzero_by<T, Z: Fn(T) -> bool>(is_nonzero: Z, x: T) -> bool {
    is_nonzero.ensures((x,), true)
}

/// The caller's zero test reports `x` as zero.
pub open spec fn zero_by<T, Z: Fn(T) -> bool>(is_nonzero: Z, x: T) -> bool {
    is_nonzero.ensures((x,), false)
}

/// Every entry of `g` in rows `row..` and columns `from..upto` is reported zero.
pub open spec fn zero_block<T, Z: Fn(T) -> bool>(
    g: Seq<Seq<T>>,
    is_nonzero: Z,
    row: int,
    from: int,
    upto: int,
) -> bool {
    forall|r: int, c: int|
        row <= r < g.len() && from <= c < upto ==> zero_by(is_nonzero, #[trigger] g[r][c])
}

/// Searches for the next pivot: the first column at or after `col` that holds a
/// non-zero entry in some row at or after `row`, and the first such row in it.
/// Returns `(pivot_row, pivot_col)`, or `None` when that region is all zero.
pub fn find_pivot<T: Copy>(
    m: &Matrix<T>,
    row: usize,
    col: usize,
    is_nonzero: impl Fn(T) -> bool,
) -> (r: Option<(usize, usize)>)
    requires
        m.wf(),
        forall|x: T| #[trigger] is_nonzero.requires((x,)),
    ensures
        r is None ==> zero_block(m@, is_nonzero, row as int, col as int, m@[0].len() as int),
        r matches Some((pr, pc)) ==> {
            &&& row <= pr < m@.len()
            &&& col <= pc < m@[0].len()
            &&& nonzero_by(is_nonzero, m@[pr as int][pc as int])
            &&& zero_block(m@, is_nonzero, row as int, col as int, pc as int)
            &&& forall|q: int|
                row <= q < pr ==> zero_by(is_nonzero, #[trigger] m@[q][pc as int])
        },
{
    let n_rows = m.num_rows();
    let n_cols = m.num_cols();
    let mut c: usize = col;
    while c < n_cols
        invariant
            m.wf(),
            n_rows == m@.len(),
            n_cols == m@[0].len(),
            forall|x: T| #[trigger] is_nonzero.requires((x,)),
            c >= col,
            zero_block(m@, is_nonzero, row as int, col as int, c as int),
        decreases n_cols - c,
    {
        let mut q: usize = row;
        while q < n_rows
            invariant
                m.wf(),
                n_rows == m@.len(),
                n_cols == m@[0].len(),
                col <= c < n_cols,
                row <= q,
                zero_block(m@, is_nonzero, row as int, col as int, c as int),
                forall|x: T| #[trigger] is_nonzero.requires((x,)),
                forall|p: int| row <= p < q ==> zero_by(is_nonzero, #[trigger] m@[p][c as int]),
            decreases n_rows - q,
        {
            if is_nonzero(m.entry(q, c)) {
                return Some((q, c));
            }
            q = q + 1;
        }
        c = c + 1;
    }
    None
}

/// Each column index is smaller than the next.
pub open spec fn strictly_increasing(p: Seq<usize>) -> bool {
    forall|a: int, b: int| 0 <= a < b < p.len() ==> p[a] < p[b]
}

/// `v` is what normalizing some non-zero entry yields: `x * recip(x)`.
pub open spec fn normalized_by<T, Z: Fn(T) -> bool, V: Fn(T) -> T, M: Fn(T, T) -> T>(
    is_nonzero: Z,
    recip: V,
    times: M,
    v: T,
) -> bool {
    exists|x: T, y: T|
        nonzero_by(is_nonzero, x) && #[trigger] recip.ensures((x,), y) && #[trigger] times.ensures(
            (x, y),
            v,
        )
}

/// The caller's operations behave as exact field arithmetic, on every value of
/// `T`: the zero test answers one way for each value, cancelling
/// against a normalized entry gives zero, scaling a zero gives zero, adding a
/// multiple of zero or a zero multiple changes nothing, a normalized entry is
/// non-zero, and scaling by the reciprocal of a normalized entry changes nothing.
pub open spec fn exact_arith<
    T,
    Z: Fn(T) -> bool,
    V: Fn(T) -> T,
    N: Fn(T) -> T,
    M: Fn(T, T) -> T,
    A: Fn(T, T, T) -> T,
>(is_nonzero: Z, recip: V, neg: N, times: M, mul_add: A) -> bool {
    &&& forall|e: T, s: T, u: T, w: T|
        neg.ensures((e,), s) && normalized_by(is_nonzero, recip, times, u) && #[trigger] mul_add.ensures(
            (e, s, u),
            w,
        ) ==> zero_by(is_nonzero, w)
    &&& forall|x: T, y: T, z: T|
        zero_by(is_nonzero, x) && #[trigger] times.ensures((x, y), z) ==> zero_by(is_nonzero, z)
    &&& forall|a: T, s: T, b: T, w: T|
        zero_by(is_nonzero, b) && #[trigger] mul_add.ensures((a, s, b), w) ==> w == a
    &&& forall|x: T| !(#[trigger] nonzero_by(is_nonzero, x) && zero_by(is_nonzero, x))
    &&& forall|u: T|
        #[trigger] normalized_by(is_nonzero, recip, times, u) ==> nonzero_by(is_nonzero, u)
    &&& forall|u: T, y: T, x: T, z: T|
        normalized_by(is_nonzero, recip, times, u) && #[trigger] recip.ensures((u,), y)
            && #[trigger] times.ensures((x, y), z) ==> z == x
    &&& forall|e: T, s: T, a: T, b: T, w: T|
        zero_by(is_nonzero, e) && #[trigger] neg.ensures((e,), s) && #[trigger] mul_add.ensures(
            (a, s, b),
            w,
        ) ==> w == a
}

/// Echelon shape: each pivot row is zero left of its pivot column, and the rows
/// after the last pivot row are zero throughout.
pub open spec fn echelon<T, Z: Fn(T) -> bool>(g: Seq<Seq<T>>, p: Seq<usize>, is_nonzero: Z) -> bool {
    &&& leading_zeros(g, p, is_nonzero)
    &&& zero_block(g, is_nonzero, p.len() as int, 0, g[0].len() as int)
}

/// Each pivot row `q` is zero in every column left of its pivot column `p[q]`.
pub open spec fn leading_zeros<T, Z: Fn(T) -> bool>(
    g: Seq<Seq<T>>,
    p: Seq<usize>,
    is_nonzero: Z,
) -> bool {
    forall|q: int, c: int|
        0 <= q < p.len() && 0 <= c < p[q] ==> zero_by(is_nonzero, #[trigger] g[q][c])
}

/// Under exact arithmetic a matrix in reduced row-echelon form has one list of
/// pivot columns.
pub proof fn lemma_rref_pivots_unique<
    T,
    Z: Fn(T) -> bool,
    V: Fn(T) -> T,
    N: Fn(T) -> T,
    M: Fn(T, T) -> T,
    A: Fn(T, T, T) -> T,
>(
    g: Seq<Seq<T>>,
    p1: Seq<usize>,
    p2: Seq<usize>,
    is_nonzero: Z,
    recip: V,
    neg: N,
    times: M,
    mul_add: A,
)
    requires
        exact_arith(is_nonzero, recip, neg, times, mul_add),
        in_rref(g, p1, is_nonzero, recip, times),
        in_rref(g, p2, is_nonzero, recip, times),
    ensures
        p1 == p2,
{
    assert forall|k: int| 0 <= k < p1.len() && 0 <= k < p2.len() implies p1[k] == p2[k] by {
        assert(normalized_by(is_nonzero, recip, times, g[k][p1[k] as int]));
        assert(normalized_by(is_nonzero, recip, times, g[k][p2[k] as int]));
        assert(nonzero_by(is_nonzero, g[k][p1[k] as int]));
        assert(nonzero_by(is_nonzero, g[k][p2[k] as int]));
    }
    if p1.len() > p2.len() {
        let k = p2.len() as int;
        assert(normalized_by(is_nonzero, recip, times, g[k][p1[k] as int]));
        assert(nonzero_by(is_nonzero, g[k][p1[k] as int]));
    }
    if p2.len() > p1.len() {
        let k = p1.len() as int;
        assert(normalized_by(is_nonzero, recip, times, g[k][p2[k] as int]));
        assert(nonzero_by(is_nonzero, g[k][p2[k] as int]));
    }
    assert(p1 =~= p2);
}

/// `g` is in reduced row-echelon form with pivot columns `p`.
pub open spec fn in_rref<T, Z: Fn(T) -> bool, V: Fn(T) -> T, M: Fn(T, T) -> T>(
    g: Seq<Seq<T>>,
    p: Seq<usize>,
    is_nonzero: Z,
    recip: V,
    times: M,
) -> bool {
    &&& strictly_increasing(p)
    &&& forall|k: int| 0 <= k < p.len() ==> #[trigger] p[k] < g[0].len()
    &&& p.len() <= g.len()
    &&& pivots_reduced(g, p, is_nonzero, recip, times)
    &&& echelon(g, p, is_nonzero)
}

/// Row `k` holds the `k`-th pivot: its entry in pivot column `p[k]` is normalized,
/// and every other row is zero in that column.
pub open spec fn pivots_reduced<T, Z: Fn(T) -> bool, V: Fn(T) -> T, M: Fn(T, T) -> T>(
    g: Seq<Seq<T>>,
    p: Seq<usize>,
    is_nonzero: Z,
    recip: V,
    times: M,
) -> bool {
    forall|k: int|
        0 <= k < p.len() ==> {
            &&& normalized_by(is_nonzero, recip, times, #[trigger] g[k][p[k] as int])
            &&& forall|i: int|
                0 <= i < g.len() && i != k ==> zero_by(is_nonzero, #[trigger] g[i][p[k] as int])
        }
}

/// One pivot step of elimination, as recorded for the contract of [`eliminate`]:
/// where the pivot was found, the reciprocal the pivot row was scaled by, the
/// negated entries each other row was combined with, and the matrix afterwards.
pub ghost struct PivotStep<T> {
    pub pivot_row: int,
    pub pivot_col: int,
    pub factor: T,
    pub negs: Seq<T>,
    pub after: Seq<Seq<T>>,
}

/// `g` after bringing row `pr` up to row `row` (no change when they are equal).
pub open spec fn pivot_rows_swapped<T>(g: Seq<Seq<T>>, row: int, pr: int) -> Seq<Seq<T>> {
    if pr == row {
        g
    } else {
        swapped_rows(g, row, pr)
    }
}

/// `st` is the step that elimination takes on `g` with working row `row`, the
/// column search starting at `col`:
/// the pivot is the first column from `col` on with an entry reported non-zero
/// in rows `row..`, and the first such row in it; that row is swapped up to
/// `row`; row `row` is scaled, entry by entry with `times`, by `recip` of its
/// pivot entry; every other row `i` then becomes, entry by entry,
/// `mul_add(entry, neg(m[i][pivot_col]), pivot_row_entry)`.
#[verifier::opaque]
pub open spec fn pivot_step<
    T,
    Z: Fn(T) -> bool,
    V: Fn(T) -> T,
    N: Fn(T) -> T,
    M: Fn(T, T) -> T,
    A: Fn(T, T, T) -> T,
>(
    g: Seq<Seq<T>>,
    st: PivotStep<T>,
    row: int,
    col: int,
    is_nonzero: Z,
    recip: V,
    neg: N,
    times: M,
    mul_add: A,
) -> bool {
    let pr = st.pivot_row;
    let pc = st.pivot_col;
    let s = pivot_rows_swapped(g, row, pr);
    let h = st.after;
    &&& row <= pr < g.len()
    &&& col <= pc < g[0].len()
    &&& nonzero_by(is_nonzero, g[pr][pc])
    &&& zero_block(g, is_nonzero, row, col, pc)
    &&& forall|q: int| row <= q < pr ==> zero_by(is_nonzero, #[trigger] g[q][pc])
    &&& recip.ensures((s[row][pc],), st.factor)
    &&& h.len() == g.len()
    &&& st.negs.len() == g.len()
    &&& forall|i: int| 0 <= i < h.len() ==> #[trigger] h[i].len() == g[0].len()
    &&& forall|c: int| 0 <= c < g[0].len() ==> #[trigger] times.ensures((s[row][c], st.factor), h[row][c])
    &&& forall|i: int| 0 <= i < g.len() && i != row ==> #[trigger] neg.ensures((s[i][pc],), st.negs[i])
    &&& forall|i: int, c: int|
        0 <= i < g.len() && i != row && 0 <= c < g[0].len() ==> #[trigger] mul_add.ensures(
            (s[i][c], st.negs[i], h[row][c]),
            h[i][c],
        )
}

/// The matrix before step `k` of a run that started from `g0`.
pub open spec fn state_before<T>(g0: Seq<Seq<T>>, steps: Seq<PivotStep<T>>, k: int) -> Seq<Seq<T>> {
    if k == 0 {
        g0
    } else {
        steps[k - 1].after
    }
}

/// The column where the search for pivot `k` starts: just after the previous pivot.
pub open spec fn search_start(p: Seq<usize>, k: int) -> int {
    if k == 0 {
        0
    } else {
        p[k - 1] + 1
    }
}

/// The first `steps.len()` steps of elimination from `g0`, with pivot columns `p`.
#[verifier::opaque]
pub open spec fn run_prefix<
    T,
    Z: Fn(T) -> bool,
    V: Fn(T) -> T,
    N: Fn(T) -> T,
    M: Fn(T, T) -> T,
    A: Fn(T, T, T) -> T,
>(
    g0: Seq<Seq<T>>,
    steps: Seq<PivotStep<T>>,
    p: Seq<usize>,
    is_nonzero: Z,
    recip: V,
    neg: N,
    times: M,
    mul_add: A,
) -> bool {
    &&& steps.len() == p.len()
    &&& forall|k: int| 0 <= k < p.len() ==> #[trigger] steps[k].pivot_col == p[k] as int
    &&& forall|k: int|
        0 <= k < steps.len() ==> pivot_step(
            state_before(g0, steps, k),
            #[trigger] steps[k],
            k,
            search_start(p, k),
            is_nonzero,
            recip,
            neg,
            times,
            mul_add,
        )
}

/// A whole run of elimination from `g0`: its steps, pivot columns `p` and final
/// matrix `g`. The run stops after a pivot in the last row or in the last
/// column, or when the search from the next row finds nothing.
#[verifier::opaque]
pub open spec fn elimination_run<
    T,
    Z: Fn(T) -> bool,
    V: Fn(T) -> T,
    N: Fn(T) -> T,
    M: Fn(T, T) -> T,
    A: Fn(T, T, T) -> T,
>(
    g0: Seq<Seq<T>>,
    steps: Seq<PivotStep<T>>,
    p: Seq<usize>,
    g: Seq<Seq<T>>,
    is_nonzero: Z,
    recip: V,
    neg: N,
    times: M,
    mul_add: A,
) -> bool {
    let n = p.len() as int;
    &&& run_prefix(g0, steps, p, is_nonzero, recip, neg, times, mul_add)
    &&& g == state_before(g0, steps, n)
    &&& {
        ||| n == g0.len()
        ||| (n > 0 && p[n - 1] == g0[0].len() - 1)
        ||| zero_block(g, is_nonzero, n, search_start(p, n), g0[0].len() as int)
    }
}

/// A run prefix extended by the step taken from its last state is a run prefix.
proof fn lemma_extend_run<
    T,
    Z: Fn(T) -> bool,
    V: Fn(T) -> T,
    N: Fn(T) -> T,
    M: Fn(T, T) -> T,
    A: Fn(T, T, T) -> T,
>(
    g0: Seq<Seq<T>>,
    steps: Seq<PivotStep<T>>,
    p: Seq<usize>,
    st: PivotStep<T>,
    is_nonzero: Z,
    recip: V,
    neg: N,
    times: M,
    mul_add: A,
)
    requires
        run_prefix(g0, steps, p, is_nonzero, recip, neg, times, mul_add),
        0 <= st.pivot_col < usize::MAX,
        pivot_step(
            state_before(g0, steps, steps.len() as int),
            st,
            steps.len() as int,
            search_start(p, steps.len() as int),
            is_nonzero,
            recip,
            neg,
            times,
            mul_add,
        ),
    ensures
        run_prefix(
            g0,
            steps.push(st),
            p.push(st.pivot_col as usize),
            is_nonzero,
            recip,
            neg,
            times,
            mul_add,
        ),
        state_before(g0, steps.push(st), steps.len() as int + 1) == st.after,
{
    reveal(run_prefix);
    let s2 = steps.push(st);
    let p2 = p.push(st.pivot_col as usize);
    let n = steps.len() as int;
    assert forall|k: int| 0 <= k < s2.len() implies pivot_step(
        state_before(g0, s2, k),
        #[trigger] s2[k],
        k,
        search_start(p2, k),
        is_nonzero,
        recip,
        neg,
        times,
        mul_add,
    ) by {
        if k < n {
            assert(s2[k] == steps[k]);
            assert(state_before(g0, s2, k) == state_before(g0, steps, k));
            assert(search_start(p2, k) == search_start(p, k));
        } else {
            assert(state_before(g0, s2, k) == state_before(g0, steps, k));
            assert(search_start(p2, k) == search_start(p, k));
        }
    }
    assert forall|k: int| 0 <= k < p2.len() implies #[trigger] s2[k].pivot_col == p2[k] as int by {
        if k < n {
            assert(s2[k] == steps[k]);
        }
    }
}

/// Reduces `m` in place to reduced row-echelon form and returns its pivot columns.
///
/// Entries are tested with `is_nonzero`; a pivot row is scaled by `recip` of its
/// pivot entry, each product computed by `times`; every other row `i` then gets
/// `neg(m[i][c])` times the pivot row added, each entry computed by `mul_add`.
/// After a pivot in column `c` the search for the next one starts at column
/// `c + 1`: under exact arithmetic column `c` is then zero below the pivot, and
/// starting past it keeps the pivot columns strictly increasing whatever the
/// arithmetic.
///
/// The result is the one that these steps give from the input, for any
/// operations (`elimination_run`); no pivot is found only on a matrix that tests
/// zero throughout. The pivot columns come out strictly increasing, one per row
/// at most. Where the operations are exact, the result is in reduced
/// row-echelon form with those pivot columns, and a matrix already in that form
/// is left as it is, with the same pivot columns found again.
#[verifier::rlimit(100)]
#[verifier::spinoff_prover]
pub fn eliminate<T: Copy>(
    m: &mut Matrix<T>,
    is_nonzero: impl Fn(T) -> bool + Copy,
    recip: impl Fn(T) -> T,
    neg: impl Fn(T) -> T,
    times: impl Fn(T, T) -> T + Copy,
    mul_add: impl Fn(T, T, T) -> T + Copy,
) -> (pivots: Vec<usize>)
    requires
        old(m).wf(),
        forall|x: T| #[trigger] is_nonzero.requires((x,)),
        forall|x: T| #[trigger] recip.requires((x,)),
        forall|x: T| #[trigger] neg.requires((x,)),
        forall|a: T, b: T| #[trigger] times.requires((a, b)),
        forall|a: T, b: T, c: T| #[trigger] mul_add.requires((a, b, c)),
    ensures
        final(m).wf(),
        final(m)@.len() == old(m)@.len(),
        final(m)@[0].len() == old(m)@[0].len(),
        strictly_increasing(pivots@),
        forall|k: int| 0 <= k < pivots@.len() ==> #[trigger] pivots@[k] < old(m)@[0].len(),
        pivots@.len() <= old(m)@.len(),
        pivots@.len() <= old(m)@[0].len(),
        exact_arith(is_nonzero, recip, neg, times, mul_add) ==> in_rref(
            final(m)@,
            pivots@,
            is_nonzero,
            recip,
            times,
        ),
        forall|p0: Seq<usize>|
            exact_arith(is_nonzero, recip, neg, times, mul_add) && #[trigger] in_rref(
                old(m)@,
                p0,
                is_nonzero,
                recip,
                times,
            ) ==> final(m)@ == old(m)@ && pivots@ == p0,
        exists|steps: Seq<PivotStep<T>>|
            elimination_run(old(m)@, steps, pivots@, final(m)@, is_nonzero, recip, neg, times, mul_add),
        pivots@.len() == 0 ==> zero_block(old(m)@, is_nonzero, 0, 0, old(m)@[0].len() as int),
{
    let n_rows = m.num_rows();
    let n_cols = m.num_cols();
    let ghost exact = exact_arith(is_nonzero, recip, neg, times, mul_add);
    let ghost orig = m@;
    let ghost p0 = choose|p: Seq<usize>| in_rref(orig, p, is_nonzero, recip, times);
    let ghost stable = exact && in_rref(orig, p0, is_nonzero, recip, times);
    let ghost mut steps: Seq<PivotStep<T>> = Seq::empty();
    let mut pivots: Vec<usize> = Vec::new();
    let mut row: usize = 0;
    let mut col: usize = 0;
    assert(pivots@ =~= p0.take(0));
    assert(run_prefix(orig, steps, pivots@, is_nonzero, recip, neg, times, mul_add)) by {
        reveal(run_prefix);
    }
    loop
        invariant_except_break
            row < n_rows,
            col <= n_cols,
            pivots@.len() == row,
            row <= col,
            forall|k: int| 0 <= k < pivots@.len() ==> k <= #[trigger] pivots@[k] < col,
            exact ==> zero_block(m@, is_nonzero, row as int, 0, col as int),
            col == search_start(pivots@, row as int),
            stable ==> row <= p0.len(),
            stable ==> pivots@ == p0.take(row as int),
            stable && row == 0 ==> col == 0,
            stable && row > 0 ==> col == p0[row - 1] + 1,
        invariant
            m.wf(),
            n_rows == m@.len(),
            n_cols == m@[0].len(),
            orig.len() == n_rows,
            orig[0].len() == n_cols,
            exact == exact_arith(is_nonzero, recip, neg, times, mul_add),
            stable == (exact && in_rref(orig, p0, is_nonzero, recip, times)),
            forall|x: T| #[trigger] is_nonzero.requires((x,)),
            forall|x: T| #[trigger] recip.requires((x,)),
            forall|x: T| #[trigger] neg.requires((x,)),
            forall|a: T, b: T| #[trigger] times.requires((a, b)),
            forall|a: T, b: T, c: T| #[trigger] mul_add.requires((a, b, c)),
            strictly_increasing(pivots@),
            exact ==> pivots_reduced(m@, pivots@, is_nonzero, recip, times),
            exact ==> leading_zeros(m@, pivots@, is_nonzero),
            stable ==> m@ == orig,
            run_prefix(orig, steps, pivots@, is_nonzero, recip, neg, times, mul_add),
            steps.len() == pivots@.len(),
            m@ == state_before(orig, steps, steps.len() as int),
        ensures
            elimination_run(orig, steps, pivots@, m@, is_nonzero, recip, neg, times, mul_add),
            m.wf(),
            n_rows == m@.len(),
            n_cols == m@[0].len(),
            strictly_increasing(pivots@),
            forall|k: int| 0 <= k < pivots@.len() ==> k <= #[trigger] pivots@[k] < n_cols,
            pivots@.len() <= n_rows,
            exact ==> pivots_reduced(m@, pivots@, is_nonzero, recip, times),
            exact ==> echelon(m@, pivots@, is_nonzero),
            stable ==> m@ == orig && pivots@ == p0,
        decreases n_cols - col,
    {
        let found = find_pivot(m, row, col, is_nonzero);
        match found {
            None => {
                proof {
                    if exact {
                        assert forall|q: int, c: int|
                            row <= q < m@.len() && 0 <= c < n_cols implies zero_by(
                            is_nonzero,
                            #[trigger] m@[q][c],
                        ) by {
                            if c < col {
                                assert(zero_block(m@, is_nonzero, row as int, 0, col as int));
                            }
                        }
                    }
                    if stable && row < p0.len() {
                        let c = p0[row as int] as int;
                        assert(normalized_by(is_nonzero, recip, times, m@[row as int][c]));
                        assert(nonzero_by(is_nonzero, m@[row as int][c]));
                        if row > 0 {
                            assert(p0[row - 1] < p0[row as int]);
                        }
                        assert(zero_by(is_nonzero, m@[row as int][c]));
                    }
                    if stable {
                        assert(pivots@ =~= p0);
                    }
                    assert(zero_block(m@, is_nonzero, row as int, col as int, n_cols as int));
                    assert(elimination_run(orig, steps, pivots@, m@, is_nonzero, recip, neg, times, mul_add)) by {
                        reveal(elimination_run);
                    }
                }
                break;
            },
            Some((pr, pc)) => {
                let ghost before = pivots@;
                let ghost g_found = m@;
                proof {
                    if exact {
                        // rows from `row` on are zero left of `pc`
                        assert forall|q: int, c: int|
                            row <= q < m@.len() && 0 <= c < pc implies zero_by(
                            is_nonzero,
                            #[trigger] m@[q][c],
                        ) by {
                            if c < col {
                                assert(zero_block(m@, is_nonzero, row as int, 0, col as int));
                            }
                        }
                    }
                    if stable {
                        assert(nonzero_by(is_nonzero, m@[pr as int][pc as int]));
                        if row >= p0.len() {
                            assert(zero_by(is_nonzero, m@[pr as int][pc as int]));
                        }
                        assert(row < p0.len());
                        let c0 = p0[row as int] as int;
                        assert(normalized_by(is_nonzero, recip, times, m@[row as int][c0]));
                        assert(nonzero_by(is_nonzero, m@[row as int][c0]));
                        if row > 0 {
                            assert(p0[row - 1] < p0[row as int]);
                        }
                        if pc < c0 {
                            if pr < p0.len() {
                                if pr > row {
                                    assert(p0[row as int] < p0[pr as int]);
                                }
                                assert(zero_by(is_nonzero, m@[pr as int][pc as int]));
                            } else {
                                assert(zero_by(is_nonzero, m@[pr as int][pc as int]));
                            }
                        }
                        if pc > c0 {
                            assert(zero_by(is_nonzero, m@[row as int][c0]));
                        }
                        assert(pc == c0);
                        if pr > row {
                            assert(zero_by(is_nonzero, m@[row as int][pc as int]));
                        }
                        assert(pr == row);
                    }
                }
                pivots.push(pc);
                assert(strictly_increasing(pivots@));
                if pr != row {
                    let ghost g0 = m@;
                    let _ = m.ero_swap(row, pr);
                    proof {
                        if exact {
                            assert forall|k: int| 0 <= k < before.len() implies {
                                &&& normalized_by(is_nonzero, recip, times, #[trigger] m@[k][before[k] as int])
                                &&& forall|i: int|
                                    0 <= i < m@.len() && i != k ==> zero_by(is_nonzero, #[trigger] m@[i][before[k] as int])
                            } by {
                                assert(normalized_by(is_nonzero, recip, times, g0[k][before[k] as int]));
                                assert(m@[k] == g0[k]);
                                assert forall|i: int| 0 <= i < m@.len() && i != k implies zero_by(is_nonzero, #[trigger] m@[i][before[k] as int]) by {
                                    if i == row {
                                        assert(m@[i] == g0[pr as int]);
                                        assert(zero_by(is_nonzero, g0[pr as int][before[k] as int]));
                                    } else if i == pr {
                                        assert(m@[i] == g0[row as int]);
                                        assert(zero_by(is_nonzero, g0[row as int][before[k] as int]));
                                    } else {
                                        assert(m@[i] == g0[i]);
                                    }
                                }
                            }
                            assert(pivots_reduced(m@, before, is_nonzero, recip, times));
                            assert forall|q: int, c: int|
                                0 <= q < before.len() && 0 <= c < before[q] implies zero_by(
                                is_nonzero,
                                #[trigger] m@[q][c],
                            ) by {
                                assert(m@[q] == g0[q]);
                            }
                            assert forall|q: int, c: int|
                                row <= q < m@.len() && 0 <= c < pc implies zero_by(
                                is_nonzero,
                                #[trigger] m@[q][c],
                            ) by {
                                if q == row {
                                    assert(m@[q] == g0[pr as int]);
                                    assert(zero_by(is_nonzero, g0[pr as int][c]));
                                } else if q == pr {
                                    assert(m@[q] == g0[row as int]);
                                    assert(zero_by(is_nonzero, g0[row as int][c]));
                                } else {
                                    assert(m@[q] == g0[q]);
                                    assert(zero_by(is_nonzero, g0[q][c]));
                                }
                            }
                        }
                    }
                }
                assert(m@[row as int].len() == m@[0].len());
                let p = m.entry(row, pc);
                let f = recip(p);
                let ghost g1 = m@;
                assert(g1 == pivot_rows_swapped(g_found, row as int, pr as int));
                m.ero_scale(row, f, times);
                let ghost prow = m@[row as int];
                let ghost mut negs: Seq<T> = Seq::empty();
                proof {
                    assert(normalized_by(is_nonzero, recip, times, m@[row as int][pc as int]));
                    if exact {
                        assert forall|k: int| 0 <= k < before.len() implies {
                            &&& normalized_by(is_nonzero, recip, times, #[trigger] m@[k][before[k] as int])
                            &&& forall|i: int|
                                0 <= i < m@.len() && i != k ==> zero_by(is_nonzero, #[trigger] m@[i][before[k] as int])
                        } by {
                            assert(normalized_by(is_nonzero, recip, times, g1[k][before[k] as int]));
                            assert(m@[k] == g1[k]);
                            assert forall|i: int| 0 <= i < m@.len() && i != k implies zero_by(is_nonzero, #[trigger] m@[i][before[k] as int]) by {
                                if i == row {
                                    assert(zero_by(is_nonzero, g1[row as int][before[k] as int]));
                                    assert(times.ensures((g1[row as int][before[k] as int], f), m@[row as int][before[k] as int]));
                                } else {
                                    assert(m@[i] == g1[i]);
                                }
                            }
                        }
                        assert forall|q: int, c: int|
                            0 <= q < before.len() && 0 <= c < before[q] implies zero_by(
                            is_nonzero,
                            #[trigger] m@[q][c],
                        ) by {
                            assert(m@[q] == g1[q]);
                        }
                        assert forall|q: int, c: int|
                            row <= q < m@.len() && 0 <= c < pc implies zero_by(
                            is_nonzero,
                            #[trigger] m@[q][c],
                        ) by {
                            if q == row {
                                assert(zero_by(is_nonzero, g1[row as int][c]));
                                assert(times.ensures((g1[row as int][c], f), m@[row as int][c]));
                            } else {
                                assert(m@[q] == g1[q]);
                            }
                        }
                    }
                    if stable {
                        assert(g1 == orig);
                        assert(normalized_by(is_nonzero, recip, times, g1[row as int][pc as int]));
                        assert forall|c: int| 0 <= c < n_cols implies #[trigger] m@[row as int][c] == g1[row as int][c] by {
                            assert(times.ensures((g1[row as int][c], f), m@[row as int][c]));
                        }
                        assert(m@[row as int] =~= g1[row as int]);
                        assert(m@ =~= g1);
                    }
                }
                let mut i: usize = 0;
                while i < n_rows
                    invariant
                        m.wf(),
                        n_rows == m@.len(),
                        n_cols == m@[0].len(),
                        exact == exact_arith(is_nonzero, recip, neg, times, mul_add),
                        stable == (exact && in_rref(orig, p0, is_nonzero, recip, times)),
                        forall|x: T| #[trigger] neg.requires((x,)),
                        forall|a: T, b: T, c: T| #[trigger] mul_add.requires((a, b, c)),
                        row < n_rows,
                        pc < n_cols,
                        row == before.len(),
                        forall|k: int| 0 <= k < before.len() ==> #[trigger] before[k] < pc,
                        m@[row as int] == prow,
                        normalized_by(is_nonzero, recip, times, prow[pc as int]),
                        exact ==> pivots_reduced(m@, before, is_nonzero, recip, times),
                        exact ==> leading_zeros(m@, before, is_nonzero),
                        exact ==> forall|q: int, c: int|
                            row <= q < m@.len() && 0 <= c < pc ==> zero_by(
                                is_nonzero,
                                #[trigger] m@[q][c],
                            ),
                        exact ==> forall|q: int|
                            0 <= q < i && q != row ==> zero_by(is_nonzero, #[trigger] m@[q][pc as int]),
                        stable ==> m@ == orig,
                        stable ==> row < p0.len() && pc == p0[row as int],
                        i <= n_rows,
                        g1.len() == n_rows,
                        forall|q: int| 0 <= q < n_rows ==> #[trigger] g1[q].len() == n_cols,
                        negs.len() == i,
                        forall|c: int| 0 <= c < n_cols ==> #[trigger] times.ensures((g1[row as int][c], f), prow[c]),
                        forall|q: int| 0 <= q < i && q != row ==> #[trigger] neg.ensures((g1[q][pc as int],), negs[q]),
                        forall|q: int, c: int|
                            0 <= q < i && q != row && 0 <= c < n_cols ==> #[trigger] mul_add.ensures(
                                (g1[q][c], negs[q], prow[c]),
                                m@[q][c],
                            ),
                        forall|q: int| i <= q < n_rows && q != row ==> #[trigger] m@[q] == g1[q],
                    decreases n_rows - i,
                {
                    if i != row {
                        assert(m@[i as int].len() == m@[0].len());
                        let e = m.entry(i, pc);
                        let s = neg(e);
                        let ghost g2 = m@;
                        let _ = m.ero(i, s, row, mul_add);
                        proof {
                            assert(g2[i as int] == g1[i as int]);
                            negs = negs.push(s);
                            assert forall|q: int, c: int|
                                0 <= q < i + 1 && q != row && 0 <= c < n_cols implies #[trigger] mul_add.ensures(
                                    (g1[q][c], negs[q], prow[c]),
                                    m@[q][c],
                                ) by {
                                if q < i {
                                    assert(m@[q] == g2[q]);
                                } else {
                                    assert(mul_add.ensures((g2[i as int][c], s, g2[row as int][c]), m@[i as int][c]));
                                }
                            }
                            assert forall|q: int| i + 1 <= q < n_rows && q != row implies #[trigger] m@[q] == g1[q] by {
                                assert(m@[q] == g2[q]);
                            }
                            if exact {
                                assert(zero_by(is_nonzero, m@[i as int][pc as int]));
                                // columns left of `pc` are unchanged
                                assert forall|q: int, c: int| 0 <= q < m@.len() && 0 <= c < pc implies #[trigger] m@[q][c] == g2[q][c] by {
                                    if q != i {
                                        assert(m@[q] == g2[q]);
                                    } else {
                                        assert(zero_by(is_nonzero, g2[row as int][c]));
                                    }
                                }
                                assert forall|k: int| 0 <= k < before.len() implies {
                                    &&& normalized_by(is_nonzero, recip, times, #[trigger] m@[k][before[k] as int])
                                    &&& forall|q: int|
                                        0 <= q < m@.len() && q != k ==> zero_by(is_nonzero, #[trigger] m@[q][before[k] as int])
                                } by {
                                    let c = before[k] as int;
                                    assert(normalized_by(is_nonzero, recip, times, g2[k][c]));
                                    assert(m@[k][c] == g2[k][c]);
                                    assert forall|q: int| 0 <= q < m@.len() && q != k implies zero_by(is_nonzero, #[trigger] m@[q][c]) by {
                                        assert(m@[q][c] == g2[q][c]);
                                        assert(zero_by(is_nonzero, g2[q][c]));
                                    }
                                }
                                assert forall|q: int, c: int|
                                    0 <= q < before.len() && 0 <= c < before[q] implies zero_by(
                                    is_nonzero,
                                    #[trigger] m@[q][c],
                                ) by {
                                    assert(m@[q][c] == g2[q][c]);
                                    assert(zero_by(is_nonzero, g2[q][c]));
                                }
                                assert forall|q: int, c: int|
                                    row <= q < m@.len() && 0 <= c < pc implies zero_by(
                                    is_nonzero,
                                    #[trigger] m@[q][c],
                                ) by {
                                    assert(m@[q][c] == g2[q][c]);
                                    assert(zero_by(is_nonzero, g2[q][c]));
                                }
                                assert forall|q: int|
                                    0 <= q < i + 1 && q != row implies zero_by(is_nonzero, #[trigger] m@[q][pc as int]) by {
                                    if q != i {
                                        assert(m@[q] == g2[q]);
                                    }
                                }
                            }
                            if stable {
                                assert(normalized_by(is_nonzero, recip, times, orig[row as int][pc as int]));
                                assert(zero_by(is_nonzero, e));
                                assert forall|c: int| 0 <= c < n_cols implies #[trigger] m@[i as int][c] == g2[i as int][c] by {
                                    assert(mul_add.ensures((g2[i as int][c], s, g2[row as int][c]), m@[i as int][c]));
                                }
                                assert(m@[i as int] =~= g2[i as int]);
                                assert(m@ =~= g2);
                            }
                        }
                    }
                    else {
                        proof {
                            negs = negs.push(prow[pc as int]);
                        }
                    }
                    i = i + 1;
                }
                proof {
                    let st = PivotStep {
                        pivot_row: pr as int,
                        pivot_col: pc as int,
                        factor: f,
                        negs: negs,
                        after: m@,
                    };
                    let old_steps = steps;
                    assert(g_found == state_before(orig, old_steps, row as int));
                    assert forall|i: int| 0 <= i < n_rows implies #[trigger] m@[i].len() == n_cols by {
                        assert(m@[i].len() == m@[0].len());
                    }
                    assert forall|i: int, c: int|
                        0 <= i < n_rows && i != row && 0 <= c < n_cols implies #[trigger] mul_add.ensures(
                            (g1[i][c], negs[i], m@[row as int][c]),
                            m@[i][c],
                        ) by {
                        assert(mul_add.ensures((g1[i][c], negs[i], prow[c]), m@[i][c]));
                    }
                    assert(pivot_step(g_found, st, row as int, col as int, is_nonzero, recip, neg, times, mul_add)) by {
                        reveal(pivot_step);
                    }
                    lemma_extend_run(orig, old_steps, before, st, is_nonzero, recip, neg, times, mul_add);
                    steps = steps.push(st);
                    assert(pivots@ == before.push(pc));
                    assert(m@ == state_before(orig, steps, steps.len() as int));
                }
                proof {
                    if exact {
                        assert forall|k: int| 0 <= k < pivots@.len() implies {
                            &&& normalized_by(is_nonzero, recip, times, #[trigger] m@[k][pivots@[k] as int])
                            &&& forall|q: int|
                                0 <= q < m@.len() && q != k ==> zero_by(is_nonzero, #[trigger] m@[q][pivots@[k] as int])
                        } by {
                            if k < row {
                                assert(pivots@[k] == before[k]);
                                assert(normalized_by(is_nonzero, recip, times, m@[k][before[k] as int]));
                            } else {
                                assert(pivots@[k] == pc);
                                assert(m@[row as int] == prow);
                            }
                        }
                        assert(leading_zeros(m@, pivots@, is_nonzero));
                        assert forall|q: int, c: int|
                            row + 1 <= q < m@.len() && 0 <= c < pc + 1 implies zero_by(
                            is_nonzero,
                            #[trigger] m@[q][c],
                        ) by {
                            if c == pc {
                                assert(q != row);
                            }
                        }
                    }
                    if stable {
                        assert(pivots@ =~= p0.take(row + 1));
                        if row == n_rows - 1 {
                            assert(pivots@ =~= p0);
                        }
                        if pc == n_cols - 1 && p0.len() > row + 1 {
                            assert(p0[row as int] < p0[row + 1]);
                            assert(p0[row + 1] < n_cols);
                        }
                        if pc == n_cols - 1 {
                            assert(pivots@ =~= p0);
                        }
                    }
                }
                assert(pivots@[row as int] == pc);
                if row == n_rows - 1 || pc == n_cols - 1 {
                    proof {
                        assert(elimination_run(orig, steps, pivots@, m@, is_nonzero, recip, neg, times, mul_add)) by {
                            reveal(elimination_run);
                        }
                    }
                    break;
                }
                row = row + 1;
                col = pc + 1;
            },
        }
    }
    if pivots.len() > 0 {
        assert(pivots@[pivots@.len() - 1] < n_cols);
    }
    proof {
        assert(elimination_run(orig, steps, pivots@, m@, is_nonzero, recip, neg, times, mul_add));
        if pivots@.len() == 0 {
            reveal(elimination_run);
        }
        assert forall|p1: Seq<usize>|
            exact_arith(is_nonzero, recip, neg, times, mul_add) && #[trigger] in_rref(
                orig,
                p1,
                is_nonzero,
                recip,
                times,
            ) implies m@ == orig && pivots@ == p1 by {
            assert(in_rref(orig, p0, is_nonzero, recip, times));
            lemma_rref_pivots_unique(orig, p0, p1, is_nonzero, recip, neg, times, mul_add);
        }
    }
    pivots
}

} // verus!
