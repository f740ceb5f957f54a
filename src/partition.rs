use vstd::prelude::*;
use vstd::arithmetic::div_mod::{lemma_fundamental_div_mod, lemma_mod_bound};

verus! {

/// First index handled by worker `w` when `n` items go to `workers`
/// workers in equal contiguous chunks of `n / workers`.
pub open spec fn chunk_start(n: int, workers: int, w: int) -> int {
    w * (n / workers)
}

/// One past the last index of worker `w`; the last worker also takes the
/// `n % workers` items left over.
pub open spec fn chunk_end(n: int, workers: int, w: int) -> int {
    if w == workers - 1 {
        n
    } else {
        (w + 1) * (n / workers)
    }
}

pub open spec fn in_chunk(n: int, workers: int, w: int, j: int) -> bool {
    chunk_start(n, workers, w) <= j < chunk_end(n, workers, w)
}

/// Chunks lie within `0..n` and each one starts where the previous ends.
pub proof fn lemma_chunk_bounds(n: int, workers: int, w: int)
    requires
        workers >= 1,
        n >= 0,
        0 <= w < workers,
    ensures
        0 <= chunk_start(n, workers, w) <= chunk_end(n, workers, w) <= n,
        w + 1 < workers ==> chunk_end(n, workers, w) == chunk_start(n, workers, w + 1),
{
    let q = n / workers;
    lemma_fundamental_div_mod(n, workers);
    lemma_mod_bound(n, workers);
    assert(q >= 0);
    assert(workers * q <= n);
    assert(0 <= w * q <= (w + 1) * q <= workers * q) by (nonlinear_arith)
        requires
            0 <= w < workers,
            q >= 0,
    ;
}

/// The `[start, end)` range of leaf positions for each of `n_workers`
/// workers: contiguous, in order, and with the remainder on the last one.
pub fn partition(n_leaves: usize, n_workers: usize) -> (r: Vec<(usize, usize)>)
    requires
        n_workers >= 1,
    ensures
        r@.len() == n_workers,
        forall|w: int|
            0 <= w < n_workers ==> (#[trigger] r@[w]).0 == chunk_start(
                n_leaves as int,
                n_workers as int,
                w,
            ) && r@[w].1 == chunk_end(n_leaves as int, n_workers as int, w),
{
    let q = n_leaves / n_workers;
    let mut r: Vec<(usize, usize)> = Vec::new();
    let mut w: usize = 0;
    while w < n_workers
        invariant
            w <= n_workers,
            n_workers >= 1,
            q == n_leaves as int / n_workers as int,
            r@.len() == w,
            forall|v: int|
                0 <= v < w ==> (#[trigger] r@[v]).0 == chunk_start(
                    n_leaves as int,
                    n_workers as int,
                    v,
                ) && r@[v].1 == chunk_end(n_leaves as int, n_workers as int, v),
        decreases n_workers - w,
    {
        proof {
            lemma_chunk_bounds(n_leaves as int, n_workers as int, w as int);
            assert(w * q <= n_leaves);
        }
        let start = w * q;
        let end = if w == n_workers - 1 {
            n_leaves
        } else {
            proof {
                lemma_chunk_bounds(n_leaves as int, n_workers as int, w as int);
            }
            (w + 1) * q
        };
        r.push((start, end));
        w = w + 1;
    }
    r
}

/// Every position below `n` lies in the chunk of exactly one of the
/// `workers` workers: no item is skipped because `n / workers` rounds down,
/// and no item is handed out twice.
pub proof fn lemma_partition_covers(n: int, workers: int, j: int)
    requires
        workers >= 1,
        0 <= j < n,
    ensures
        exists|w: int| 0 <= w < workers && #[trigger] in_chunk(n, workers, w, j),
        forall|w1: int, w2: int|
            0 <= w1 < workers && 0 <= w2 < workers && #[trigger] in_chunk(n, workers, w1, j)
                && #[trigger] in_chunk(n, workers, w2, j) ==> w1 == w2,
{
    let q = n / workers;
    lemma_fundamental_div_mod(n, workers);
    lemma_mod_bound(n, workers);
    lemma_chunk_bounds(n, workers, workers - 1);
    if q == 0 {
        assert((workers - 1) * q == 0) by (nonlinear_arith)
            requires
                q == 0,
        ;
        assert(in_chunk(n, workers, workers - 1, j));
    } else {
        lemma_fundamental_div_mod(j, q);
        lemma_mod_bound(j, q);
        let w = j / q;
        assert(w * q <= j < (w + 1) * q) by (nonlinear_arith)
            requires
                j == q * w + j % q,
                0 <= j % q < q,
        ;
        if w >= workers - 1 {
            assert((workers - 1) * q <= w * q) by (nonlinear_arith)
                requires
                    w >= workers - 1,
                    q > 0,
            ;
            assert(in_chunk(n, workers, workers - 1, j));
        } else {
            assert(w >= 0);
            assert(in_chunk(n, workers, w, j));
        }
    }
    assert forall|w1: int, w2: int|
        0 <= w1 < workers && 0 <= w2 < workers && #[trigger] in_chunk(n, workers, w1, j)
            && #[trigger] in_chunk(n, workers, w2, j) implies w1 == w2 by {
        if w1 < w2 {
            assert((w1 + 1) * q <= w2 * q) by (nonlinear_arith)
                requires
                    w1 + 1 <= w2,
                    q >= 0,
            ;
        } else if w2 < w1 {
            assert((w2 + 1) * q <= w1 * q) by (nonlinear_arith)
                requires
                    w2 + 1 <= w1,
                    q >= 0,
            ;
        }
    }
}

} // verus!
