//! The equal-partition strategy: the input is cut into `count` contiguous,
//! near-equal chunks, one per worker. Chunk `k` spans the index range from
//! `partition_bound(len, count, k)` to `partition_bound(len, count, k + 1)`,
//! where the bound is `len * k / count` rounded to the nearest integer, so
//! chunk sizes differ by at most one element.

use vstd::prelude::*;
use vstd::*;
use std::sync::Arc;
use crate::laws::divided_output;
use crate::sequential::map_sequential;
use crate::PARALLEL_WORK_THRESHOLD;
use crate::should_divide;
use crate::WorkerFailure;
use crate::available_workers;
use vstd::arithmetic::div_mod::{
    lemma_div_denominator, lemma_div_is_ordered, lemma_div_multiples_vanish,
    lemma_fundamental_div_mod, lemma_fundamental_div_mod_converse_div, lemma_mod_bound,
};

verus! {

/// The start of chunk `k` when a sequence of length `len` is cut into
/// `count` chunks: `len * k / count`, rounded half up to the nearest
/// integer, written over a common denominator of `2 * count`.
pub open spec fn partition_bound(len: int, count: int, k: int) -> int {
    (2 * len * k + count) / (2 * count)
}

/// The first chunk starts at index zero.
pub proof fn lemma_partition_bound_zero(len: int, count: int)
    requires
        0 <= len,
        1 <= count,
    ensures
        partition_bound(len, count, 0) == 0,
{
    assert(2 * len * 0 + count == count) by (nonlinear_arith);
    lemma_fundamental_div_mod_converse_div(count, 2 * count, 0, count);
}

/// The last chunk ends exactly at the end of the sequence.
pub proof fn lemma_partition_bound_full(len: int, count: int)
    requires
        0 <= len,
        1 <= count,
    ensures
        partition_bound(len, count, count) == len,
{
    assert(2 * len * count + count == len * (2 * count) + count) by (nonlinear_arith);
    lemma_fundamental_div_mod_converse_div(2 * len * count + count, 2 * count, len, count);
}

/// Chunk boundaries never move backwards as `k` grows.
pub proof fn lemma_partition_bound_monotone(len: int, count: int, k1: int, k2: int)
    requires
        0 <= len,
        1 <= count,
        k1 <= k2,
    ensures
        partition_bound(len, count, k1) <= partition_bound(len, count, k2),
{
    assert(2 * len * k1 <= 2 * len * k2) by (nonlinear_arith)
        requires
            0 <= len,
            k1 <= k2,
    ;
    lemma_div_is_ordered(2 * len * k1 + count, 2 * len * k2 + count, 2 * count);
}

/// Every chunk boundary stays within the sequence.
pub proof fn lemma_partition_bound_in_range(len: int, count: int, k: int)
    requires
        0 <= len,
        1 <= count,
        0 <= k <= count,
    ensures
        0 <= partition_bound(len, count, k) <= len,
{
    lemma_partition_bound_zero(len, count);
    lemma_partition_bound_full(len, count);
    lemma_partition_bound_monotone(len, count, 0, k);
    lemma_partition_bound_monotone(len, count, k, count);
}

/// With one available worker the equal-partition strategy degenerates to a
/// single chunk that spans the whole input, so the divider contract holds
/// unchanged; the dividers' guarantees never depend on the worker count.
pub proof fn lemma_single_worker_takes_all(len: int)
    requires
        0 <= len,
    ensures
        partition_bound(len, 1, 0) == 0,
        partition_bound(len, 1, 1) == len,
{
    lemma_partition_bound_zero(len, 1);
    lemma_partition_bound_full(len, 1);
}

/// Chunks are near-equal: every chunk holds either `len / count` elements
/// or one more, so no two chunk sizes differ by more than one element.
pub proof fn lemma_partition_sizes_near_equal(len: int, count: int, k: int)
    requires
        0 <= len,
        1 <= count,
        0 <= k < count,
    ensures
        len / count <= partition_bound(len, count, k + 1) - partition_bound(len, count, k),
        partition_bound(len, count, k + 1) - partition_bound(len, count, k) <= len / count + 1,
{
    let d = 2 * count;
    let a = 2 * len * k + count;
    assert(0 <= 2 * len * k + count) by (nonlinear_arith)
        requires
            0 <= len,
            1 <= count,
            0 <= k,
    ;
    lemma_fundamental_div_mod(a, d);
    lemma_mod_bound(a, d);
    lemma_fundamental_div_mod(2 * len, d);
    lemma_mod_bound(2 * len, d);
    let qa = a / d;
    let ra = a % d;
    let qc = (2 * len) / d;
    let rc = (2 * len) % d;
    assert(2 * len * (k + 1) + count == a + 2 * len) by (nonlinear_arith)
        requires
            a == 2 * len * k + count,
    ;
    if ra + rc < d {
        assert(a + 2 * len == (qa + qc) * d + (ra + rc)) by (nonlinear_arith)
            requires
                a == d * qa + ra,
                2 * len == d * qc + rc,
        ;
        lemma_fundamental_div_mod_converse_div(a + 2 * len, d, qa + qc, ra + rc);
    } else {
        assert(a + 2 * len == (qa + qc + 1) * d + (ra + rc - d)) by (nonlinear_arith)
            requires
                a == d * qa + ra,
                2 * len == d * qc + rc,
        ;
        lemma_fundamental_div_mod_converse_div(a + 2 * len, d, qa + qc + 1, ra + rc - d);
    }
    lemma_div_denominator(2 * len, 2, count);
    lemma_div_multiples_vanish(len, 2);
}

/// Computes [`partition_bound`] for machine-sized values. The product and
/// the rounding are carried out in 128-bit arithmetic, which cannot
/// overflow for 64-bit operands.
pub fn partition_boundary(len: usize, count: usize, k: usize) -> (b: usize)
    requires
        1 <= count,
        k <= count,
    ensures
        b == partition_bound(len as int, count as int, k as int),
        b <= len,
{
    proof {
        assert((len as int) * (k as int) <= (u64::MAX as int) * (u64::MAX as int))
            by (nonlinear_arith)
            requires
                0 <= len as int <= u64::MAX as int,
                0 <= k as int <= u64::MAX as int,
        ;
    }
    let prod: u128 = (len as u128) * (k as u128);
    let q: u128 = prod / (count as u128);
    let r: u128 = prod % (count as u128);
    proof {
        lemma_fundamental_div_mod(prod as int, count as int);
        lemma_mod_bound(prod as int, count as int);
        assert(q as int <= prod as int) by (nonlinear_arith)
            requires
                prod as int == (count as int) * (q as int) + (r as int),
                0 <= r as int,
                1 <= count as int,
                0 <= q as int,
        ;
    }
    let b: u128 = if 2 * r >= count as u128 {
        q + 1
    } else {
        q
    };
    proof {
        let l = len as int;
        let n = count as int;
        let kk = k as int;
        lemma_fundamental_div_mod(l * kk, n);
        lemma_mod_bound(l * kk, n);
        let qi = l * kk / n;
        let ri = l * kk % n;
        assert(prod == l * kk) by (nonlinear_arith)
            requires
                prod == (len as u128) * (k as u128),
                l == len as int,
                kk == k as int,
                len <= u64::MAX,
                k <= u64::MAX,
        ;
        assert(q == qi && r == ri);
        if 2 * ri >= n {
            assert(2 * l * kk + n == (qi + 1) * (2 * n) + (2 * ri - n)) by (nonlinear_arith)
                requires
                    l * kk == n * qi + ri,
            ;
            lemma_fundamental_div_mod_converse_div(
                2 * l * kk + n,
                2 * n,
                qi + 1,
                2 * ri - n,
            );
        } else {
            assert(2 * l * kk + n == qi * (2 * n) + (2 * ri + n)) by (nonlinear_arith)
                requires
                    l * kk == n * qi + ri,
            ;
            lemma_fundamental_div_mod_converse_div(2 * l * kk + n, 2 * n, qi, 2 * ri + n);
        }
        lemma_partition_bound_in_range(l, n, kk);
    }
    b as usize
}

/// Cuts `input` into `count` contiguous chunks along the partition bounds.
/// Chunk `k` is exactly the sub-sequence of the input from
/// `partition_bound(len, count, k)` to `partition_bound(len, count, k + 1)`;
/// together the chunks cover the whole input, in order. The chunks are
/// extracted by repeatedly splitting a suffix off the remaining prefix.
pub fn split_partitions<T>(input: Vec<T>, count: usize) -> (parts: Vec<Vec<T>>)
    requires
        1 <= count,
    ensures
        parts@.len() == count,
        forall|k: int|
            0 <= k < count ==> (#[trigger] parts@[k])@ == input@.subrange(
                partition_bound(input@.len() as int, count as int, k),
                partition_bound(input@.len() as int, count as int, k + 1),
            ),
{
    let ghost iv = input@;
    let length = input.len();
    let mut rest = input;
    let mut rev_parts: Vec<Vec<T>> = Vec::new();
    let mut k: usize = count;
    proof {
        lemma_partition_bound_full(length as int, count as int);
    }
    while k > 0
        invariant
            1 <= count,
            k <= count,
            iv.len() == length,
            rest@ == iv.take(partition_bound(length as int, count as int, k as int)),
            rev_parts@.len() == count - k,
            forall|j: int|
                0 <= j < rev_parts@.len() ==> (#[trigger] rev_parts@[j])@ == iv.subrange(
                    partition_bound(length as int, count as int, count - 1 - j),
                    partition_bound(length as int, count as int, count - j),
                ),
        decreases k,
    {
        let at = partition_boundary(length, count, k - 1);
        proof {
            lemma_partition_bound_monotone(
                length as int,
                count as int,
                k as int - 1,
                k as int,
            );
            lemma_partition_bound_in_range(length as int, count as int, k as int);
        }
        let chunk = rest.split_off(at);
        proof {
            let lo = partition_bound(length as int, count as int, k as int - 1);
            let hi = partition_bound(length as int, count as int, k as int);
            assert(iv.take(hi).subrange(lo, hi) =~= iv.subrange(lo, hi));
            assert(iv.take(hi).subrange(0, lo) =~= iv.take(lo));
        }
        rev_parts.push(chunk);
        k = k - 1;
    }
    let mut parts: Vec<Vec<T>> = Vec::new();
    proof {
        lemma_partition_bound_zero(length as int, count as int);
        assert(rest@.len() == 0);
    }
    while rev_parts.len() > 0
        invariant
            1 <= count,
            iv.len() == length,
            rev_parts@.len() + parts@.len() == count,
            forall|j: int|
                0 <= j < rev_parts@.len() ==> (#[trigger] rev_parts@[j])@ == iv.subrange(
                    partition_bound(length as int, count as int, count - 1 - j),
                    partition_bound(length as int, count as int, count - j),
                ),
            forall|j: int|
                0 <= j < parts@.len() ==> (#[trigger] parts@[j])@ == iv.subrange(
                    partition_bound(length as int, count as int, j),
                    partition_bound(length as int, count as int, j + 1),
                ),
        decreases rev_parts@.len(),
    {
        let chunk = rev_parts.pop().unwrap();
        parts.push(chunk);
    }
    parts
}

/// The equal-partition divider. Inputs shorter than
/// [`PARALLEL_WORK_THRESHOLD`] are transformed in order on the calling
/// thread. Longer inputs are cut into one near-equal contiguous chunk per
/// available processor; each worker thread transforms its own chunk in
/// order, and the chunk results are concatenated back in their original
/// order. Position `i` of an `Ok` output always holds a value `f` may
/// return for `input[i]`. If any worker terminates abnormally (the
/// transformation panicked), every worker is still joined and the whole
/// call reports [`WorkerFailure`] instead of a partial output.
pub fn divide_equal_work<T, R, F>(input: Vec<T>, f: F) -> (r: Result<Vec<R>, WorkerFailure>)
    where
        T: Send + 'static,
        R: Send + 'static,
        F: Fn(T) -> R + Send + Sync + 'static,
    requires
        forall|i: int| 0 <= i < input@.len() ==> call_requires(f, (input@[i],)),
    ensures
        r matches Ok(out) ==> divided_output(f, input@, out@),
        input@.len() < PARALLEL_WORK_THRESHOLD ==> r is Ok,
{
    if !should_divide(input.len()) {
        Ok(map_sequential(input, &f))
    } else {
        let ghost iv = input@;
        let length = input.len();
        let count = available_workers();
        let ghost li = length as int;
        let ghost ni = count as int;
        let mut parts = split_partitions(input, count);
        let arc_f = Arc::new(f);
        let mut handles: Vec<thread::JoinHandle<Vec<R>>> = Vec::new();
        let mut k: usize = 0;
        while k < count
            invariant
                1 <= count,
                k <= count,
                iv == input@,
                iv.len() == li,
                li == length,
                ni == count,
                arc_f == f,
                forall|i: int| 0 <= i < iv.len() ==> call_requires(f, (#[trigger] iv[i],)),
                parts@.len() == count - k,
                forall|j: int|
                    0 <= j < parts@.len() ==> (#[trigger] parts@[j])@ == iv.subrange(
                        partition_bound(li, ni, k + j),
                        partition_bound(li, ni, k + j + 1),
                    ),
                handles@.len() == k,
                forall|i: int, ret: Vec<R>|
                    0 <= i < k && #[trigger] handles@[i].predicate(ret) ==> {
                        &&& ret@.len() == partition_bound(li, ni, i + 1) - partition_bound(
                            li,
                            ni,
                            i,
                        )
                        &&& forall|j: int|
                            0 <= j < ret@.len() ==> call_ensures(
                                f,
                                (iv[partition_bound(li, ni, i) + j],),
                                #[trigger] ret@[j],
                            )
                    },
            decreases count - k,
        {
            let chunk = parts.remove(0);
            let af = arc_f.clone();
            proof {
                lemma_partition_bound_monotone(li, ni, k as int, k as int + 1);
                lemma_partition_bound_in_range(li, ni, k as int);
                lemma_partition_bound_in_range(li, ni, k as int + 1);
            }
            let h = thread::spawn(
                (move || -> (out: Vec<R>)
                    ensures
                        out@.len() == chunk@.len(),
                        forall|j: int|
                            0 <= j < chunk@.len() ==> call_ensures(
                                *af,
                                (chunk@[j],),
                                #[trigger] out@[j],
                            ),
                    {
                        proof {
                            assert forall|j: int|
                                0 <= j < chunk@.len() implies call_requires(
                                *af,
                                (chunk@[j],),
                            ) by {
                                assert(chunk@[j] == iv[partition_bound(li, ni, k as int) + j]);
                            }
                        }
                        map_sequential(chunk, &*af)
                    }),
            );
            handles.push(h);
            k = k + 1;
        }
        let mut result: Vec<R> = Vec::new();
        let mut failed = false;
        let mut i: usize = 0;
        proof {
            lemma_partition_bound_zero(li, ni);
        }
        while i < count
            invariant
                1 <= count,
                i <= count,
                iv == input@,
                iv.len() == li,
                li == length,
                ni == count,
                PARALLEL_WORK_THRESHOLD <= iv.len(),
                handles@.len() == count - i,
                !failed ==> result@.len() == partition_bound(li, ni, i as int),
                forall|j: int|
                    0 <= j < result@.len() ==> call_ensures(f, (iv[j],), #[trigger] result@[j]),
                forall|a: int, ret: Vec<R>|
                    0 <= a < handles@.len() && #[trigger] handles@[a].predicate(ret) ==> {
                        &&& ret@.len() == partition_bound(li, ni, i + a + 1) - partition_bound(
                            li,
                            ni,
                            i + a,
                        )
                        &&& forall|j: int|
                            0 <= j < ret@.len() ==> call_ensures(
                                f,
                                (iv[partition_bound(li, ni, i + a) + j],),
                                #[trigger] ret@[j],
                            )
                    },
            decreases count - i,
        {
            let h = handles.remove(0);
            match h.join() {
                Ok(mut out) => {
                    if !failed {
                        proof {
                            lemma_partition_bound_monotone(li, ni, i as int, i as int + 1);
                            lemma_partition_bound_in_range(li, ni, i as int);
                            lemma_partition_bound_in_range(li, ni, i as int + 1);
                        }
                        result.append(&mut out);
                    }
                },
                Err(_) => {
                    failed = true;
                },
            }
            i = i + 1;
        }
        if failed {
            return Err(WorkerFailure);
        }
        proof {
            lemma_partition_bound_full(li, ni);
        }
        Ok(result)
    }
}

} // verus!
