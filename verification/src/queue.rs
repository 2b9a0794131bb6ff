//! The dynamic-queue strategy: the whole input sits in one shared queue
//! behind a lock. Each worker repeatedly pops one element off the end,
//! records the queue's remaining length as that element's original index,
//! transforms the element outside the lock, and keeps the (index, result)
//! pair. The coordinator merges all pairs into an output addressed by
//! original index.
//!
//! The central invariant is that the queue is always a prefix of the
//! original input: popping from a queue of length `L` therefore yields the
//! element whose original position is `L - 1`, so the recorded index maps
//! the result back to its place no matter which worker popped it or when.

use vstd::prelude::*;
use vstd::*;
use vstd::rwlock::RwLock;
use std::sync::Arc;
use crate::laws::divided_output;
use crate::sequential::map_sequential;
use crate::PARALLEL_WORK_THRESHOLD;
use crate::should_divide;
use crate::WorkerFailure;
use crate::available_workers;

verus! {

/// The lock invariant of the shared work queue: the queue always holds a
/// prefix of the original input sequence `iv`. A pop only shortens the
/// prefix, so the element popped from a queue of length `L` is `iv[L - 1]`.
pub open spec fn queue_invariant<T>(iv: Seq<T>) -> spec_fn(Vec<T>) -> bool {
    |q: Vec<T>| q@.len() <= iv.len() && q@ == iv.take(q@.len() as int)
}

/// Pops the last element of `q` and records the remaining length as its
/// index, under a single borrow so the two cannot be separated: the
/// returned index is exactly the popped element's position in `q`.
pub fn take_last<T>(q: &mut Vec<T>) -> (r: Option<(usize, T)>)
    ensures
        match r {
            Some(p) => {
                &&& old(q)@.len() > 0
                &&& p.0 == old(q)@.len() - 1
                &&& p.1 == old(q)@[p.0 as int]
                &&& final(q)@ == old(q)@.take(p.0 as int)
            },
            None => old(q)@.len() == 0 && final(q)@ == old(q)@,
        },
{
    match q.pop() {
        Some(t) => {
            let idx = q.len();
            proof {
                assert(q@ == old(q)@.take(idx as int));
            }
            Some((idx, t))
        },
        None => None,
    }
}

/// True when pair `j` of `pairs` records original index `i`.
pub open spec fn records_index<R>(pairs: Seq<(usize, R)>, i: int) -> bool {
    exists|j: int| 0 <= j < pairs.len() && (#[trigger] pairs[j]).0 == i
}

/// True when some pair of `pairs` records result `r` for original index `i`.
pub open spec fn recorded_value<R>(pairs: Seq<(usize, R)>, i: int, r: R) -> bool {
    exists|j: int| 0 <= j < pairs.len() && #[trigger] pairs[j] == ((i as usize, r))
}

/// True when no two pairs record the same original index.
pub open spec fn indices_unique<R>(pairs: Seq<(usize, R)>) -> bool {
    forall|j: int, k: int|
        0 <= j < k < pairs.len() ==> (#[trigger] pairs[j]).0 != (#[trigger] pairs[k]).0
}

/// True when `pairs` assigns every original index `0 <= i < length` exactly
/// once and records no index outside that range: the shape a successful run
/// of the dynamic-queue workers always produces.
pub open spec fn complete_assignment<R>(pairs: Seq<(usize, R)>, length: int) -> bool {
    &&& forall|j: int| 0 <= j < pairs.len() ==> (#[trigger] pairs[j]).0 < length
    &&& indices_unique(pairs)
    &&& forall|i: int| 0 <= i < length ==> records_index(pairs, i)
}

/// One dynamic-queue worker. It loops: lock the shared queue, pop the last
/// element together with its original index, unlock, transform the element
/// outside the lock, and keep the (index, result) pair. It stops when the
/// queue is empty. Every recorded pair carries a valid original index `i`
/// and a value the transformation may return for `iv[i]`.
///
/// `attempts` bounds the number of pops so the loop visibly terminates;
/// the shared queue never grows, so any bound at least the queue's initial
/// length lets the worker run until the queue is empty.
fn queue_worker<T, R, F>(
    lock: &RwLock<Vec<T>, spec_fn(Vec<T>) -> bool>,
    f: &F,
    attempts: usize,
    Ghost(iv): Ghost<Seq<T>>,
) -> (pairs: Vec<(usize, R)>)
    where
        F: Fn(T) -> R,
    requires
        lock.pred() == queue_invariant(iv),
        forall|i: int| 0 <= i < iv.len() ==> call_requires(*f, (#[trigger] iv[i],)),
    ensures
        forall|j: int|
            0 <= j < pairs@.len() ==> (#[trigger] pairs@[j]).0 < iv.len() && call_ensures(
                *f,
                (iv[pairs@[j].0 as int],),
                pairs@[j].1,
            ),
{
    let mut pairs: Vec<(usize, R)> = Vec::new();
    let mut budget = attempts;
    loop
        invariant
            lock.pred() == queue_invariant(iv),
            forall|i: int| 0 <= i < iv.len() ==> call_requires(*f, (#[trigger] iv[i],)),
            forall|j: int|
                0 <= j < pairs@.len() ==> (#[trigger] pairs@[j]).0 < iv.len() && call_ensures(
                    *f,
                    (iv[pairs@[j].0 as int],),
                    pairs@[j].1,
                ),
        decreases budget,
    {
        let (mut q, handle) = lock.acquire_write();
        let item = take_last(&mut q);
        match item {
            Some((idx, t)) => {
                proof {
                    assert(iv.take(idx as int + 1)[idx as int] == iv[idx as int]);
                    assert(iv.take(idx as int + 1).take(idx as int) =~= iv.take(idx as int));
                }
                handle.release_write(q);
                let r = f(t);
                pairs.push((idx, r));
            },
            None => {
                handle.release_write(q);
                break;
            },
        }
        if budget == 0 {
            break;
        }
        budget = budget - 1;
    }
    pairs
}

/// Builds the ordered output from the workers' (index, result) pairs. The
/// result is `Some` exactly when the pairs assign every position of a
/// length-`length` output exactly once; position `i` of the output then
/// holds the value recorded for original index `i`. Otherwise — an index
/// out of range, assigned twice, or never assigned — no partial output is
/// exposed and the result is `None`.
pub fn merge_results<R>(length: usize, pairs: Vec<(usize, R)>) -> (r: Option<Vec<R>>)
    ensures
        r is Some <==> complete_assignment(pairs@, length as int),
        r matches Some(out) ==> out@.len() == length && forall|i: int|
            0 <= i < length ==> recorded_value(pairs@, i, #[trigger] out@[i]),
{
    let ghost pv = pairs@;
    let mut slots: Vec<Option<R>> = Vec::new();
    let mut i: usize = 0;
    while i < length
        invariant
            i <= length,
            slots@.len() == i,
            forall|s: int| 0 <= s < i ==> (#[trigger] slots@[s]) is None,
        decreases length - i,
    {
        slots.push(None);
        i = i + 1;
    }
    let mut rest = pairs;
    let ghost total = pv.len();
    while rest.len() > 0
        invariant
            pv == pairs@,
            slots@.len() == length,
            rest@ == pv.take(rest@.len() as int),
            rest@.len() <= total,
            pv.len() == total,
            forall|j: int| rest@.len() <= j < total ==> (#[trigger] pv[j]).0 < length,
            forall|j: int, k: int|
                rest@.len() <= j < k < total ==> (#[trigger] pv[j]).0 != (#[trigger] pv[k]).0,
            forall|j: int|
                rest@.len() <= j < total ==> (#[trigger] slots@[pv[j].0 as int]) is Some,
            forall|s: int|
                0 <= s < length && (#[trigger] slots@[s]) is Some ==> recorded_value(
                    pv.skip(rest@.len() as int),
                    s,
                    slots@[s]->0,
                ),
        decreases rest@.len(),
    {
        let ghost before = rest@.len() as int;
        let (idx, v) = rest.pop().unwrap();
        proof {
            assert(rest@ == pv.take(before).take(before - 1));
            assert(pv.take(before).take(before - 1) =~= pv.take(before - 1));
            assert(pv.take(before)[before - 1] == pv[before - 1]);
        }
        if idx >= length {
            proof {
                assert(pv[before - 1].0 >= length);
                assert(!complete_assignment(pv, length as int));
            }
            return None;
        }
        if slots[idx].is_some() {
            proof {
                let j0 = choose|j: int|
                    0 <= j < pv.skip(before).len() && #[trigger] pv.skip(before)[j]
                        == ((idx, slots@[idx as int]->0));
                assert(pv.skip(before)[j0] == pv[before + j0]);
                assert(pv[before + j0].0 == idx && pv[before - 1].0 == idx);
                assert(!indices_unique(pv));
                assert(!complete_assignment(pv, length as int));
            }
            return None;
        }
        slots.set(idx, Some(v));
        proof {
            assert forall|s: int|
                0 <= s < length && (#[trigger] slots@[s]) is Some implies recorded_value(
                pv.skip(before - 1),
                s,
                slots@[s]->0,
            ) by {
                let w = slots@[s]->0;
                if s == idx as int {
                    assert(pv.skip(before - 1)[0] == pv[before - 1]);
                } else {
                    let j0 = choose|j: int|
                        0 <= j < pv.skip(before).len() && #[trigger] pv.skip(before)[j]
                            == ((s as usize, w));
                    assert(pv.skip(before - 1)[j0 + 1] == pv.skip(before)[j0]);
                }
            }
        }
    }
    proof {
        assert(pv.skip(0) =~= pv);
        assert forall|j: int| 0 <= j < total implies (#[trigger] pv[j]).0 < length by {}
    }
    let mut rev_out: Vec<R> = Vec::new();
    let mut remaining = slots;
    while remaining.len() > 0
        invariant
            pv == pairs@,
            total == pv.len(),
            remaining@.len() + rev_out@.len() == length,
            forall|j: int| 0 <= j < remaining@.len() ==> remaining@[j] == slots@[j],
            slots@.len() == length,
            forall|s: int|
                0 <= s < length && (#[trigger] slots@[s]) is Some ==> recorded_value(
                    pv,
                    s,
                    slots@[s]->0,
                ),
            forall|j: int| 0 <= j < total ==> (#[trigger] pv[j]).0 < length,
            indices_unique(pv),
            forall|j: int| 0 <= j < total ==> (#[trigger] slots@[pv[j].0 as int]) is Some,
            forall|j: int|
                0 <= j < rev_out@.len() ==> recorded_value(pv, length - 1 - j, #[trigger] rev_out@[j]),
        decreases remaining@.len(),
    {
        match remaining.pop().unwrap() {
            Some(v) => {
                rev_out.push(v);
            },
            None => {
                proof {
                    let s = remaining@.len() as int;
                    assert(slots@[s] is None);
                    assert(!records_index(pv, s)) by {
                        if records_index(pv, s) {
                            let j0 = choose|j: int|
                                0 <= j < pv.len() && (#[trigger] pv[j]).0 == s;
                            assert(slots@[pv[j0].0 as int] is Some);
                        }
                    }
                    assert(!complete_assignment(pv, length as int));
                }
                return None;
            },
        }
    }
    let mut out: Vec<R> = Vec::new();
    while rev_out.len() > 0
        invariant
            pv == pairs@,
            total == pv.len(),
            rev_out@.len() + out@.len() == length,
            forall|j: int|
                0 <= j < rev_out@.len() ==> recorded_value(pv, length - 1 - j, #[trigger] rev_out@[j]),
            forall|i2: int|
                0 <= i2 < out@.len() ==> recorded_value(pv, i2, #[trigger] out@[i2]),
            forall|j: int| 0 <= j < total ==> (#[trigger] pv[j]).0 < length,
            indices_unique(pv),
            forall|j: int| 0 <= j < total ==> (#[trigger] slots@[pv[j].0 as int]) is Some,
            slots@.len() == length,
            forall|s: int|
                0 <= s < length && (#[trigger] slots@[s]) is Some ==> recorded_value(
                    pv,
                    s,
                    slots@[s]->0,
                ),
        decreases rev_out@.len(),
    {
        let v = rev_out.pop().unwrap();
        out.push(v);
    }
    proof {
        assert forall|i2: int| 0 <= i2 < length implies records_index(pv, i2) by {
            assert(recorded_value(pv, i2, out@[i2]));
            let j0 = choose|j: int|
                0 <= j < pv.len() && #[trigger] pv[j] == ((i2 as usize, out@[i2]));
            assert(pv[j0].0 == i2);
        }
    }
    Some(out)
}

/// The dynamic-queue divider. Inputs shorter than
/// [`PARALLEL_WORK_THRESHOLD`] are transformed in order on the calling
/// thread. Longer inputs go into a single shared queue; one worker thread
/// per available processor repeatedly pops an element with its original
/// index and transforms it, and the (index, result) pairs of all workers
/// are merged into an output addressed by original index. Position `i` of
/// an `Ok` output always holds a value `f` may return for `input[i]`,
/// however the workers interleave. If any worker terminates abnormally
/// (the transformation panicked), every worker is still joined and the
/// whole call reports [`WorkerFailure`] instead of a partial output.
pub fn divide_work<T, R, F>(input: Vec<T>, f: F) -> (r: Result<Vec<R>, WorkerFailure>)
    where
        T: Send + Sync + 'static,
        R: Send + 'static,
        F: Fn(T) -> R + Send + Sync + 'static,
    requires
        forall|i: int| 0 <= i < input@.len() ==> call_requires(f, (#[trigger] input@[i],)),
    ensures
        r matches Ok(out) ==> divided_output(f, input@, out@),
        input@.len() < PARALLEL_WORK_THRESHOLD ==> r is Ok,
{
    if !should_divide(input.len()) {
        Ok(map_sequential(input, &f))
    } else {
        let ghost iv = input@;
        let length = input.len();
        let count = available_workers();
        proof {
            assert(iv.take(iv.len() as int) =~= iv);
        }
        let queue = Arc::new(
            RwLock::<Vec<T>, spec_fn(Vec<T>) -> bool>::new(input, Ghost(queue_invariant(iv))),
        );
        let arc_f = Arc::new(f);
        let mut handles: Vec<thread::JoinHandle<Vec<(usize, R)>>> = Vec::new();
        let mut k: usize = 0;
        while k < count
            invariant
                k <= count,
                iv == input@,
                iv.len() == length,
                arc_f == f,
                (*queue).pred() == queue_invariant(iv),
                forall|i: int| 0 <= i < iv.len() ==> call_requires(f, (#[trigger] iv[i],)),
                handles@.len() == k,
                forall|a: int, ret: Vec<(usize, R)>|
                    0 <= a < k && #[trigger] handles@[a].predicate(ret) ==> forall|j: int|
                        0 <= j < ret@.len() ==> (#[trigger] ret@[j]).0 < iv.len()
                            && call_ensures(f, (iv[ret@[j].0 as int],), ret@[j].1),
            decreases count - k,
        {
            let ql = queue.clone();
            let af = arc_f.clone();
            let h = thread::spawn(
                (move || -> (pairs: Vec<(usize, R)>)
                    ensures
                        forall|j: int|
                            0 <= j < pairs@.len() ==> (#[trigger] pairs@[j]).0 < iv.len()
                                && call_ensures(*af, (iv[pairs@[j].0 as int],), pairs@[j].1),
                    {
                        queue_worker(&*ql, &*af, length, Ghost(iv))
                    }),
            );
            handles.push(h);
            k = k + 1;
        }
        let mut all_pairs: Vec<(usize, R)> = Vec::new();
        let mut failed = false;
        let mut i: usize = 0;
        while i < count
            invariant
                i <= count,
                iv == input@,
                iv.len() == length,
                PARALLEL_WORK_THRESHOLD <= iv.len(),
                handles@.len() == count - i,
                forall|a: int, ret: Vec<(usize, R)>|
                    0 <= a < handles@.len() && #[trigger] handles@[a].predicate(ret)
                        ==> forall|j: int|
                        0 <= j < ret@.len() ==> (#[trigger] ret@[j]).0 < iv.len()
                            && call_ensures(f, (iv[ret@[j].0 as int],), ret@[j].1),
                forall|j: int|
                    0 <= j < all_pairs@.len() ==> (#[trigger] all_pairs@[j]).0 < iv.len()
                        && call_ensures(f, (iv[all_pairs@[j].0 as int],), all_pairs@[j].1),
            decreases count - i,
        {
            let h = handles.remove(0);
            match h.join() {
                Ok(mut pairs) => {
                    if !failed {
                        all_pairs.append(&mut pairs);
                    }
                },
                Err(_) => {
                    failed = true;
                },
            }
            i = i + 1;
        }
        if failed {
            return Err(WorkerFailure);
        }
        match merge_results(length, all_pairs) {
            Some(out) => {
                proof {
                    assert forall|i2: int|
                        0 <= i2 < iv.len() implies call_ensures(
                        f,
                        (iv[i2],),
                        #[trigger] out@[i2],
                    ) by {
                        assert(recorded_value(all_pairs@, i2, out@[i2]));
                        let j0 = choose|j: int|
                            0 <= j < all_pairs@.len() && #[trigger] all_pairs@[j] == ((
                                i2 as usize,
                                out@[i2],
                            ));
                        assert(all_pairs@[j0].0 == i2);
                    }
                }
                Ok(out)
            },
            None => Err(WorkerFailure),
        }
    }
}

} // verus!
