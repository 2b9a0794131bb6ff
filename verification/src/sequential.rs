//! The sequential fallback: applies the transformation to every element in
//! order on the calling thread. Both dividers use it for inputs below the
//! parallelism threshold, and the equal-partition workers run it on their
//! own chunks.

use vstd::prelude::*;
use crate::laws::divided_output;

verus! {

/// Applies `f` to each element of `input`, in order, on the calling thread.
/// Position `i` of the output holds a value that `f` may return for
/// `input[i]`.
pub fn map_sequential<T, R, F: Fn(T) -> R>(input: Vec<T>, f: &F) -> (out: Vec<R>)
    requires
        forall|i: int| 0 <= i < input@.len() ==> call_requires(*f, (input@[i],)),
    ensures
        divided_output(*f, input@, out@),
{
    let ghost iv = input@;
    let mut rest = input;
    let mut stack: Vec<T> = Vec::new();
    while rest.len() > 0
        invariant
            rest@ == iv.take(rest@.len() as int),
            stack@.len() + rest@.len() == iv.len(),
            forall|j: int|
                0 <= j < stack@.len() ==> stack@[j] == iv[iv.len() - 1 - j],
        decreases rest@.len(),
    {
        let t = rest.pop().unwrap();
        proof {
            assert(rest@ == iv.take(rest@.len() as int));
        }
        stack.push(t);
    }
    let mut out: Vec<R> = Vec::new();
    while stack.len() > 0
        invariant
            forall|i: int| 0 <= i < iv.len() ==> call_requires(*f, (iv[i],)),
            out@.len() + stack@.len() == iv.len(),
            forall|j: int|
                0 <= j < stack@.len() ==> stack@[j] == iv[iv.len() - 1 - j],
            forall|i: int|
                0 <= i < out@.len() ==> call_ensures(*f, (iv[i],), #[trigger] out@[i]),
        decreases stack@.len(),
    {
        let t = stack.pop().unwrap();
        assert(t == iv[out@.len() as int]);
        let r = f(t);
        out.push(r);
    }
    out
}

} // verus!
