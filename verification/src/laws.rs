//! Properties that both dividers share, stated over the same pointwise
//! contract that [`crate::divide_work`], [`crate::divide_equal_work`] and
//! [`crate::sequential::map_sequential`] ensure of their outputs: the
//! output has the input's length and position `i` holds a value the
//! transformation may return for `input[i]`.

use vstd::prelude::*;

verus! {

/// True when the output sequence is pointwise related to the input
/// sequence by the transformation's contract. This is exactly what both
/// dividers ensure of an `Ok` output, and what the sequential fallback
/// ensures of its output.
pub open spec fn divided_output<T, R, F: Fn(T) -> R>(f: F, input: Seq<T>, out: Seq<R>) -> bool {
    &&& out.len() == input.len()
    &&& forall|i: int| 0 <= i < input.len() ==> call_ensures(f, (input[i],), #[trigger] out[i])
}

/// True when the transformation's contract admits exactly one result per
/// input value: a pure function of its argument.
pub open spec fn pure_transformation<T, R, F: Fn(T) -> R>(f: F) -> bool {
    forall|t: T, r1: R, r2: R|
        call_ensures(f, (t,), r1) && call_ensures(f, (t,), r2) ==> r1 == r2
}

/// True when the transformation's contract only admits returning the
/// argument itself: an identity transformation.
pub open spec fn identity_transformation<T, F: Fn(T) -> T>(f: F) -> bool {
    forall|t: T, r: T| call_ensures(f, (t,), r) ==> r == t
}

/// With a pure transformation, the divider contract pins the output down
/// to a single sequence: any two outputs for equal inputs are equal. Hence
/// calling either divider twice with equal inputs yields equal outputs,
/// both dividers yield the same output as each other, and below the
/// threshold that output is identical to the sequential fallback's, since
/// all three ensure [`divided_output`].
pub proof fn lemma_pure_output_unique<T, R, F: Fn(T) -> R>(
    f: F,
    input: Seq<T>,
    out1: Seq<R>,
    out2: Seq<R>,
)
    requires
        pure_transformation(f),
        divided_output(f, input, out1),
        divided_output(f, input, out2),
    ensures
        out1 == out2,
{
    assert(out1 =~= out2);
}

/// Below the parallelism threshold both dividers are guaranteed to succeed
/// (their contracts promise `Ok` there), and with a pure transformation the
/// output of either divider equals the sequential fallback's output for the
/// same input.
pub proof fn lemma_below_threshold_matches_sequential<T, R, F: Fn(T) -> R>(
    f: F,
    input: Seq<T>,
    divider_out: Seq<R>,
    fallback_out: Seq<R>,
)
    requires
        input.len() < crate::PARALLEL_WORK_THRESHOLD,
        pure_transformation(f),
        divided_output(f, input, divider_out),
        divided_output(f, input, fallback_out),
    ensures
        divider_out == fallback_out,
{
    lemma_pure_output_unique(f, input, divider_out, fallback_out);
}

/// Idempotence: calling either divider twice with equal inputs and a pure
/// transformation yields equal outputs, at any length.
pub proof fn lemma_pure_divider_idempotent<T, R, F: Fn(T) -> R>(
    f: F,
    input: Seq<T>,
    first_out: Seq<R>,
    second_out: Seq<R>,
)
    requires
        pure_transformation(f),
        divided_output(f, input, first_out),
        divided_output(f, input, second_out),
    ensures
        first_out == second_out,
{
    lemma_pure_output_unique(f, input, first_out, second_out);
}

/// Round trip: under an identity transformation, any output either divider
/// returns is the input itself, at any length.
pub proof fn lemma_identity_round_trip<T, F: Fn(T) -> T>(f: F, input: Seq<T>, out: Seq<T>)
    requires
        identity_transformation(f),
        divided_output(f, input, out),
    ensures
        out == input,
{
    assert(out =~= input);
}

} // verus!
