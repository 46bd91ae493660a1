//! The pixel resolver: one colour from the samples of a pixel, as the
//! average of a running sum. The sum and its colours are values of any type;
//! the caller supplies how a sample is added and how the sum is averaged.

use vstd::prelude::*;

verus! {

/// `sum` may be averaged, and may have any sample below `samples` added.
pub open spec fn usable<A, C, S: Fn(A, usize) -> A, N: Fn(A) -> C>(
    samples: usize,
    add_sample: &S,
    average: &N,
    sum: A,
) -> bool {
    &&& call_requires(average, (sum,))
    &&& forall|k: usize| k < samples ==> #[trigger] call_requires(add_sample, (sum, k))
}

/// The closures take `zero` and every sum that `add_sample` returns.
pub open spec fn resolvable<A, C, S: Fn(A, usize) -> A, N: Fn(A) -> C>(
    samples: usize,
    zero: A,
    add_sample: &S,
    average: &N,
) -> bool {
    &&& usable(samples, add_sample, average, zero)
    &&& forall|sum: A, k: usize, next: A| #[trigger]
        call_ensures(add_sample, (sum, k), next) ==> usable(samples, add_sample, average, next)
}

/// Sum `k + 1` of `sums` is sum `k` with sample `k` added.
pub open spec fn adds<A, S: Fn(A, usize) -> A>(add_sample: &S, sums: Seq<A>, k: int) -> bool {
    call_ensures(add_sample, (sums[k], k as usize), sums[k + 1])
}

/// `sums` is the running sum over the samples below `samples`, in order,
/// from `zero` on.
pub open spec fn running_sum<A, S: Fn(A, usize) -> A>(
    samples: usize,
    zero: A,
    add_sample: &S,
    sums: Seq<A>,
) -> bool {
    &&& sums.len() == samples + 1
    &&& sums[0] == zero
    &&& forall|k: int| 0 <= k < samples ==> #[trigger] adds(add_sample, sums, k)
}

/// `color` is the average of the sum of all samples: each sample below
/// `samples` was added once, in order, to a sum that began at `zero`, and the
/// last sum was averaged.
pub open spec fn resolved<A, C, S: Fn(A, usize) -> A, N: Fn(A) -> C>(
    samples: usize,
    zero: A,
    add_sample: &S,
    average: &N,
    color: C,
) -> bool {
    exists|sums: Seq<A>|
        #[trigger] running_sum(samples, zero, add_sample, sums) && call_ensures(
            average,
            (sums[samples as int],),
            color,
        )
}

/// Resolves a pixel from its samples: adds sample after sample to a sum that
/// begins at `zero`, and averages the sum once at the end.
pub fn resolve<A, C, S: Fn(A, usize) -> A, N: Fn(A) -> C>(
    samples: usize,
    zero: A,
    add_sample: &S,
    average: &N,
) -> (color: C)
    requires
        resolvable(samples, zero, add_sample, average),
    ensures
        resolved(samples, zero, add_sample, average, color),
{
    let ghost mut sums: Seq<A> = Seq::empty().push(zero);
    let mut sum = zero;
    for k in 0..samples
        invariant
            resolvable(samples, zero, add_sample, average),
            usable(samples, add_sample, average, sum),
            running_sum(k, zero, add_sample, sums),
            sums[k as int] == sum,
    {
        let next = add_sample(sum, k);
        proof {
            let longer = sums.push(next);
            assert forall|n: int| 0 <= n < k + 1 implies #[trigger] adds(add_sample, longer, n) by {
                if n < k {
                    assert(adds(add_sample, sums, n));
                }
            }
            sums = longer;
        }
        sum = next;
    }
    average(sum)
}

/// Two running sums over the same samples agree, where adding a sample has
/// one result.
proof fn lemma_running_sums_agree<A, S: Fn(A, usize) -> A>(
    samples: usize,
    zero: A,
    add_sample: &S,
    first: Seq<A>,
    second: Seq<A>,
    k: int,
)
    requires
        running_sum(samples, zero, add_sample, first),
        running_sum(samples, zero, add_sample, second),
        forall|sum: A, n: usize, a: A, b: A|
            #[trigger] call_ensures(add_sample, (sum, n), a) && #[trigger] call_ensures(
                add_sample,
                (sum, n),
                b,
            ) ==> a == b,
        0 <= k <= samples,
    ensures
        first[k] == second[k],
    decreases k,
{
    if k > 0 {
        lemma_running_sums_agree(samples, zero, add_sample, first, second, k - 1);
        assert(adds(add_sample, first, k - 1));
        assert(adds(add_sample, second, k - 1));
    }
}

/// One colour and no other: where adding a sample and averaging each have
/// one result, `resolved` holds of a single colour.
pub proof fn lemma_resolved_unique<A, C, S: Fn(A, usize) -> A, N: Fn(A) -> C>(
    samples: usize,
    zero: A,
    add_sample: &S,
    average: &N,
    first: C,
    second: C,
)
    requires
        resolved(samples, zero, add_sample, average, first),
        resolved(samples, zero, add_sample, average, second),
        forall|sum: A, n: usize, a: A, b: A|
            #[trigger] call_ensures(add_sample, (sum, n), a) && #[trigger] call_ensures(
                add_sample,
                (sum, n),
                b,
            ) ==> a == b,
        forall|sum: A, a: C, b: C|
            #[trigger] call_ensures(average, (sum,), a) && #[trigger] call_ensures(
                average,
                (sum,),
                b,
            ) ==> a == b,
    ensures
        first == second,
{
    let a = choose|sums: Seq<A>|
        #[trigger] running_sum(samples, zero, add_sample, sums) && call_ensures(
            average,
            (sums[samples as int],),
            first,
        );
    let b = choose|sums: Seq<A>|
        #[trigger] running_sum(samples, zero, add_sample, sums) && call_ensures(
            average,
            (sums[samples as int],),
            second,
        );
    lemma_running_sums_agree(samples, zero, add_sample, a, b, samples as int);
}

} // verus!
