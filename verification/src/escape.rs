//! The escape-time loop. The points of the orbit are values of any type `Z`;
//! the caller supplies the test for having left the bounded region and the
//! step from one point to the next.

use vstd::prelude::*;

verus! {

/// The test and the step may be called on `start` and on every point that
/// the step returns.
pub open spec fn callable<Z, E: Fn(&Z) -> bool, S: Fn(&Z) -> Z>(
    escaped: &E,
    step: &S,
    start: Z,
) -> bool {
    &&& call_requires(escaped, (&start,))
    &&& call_requires(step, (&start,))
    &&& forall|z: Z, next: Z| #[trigger]
        call_ensures(step, (&z,), next) ==> call_requires(escaped, (&next,)) && call_requires(
            step,
            (&next,),
        )
}

/// Point `k` of `orbit` was tested and had not escaped, and point `k + 1`
/// is a step on from it.
pub open spec fn stays<Z, E: Fn(&Z) -> bool, S: Fn(&Z) -> Z>(
    escaped: &E,
    step: &S,
    orbit: Seq<Z>,
    k: int,
) -> bool {
    &&& call_ensures(escaped, (&orbit[k],), false)
    &&& call_ensures(step, (&orbit[k],), orbit[k + 1])
}

/// `orbit` is the run of points from `start` on, each a step on from the one
/// before it, of which none but perhaps the last has escaped.
pub open spec fn tested_orbit<Z, E: Fn(&Z) -> bool, S: Fn(&Z) -> Z>(
    escaped: &E,
    step: &S,
    start: Z,
    orbit: Seq<Z>,
) -> bool {
    &&& orbit.len() >= 1
    &&& orbit[0] == start
    &&& forall|k: int| 0 <= k < orbit.len() - 1 ==> #[trigger] stays(escaped, step, orbit, k)
}

/// `orbit` shows that `iter` is the escape time: it is the tested orbit up to
/// point `iter`, and that point has escaped or is the last that the budget
/// allows.
pub open spec fn escapes_along<Z, E: Fn(&Z) -> bool, S: Fn(&Z) -> Z>(
    escaped: &E,
    step: &S,
    start: Z,
    iterations: usize,
    iter: usize,
    orbit: Seq<Z>,
) -> bool {
    &&& orbit.len() == iter + 1
    &&& tested_orbit(escaped, step, start, orbit)
    &&& (iter + 1 == iterations || call_ensures(escaped, (&orbit[iter as int],), true))
}

/// `iter` is the escape time of the orbit from `start` within a budget of
/// `iterations`: the index of the first point that has escaped, where that is
/// below `iterations - 1`, and else `iterations - 1`, the index of the last
/// point that the budget allows, whether that point has escaped or not.
/// With no budget at all it is 0.
pub open spec fn escape_time<Z, E: Fn(&Z) -> bool, S: Fn(&Z) -> Z>(
    escaped: &E,
    step: &S,
    start: Z,
    iterations: usize,
    iter: usize,
) -> bool {
    if iterations == 0 {
        iter == 0
    } else {
        &&& iter < iterations
        &&& exists|orbit: Seq<Z>| #[trigger]
            escapes_along(escaped, step, start, iterations, iter, orbit)
    }
}

/// Iterates from `start`, testing each point before stepping on from it, and
/// returns the index of the iteration at which the test first succeeded. An
/// orbit that passes no test within `iterations` gives `iterations - 1`, the
/// last index of the loop, not `iterations`.
pub fn mandel<Z, E: Fn(&Z) -> bool, S: Fn(&Z) -> Z>(
    start: Z,
    iterations: usize,
    escaped: &E,
    step: &S,
) -> (iter: usize)
    requires
        callable(escaped, step, start),
    ensures
        escape_time(escaped, step, start, iterations, iter),
{
    let ghost mut orbit: Seq<Z> = Seq::empty().push(start);
    let mut z = start;
    let mut iter: usize = 0;
    let mut i: usize = 0;
    loop
        invariant_except_break
            i > 0 ==> iter == i - 1,
        invariant
            callable(escaped, step, start),
            call_requires(escaped, (&z,)),
            call_requires(step, (&z,)),
            i <= iterations,
            i == 0 ==> iter == 0,
            orbit.len() == i + 1,
            orbit[i as int] == z,
            tested_orbit(escaped, step, start, orbit),
        ensures
            escape_time(escaped, step, start, iterations, iter),
        decreases iterations - i,
    {
        if i >= iterations {
            proof {
                if iterations > 0 {
                    let tested = orbit.take(iterations as int);
                    assert forall|k: int| 0 <= k < tested.len() - 1 implies #[trigger] stays(
                        escaped,
                        step,
                        tested,
                        k,
                    ) by {
                        assert(stays(escaped, step, orbit, k));
                    }
                    assert(escapes_along(escaped, step, start, iterations, iter, tested));
                }
            }
            break ;
        }
        iter = i;
        if escaped(&z) {
            assert(escapes_along(escaped, step, start, iterations, iter, orbit));
            break ;
        }
        let next = step(&z);
        proof {
            let longer = orbit.push(next);
            assert forall|k: int| 0 <= k < longer.len() - 1 implies #[trigger] stays(
                escaped,
                step,
                longer,
                k,
            ) by {
                if k < i {
                    assert(stays(escaped, step, orbit, k));
                }
            }
            orbit = longer;
        }
        z = next;
        i += 1;
    }
    iter
}

/// The test and the step each return one value for each point, whenever they
/// are called.
pub open spec fn deterministic<Z, E: Fn(&Z) -> bool, S: Fn(&Z) -> Z>(escaped: &E, step: &S) -> bool {
    &&& forall|z: Z, a: bool, b: bool|
        #[trigger] call_ensures(escaped, (&z,), a) && #[trigger] call_ensures(escaped, (&z,), b)
            ==> a == b
    &&& forall|z: Z, a: Z, b: Z|
        #[trigger] call_ensures(step, (&z,), a) && #[trigger] call_ensures(step, (&z,), b) ==> a
            == b
}

/// Two tested orbits from one start agree as far as both reach.
proof fn lemma_orbits_agree<Z, E: Fn(&Z) -> bool, S: Fn(&Z) -> Z>(
    escaped: &E,
    step: &S,
    start: Z,
    first: Seq<Z>,
    second: Seq<Z>,
    k: int,
)
    requires
        deterministic(escaped, step),
        tested_orbit(escaped, step, start, first),
        tested_orbit(escaped, step, start, second),
        0 <= k < first.len(),
        k < second.len(),
    ensures
        first[k] == second[k],
    decreases k,
{
    if k > 0 {
        lemma_orbits_agree(escaped, step, start, first, second, k - 1);
        assert(stays(escaped, step, first, k - 1));
        assert(stays(escaped, step, second, k - 1));
    }
}

/// One escape time and no other: where the test and the step are
/// deterministic, `escape_time` holds of a single index.
pub proof fn lemma_escape_time_unique<Z, E: Fn(&Z) -> bool, S: Fn(&Z) -> Z>(
    escaped: &E,
    step: &S,
    start: Z,
    iterations: usize,
    first: usize,
    second: usize,
)
    requires
        deterministic(escaped, step),
        escape_time(escaped, step, start, iterations, first),
        escape_time(escaped, step, start, iterations, second),
    ensures
        first == second,
{
    if iterations > 0 && first != second {
        let a = choose|orbit: Seq<Z>|
            escapes_along(escaped, step, start, iterations, first, orbit);
        let b = choose|orbit: Seq<Z>|
            escapes_along(escaped, step, start, iterations, second, orbit);
        if first < second {
            lemma_orbits_agree(escaped, step, start, a, b, first as int);
            assert(stays(escaped, step, b, first as int));
        } else {
            lemma_orbits_agree(escaped, step, start, a, b, second as int);
            assert(stays(escaped, step, a, second as int));
        }
    }
}

/// A start that has already escaped gives escape time 0, whatever the budget.
pub proof fn lemma_escaped_start<Z, E: Fn(&Z) -> bool, S: Fn(&Z) -> Z>(
    escaped: &E,
    step: &S,
    start: Z,
    iterations: usize,
    iter: usize,
)
    requires
        escape_time(escaped, step, start, iterations, iter),
        forall|b: bool| #[trigger] call_ensures(escaped, (&start,), b) ==> b,
    ensures
        iter == 0,
{
    if iterations > 0 && iter > 0 {
        let orbit = choose|orbit: Seq<Z>|
            escapes_along(escaped, step, start, iterations, iter, orbit);
        assert(stays(escaped, step, orbit, 0));
    }
}

/// Every point of a tested orbit that starts in `region` lies in `region`,
/// where no step leads out of it.
proof fn lemma_orbit_in_region<Z, E: Fn(&Z) -> bool, S: Fn(&Z) -> Z>(
    escaped: &E,
    step: &S,
    start: Z,
    orbit: Seq<Z>,
    region: spec_fn(Z) -> bool,
    k: int,
)
    requires
        tested_orbit(escaped, step, start, orbit),
        region(start),
        forall|z: Z, next: Z| region(z) && #[trigger] call_ensures(step, (&z,), next) ==> region(next),
        0 <= k < orbit.len(),
    ensures
        region(orbit[k]),
    decreases k,
{
    if k > 0 {
        lemma_orbit_in_region(escaped, step, start, orbit, region, k - 1);
        assert(stays(escaped, step, orbit, k - 1));
    }
}

/// An orbit that starts in a region which no step leaves and in which no
/// point has escaped uses up its budget: its escape time is
/// `iterations - 1`. A start that is its own successor and has not escaped
/// is such a region by itself.
pub proof fn lemma_confined_orbit<Z, E: Fn(&Z) -> bool, S: Fn(&Z) -> Z>(
    escaped: &E,
    step: &S,
    start: Z,
    iterations: usize,
    iter: usize,
    region: spec_fn(Z) -> bool,
)
    requires
        escape_time(escaped, step, start, iterations, iter),
        iterations > 0,
        region(start),
        forall|z: Z, next: Z| region(z) && #[trigger] call_ensures(step, (&z,), next) ==> region(next),
        forall|z: Z, b: bool| region(z) && #[trigger] call_ensures(escaped, (&z,), b) ==> !b,
    ensures
        iter == iterations - 1,
{
    let orbit = choose|orbit: Seq<Z>|
        escapes_along(escaped, step, start, iterations, iter, orbit);
    lemma_orbit_in_region(escaped, step, start, orbit, region, iter as int);
}

} // verus!
