//! The escape-time evaluator and the intensity it is encoded as.

use vstd::prelude::*;

verus! {

/// The iteration limit that every pixel is evaluated with.
///
/// It is tied to the 8-bit output range: an escape at iteration `i` is drawn
/// as `255 - i`, so the limit must not exceed 255, and a smaller limit would
/// leave the dark end of the range unused.
pub const ITERATION_LIMIT: usize = 255;

/// Element `k` of `orbit` is what `step` gave for the element before it.
pub open spec fn follows<Z, S: Fn(Z, Z) -> Z>(orbit: Seq<Z>, c: Z, step: S, k: int) -> bool {
    call_ensures(step, (orbit[k - 1], c), orbit[k])
}

/// `orbit` is a run of the map with parameter `c`: it starts at `origin`, and
/// each later element follows from the one before it.
pub open spec fn is_orbit<Z, S: Fn(Z, Z) -> Z>(orbit: Seq<Z>, c: Z, origin: Z, step: S) -> bool {
    &&& orbit.len() > 0 ==> orbit[0] == origin
    &&& forall|k: int| 0 < k < orbit.len() ==> #[trigger] follows(orbit, c, step, k)
}

/// None of the first `steps` elements of `orbit` has left the bounded region.
pub open spec fn stays_inside<Z, E: Fn(Z) -> bool>(orbit: Seq<Z>, escaped: E, steps: int) -> bool {
    forall|k: int| 0 <= k < steps ==> call_ensures(escaped, (#[trigger] orbit[k],), false)
}

/// `time` is an escape time of `c` within `limit` iterations.
///
/// `Some(i)` says that some orbit stays inside for its first `i` elements and
/// has left the region at element `i`, with `i` below the limit. `None` says
/// that some orbit stays inside for all of its first `limit` elements.
pub open spec fn escape_time_of<Z, E: Fn(Z) -> bool, S: Fn(Z, Z) -> Z>(
    c: Z,
    limit: usize,
    origin: Z,
    escaped: E,
    step: S,
    time: Option<usize>,
) -> bool {
    match time {
        Some(i) => {
            &&& i < limit
            &&& exists|orbit: Seq<Z>|
                {
                    &&& #[trigger] is_orbit(orbit, c, origin, step)
                    &&& orbit.len() == i + 1
                    &&& stays_inside(orbit, escaped, i as int)
                    &&& call_ensures(escaped, (orbit[i as int],), true)
                }
        },
        None => exists|orbit: Seq<Z>|
            {
                &&& #[trigger] is_orbit(orbit, c, origin, step)
                &&& orbit.len() == limit
                &&& stays_inside(orbit, escaped, limit as int)
            },
    }
}

/// Iterates `z <- step(z, c)` from `origin` and returns the index of the
/// first iteration at whose start `z` had left the bounded region, or `None`
/// when that happens in none of the `limit` iterations.
///
/// The test comes before the update in every iteration, so `limit` tests and
/// at most `limit` updates are made, and the returned index is below `limit`.
pub fn escape_time<Z: Copy, E: Fn(Z) -> bool, S: Fn(Z, Z) -> Z>(
    c: Z,
    limit: usize,
    origin: Z,
    escaped: &E,
    step: &S,
) -> (time: Option<usize>)
    requires
        forall|z: Z| call_requires(*escaped, (z,)),
        forall|z: Z| call_requires(*step, (z, c)),
    ensures
        escape_time_of(c, limit, origin, *escaped, *step, time),
        time matches Some(i) ==> i < limit,
{
    let mut z = origin;
    let ghost mut orbit: Seq<Z> = seq![origin];
    let mut i: usize = 0;
    while i < limit
        invariant
            i <= limit,
            orbit.len() == i + 1,
            orbit[i as int] == z,
            is_orbit(orbit, c, origin, *step),
            stays_inside(orbit, *escaped, i as int),
            forall|z: Z| call_requires(*escaped, (z,)),
            forall|z: Z| call_requires(*step, (z, c)),
        decreases limit - i,
    {
        if escaped(z) {
            return Some(i);
        }
        let next = step(z, c);
        proof {
            let longer = orbit.push(next);
            assert forall|k: int| 0 < k < longer.len() implies #[trigger] follows(
                longer,
                c,
                *step,
                k,
            ) by {
                if k < orbit.len() {
                    assert(follows(orbit, c, *step, k));
                }
            }
            orbit = longer;
        }
        z = next;
        i = i + 1;
    }
    proof {
        let inside = orbit.take(limit as int);
        assert forall|k: int| 0 < k < inside.len() implies #[trigger] follows(
            inside,
            c,
            *step,
            k,
        ) by {
            assert(follows(orbit, c, *step, k));
        }
        assert(is_orbit(inside, c, origin, *step));
    }
    None
}

/// The intensity that an escape time is drawn as: 0 for a point that never
/// escaped, and for an escape at iteration `i` the value `255 - i`, so that a
/// faster escape is brighter. Only the low eight bits of `i` count; for every
/// `i` up to 255, and so for every escape time within [`ITERATION_LIMIT`],
/// that is `i` itself.
pub open spec fn shade_of(time: Option<usize>) -> u8 {
    match time {
        Some(i) => (255 - i % 256) as u8,
        None => 0,
    }
}

/// Encodes an escape time as an intensity.
pub fn shade(time: Option<usize>) -> (intensity: u8)
    ensures
        intensity == shade_of(time),
        time is None ==> intensity == 0,
        time matches Some(i) ==> i <= 255 ==> intensity == 255 - i,
{
    match time {
        Some(i) => {
            let low: u8 = (i % 256) as u8;
            255 - low
        },
        None => 0,
    }
}

/// `escaped` gives the same answer whenever it is asked about the same value.
pub open spec fn test_is_deterministic<Z, E: Fn(Z) -> bool>(escaped: E) -> bool {
    forall|z: Z, a: bool, b: bool|
        call_ensures(escaped, (z,), a) && call_ensures(escaped, (z,), b) ==> a == b
}

/// `step` gives the same value whenever it is applied to the same arguments.
pub open spec fn step_is_deterministic<Z, S: Fn(Z, Z) -> Z>(step: S) -> bool {
    forall|z: Z, c: Z, a: Z, b: Z|
        call_ensures(step, (z, c), a) && call_ensures(step, (z, c), b) ==> a == b
}

/// Two orbits of a deterministic map from one origin agree wherever both are
/// defined.
proof fn lemma_orbits_agree<Z, S: Fn(Z, Z) -> Z>(
    first: Seq<Z>,
    second: Seq<Z>,
    c: Z,
    origin: Z,
    step: S,
    k: int,
)
    requires
        step_is_deterministic(step),
        is_orbit(first, c, origin, step),
        is_orbit(second, c, origin, step),
        0 <= k < first.len(),
        k < second.len(),
    ensures
        first[k] == second[k],
    decreases k,
{
    if k > 0 {
        lemma_orbits_agree(first, second, c, origin, step, k - 1);
        assert(follows(first, c, step, k));
        assert(follows(second, c, step, k));
    }
}

/// The evaluator is deterministic: where the escape test and the step are,
/// a point has one escape time within a limit, so repeated evaluations of
/// the same input return the same result.
pub proof fn lemma_escape_time_deterministic<Z, E: Fn(Z) -> bool, S: Fn(Z, Z) -> Z>(
    c: Z,
    limit: usize,
    origin: Z,
    escaped: E,
    step: S,
    first: Option<usize>,
    second: Option<usize>,
)
    requires
        test_is_deterministic(escaped),
        step_is_deterministic(step),
        escape_time_of(c, limit, origin, escaped, step, first),
        escape_time_of(c, limit, origin, escaped, step, second),
    ensures
        first == second,
{
    let one = witness_orbit(c, limit, origin, escaped, step, first);
    let two = witness_orbit(c, limit, origin, escaped, step, second);
    match (first, second) {
        (Some(i), Some(j)) => {
            let k = if i <= j { i as int } else { j as int };
            lemma_orbits_agree(one, two, c, origin, step, k);
        },
        (Some(i), None) => {
            lemma_orbits_agree(one, two, c, origin, step, i as int);
        },
        (None, Some(j)) => {
            lemma_orbits_agree(one, two, c, origin, step, j as int);
        },
        (None, None) => {},
    }
}

/// An orbit that shows `time` to be an escape time.
spec fn witness_orbit<Z, E: Fn(Z) -> bool, S: Fn(Z, Z) -> Z>(
    c: Z,
    limit: usize,
    origin: Z,
    escaped: E,
    step: S,
    time: Option<usize>,
) -> Seq<Z> {
    match time {
        Some(i) => choose|orbit: Seq<Z>|
            {
                &&& #[trigger] is_orbit(orbit, c, origin, step)
                &&& orbit.len() == i + 1
                &&& stays_inside(orbit, escaped, i as int)
                &&& call_ensures(escaped, (orbit[i as int],), true)
            },
        None => choose|orbit: Seq<Z>|
            {
                &&& #[trigger] is_orbit(orbit, c, origin, step)
                &&& orbit.len() == limit
                &&& stays_inside(orbit, escaped, limit as int)
            },
    }
}

} // verus!
