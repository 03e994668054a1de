//! The escape-time iteration, over a plane that the caller brings.
//!
//! An orbit starts at an origin and goes on by a step that depends on the
//! point `c` under test. Before each step the current point is tested: if
//! it is outside, the count of steps taken so far is the escape time. The
//! budget bounds the number of tests. A point whose orbit passes them all
//! is taken to stay bounded, which says only that it did not escape within
//! the budget.
//!
//! `step` and `outside` are the caller's: for the Mandelbrot set over
//! complex numbers, `step` takes `z` to `z * z + c` and `outside` tells
//! whether `z` has left the circle of radius two.

use vstd::prelude::*;

verus! {

/// The `k`-th point of `orbit` follows the one before: that one was tested
/// and found not to be outside, and the step from it gives the `k`-th.
pub open spec fn follows<Z, C, S, O>(orbit: Seq<Z>, k: int, c: C, step: S, outside: O) -> bool where
    S: Fn(Z, C) -> Z,
    O: Fn(Z) -> bool,
 {
    &&& call_ensures(outside, (orbit[k - 1],), false)
    &&& call_ensures(step, (orbit[k - 1], c), orbit[k])
}

/// `orbit` is the start of the orbit of `c`: it begins at `origin`, and
/// each point but the first follows the one before.
pub open spec fn stays_inside<Z, C, S, O>(
    orbit: Seq<Z>,
    c: C,
    origin: Z,
    step: S,
    outside: O,
) -> bool where S: Fn(Z, C) -> Z, O: Fn(Z) -> bool {
    &&& orbit.len() >= 1
    &&& orbit[0] == origin
    &&& forall|k: int| 1 <= k < orbit.len() ==> #[trigger] follows(orbit, k, c, step, outside)
}

/// What the iteration may answer for `c` within `limit` tests: `Some(n)`
/// where the orbit is outside after `n` steps and not before, with
/// `n < limit`; `None` where the orbit passes `limit` tests.
pub open spec fn escapes_at<Z, C, S, O>(
    escape: Option<usize>,
    c: C,
    limit: usize,
    origin: Z,
    step: S,
    outside: O,
) -> bool where S: Fn(Z, C) -> Z, O: Fn(Z) -> bool {
    match escape {
        Some(count) => count < limit && exists|orbit: Seq<Z>|
            orbit.len() == count + 1 && #[trigger] stays_inside(orbit, c, origin, step, outside)
                && call_ensures(outside, (orbit.last(),), true),
        None => exists|orbit: Seq<Z>|
            orbit.len() == limit + 1 && #[trigger] stays_inside(orbit, c, origin, step, outside),
    }
}

/// The two functions can be called as far as the iteration goes: `outside`
/// for every point that the orbit reaches within `limit` tests, and `step`
/// for every such point that is not outside.
pub open spec fn accepts_orbit<Z, C, S, O>(c: C, limit: usize, origin: Z, step: S, outside: O) -> bool where
    S: Fn(Z, C) -> Z,
    O: Fn(Z) -> bool,
 {
    forall|orbit: Seq<Z>|
        orbit.len() <= limit && #[trigger] stays_inside(orbit, c, origin, step, outside) ==> {
            &&& call_requires(outside, (orbit.last(),))
            &&& call_ensures(outside, (orbit.last(),), false) ==> call_requires(
                step,
                (orbit.last(), c),
            )
        }
}

/// Tells whether `c` escapes within `limit` tests, and after how many
/// steps: the orbit starts at `origin`, and before each step the current
/// point is tested with `outside`.
pub fn escape_time<Z, C, S, O>(c: C, limit: usize, origin: Z, step: &S, outside: &O) -> (escape:
    Option<usize>) where Z: Copy, C: Copy, S: Fn(Z, C) -> Z, O: Fn(Z) -> bool
    requires
        accepts_orbit(c, limit, origin, *step, *outside),
    ensures
        escapes_at(escape, c, limit, origin, *step, *outside),
{
    let mut z = origin;
    let ghost mut orbit: Seq<Z> = seq![origin];
    let mut count: usize = 0;
    while count < limit
        invariant
            count <= limit,
            orbit.len() == count + 1,
            orbit.last() == z,
            stays_inside(orbit, c, origin, *step, *outside),
            accepts_orbit(c, limit, origin, *step, *outside),
        decreases limit - count,
    {
        if outside(z) {
            return Some(count);
        }
        z = step(z, c);
        proof {
            let ghost so_far = orbit;
            orbit = orbit.push(z);
            assert forall|k: int| 1 <= k < orbit.len() implies #[trigger] follows(
                orbit,
                k,
                c,
                *step,
                *outside,
            ) by {
                if k < so_far.len() {
                    assert(follows(so_far, k, c, *step, *outside));
                }
            }
        }
        count += 1;
    }
    None
}

/// `step` gives one point only for each point, and `outside` one answer.
pub open spec fn one_orbit<Z, C, S, O>(c: C, step: S, outside: O) -> bool where
    S: Fn(Z, C) -> Z,
    O: Fn(Z) -> bool,
 {
    &&& forall|z: Z, next: Z, other: Z|
        #[trigger] call_ensures(step, (z, c), next) && #[trigger] call_ensures(step, (z, c), other)
            ==> next == other
    &&& forall|z: Z| !(call_ensures(outside, (z,), true) && call_ensures(outside, (z,), false))
}

/// Where `step` and `outside` each give one answer only, two starts of
/// the orbit of `c` agree as far as both go.
pub proof fn lemma_orbits_agree<Z, C, S, O>(
    orbit: Seq<Z>,
    other: Seq<Z>,
    c: C,
    origin: Z,
    step: S,
    outside: O,
    k: int,
) where S: Fn(Z, C) -> Z, O: Fn(Z) -> bool
    requires
        one_orbit(c, step, outside),
        stays_inside(orbit, c, origin, step, outside),
        stays_inside(other, c, origin, step, outside),
        0 <= k < orbit.len(),
        k < other.len(),
    ensures
        orbit[k] == other[k],
    decreases k,
{
    if k > 0 {
        lemma_orbits_agree(orbit, other, c, origin, step, outside, k - 1);
        assert(follows(orbit, k, c, step, outside));
        assert(follows(other, k, c, step, outside));
    }
}

/// The iteration is a function of `c` and `limit`: where `step` and
/// `outside` each give one answer only, it has one answer only.
pub proof fn lemma_escape_time_is_determined<Z, C, S, O>(
    escape: Option<usize>,
    other: Option<usize>,
    c: C,
    limit: usize,
    origin: Z,
    step: S,
    outside: O,
) where S: Fn(Z, C) -> Z, O: Fn(Z) -> bool
    requires
        one_orbit(c, step, outside),
        escapes_at(escape, c, limit, origin, step, outside),
        escapes_at(other, c, limit, origin, step, outside),
    ensures
        escape == other,
{
    let orbit = witness(escape, c, limit, origin, step, outside);
    let other_orbit = witness(other, c, limit, origin, step, outside);
    lemma_witness(escape, c, limit, origin, step, outside);
    lemma_witness(other, c, limit, origin, step, outside);
    if orbit.len() < other_orbit.len() {
        let last = orbit.len() - 1;
        lemma_orbits_agree(orbit, other_orbit, c, origin, step, outside, last);
        assert(follows(other_orbit, last + 1, c, step, outside));
    } else if other_orbit.len() < orbit.len() {
        let last = other_orbit.len() - 1;
        lemma_orbits_agree(orbit, other_orbit, c, origin, step, outside, last);
        assert(follows(orbit, last + 1, c, step, outside));
    }
}

/// An orbit that shows the answer `escape`.
spec fn witness<Z, C, S, O>(
    escape: Option<usize>,
    c: C,
    limit: usize,
    origin: Z,
    step: S,
    outside: O,
) -> Seq<Z> where S: Fn(Z, C) -> Z, O: Fn(Z) -> bool {
    match escape {
        Some(count) => choose|orbit: Seq<Z>|
            orbit.len() == count + 1 && #[trigger] stays_inside(orbit, c, origin, step, outside)
                && call_ensures(outside, (orbit.last(),), true),
        None => choose|orbit: Seq<Z>|
            orbit.len() == limit + 1 && #[trigger] stays_inside(orbit, c, origin, step, outside),
    }
}

/// The witness of an answer that the iteration may give is an orbit that
/// shows it.
proof fn lemma_witness<Z, C, S, O>(
    escape: Option<usize>,
    c: C,
    limit: usize,
    origin: Z,
    step: S,
    outside: O,
) where S: Fn(Z, C) -> Z, O: Fn(Z) -> bool
    requires
        escapes_at(escape, c, limit, origin, step, outside),
    ensures
        stays_inside(witness(escape, c, limit, origin, step, outside), c, origin, step, outside),
        escape matches Some(count) ==> count < limit && witness(
            escape,
            c,
            limit,
            origin,
            step,
            outside,
        ).len() == count + 1 && call_ensures(
            outside,
            (witness(escape, c, limit, origin, step, outside).last(),),
            true,
        ),
        escape is None ==> witness(escape, c, limit, origin, step, outside).len() == limit + 1,
{
}

/// A point whose orbit rests at an origin that is not outside never
/// escapes, whatever the budget.
pub proof fn lemma_resting_orbit_stays_bounded<Z, C, S, O>(
    escape: Option<usize>,
    c: C,
    limit: usize,
    origin: Z,
    step: S,
    outside: O,
) where S: Fn(Z, C) -> Z, O: Fn(Z) -> bool
    requires
        forall|next: Z| call_ensures(step, (origin, c), next) ==> next == origin,
        !call_ensures(outside, (origin,), true),
        escapes_at(escape, c, limit, origin, step, outside),
    ensures
        escape is None,
{
    if escape is Some {
        let orbit = witness(escape, c, limit, origin, step, outside);
        lemma_witness(escape, c, limit, origin, step, outside);
        lemma_orbit_rests(orbit, c, origin, step, outside, orbit.len() - 1);
    }
}

/// An orbit whose first step leads back to the origin never leaves it.
proof fn lemma_orbit_rests<Z, C, S, O>(orbit: Seq<Z>, c: C, origin: Z, step: S, outside: O, k: int) where
    S: Fn(Z, C) -> Z,
    O: Fn(Z) -> bool,

    requires
        forall|next: Z| call_ensures(step, (origin, c), next) ==> next == origin,
        stays_inside(orbit, c, origin, step, outside),
        0 <= k < orbit.len(),
    ensures
        orbit[k] == origin,
    decreases k,
{
    if k > 0 {
        lemma_orbit_rests(orbit, c, origin, step, outside, k - 1);
        assert(follows(orbit, k, c, step, outside));
    }
}

/// An escape is found as soon as the budget allows: where the orbit of
/// `c` is outside after `count` steps and not before, the iteration
/// answers `Some(count)` for every budget above `count`.
pub proof fn lemma_escape_is_found_within_any_larger_budget<Z, C, S, O>(
    count: usize,
    escape: Option<usize>,
    c: C,
    limit: usize,
    other_limit: usize,
    origin: Z,
    step: S,
    outside: O,
) where S: Fn(Z, C) -> Z, O: Fn(Z) -> bool
    requires
        one_orbit(c, step, outside),
        escapes_at(Some(count), c, limit, origin, step, outside),
        count < other_limit,
        escapes_at(escape, c, other_limit, origin, step, outside),
    ensures
        escape == Some(count),
{
    assert(escapes_at(Some(count), c, other_limit, origin, step, outside));
    lemma_escape_time_is_determined(
        escape,
        Some(count),
        c,
        other_limit,
        origin,
        step,
        outside,
    );
}

} // verus!
