use vstd::prelude::*;

verus! {

/// The number of steps after which a point that has not escaped counts as a
/// member of the set.
pub const ITERATION_BUDGET: u32 = 255;

/// `orbit` starts at `origin`, and each next point is what `step` made of the
/// one before.
pub open spec fn is_orbit<Z, S: Fn(Z) -> Z>(step: S, origin: Z, orbit: Seq<Z>) -> bool {
    &&& orbit.len() >= 1
    &&& orbit[0] == origin
    &&& forall|i: int|
        0 <= i < orbit.len() - 1 ==> call_ensures(step, (#[trigger] orbit[i],), orbit[i + 1])
}

/// `escaped` said no to each of the points of `orbit` after the first, up to
/// and including the one at `last`.
pub open spec fn stays_inside<Z, E: Fn(Z) -> bool>(escaped: E, orbit: Seq<Z>, last: int) -> bool {
    forall|i: int| 1 <= i <= last ==> call_ensures(escaped, (#[trigger] orbit[i],), false)
}

/// `count` is the escape time of `origin` within `limit` steps: `Some(n)` where
/// some orbit stays inside for `n` steps and escapes with the next one, which
/// is one of the first `limit`; `None` where some orbit stays inside for all
/// of `limit` steps.
pub open spec fn is_escape_time<Z, S: Fn(Z) -> Z, E: Fn(Z) -> bool>(
    origin: Z,
    limit: u32,
    step: S,
    escaped: E,
    count: Option<u32>,
) -> bool {
    match count {
        Some(n) => n < limit && exists|orbit: Seq<Z>|
            {
                &&& #[trigger] is_orbit(step, origin, orbit)
                &&& orbit.len() == n + 2
                &&& stays_inside(escaped, orbit, n as int)
                &&& call_ensures(escaped, (orbit[n + 1],), true)
            },
        None => exists|orbit: Seq<Z>|
            {
                &&& #[trigger] is_orbit(step, origin, orbit)
                &&& orbit.len() == limit + 1
                &&& stays_inside(escaped, orbit, limit as int)
            },
    }
}

/// An orbit whose every step leads back to `origin` stays at `origin`.
pub proof fn lemma_orbit_of_fixed_point<Z, S: Fn(Z) -> Z>(step: S, origin: Z, orbit: Seq<Z>, i: int)
    requires
        is_orbit(step, origin, orbit),
        forall|next: Z| call_ensures(step, (origin,), next) ==> next == origin,
        0 <= i < orbit.len(),
    ensures
        orbit[i] == origin,
    decreases i,
{
    if i > 0 {
        lemma_orbit_of_fixed_point(step, origin, orbit, i - 1);
        assert(call_ensures(step, (orbit[i - 1],), orbit[i - 1 + 1]));
    }
}

/// A point that `step` leaves where it is, and of which `escaped` says no,
/// never escapes, whatever the limit.
pub proof fn lemma_fixed_point_never_escapes<Z, S: Fn(Z) -> Z, E: Fn(Z) -> bool>(
    origin: Z,
    limit: u32,
    step: S,
    escaped: E,
    count: Option<u32>,
)
    requires
        is_escape_time(origin, limit, step, escaped, count),
        forall|next: Z| call_ensures(step, (origin,), next) ==> next == origin,
        forall|out: bool| call_ensures(escaped, (origin,), out) ==> !out,
    ensures
        count is None,
{
    if let Some(n) = count {
        let orbit = choose|orbit: Seq<Z>|
            {
                &&& #[trigger] is_orbit(step, origin, orbit)
                &&& orbit.len() == n + 2
                &&& stays_inside(escaped, orbit, n as int)
                &&& call_ensures(escaped, (orbit[n + 1],), true)
            };
        lemma_orbit_of_fixed_point(step, origin, orbit, n + 1);
    }
}

/// Where `escaped` says yes of whatever the first step leads to, the escape
/// time is 0 for every limit of at least one step.
pub proof fn lemma_escapes_at_once<Z, S: Fn(Z) -> Z, E: Fn(Z) -> bool>(
    origin: Z,
    limit: u32,
    step: S,
    escaped: E,
    count: Option<u32>,
)
    requires
        is_escape_time(origin, limit, step, escaped, count),
        limit >= 1,
        forall|next: Z, out: bool|
            call_ensures(step, (origin,), next) && #[trigger] call_ensures(escaped, (next,), out)
                ==> out,
    ensures
        count == Some(0u32),
{
    let orbit = choose|orbit: Seq<Z>| #[trigger]
        is_orbit(step, origin, orbit) && orbit.len() >= 2 && (match count {
            Some(n) => stays_inside(escaped, orbit, n as int),
            None => stays_inside(escaped, orbit, limit as int),
        });
    assert(call_ensures(step, (orbit[0],), orbit[1]));
    match count {
        Some(n) => {
            if n >= 1 {
                assert(call_ensures(escaped, (orbit[1],), false));
            }
        },
        None => {
            assert(call_ensures(escaped, (orbit[1],), false));
        },
    }
}

/// Follows the orbit of `origin` under `step` for at most `limit` steps and
/// counts the steps before the first one that lands on a point of which
/// `escaped` says yes. `None` says that none of the `limit` steps did.
pub fn escape_time<Z: Copy, S: Fn(Z) -> Z, E: Fn(Z) -> bool>(
    origin: Z,
    limit: u32,
    step: S,
    escaped: E,
) -> (count: Option<u32>)
    requires
        forall|z: Z| call_requires(step, (z,)),
        forall|z: Z| call_requires(escaped, (z,)),
    ensures
        is_escape_time(origin, limit, step, escaped, count),
{
    let mut z: Z = origin;
    let ghost mut orbit: Seq<Z> = seq![origin];
    let mut i: u32 = 0;
    while i < limit
        invariant
            i <= limit,
            forall|z: Z| call_requires(step, (z,)),
            forall|z: Z| call_requires(escaped, (z,)),
            is_orbit(step, origin, orbit),
            orbit.len() == i + 1,
            orbit[i as int] == z,
            stays_inside(escaped, orbit, i as int),
        decreases limit - i,
    {
        let ghost before = orbit;
        z = step(z);
        proof {
            orbit = before.push(z);
            assert forall|k: int| 0 <= k < orbit.len() - 1 implies call_ensures(
                step,
                (#[trigger] orbit[k],),
                orbit[k + 1],
            ) by {
                if k < before.len() - 1 {
                    assert(before[k] == orbit[k] && before[k + 1] == orbit[k + 1]);
                }
            }
            assert forall|k: int| 1 <= k <= i implies call_ensures(
                escaped,
                (#[trigger] orbit[k],),
                false,
            ) by {
                assert(before[k] == orbit[k]);
            }
        }
        if escaped(z) {
            proof {
                assert(orbit[i + 1] == z);
                assert(orbit[0] == before[0]);
                assert(is_orbit(step, origin, orbit));
                assert(stays_inside(escaped, orbit, i as int));
            }
            return Some(i);
        }
        i += 1;
    }
    None
}

} // verus!
