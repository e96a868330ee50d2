use std::time::{Duration, Instant};
use vstd::prelude::*;

verus! {

/// `Instant` from std, carried through as an opaque clock reading.
#[verifier::external_type_specification]
#[verifier::external_body]
pub struct ExInstant(Instant);

/// The total number of whole nanoseconds that a duration spans.
pub uninterp spec fn duration_nanos(d: Duration) -> u128;

/// Relies on `Instant::now`: a reading of the monotonic clock, of which
/// nothing is known.
pub assume_specification[ Instant::now ]() -> Instant;

/// Relies on `Instant::elapsed`: the time since the reading, of which nothing
/// is known (it saturates at zero rather than panicking).
pub assume_specification[ Instant::elapsed ](self_: &Instant) -> Duration;

/// Relies on `Duration::as_nanos`: the whole nanoseconds that the duration
/// spans, which depend on the duration alone.
pub assume_specification[ Duration::as_nanos ](self_: &Duration) -> (r: u128)
    ensures
        r == duration_nanos(*self_),
;

/// `10` to the power `k`.
pub open spec fn pow10(k: nat) -> nat
    decreases k,
{
    if k == 0 {
        1
    } else {
        10 * pow10((k - 1) as nat)
    }
}

/// The least `k` from `from` up to `9` with `desired / 10^k <= one`, if any.
pub open spec fn scale_from(one: int, desired: int, from: nat) -> Option<nat>
    decreases 10 - from,
{
    if from > 9 {
        None
    } else if desired / (pow10(from) as int) <= one {
        Some(from)
    } else {
        scale_from(one, desired, from + 1)
    }
}

/// The iteration count for a measurement of `one` nanoseconds in a budget of
/// `desired` nanoseconds: the least power of ten `d` with `desired / d <= one`,
/// halved; nothing when that power does not fit in a `u32`.
pub open spec fn iterations_for(one: int, desired: int) -> Option<u32> {
    match scale_from(one, desired, 0) {
        Some(k) => Some((pow10(k) / 2) as u32),
        None => None,
    }
}

/// Measures how long one call of `f` takes.
pub fn bench_once<F, T>(f: F) -> (r: Duration) where F: FnOnce() -> T
    requires
        f.requires(()),
    ensures
        exists|out: T| f.ensures((), out),
{
    let instant = Instant::now();
    f();
    instant.elapsed()
}

/// The shortest of the durations `ms`, which is one of them; nothing when
/// there are none.
pub fn shortest(ms: &Vec<Duration>) -> (r: Option<Duration>)
    ensures
        r is None <==> ms@.len() == 0,
        r matches Some(d) ==> ms@.contains(d) && forall|i: int|
            0 <= i < ms@.len() ==> duration_nanos(d) <= duration_nanos(#[trigger] ms@[i]),
{
    if ms.len() == 0 {
        return None;
    }
    let mut best: Duration = ms[0];
    let mut best_nanos: u128 = best.as_nanos();
    let mut i: usize = 1;
    while i < ms.len()
        invariant
            1 <= i <= ms@.len(),
            ms@.contains(best),
            best_nanos == duration_nanos(best),
            forall|k: int| 0 <= k < i ==> duration_nanos(best) <= duration_nanos(#[trigger] ms@[k]),
        decreases ms.len() - i,
    {
        let m = ms[i];
        let m_nanos = m.as_nanos();
        if m_nanos < best_nanos {
            best = m;
            best_nanos = m_nanos;
        }
        i = i + 1;
    }
    Some(best)
}

/// Measures `iterations` calls of `f` and returns the shortest measurement
/// (see `shortest`), which is the least disturbed by the rest of the system;
/// nothing for zero iterations. `f` is called once per iteration.
pub fn bench_times<F, T>(iterations: u32, mut f: F) -> (r: Option<Duration>) where F: FnMut() -> T
    requires
        f.requires(()),
    ensures
        r is Some <==> iterations > 0,
        iterations > 0 ==> exists|out: T| f.ensures((), out),
{
    let ghost f0 = f;
    let mut measurements: Vec<Duration> = Vec::new();
    let mut i: u32 = 0;
    while i < iterations
        invariant
            f == f0,
            i <= iterations,
            measurements@.len() == i,
            f.requires(()),
            i > 0 ==> exists|out: T| f.ensures((), out),
        decreases iterations - i,
    {
        let elapsed_time = bench_once(&mut f);
        measurements.push(elapsed_time);
        i = i + 1;
    }
    shortest(&measurements)
}

proof fn lemma_pow10_mono(a: nat, b: nat)
    requires
        a <= b,
    ensures
        1 <= pow10(a) <= pow10(b),
    decreases b,
{
    if a < b {
        lemma_pow10_mono(a, (b - 1) as nat);
    } else if a > 0 {
        lemma_pow10_mono((a - 1) as nat, (a - 1) as nat);
    }
}

/// The iteration count for a measurement of `one` nanoseconds in a budget of
/// `desired` nanoseconds; nothing where the power of ten it rests on exceeds
/// a `u32`.
pub fn iterations_in_budget(one: u128, desired: u128) -> (r: Option<u32>)
    ensures
        r == iterations_for(one as int, desired as int),
{
    proof {
        reveal_with_fuel(pow10, 9);
        assert(pow10(8) == 100_000_000);
    }
    let mut div: u32 = 1;
    let mut k: u32 = 0;
    loop
        invariant
            k <= 9,
            div == pow10(k as nat),
            div >= 1,
            pow10(8) == 100_000_000,
            scale_from(one as int, desired as int, 0) == scale_from(
                one as int,
                desired as int,
                k as nat,
            ),
        decreases 9 - k,
    {
        if desired / (div as u128) <= one {
            return Some(div / 2);
        }
        if k == 9 {
            assert(scale_from(one as int, desired as int, 10) is None);
            return None;
        }
        proof {
            lemma_pow10_mono(k as nat, 8);
        }
        div = div * 10;
        k = k + 1;
        proof {
            lemma_pow10_mono(k as nat, k as nat);
        }
    }
}

/// The number of measurements of `one_measurement_takes` that fit in
/// `desired_time`: the least power of ten that divides `desired_time` down to
/// at most `one_measurement_takes`, halved, since a run of measurements takes
/// about twice the sum of single ones. Requires that power to fit in a `u32`.
pub fn calc_iterations(one_measurement_takes: Duration, desired_time: Duration) -> (r: u32)
    requires
        iterations_for(
            duration_nanos(one_measurement_takes) as int,
            duration_nanos(desired_time) as int,
        ) is Some,
    ensures
        Some(r) == iterations_for(
            duration_nanos(one_measurement_takes) as int,
            duration_nanos(desired_time) as int,
        ),
{
    match iterations_in_budget(one_measurement_takes.as_nanos(), desired_time.as_nanos()) {
        Some(n) => n,
        None => 0,
    }
}

/// `calc_iterations` for any durations: nothing where its power of ten would
/// not fit in a `u32`.
pub fn checked_calc_iterations(one_measurement_takes: Duration, desired_time: Duration) -> (r:
    Option<u32>)
    ensures
        r == iterations_for(
            duration_nanos(one_measurement_takes) as int,
            duration_nanos(desired_time) as int,
        ),
{
    let r = iterations_in_budget(one_measurement_takes.as_nanos(), desired_time.as_nanos());
    if r.is_some() {
        Some(calc_iterations(one_measurement_takes, desired_time))
    } else {
        None
    }
}

} // verus!
