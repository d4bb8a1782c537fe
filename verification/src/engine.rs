//! The escape-time engine: the scalar evaluation of one point and the
//! lockstep evaluation of a batch of lanes.
//!
//! An orbit is held as a value of a type `S` chosen by the caller, and is
//! advanced by a function `step` that applies the map once and returns the
//! new orbit together with the result of the escape test on it.

use vstd::prelude::*;
use crate::lane::{
    first_escape_at, is_complete_trace, lane_after, lemma_lane_after_push, lemma_settled_by_limit,
    lemma_settled_lane, Lane, MAX_ITER,
};

verus! {

/// The `i`-th application recorded in `states` and `tests` is one that
/// `step` can make.
pub open spec fn step_taken<S, F: Fn(&S) -> (S, bool)>(
    step: F,
    states: Seq<S>,
    tests: Seq<bool>,
    i: int,
) -> bool {
    call_ensures(step, (&states[i],), (states[i + 1], tests[i]))
}

/// `states` is an orbit that `step` drives from `start`, and `tests` holds
/// the escape test after each application.
pub open spec fn is_orbit<S, F: Fn(&S) -> (S, bool)>(
    step: F,
    start: S,
    states: Seq<S>,
    tests: Seq<bool>,
) -> bool {
    &&& states.len() == tests.len() + 1
    &&& states[0] == start
    &&& forall|i: int| 0 <= i < tests.len() ==> #[trigger] step_taken(step, states, tests, i)
}

/// `count` is an escape time of `start` under `step`: some orbit from
/// `start` meets the escape test for the first time on its `count`-th
/// application, or runs through `MAX_ITER` applications without meeting it
/// and `count` is `MAX_ITER`.
pub open spec fn escapes_after<S, F: Fn(&S) -> (S, bool)>(step: F, start: S, count: u32) -> bool {
    exists|states: Seq<S>, tests: Seq<bool>|
        #![trigger is_orbit(step, start, states, tests)]
        is_orbit(step, start, states, tests) && is_complete_trace(tests) && tests.len() == count
}

/// `counts` holds, lane by lane, an escape time of each point of `starts`.
pub open spec fn evaluated<S, F: Fn(&S) -> (S, bool)>(
    step: F,
    starts: Seq<S>,
    counts: Seq<u32>,
) -> bool {
    &&& counts.len() == starts.len()
    &&& forall|k: int|
        0 <= k < starts.len() ==> 1 <= #[trigger] counts[k] <= MAX_ITER && escapes_after(
            step,
            starts[k],
            counts[k],
        )
}

/// `step` can be applied to every orbit.
pub open spec fn total<S, F: Fn(&S) -> (S, bool)>(step: F) -> bool {
    forall|z: S| #[trigger] call_requires(step, (&z,))
}

/// `step` has one result on each orbit.
pub open spec fn deterministic<S, F: Fn(&S) -> (S, bool)>(step: F) -> bool {
    forall|z: S, a: (S, bool), b: (S, bool)|
        #![trigger call_ensures(step, (&z,), a), call_ensures(step, (&z,), b)]
        call_ensures(step, (&z,), a) && call_ensures(step, (&z,), b) ==> a == b
}

/// One more application extends an orbit.
proof fn lemma_orbit_push<S, F: Fn(&S) -> (S, bool)>(
    step: F,
    start: S,
    states: Seq<S>,
    tests: Seq<bool>,
    next: S,
    hit: bool,
)
    requires
        is_orbit(step, start, states, tests),
        call_ensures(step, (&states.last(),), (next, hit)),
    ensures
        is_orbit(step, start, states.push(next), tests.push(hit)),
{
    let grown_states = states.push(next);
    let grown_tests = tests.push(hit);
    assert forall|i: int| 0 <= i < grown_tests.len() implies #[trigger] step_taken(
        step,
        grown_states,
        grown_tests,
        i,
    ) by {
        if i < tests.len() {
            assert(step_taken(step, states, tests, i));
        }
    }
}

/// The first `n` applications of an orbit are an orbit.
proof fn lemma_orbit_prefix<S, F: Fn(&S) -> (S, bool)>(
    step: F,
    start: S,
    states: Seq<S>,
    tests: Seq<bool>,
    n: int,
)
    requires
        is_orbit(step, start, states, tests),
        0 <= n <= tests.len(),
    ensures
        is_orbit(step, start, states.take(n + 1), tests.take(n)),
{
    let head_states = states.take(n + 1);
    let head_tests = tests.take(n);
    assert forall|i: int| 0 <= i < head_tests.len() implies #[trigger] step_taken(
        step,
        head_states,
        head_tests,
        i,
    ) by {
        assert(step_taken(step, states, tests, i));
    }
}

/// Evaluates one point: applies `step` until the escape test succeeds, at
/// most `MAX_ITER` times, and returns the number of applications made.
pub fn iterate<S, F>(start: S, step: &F) -> (count: u32) where F: Fn(&S) -> (S, bool)
    requires
        total(*step),
    ensures
        1 <= count <= MAX_ITER,
        escapes_after(*step, start, count),
{
    let ghost mut states: Seq<S> = seq![start];
    let ghost mut tests: Seq<bool> = Seq::empty();
    let mut z = start;
    let mut count: u32 = 0;
    while count < MAX_ITER
        invariant
            total(*step),
            count <= MAX_ITER,
            tests.len() == count,
            is_orbit(*step, start, states, tests),
            states.last() == z,
            forall|i: int| 0 <= i < tests.len() ==> !tests[i],
        decreases MAX_ITER - count,
    {
        let (next, hit) = step(&z);
        proof {
            lemma_orbit_push(*step, start, states, tests, next, hit);
            states = states.push(next);
            tests = tests.push(hit);
        }
        z = next;
        count = count + 1;
        if hit {
            assert(is_complete_trace(tests));
            return count;
        }
    }
    assert(is_complete_trace(tests));
    count
}

/// Two orbits that a deterministic `step` drives from one point agree as far
/// as both reach.
proof fn lemma_orbits_agree<S, F: Fn(&S) -> (S, bool)>(
    step: F,
    start: S,
    states_a: Seq<S>,
    tests_a: Seq<bool>,
    states_b: Seq<S>,
    tests_b: Seq<bool>,
    i: int,
)
    requires
        deterministic(step),
        is_orbit(step, start, states_a, tests_a),
        is_orbit(step, start, states_b, tests_b),
        0 <= i < tests_a.len(),
        i < tests_b.len(),
    ensures
        states_a[i] == states_b[i],
        states_a[i + 1] == states_b[i + 1],
        tests_a[i] == tests_b[i],
    decreases i,
{
    if i > 0 {
        lemma_orbits_agree(step, start, states_a, tests_a, states_b, tests_b, i - 1);
    }
    assert(step_taken(step, states_a, tests_a, i));
    assert(step_taken(step, states_b, tests_b, i));
    let z = states_a[i];
    let a = (states_a[i + 1], tests_a[i]);
    let b = (states_b[i + 1], tests_b[i]);
    assert(call_ensures(step, (&z,), a) && call_ensures(step, (&z,), b));
}

/// Under a deterministic `step` a point has one escape time.
pub proof fn lemma_escape_time_unique<S, F: Fn(&S) -> (S, bool)>(
    step: F,
    start: S,
    first: u32,
    second: u32,
)
    requires
        deterministic(step),
        escapes_after(step, start, first),
        escapes_after(step, start, second),
    ensures
        first == second,
{
    let (states_a, tests_a) = choose|states: Seq<S>, tests: Seq<bool>|
        #![trigger is_orbit(step, start, states, tests)]
        is_orbit(step, start, states, tests) && is_complete_trace(tests) && tests.len() == first;
    let (states_b, tests_b) = choose|states: Seq<S>, tests: Seq<bool>|
        #![trigger is_orbit(step, start, states, tests)]
        is_orbit(step, start, states, tests) && is_complete_trace(tests) && tests.len() == second;
    if first < second {
        lemma_orbits_agree(step, start, states_a, tests_a, states_b, tests_b, first - 1);
    } else if second < first {
        lemma_orbits_agree(step, start, states_a, tests_a, states_b, tests_b, second - 1);
    }
}

/// The escape time is the position of the first successful test along the
/// orbit: if an orbit that a deterministic `step` drives from `start` meets
/// the escape test for the first time on its `n`-th application, and `n` is
/// at most `MAX_ITER`, then `n` is the escape time of `start`.  A point that
/// escapes before the last application therefore reports a count strictly
/// below `MAX_ITER`.
pub proof fn lemma_count_is_first_escape<S, F: Fn(&S) -> (S, bool)>(
    step: F,
    start: S,
    states: Seq<S>,
    tests: Seq<bool>,
    n: int,
    count: u32,
)
    requires
        deterministic(step),
        is_orbit(step, start, states, tests),
        first_escape_at(tests, n),
        n <= MAX_ITER,
        escapes_after(step, start, count),
    ensures
        count == n,
        n < MAX_ITER ==> count < MAX_ITER,
{
    lemma_orbit_prefix(step, start, states, tests, n);
    assert(is_complete_trace(tests.take(n)));
    assert(escapes_after(step, start, n as u32));
    lemma_escape_time_unique(step, start, count, n as u32);
}

/// A lane that is driven by hand reports an escape time: if the lane has
/// been fed, in order, the escape tests of an orbit from `start`, at most
/// `MAX_ITER` of them, and is settled, then its counter is an escape time of
/// `start`, the same that `iterate` returns.
pub proof fn lemma_settled_lane_is_escape_time<S, F: Fn(&S) -> (S, bool)>(
    step: F,
    start: S,
    states: Seq<S>,
    tests: Seq<bool>,
)
    requires
        is_orbit(step, start, states, tests),
        tests.len() <= MAX_ITER,
        lane_after(tests).settled(),
    ensures
        1 <= lane_after(tests).count <= MAX_ITER,
        escapes_after(step, start, lane_after(tests).count),
{
    let count = lane_after(tests).count as int;
    lemma_settled_lane(tests);
    lemma_orbit_prefix(step, start, states, tests, count);
    assert(tests.take(count).len() == count);
}

/// Lane-freeze law: under a deterministic `step`, lane `k` of a batch
/// result equals the escape time of lane `k`'s point evaluated alone,
/// whenever the other lanes escape.
pub proof fn lemma_batch_matches_scalar<S, F: Fn(&S) -> (S, bool)>(
    step: F,
    starts: Seq<S>,
    counts: Seq<u32>,
    k: int,
    alone: u32,
)
    requires
        deterministic(step),
        evaluated(step, starts, counts),
        0 <= k < starts.len(),
        escapes_after(step, starts[k], alone),
    ensures
        counts[k] == alone,
{
    lemma_escape_time_unique(step, starts[k], counts[k], alone);
}

/// What the batch loop knows of one lane after `rounds` rounds: the orbit
/// it has driven from `start`, the tests it has seen, the orbit's present
/// value `z` and the lane's counter and flag.
spec fn lane_tracks<S, F: Fn(&S) -> (S, bool)>(
    step: F,
    start: S,
    states: Seq<S>,
    tests: Seq<bool>,
    rounds: int,
    z: S,
    lane: Lane,
) -> bool {
    &&& is_orbit(step, start, states, tests)
    &&& tests.len() == rounds
    &&& states.last() == z
    &&& lane == lane_after(tests)
}

/// One round has taken a lane from the orbit `z` and the state `lane` to
/// `next_z` and `next_lane`: `step` was applied to the orbit, and the lane
/// was advanced with the escape test that the application gave.
spec fn lane_stepped<S, F: Fn(&S) -> (S, bool)>(
    step: F,
    z: S,
    lane: Lane,
    next_z: S,
    next_lane: Lane,
    hit: bool,
) -> bool {
    call_ensures(step, (&z,), (next_z, hit)) && next_lane == lane.advanced(hit)
}

/// One round has taken a lane from `z` and `lane` to `next_z` and
/// `next_lane`, with some escape test.
spec fn lane_moved<S, F: Fn(&S) -> (S, bool)>(
    step: F,
    z: S,
    lane: Lane,
    next_z: S,
    next_lane: Lane,
) -> bool {
    exists|hit: bool| #[trigger] lane_stepped(step, z, lane, next_z, next_lane, hit)
}

/// `n` lanes before the first round.
fn fresh_lanes(n: usize) -> (lanes: Vec<Lane>)
    ensures
        lanes.len() == n,
        forall|k: int| 0 <= k < n ==> lanes[k] == Lane::fresh_spec(),
{
    let mut lanes: Vec<Lane> = Vec::new();
    let mut k: usize = 0;
    while k < n
        invariant
            k <= n,
            lanes.len() == k,
            forall|j: int| 0 <= j < k ==> lanes[j] == Lane::fresh_spec(),
        decreases n - k,
    {
        lanes.push(Lane::fresh());
        k = k + 1;
    }
    lanes
}

/// Whether every lane carries the escaped flag.
fn all_escaped(lanes: &Vec<Lane>) -> (all: bool)
    ensures
        all == forall|k: int| 0 <= k < lanes.len() ==> lanes[k].escaped,
{
    let mut k: usize = 0;
    while k < lanes.len()
        invariant
            k <= lanes.len(),
            forall|j: int| 0 <= j < k ==> lanes[j].escaped,
        decreases lanes.len() - k,
    {
        if !lanes[k].escaped {
            return false;
        }
        k = k + 1;
    }
    true
}

/// One round of the lockstep loop: applies `step` to the orbit of every
/// lane, escaped or not, and advances every lane with the escape test of
/// its own orbit.
fn advance_round<S, F>(states: &mut Vec<S>, lanes: &mut Vec<Lane>, step: &F) where
    F: Fn(&S) -> (S, bool),

    requires
        old(lanes).len() == old(states).len(),
        total(*step),
    ensures
        final(states).len() == old(states).len(),
        final(lanes).len() == old(lanes).len(),
        forall|k: int|
            0 <= k < old(states).len() ==> #[trigger] lane_moved(
                *step,
                old(states)[k],
                old(lanes)[k],
                final(states)[k],
                final(lanes)[k],
            ),
{
    let n = states.len();
    let mut k: usize = 0;
    while k < n
        invariant
            k <= n,
            states.len() == n,
            lanes.len() == n,
            old(states).len() == n,
            old(lanes).len() == n,
            total(*step),
            forall|j: int| k <= j < n ==> #[trigger] states[j] == old(states)[j],
            forall|j: int| k <= j < n ==> #[trigger] lanes[j] == old(lanes)[j],
            forall|j: int|
                0 <= j < k ==> #[trigger] lane_moved(
                    *step,
                    old(states)[j],
                    old(lanes)[j],
                    states[j],
                    lanes[j],
                ),
        decreases n - k,
    {
        let ghost states_before = states@;
        let ghost lanes_before = lanes@;
        let (next, hit) = step(&states[k]);
        let lane = lanes[k].advance(hit);
        states.set(k, next);
        lanes.set(k, lane);
        proof {
            assert(lane_stepped(
                *step,
                old(states)[k as int],
                old(lanes)[k as int],
                states[k as int],
                lanes[k as int],
                hit,
            ));
            assert forall|j: int| 0 <= j < k + 1 implies #[trigger] lane_moved(
                *step,
                old(states)[j],
                old(lanes)[j],
                states[j],
                lanes[j],
            ) by {
                if j < k {
                    assert(lane_moved(
                        *step,
                        old(states)[j],
                        old(lanes)[j],
                        states_before[j],
                        lanes_before[j],
                    ));
                }
            }
        }
        k = k + 1;
    }
}

/// The counter of every lane.
fn lane_counts(lanes: &Vec<Lane>) -> (counts: Vec<u32>)
    ensures
        counts.len() == lanes.len(),
        forall|k: int| 0 <= k < lanes.len() ==> counts[k] == lanes[k].count,
{
    let mut counts: Vec<u32> = Vec::new();
    let mut k: usize = 0;
    while k < lanes.len()
        invariant
            k <= lanes.len(),
            counts.len() == k,
            forall|j: int| 0 <= j < k ==> counts[j] == lanes[j].count,
        decreases lanes.len() - k,
    {
        counts.push(lanes[k].count);
        k = k + 1;
    }
    counts
}

/// Evaluates a batch of points in lockstep.  Every round applies `step` to
/// every lane; a lane counts the round and takes the escape test only while
/// its flag is down, so its counter is frozen from the round on which it
/// escapes.  The rounds end when every lane has escaped, or after
/// `MAX_ITER` of them.  Lane `k` of the result is an escape time of lane
/// `k` of `starts`, as `iterate` returns for that point alone.
pub fn iterate_batch<S, F>(starts: Vec<S>, step: &F) -> (counts: Vec<u32>) where
    F: Fn(&S) -> (S, bool),

    requires
        total(*step),
    ensures
        evaluated(*step, starts@, counts@),
{
    let n = starts.len();
    let ghost origin: Seq<S> = starts@;
    let ghost mut seen_states: Seq<Seq<S>> = Seq::new(n as nat, |k: int| seq![origin[k]]);
    let ghost mut seen_tests: Seq<Seq<bool>> = Seq::new(n as nat, |k: int| Seq::<bool>::empty());
    let mut states = starts;
    let mut lanes = fresh_lanes(n);
    let mut round: u32 = 0;
    assert forall|j: int| 0 <= j < n implies #[trigger] lane_tracks(
        *step,
        origin[j],
        seen_states[j],
        seen_tests[j],
        round as int,
        states[j],
        lanes[j],
    ) by {
        assert(seen_states[j] =~= seq![origin[j]]);
    }
    while round < MAX_ITER && !all_escaped(&lanes)
        invariant
            total(*step),
            round <= MAX_ITER,
            states.len() == n,
            lanes.len() == n,
            origin.len() == n,
            seen_states.len() == n,
            seen_tests.len() == n,
            forall|j: int|
                0 <= j < n ==> #[trigger] lane_tracks(
                    *step,
                    origin[j],
                    seen_states[j],
                    seen_tests[j],
                    round as int,
                    states[j],
                    lanes[j],
                ),
        ensures
            round == MAX_ITER || forall|j: int| 0 <= j < lanes.len() ==> lanes[j].escaped,
        decreases MAX_ITER - round,
    {
        let ghost states_before = states@;
        let ghost lanes_before = lanes@;
        advance_round(&mut states, &mut lanes, step);
        proof {
            let ghost hits = Seq::new(
                n as nat,
                |j: int|
                    choose|hit: bool| #[trigger]
                        lane_stepped(
                            *step,
                            states_before[j],
                            lanes_before[j],
                            states[j],
                            lanes[j],
                            hit,
                        ),
            );
            let ghost grown_states = Seq::new(n as nat, |j: int| seen_states[j].push(states[j]));
            let ghost grown_tests = Seq::new(n as nat, |j: int| seen_tests[j].push(hits[j]));
            assert forall|j: int| 0 <= j < n implies #[trigger] lane_tracks(
                *step,
                origin[j],
                grown_states[j],
                grown_tests[j],
                round + 1,
                states[j],
                lanes[j],
            ) by {
                assert(lane_tracks(
                    *step,
                    origin[j],
                    seen_states[j],
                    seen_tests[j],
                    round as int,
                    states_before[j],
                    lanes_before[j],
                ));
                assert(lane_moved(*step, states_before[j], lanes_before[j], states[j], lanes[j]));
                lemma_orbit_push(
                    *step,
                    origin[j],
                    seen_states[j],
                    seen_tests[j],
                    states[j],
                    hits[j],
                );
                lemma_lane_after_push(seen_tests[j], hits[j]);
            }
            seen_states = grown_states;
            seen_tests = grown_tests;
        }
        round = round + 1;
    }
    let counts = lane_counts(&lanes);
    assert forall|k: int| 0 <= k < n implies 1 <= #[trigger] counts[k] <= MAX_ITER
        && escapes_after(*step, origin[k], counts[k]) by {
        let seen = seen_tests[k];
        assert(lane_tracks(
            *step,
            origin[k],
            seen_states[k],
            seen,
            round as int,
            states[k],
            lanes[k],
        ));
        if round == MAX_ITER {
            lemma_settled_by_limit(seen);
        }
        lemma_settled_lane_is_escape_time(*step, origin[k], seen_states[k], seen);
    }
    counts
}

/// Evaluates a group of lanes with the engine that fits its width: one lane
/// alone is evaluated by `iterate`, two or more in lockstep by
/// `iterate_batch`.  Both give, lane by lane, an escape time of the lane's
/// point.
pub fn evaluate<S, F>(starts: Vec<S>, step: &F) -> (counts: Vec<u32>) where F: Fn(&S) -> (S, bool)
    requires
        total(*step),
    ensures
        evaluated(*step, starts@, counts@),
{
    if starts.len() == 1 {
        let mut lanes = starts;
        match lanes.pop() {
            Some(start) => {
                let mut counts: Vec<u32> = Vec::new();
                counts.push(iterate(start, step));
                counts
            },
            None => Vec::new(),
        }
    } else {
        iterate_batch(starts, step)
    }
}

} // verus!
