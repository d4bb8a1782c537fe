//! The counting rule of one lane: a counter and an "already escaped" flag,
//! advanced once per application of the map and frozen from the application
//! on which the escape test first succeeds.

use vstd::prelude::*;

verus! {

/// Length of the greyscale ramp that iteration counts are folded onto.
pub const RAMP: u32 = 255;

/// Number of applications of the map after which a point that has not
/// escaped is presumed to belong to the set: three turns of the ramp.
pub const MAX_ITER: u32 = 3 * RAMP;

/// What an evaluation reports for one point.
#[derive(Clone, Copy, Debug, PartialEq, Eq, Structural)]
pub struct IterationResult {
    /// One-based index of the application on which the escape test first
    /// succeeded, or `MAX_ITER` if it never did.
    pub count: u32,
    /// Whether the escape test succeeded at all.
    pub escaped: bool,
}

impl IterationResult {
    /// The count lies in `1..=MAX_ITER`, and a point that did not escape
    /// carries `MAX_ITER`.
    pub open spec fn wf(self) -> bool {
        &&& 1 <= self.count <= MAX_ITER
        &&& !self.escaped ==> self.count == MAX_ITER
    }
}

/// The state of one lane during an evaluation.
#[derive(Clone, Copy, Debug, PartialEq, Eq, Structural)]
pub struct Lane {
    /// Applications counted so far.
    pub count: u32,
    /// Whether the escape test has succeeded on one of them.
    pub escaped: bool,
}

impl Lane {
    /// The counter never passes `MAX_ITER`, and the flag is only up once an
    /// application has been counted.
    pub open spec fn wf(self) -> bool {
        &&& self.count <= MAX_ITER
        &&& self.escaped ==> self.count >= 1
    }

    /// A lane before the first application.
    pub open spec fn fresh_spec() -> Lane {
        Lane { count: 0, escaped: false }
    }

    /// A settled lane takes no further part: it has escaped, or it has used
    /// up its applications.
    pub open spec fn settled(self) -> bool {
        self.escaped || self.count >= MAX_ITER
    }

    /// The lane after one more application whose escape test gave `hit`.
    /// A settled lane stays as it is; any other counts the application and
    /// then takes the test.
    pub open spec fn advanced(self, hit: bool) -> Lane {
        if self.settled() {
            self
        } else {
            Lane { count: (self.count + 1) as u32, escaped: hit }
        }
    }

    /// What a settled lane reports.
    pub open spec fn outcome(self) -> IterationResult {
        IterationResult { count: self.count, escaped: self.escaped }
    }

    /// A lane before the first application.
    pub fn fresh() -> (lane: Lane)
        ensures
            lane == Lane::fresh_spec(),
            lane.wf(),
    {
        Lane { count: 0, escaped: false }
    }

    /// Whether the lane has escaped or used up its applications.
    pub fn is_settled(&self) -> (done: bool)
        ensures
            done == self.settled(),
    {
        self.escaped || self.count >= MAX_ITER
    }

    /// Takes the lane through one more application whose escape test gave
    /// `hit`: a lane that is still running counts it and takes the test, a
    /// settled lane is returned as it is.
    pub fn advance(self, hit: bool) -> (next: Lane)
        ensures
            next == self.advanced(hit),
            self.wf() ==> next.wf(),
    {
        if self.escaped || self.count >= MAX_ITER {
            self
        } else {
            Lane { count: self.count + 1, escaped: hit }
        }
    }

    /// The report of a lane, once it is settled.  `None` while the lane is
    /// still running.
    pub fn result(&self) -> (report: Option<IterationResult>)
        ensures
            self.settled() ==> report == Some(self.outcome()),
            !self.settled() ==> report is None,
            self.wf() && report is Some ==> report->Some_0.wf(),
    {
        if self.escaped || self.count >= MAX_ITER {
            Some(IterationResult { count: self.count, escaped: self.escaped })
        } else {
            None
        }
    }
}

/// The lane after it has been fed the escape tests `tests`, oldest first.
pub open spec fn lane_after(tests: Seq<bool>) -> Lane
    decreases tests.len(),
{
    if tests.len() == 0 {
        Lane::fresh_spec()
    } else {
        lane_after(tests.drop_last()).advanced(tests.last())
    }
}

/// `n` is the one-based position of the first successful test in `tests`.
pub open spec fn first_escape_at(tests: Seq<bool>, n: int) -> bool {
    &&& 1 <= n <= tests.len()
    &&& tests[n - 1]
    &&& forall|i: int| 0 <= i < n - 1 ==> !tests[i]
}

/// No test among the first `n` of `tests` succeeds.
pub open spec fn no_escape_within(tests: Seq<bool>, n: int) -> bool {
    forall|i: int| 0 <= i < n && i < tests.len() ==> !tests[i]
}

/// `tests` is the record of one finished evaluation: at least one and at
/// most `MAX_ITER` tests, none successful before the last, and the last
/// either successful or the `MAX_ITER`-th.
pub open spec fn is_complete_trace(tests: Seq<bool>) -> bool {
    &&& 1 <= tests.len() <= MAX_ITER
    &&& forall|i: int| 0 <= i < tests.len() - 1 ==> !tests[i]
    &&& (tests.last() || tests.len() == MAX_ITER)
}

/// Whatever tests a lane is fed, its counter stays within `MAX_ITER` and
/// its flag is only up once an application has been counted.
pub proof fn lemma_lane_after_wf(tests: Seq<bool>)
    ensures
        lane_after(tests).wf(),
    decreases tests.len(),
{
    if tests.len() > 0 {
        lemma_lane_after_wf(tests.drop_last());
    }
}

/// Feeding one more test advances the lane once.
pub proof fn lemma_lane_after_push(tests: Seq<bool>, hit: bool)
    ensures
        lane_after(tests.push(hit)) == lane_after(tests).advanced(hit),
{
    assert(tests.push(hit).drop_last() =~= tests);
}

/// Every record of tests either holds a first success among its first
/// `MAX_ITER` entries or holds none there.
pub proof fn lemma_escape_or_not(tests: Seq<bool>)
    ensures
        no_escape_within(tests, MAX_ITER as int) || exists|n: int|
            n <= MAX_ITER && first_escape_at(tests, n),
    decreases tests.len(),
{
    if tests.len() > 0 {
        let before = tests.drop_last();
        lemma_escape_or_not(before);
        if no_escape_within(before, MAX_ITER as int) {
            if tests.len() <= MAX_ITER && tests.last() {
                assert forall|i: int| 0 <= i < tests.len() - 1 implies !tests[i] by {
                    assert(tests[i] == before[i]);
                }
                assert(first_escape_at(tests, tests.len() as int));
            } else {
                assert forall|i: int| 0 <= i < MAX_ITER && i < tests.len() implies !tests[i] by {
                    if i < before.len() {
                        assert(tests[i] == before[i]);
                    }
                }
            }
        } else {
            let n = choose|n: int| n <= MAX_ITER && first_escape_at(before, n);
            assert(tests[n - 1] == before[n - 1]);
            assert forall|i: int| 0 <= i < n - 1 implies !tests[i] by {
                assert(tests[i] == before[i]);
            }
            assert(first_escape_at(tests, n));
        }
    }
}

/// The counter is frozen from the application on which the test first
/// succeeds: a lane whose first successful test is the `n`-th reports `n`
/// and the flag, whatever tests follow and however many.
pub proof fn lemma_counter_freezes(tests: Seq<bool>, n: int)
    requires
        first_escape_at(tests, n),
        n <= MAX_ITER,
    ensures
        lane_after(tests) == (Lane { count: n as u32, escaped: true }),
    decreases tests.len(),
{
    let before = tests.drop_last();
    if n == tests.len() {
        assert forall|i: int| 0 <= i < MAX_ITER && i < before.len() implies !before[i] by {
            assert(before[i] == tests[i]);
        }
        lemma_counts_while_running(before);
    } else {
        assert(before[n - 1] == tests[n - 1]);
        assert forall|i: int| 0 <= i < n - 1 implies !before[i] by {
            assert(before[i] == tests[i]);
        }
        lemma_counter_freezes(before, n);
    }
}

/// While no test succeeds the counter follows the number of applications,
/// up to `MAX_ITER`, where it stops.
pub proof fn lemma_counts_while_running(tests: Seq<bool>)
    requires
        no_escape_within(tests, MAX_ITER as int),
    ensures
        lane_after(tests) == (Lane {
            count: if tests.len() <= MAX_ITER {
                tests.len() as u32
            } else {
                MAX_ITER
            },
            escaped: false,
        }),
    decreases tests.len(),
{
    if tests.len() > 0 {
        let before = tests.drop_last();
        assert forall|i: int| 0 <= i < MAX_ITER && i < before.len() implies !before[i] by {
            assert(before[i] == tests[i]);
        }
        lemma_counts_while_running(before);
    }
}

/// After `MAX_ITER` tests every lane is settled.
pub proof fn lemma_settled_by_limit(tests: Seq<bool>)
    requires
        tests.len() >= MAX_ITER,
    ensures
        lane_after(tests).settled(),
{
    lemma_escape_or_not(tests);
    if no_escape_within(tests, MAX_ITER as int) {
        lemma_counts_while_running(tests);
    } else {
        let n = choose|n: int| n <= MAX_ITER && first_escape_at(tests, n);
        lemma_counter_freezes(tests, n);
    }
}

/// A settled lane that has seen at most `MAX_ITER` tests reports a
/// well-formed result, and the tests up to its count are the record of a
/// finished evaluation.
pub proof fn lemma_settled_lane(tests: Seq<bool>)
    requires
        tests.len() <= MAX_ITER,
        lane_after(tests).settled(),
    ensures
        lane_after(tests).outcome().wf(),
        lane_after(tests).count <= tests.len(),
        is_complete_trace(tests.take(lane_after(tests).count as int)),
        lane_after(tests).escaped == tests[lane_after(tests).count - 1],
{
    lemma_escape_or_not(tests);
    if no_escape_within(tests, MAX_ITER as int) {
        lemma_counts_while_running(tests);
        assert(tests.take(tests.len() as int) =~= tests);
    } else {
        let n = choose|n: int| n <= MAX_ITER && first_escape_at(tests, n);
        lemma_counter_freezes(tests, n);
    }
}

} // verus!
