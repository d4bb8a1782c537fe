use mandelbrot::lane::{IterationResult, Lane, MAX_ITER, RAMP};

fn feed(tests: &[bool]) -> Lane {
    let mut lane = Lane::fresh();
    for &hit in tests {
        lane = lane.advance(hit);
    }
    lane
}

#[test]
fn limit_is_three_turns_of_the_ramp() {
    assert_eq!(RAMP, 255);
    assert_eq!(MAX_ITER, 765);
    assert_eq!(MAX_ITER, 3 * RAMP);
}

#[test]
fn fresh_lane_has_counted_nothing() {
    let lane = Lane::fresh();
    assert_eq!(lane, Lane { count: 0, escaped: false });
    assert!(!lane.is_settled());
    assert_eq!(lane.result(), None);
}

#[test]
fn lane_counts_each_application_until_it_escapes() {
    let lane = Lane::fresh().advance(false);
    assert_eq!(lane, Lane { count: 1, escaped: false });
    let lane = lane.advance(false);
    assert_eq!(lane, Lane { count: 2, escaped: false });
    let lane = lane.advance(true);
    assert_eq!(lane, Lane { count: 3, escaped: true });
    assert!(lane.is_settled());
    assert_eq!(lane.result(), Some(IterationResult { count: 3, escaped: true }));
}

#[test]
fn counter_is_frozen_after_the_escape() {
    let escaped = feed(&[false, true]);
    assert_eq!(escaped, Lane { count: 2, escaped: true });
    assert_eq!(escaped.advance(false), escaped);
    assert_eq!(escaped.advance(true), escaped);
    assert_eq!(feed(&[false, true, false, false, true, true]), escaped);
}

#[test]
fn escape_on_the_first_application_counts_one() {
    let lane = feed(&[true]);
    assert_eq!(lane.result(), Some(IterationResult { count: 1, escaped: true }));
}

#[test]
fn lane_that_never_escapes_stops_at_the_limit() {
    let never = vec![false; MAX_ITER as usize];
    let lane = feed(&never);
    assert_eq!(lane, Lane { count: MAX_ITER, escaped: false });
    assert!(lane.is_settled());
    assert_eq!(lane.result(), Some(IterationResult { count: MAX_ITER, escaped: false }));
    assert_eq!(lane.advance(true), lane);
    assert_eq!(lane.advance(false), lane);
}

#[test]
fn lane_is_running_one_short_of_the_limit() {
    let almost = vec![false; MAX_ITER as usize - 1];
    let lane = feed(&almost);
    assert_eq!(lane, Lane { count: MAX_ITER - 1, escaped: false });
    assert!(!lane.is_settled());
    assert_eq!(lane.result(), None);
}

#[test]
fn escape_on_the_last_application_reports_the_limit_with_the_flag() {
    let mut tests = vec![false; MAX_ITER as usize - 1];
    tests.push(true);
    let lane = feed(&tests);
    assert_eq!(lane.result(), Some(IterationResult { count: MAX_ITER, escaped: true }));
}

#[test]
fn escape_before_the_last_application_stays_below_the_limit() {
    for n in [1usize, 2, 17, 255, 256, 764] {
        let mut tests = vec![false; n - 1];
        tests.push(true);
        tests.extend([false, true, false]);
        let report = feed(&tests).result().unwrap();
        assert_eq!(report, IterationResult { count: n as u32, escaped: true });
        assert!(report.count < MAX_ITER);
    }
}
