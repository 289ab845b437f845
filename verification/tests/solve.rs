use pokergoat_solver::ieee::{Double, Single};
use pokergoat_solver::solve::{Request, SolveLoop};

fn single(v: f32) -> Single {
    Single { bits: v.to_bits() }
}

fn double(v: f64) -> Double {
    Double { bits: v.to_bits() }
}

/// Runs a loop: what the exploitability is after each iteration, and how long an iteration takes.
fn run(max: u32, target: f32, limit: Option<f64>, after: fn(u32) -> f32) -> (u32, f32, bool, u32) {
    let mut state = SolveLoop::new(max, single(target), limit.map(double), single(after(0)));
    let mut done = 0;
    let mut measured = 0;
    loop {
        match state.next(double(done as f64)) {
            Request::Iterate(t) => {
                assert_eq!(t, done);
                done += 1;
            }
            Request::Measure => {
                measured += 1;
                state.measured(single(after(done)));
            }
            Request::Finish => break,
        }
    }
    let outcome = state.outcome(double(1.5));
    assert_eq!(outcome.iterations, done);
    assert_eq!(outcome.elapsed_sec, double(1.5));
    (done, f32::from_bits(outcome.exploitability.bits), outcome.hit_time_limit, measured)
}

#[test]
fn loops_stop_at_the_target() {
    assert_eq!(run(100, 5.0, None, |n| 100.0 - 2.0 * n as f32), (50, 0.0, false, 5));
    assert_eq!(run(100, 5.0, None, |_| 5.0), (0, 5.0, false, 0));
}

#[test]
fn loops_stop_at_the_last_iteration() {
    assert_eq!(run(25, 0.0, None, |n| 100.0 - n as f32), (25, 75.0, false, 4));
    assert_eq!(run(20, 0.0, None, |n| 100.0 - n as f32), (20, 80.0, false, 2));
    assert_eq!(run(0, 0.0, None, |_| 9.0), (0, 9.0, false, 0));
}

#[test]
fn loops_stop_when_the_time_is_up() {
    assert_eq!(run(100, 0.0, Some(13.0), |n| 100.0 - n as f32), (13, 87.0, true, 2));
    assert_eq!(run(100, 0.0, Some(0.0), |_| 7.0), (0, 7.0, true, 0));
    // The last measurement meets the target after all, so that nothing was cut off before it.
    assert_eq!(run(100, 95.0, Some(7.0), |n| 100.0 - n as f32), (7, 93.0, false, 1));
    assert_eq!(run(100, 90.0, Some(7.0), |n| 100.0 - n as f32), (7, 93.0, true, 1));
    assert_eq!(run(100, 7.0, Some(0.0), |_| 7.0), (0, 7.0, false, 0));
    assert_eq!(run(5, 0.0, Some(5.0), |n| 100.0 - n as f32), (5, 95.0, false, 2));
}

#[test]
fn targets_that_are_no_numbers_are_never_met() {
    assert_eq!(run(10, f32::NAN, None, |_| 0.0), (10, 0.0, false, 1));
    assert_eq!(run(10, 1.0, None, |_| f32::NAN).0, 10);
}
