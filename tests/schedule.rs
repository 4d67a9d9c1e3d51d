use fwumious_wabbit::schedule::{RunOptions, TrainingSchedule};

fn opts(testonly: bool, predictions_after: u64, holdout_after: Option<u64>, delay: u64) -> RunOptions {
    RunOptions { testonly, predictions_after, holdout_after, prediction_model_delay: delay }
}

#[test]
fn delay_three_over_ten_examples() {
    let mut s = TrainingSchedule::new(opts(false, 0, None, 3));
    let mut updates = Vec::new();
    for n in 1..=10u64 {
        let p = s.next_example(n);
        assert_eq!(p.example_num, n);
        assert!(p.run_current);
        assert!(!p.update_current);
        assert!(p.emit_prediction);
        if let Some(d) = p.delayed {
            assert!(p.update_delayed);
            updates.push((n, d));
        }
    }
    assert_eq!(updates, vec![(4, 1), (5, 2), (6, 3), (7, 4), (8, 5), (9, 6), (10, 7)]);
    assert_eq!(s.examples_seen(), 10);
}

#[test]
fn no_delay_updates_current_example() {
    let mut s = TrainingSchedule::new(opts(false, 0, None, 0));
    let p = s.next_example("a");
    assert!(p.run_current && p.update_current && p.emit_prediction);
    assert!(p.delayed.is_none());
}

#[test]
fn holdout_stops_updates() {
    for testonly in [false, true] {
        let mut s = TrainingSchedule::new(opts(testonly, 0, Some(3), 0));
        let ups: Vec<bool> = (0..5).map(|i| s.next_example(i).update_current).collect();
        if testonly {
            assert_eq!(ups, vec![false; 5]);
        } else {
            assert_eq!(ups, vec![true, true, false, false, false]);
        }
    }
}

#[test]
fn testonly_never_updates() {
    let mut s = TrainingSchedule::new(opts(true, 0, None, 1));
    let first = s.next_example(1);
    assert!(!first.update_current && first.delayed.is_none());
    let second = s.next_example(2);
    assert_eq!(second.delayed, Some(1));
    assert!(!second.update_delayed);
}

#[test]
fn predictions_after_hides_early_predictions() {
    let mut s = TrainingSchedule::new(opts(false, 2, None, 1));
    let p: Vec<(bool, bool)> = (0..3).map(|i| {
        let p = s.next_example(i);
        (p.run_current, p.emit_prediction)
    }).collect();
    assert_eq!(p, vec![(false, false), (false, false), (true, true)]);
    let mut s0 = TrainingSchedule::new(opts(false, 2, None, 0));
    let p = s0.next_example(0);
    assert!(p.run_current && !p.emit_prediction);
}
