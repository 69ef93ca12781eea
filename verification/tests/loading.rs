use gdu_diff::cli::{Action, total_steps_for_action};
use gdu_diff::loading::{
    ESTIMATE_LIMIT, SCAN_TIME, WHOLE, estimated_progress, overall_progress, part_progress, reading_time,
    step_weights,
};

fn diff() -> Action {
    Action::DiffTarget { target: "/tmp".to_string() }
}

fn files() -> Action {
    Action::CompareFiles { files: vec!["a.json".to_string(), "b.json".to_string()] }
}

#[test]
fn every_step_has_a_weight() {
    let actions = vec![
        diff(),
        files(),
        Action::CompareCurrentWithFile { file: "a.json".to_string(), target: "/".to_string() },
        Action::Shot { target: "/".to_string() },
    ];
    for action in actions {
        assert_eq!(step_weights(&action).len(), total_steps_for_action(&action));
    }
    assert_eq!(step_weights(&diff()), vec![1, 4, 4, 4, 4, 1]);
}

#[test]
fn light_steps_count_less() {
    assert_eq!(overall_progress(&files(), 1, 0), 0);
    assert_eq!(overall_progress(&files(), 1, 1000), 444);
    assert_eq!(overall_progress(&files(), 2, 500), 666);
    assert_eq!(overall_progress(&files(), 3, 0), 888);
    assert_eq!(overall_progress(&files(), 3, 1000), WHOLE);
    assert_eq!(overall_progress(&files(), 3, 5000), WHOLE);
    assert_eq!(overall_progress(&files(), 0, 700), 0);
    assert_eq!(overall_progress(&files(), 9, 0), WHOLE);
}

#[test]
fn loading_does_not_fall_back() {
    let mut last = 0;
    for step in 1..=6 {
        for done in (0..=1000).step_by(50) {
            let now = overall_progress(&diff(), step, done);
            assert!(last <= now);
            last = now;
        }
    }
    assert_eq!(last, WHOLE);
}

#[test]
fn estimates_grow_and_stop() {
    assert_eq!(estimated_progress(0, SCAN_TIME), 0);
    assert_eq!(estimated_progress(0, 0), 0);
    assert_eq!(estimated_progress(1000, SCAN_TIME), 200);
    assert_eq!(estimated_progress(4000, SCAN_TIME), 500);
    assert_eq!(estimated_progress(76_000, SCAN_TIME), ESTIMATE_LIMIT);
    assert_eq!(estimated_progress(u64::MAX, SCAN_TIME), ESTIMATE_LIMIT);
    assert_eq!(estimated_progress(5, 0), ESTIMATE_LIMIT);
}

#[test]
fn compressed_snapshots_are_expected_to_take_longer() {
    assert_eq!(reading_time(0, false), 50);
    assert_eq!(reading_time(4_000_000, false), 150);
    assert_eq!(reading_time(4_000_000, true), 1050);
}

#[test]
fn parts_follow_each_other() {
    assert_eq!(part_progress(0, 3, 0), 0);
    assert_eq!(part_progress(0, 3, 1000), 333);
    assert_eq!(part_progress(1, 3, 0), 333);
    assert_eq!(part_progress(1, 3, 500), 499);
    assert_eq!(part_progress(2, 3, 1000), 1000);
    assert_eq!(part_progress(0, 1, 950), 950);
    assert_eq!(part_progress(0, 1, 9999), 1000);
}
