use gdu_diff::analysis::{
    Analysis, ChangeKind, EntryKind, RowData, SortMode, change_kind_from_presence_and_delta, share,
    size_change, sort_rows_by,
};
use gdu_diff::double::Double;
use gdu_diff::gdu::SnapshotTree;
use gdu_diff::index::{AnalysisError, IndexProgress, ProgressSink, SizeMetric, SizePair, SnapshotIndex};

fn value(x: Double) -> f64 {
    let magnitude = x.significand as f64 * 2f64.powi(x.exponent);
    if x.negative { -magnitude } else { magnitude }
}

fn tree(label: &str, source: &str, content: &str) -> SnapshotTree {
    match SnapshotTree::from_json_str(label.to_string(), source.to_string(), content) {
        Ok(tree) => tree,
        Err(error) => panic!("{}", error.message()),
    }
}

fn analysis(snapshots: Vec<SnapshotTree>) -> Analysis {
    match Analysis::new(snapshots) {
        Ok(analysis) => analysis,
        Err(error) => panic!("{}", error.message()),
    }
}

fn children(analysis: &Analysis, path: &str, files: bool, sort: SortMode) -> Vec<RowData> {
    match analysis.children_of(path, files, SizeMetric::Disk, sort) {
        Ok(rows) => rows,
        Err(error) => panic!("{}", error.message()),
    }
}

struct Recorder {
    overall: Vec<f64>,
    per_snapshot: Vec<(usize, f64)>,
    paths: Vec<String>,
    labels: Vec<String>,
}

impl Recorder {
    fn new() -> Self {
        Recorder { overall: Vec::new(), per_snapshot: Vec::new(), paths: Vec::new(), labels: Vec::new() }
    }
}

impl ProgressSink for Recorder {
    fn report(&mut self, progress: IndexProgress<'_>) {
        self.overall.push(value(progress.overall_progress()));
        self.per_snapshot.push((progress.snapshot_index, value(progress.snapshot_progress)));
        self.paths.push(progress.current_path.clone());
        self.labels.push(progress.snapshot_label.to_string());
    }
}

#[test]
fn aggregates_sizes_and_shares() {
    let first = tree(
        "first",
        "first.json",
        r#"[1,2,{"progname":"gdu","progver":"v0","timestamp":10},[{"name":"/root","mtime":1},[{"name":"a","mtime":1},{"name":"one.bin","asize":10,"dsize":20,"mtime":1}],{"name":"b.bin","asize":30,"dsize":40,"mtime":1}]]"#,
    );
    let second = tree(
        "second",
        "second.json",
        r#"[1,2,{"progname":"gdu","progver":"v0","timestamp":20},[{"name":"/root","mtime":1},[{"name":"a","mtime":1},{"name":"one.bin","asize":40,"dsize":50,"mtime":1}],{"name":"b.bin","asize":10,"dsize":10,"mtime":1},[{"name":"c","mtime":1},{"name":"z.bin","asize":5,"dsize":8,"mtime":1}]]]"#,
    );

    let analysis = analysis(vec![second, first]);
    let rows = children(&analysis, "", true, SortMode::Name);

    assert_eq!(rows.len(), 3);
    assert_eq!(rows[0].name, "a");
    assert_eq!(rows[0].baseline_size, 20);
    assert_eq!(rows[0].latest_size, 50);
    assert_eq!(rows[0].delta, 30);
    assert_eq!(rows[0].change_kind, ChangeKind::Changed);
    assert!((value(rows[0].baseline_local_share) - (20.0 / 60.0)).abs() < 0.0001);
    assert!((value(rows[0].latest_local_share) - (50.0 / 68.0)).abs() < 0.0001);

    assert_eq!(rows[2].name, "b.bin");
    assert_eq!(rows[2].delta, -30);
    assert_eq!(rows[2].change_kind, ChangeKind::Changed);
}

#[test]
fn filters_files_when_requested() {
    let first = tree(
        "first",
        "first.json",
        r#"[1,2,{"progname":"gdu","progver":"v0","timestamp":10},[{"name":"/root","mtime":1},[{"name":"dir","mtime":1},{"name":"one.bin","asize":10,"dsize":20,"mtime":1}],{"name":"plain.bin","asize":30,"dsize":40,"mtime":1}]]"#,
    );
    let second = tree(
        "second",
        "second.json",
        r#"[1,2,{"progname":"gdu","progver":"v0","timestamp":20},[{"name":"/root","mtime":1},[{"name":"dir","mtime":1},{"name":"one.bin","asize":40,"dsize":50,"mtime":1}],{"name":"plain.bin","asize":10,"dsize":10,"mtime":1}]]"#,
    );

    let analysis = analysis(vec![first, second]);
    let rows = children(&analysis, "", false, SortMode::Name);
    assert_eq!(rows.len(), 1);
    assert_eq!(rows[0].name, "dir");
}

#[test]
fn builds_root_row_for_current_directory_summary() {
    let first = tree(
        "first",
        "first.json",
        r#"[1,2,{"progname":"gdu","progver":"v0","timestamp":10},[{"name":"/root","mtime":1},{"name":"one.bin","asize":10,"dsize":20,"mtime":1}]]"#,
    );
    let second = tree(
        "second",
        "second.json",
        r#"[1,2,{"progname":"gdu","progver":"v0","timestamp":20},[{"name":"/root","mtime":1},{"name":"one.bin","asize":40,"dsize":50,"mtime":1}]]"#,
    );

    let analysis = analysis(vec![first, second]);
    let root = match analysis.row_for_path("", SizeMetric::Disk) {
        Ok(root) => root,
        Err(error) => panic!("{}", error.message()),
    };

    assert_eq!(root.kind, EntryKind::Dir);
    assert_eq!(root.baseline_size, 20);
    assert_eq!(root.latest_size, 50);
    assert_eq!(root.delta, 30);
    assert_eq!(value(root.latest_root_share()), 1.0);
}

#[test]
fn rejects_snapshots_with_different_roots() {
    let first = tree(
        "first",
        "first.json",
        r#"[1,2,{"progname":"gdu","progver":"v0","timestamp":10},[{"name":"/first","mtime":1},{"name":"one.bin","asize":10,"dsize":20,"mtime":1}]]"#,
    );
    let second = tree(
        "second",
        "second.json",
        r#"[1,2,{"progname":"gdu","progver":"v0","timestamp":20},[{"name":"/second","mtime":1},{"name":"one.bin","asize":40,"dsize":50,"mtime":1}]]"#,
    );

    let error = match Analysis::new(vec![first, second]) {
        Ok(_) => panic!("root mismatch should fail"),
        Err(error) => error,
    };
    assert!(error.message().contains("cannot compare snapshots with different roots"));
    assert_eq!(
        error.message(),
        "cannot compare snapshots with different roots: first is /first, but second is /second"
    );
}

#[test]
fn index_progress_is_monotonic_and_finishes() {
    let first = tree(
        "first",
        "first.json",
        r#"[1,2,{"progname":"gdu","progver":"v0","timestamp":10},[{"name":"/root","mtime":1},[{"name":"a","mtime":1},[{"name":"aa","mtime":1},{"name":"one.bin","asize":10,"dsize":20,"mtime":1}],{"name":"two.bin","asize":30,"dsize":40,"mtime":1}],[{"name":"b","mtime":1},[{"name":"bb","mtime":1},{"name":"three.bin","asize":5,"dsize":8,"mtime":1}]]]]"#,
    );
    let second = tree(
        "second",
        "second.json",
        r#"[1,2,{"progname":"gdu","progver":"v0","timestamp":20},[{"name":"/root","mtime":1},[{"name":"a","mtime":1},[{"name":"aa","mtime":1},{"name":"one.bin","asize":12,"dsize":24,"mtime":1}],{"name":"two.bin","asize":18,"dsize":20,"mtime":1}],[{"name":"b","mtime":1},[{"name":"bb","mtime":1},{"name":"three.bin","asize":8,"dsize":12,"mtime":1}]]]]"#,
    );

    let mut recorder = Recorder::new();
    let analysis = match Analysis::new_with_progress(vec![first, second], &mut recorder) {
        Ok(analysis) => analysis,
        Err(error) => panic!("{}", error.message()),
    };

    assert_eq!(analysis.snapshot_count(), 2);
    assert!(!recorder.overall.is_empty());
    assert!(recorder.overall.windows(2).all(|window| window[0] <= window[1]));
    assert_eq!(recorder.overall.last().copied(), Some(1.0));
    assert_eq!(
        recorder
            .per_snapshot
            .iter()
            .filter(|(index, _)| *index == 1)
            .map(|(_, progress)| *progress)
            .next_back(),
        Some(1.0)
    );
    assert_eq!(
        recorder
            .per_snapshot
            .iter()
            .filter(|(index, _)| *index == 2)
            .map(|(_, progress)| *progress)
            .next_back(),
        Some(1.0)
    );
}

#[test]
fn index_progress_follows_directory_iteration_order() {
    let first = tree(
        "first",
        "first.json",
        r#"[1,2,{"progname":"gdu","progver":"v0","timestamp":10},[{"name":"/root","mtime":1},[{"name":"z-last","mtime":1},{"name":"one.bin","asize":10,"dsize":10,"mtime":1}],[{"name":"a-first","mtime":1},{"name":"two.bin","asize":10,"dsize":10,"mtime":1}]]]"#,
    );
    let second = tree(
        "second",
        "second.json",
        r#"[1,2,{"progname":"gdu","progver":"v0","timestamp":20},[{"name":"/root","mtime":1},[{"name":"z-last","mtime":1},{"name":"one.bin","asize":10,"dsize":10,"mtime":1}],[{"name":"a-first","mtime":1},{"name":"two.bin","asize":10,"dsize":10,"mtime":1}]]]"#,
    );

    let mut recorder = Recorder::new();
    match Analysis::new_with_progress(vec![first, second], &mut recorder) {
        Ok(_) => {}
        Err(error) => panic!("{}", error.message()),
    }

    assert!(recorder.overall.windows(2).all(|window| window[0] <= window[1]));
    assert_eq!(recorder.overall.last().copied(), Some(1.0));
}

#[test]
fn progress_is_split_among_directories() {
    let content = |timestamp: u32| {
        format!(
            r#"[1,2,{{"timestamp":{timestamp}}},[{{"name":"/root"}},[{{"name":"a"}},[{{"name":"b"}},[{{"name":"c"}},[{{"name":"d"}}]]]],[{{"name":"e"}}],{{"name":"f","dsize":1}},[{{"name":"g"}}]]]"#
        )
    };
    let mut recorder = Recorder::new();
    let snapshots = vec![tree("x", "x.json", &content(1)), tree("y", "y.json", &content(2))];
    assert!(Analysis::new_with_progress(snapshots, &mut recorder).is_ok());
    let half = recorder.paths.len() / 2;
    assert_eq!(
        recorder.paths[..half].to_vec(),
        vec!["a/b/c/d", "a/b/c", "a/b", "a", "e", "g", "/root", "/root"]
    );
    let third = 1.0 / 3.0;
    let second_end = third + third;
    let last_end = third * 2.0 + third;
    let expected = vec![third, third, third, third, second_end, last_end, 1.0, 1.0];
    let seen: Vec<f64> = recorder.per_snapshot[..half].iter().map(|(_, p)| *p).collect();
    assert_eq!(seen, expected);
    assert_eq!(recorder.labels[0], "x");
    assert_eq!(recorder.labels[half], "y");
    assert_eq!(recorder.overall[half - 1], 0.5);
}

#[test]
fn progress_stays_in_bounds_and_snapshots_follow_each_other() {
    let content = |timestamp: u32| {
        let inner: String = (0..6).map(|k| format!(r#",[{{"name":"i{k}"}}]"#)).collect();
        format!(
            r#"[1,2,{{"timestamp":{timestamp}}},[{{"name":"/root"}},[{{"name":"a"}}{inner}],[{{"name":"b"}}],[{{"name":"c"}}]]]"#
        )
    };
    let mut recorder = Recorder::new();
    let snapshots = vec![
        tree("x", "x.json", &content(1)),
        tree("y", "y.json", &content(2)),
        tree("z", "z.json", &content(3)),
    ];
    assert!(Analysis::new_with_progress(snapshots, &mut recorder).is_ok());
    assert!(recorder.overall.iter().all(|p| (0.0..=1.0).contains(p)));
    assert!(recorder.per_snapshot.iter().all(|(_, p)| (0.0..=1.0).contains(p)));
    for (i, (first, _)) in recorder.per_snapshot.iter().enumerate() {
        for (j, (second, _)) in recorder.per_snapshot.iter().enumerate() {
            if first < second {
                assert!(recorder.overall[i] <= recorder.overall[j]);
            }
        }
    }
    assert_eq!(recorder.overall.last().copied(), Some(1.0));
}

#[test]
fn needs_two_snapshots() {
    let only = tree("only", "only.json", r#"[1,2,{},[{"name":"/root"}]]"#);
    let error = match Analysis::new(vec![only]) {
        Ok(_) => panic!("one snapshot should fail"),
        Err(error) => error,
    };
    assert!(matches!(error, AnalysisError::TooFewSnapshots));
    assert_eq!(error.message(), "please provide at least two gdu export files");
    let none = match Analysis::new(Vec::new()) {
        Ok(_) => panic!("no snapshot should fail"),
        Err(error) => error,
    };
    assert!(matches!(none, AnalysisError::TooFewSnapshots));
}

#[test]
fn snapshots_without_a_time_come_last_and_keep_their_order() {
    let make = |label: &str, time: &str| {
        tree(label, "s.json", &format!(r#"[1,2,{{{time}}},[{{"name":"/root"}}]]"#))
    };
    let analysis = analysis(vec![
        make("late", ""),
        make("two", r#""timestamp":7"#),
        make("one", r#""timestamp":7"#),
        make("zero", r#""timestamp":3"#),
        make("later", r#""timestamp":"x""#),
    ]);
    assert_eq!(analysis.snapshot_range_label(), "zero -> later");
    let root = match analysis.row_for_path("", SizeMetric::Disk) {
        Ok(root) => root,
        Err(error) => panic!("{}", error.message()),
    };
    let labels: Vec<String> = root.timeline.iter().map(|p| p.label.clone()).collect();
    assert_eq!(labels, vec!["zero", "two", "one", "late", "later"]);
}

#[test]
fn rows_tell_added_removed_and_mixed_entries() {
    let first = tree(
        "a",
        "a.json",
        r#"[1,2,{"timestamp":1},[{"name":"/r"},{"name":"gone","asize":1,"dsize":2},[{"name":"both"},{"name":"x","dsize":4}],{"name":"same","dsize":3}]]"#,
    );
    let second = tree(
        "b",
        "b.json",
        r#"[1,2,{"timestamp":2},[{"name":"/r"},{"name":"both","dsize":4},{"name":"new","dsize":2},{"name":"same","dsize":3}]]"#,
    );
    let analysis = analysis(vec![first, second]);
    let rows = children(&analysis, "", true, SortMode::Name);
    let names: Vec<&str> = rows.iter().map(|r| r.name.as_str()).collect();
    assert_eq!(names, vec!["both", "gone", "new", "same"]);
    assert_eq!(rows[0].kind, EntryKind::Mixed);
    assert!(rows[0].has_children());
    assert_eq!(rows[0].change_kind, ChangeKind::Unchanged);
    assert_eq!(rows[1].change_kind, ChangeKind::Removed);
    assert_eq!(rows[1].delta, -2);
    assert_eq!(rows[2].change_kind, ChangeKind::Added);
    assert_eq!(value(rows[2].latest_local_share), 2.0 / 9.0);
    assert_eq!(value(rows[2].baseline_local_share), 0.0);
    assert_eq!(value(rows[2].root_share_delta()), 2.0 / 9.0);
    assert_eq!(rows[3].change_kind, ChangeKind::Unchanged);
    let inner = children(&analysis, "both", true, SortMode::Name);
    assert_eq!(inner.len(), 1);
    assert_eq!(inner[0].path, "both/x");
    assert_eq!(inner[0].change_kind, ChangeKind::Removed);
}

#[test]
fn every_sort_mode_orders_rows() {
    let first = tree(
        "a",
        "a.json",
        r#"[1,2,{"timestamp":1},[{"name":"/r"},[{"name":"Bd"},{"name":"q","dsize":10}],{"name":"a","dsize":10},{"name":"C","dsize":5}]]"#,
    );
    let second = tree(
        "b",
        "b.json",
        r#"[1,2,{"timestamp":2},[{"name":"/r"},[{"name":"Bd"},{"name":"q","dsize":20}],{"name":"a","dsize":20},{"name":"C","dsize":30}]]"#,
    );
    let analysis = analysis(vec![first, second]);
    let names = |sort: SortMode| -> Vec<String> {
        children(&analysis, "", true, sort).iter().map(|r| r.name.clone()).collect()
    };
    assert_eq!(names(SortMode::Name), vec!["Bd", "a", "C"]);
    assert_eq!(names(SortMode::LatestSize), vec!["C", "Bd", "a"]);
    assert_eq!(names(SortMode::Delta), vec!["C", "Bd", "a"]);
    assert_eq!(names(SortMode::ShareDelta), vec!["C", "Bd", "a"]);
    let rows = children(&analysis, "", true, SortMode::Name);
    let lowered = vec!["z".to_string(), "y".to_string(), "x".to_string()];
    let sorted = sort_rows_by(rows, lowered, SortMode::Name);
    let order: Vec<&str> = sorted.iter().map(|r| r.name.as_str()).collect();
    assert_eq!(order, vec!["Bd", "C", "a"]);
}

#[test]
fn rows_with_equal_keys_are_in_the_order_of_their_names() {
    let content = |timestamp: u32| {
        format!(
            r#"[1,2,{{"timestamp":{timestamp}}},[{{"name":"/r"}},{{"name":"b","dsize":1}},{{"name":"B","dsize":1}},{{"name":"A","dsize":1}},{{"name":"a","dsize":1}}]]"#
        )
    };
    let analysis = analysis(vec![tree("x", "x", &content(1)), tree("y", "y", &content(2))]);
    let names: Vec<String> =
        children(&analysis, "", true, SortMode::Delta).iter().map(|r| r.name.clone()).collect();
    assert_eq!(names, vec!["A", "a", "B", "b"]);
}

#[test]
fn names_are_lowered_beyond_ascii() {
    let content = |timestamp: u32| {
        format!(
            r#"[1,2,{{"timestamp":{timestamp}}},[{{"name":"/r"}},{{"name":"é","dsize":1}},{{"name":"Èa","dsize":1}}]]"#
        )
    };
    let analysis = analysis(vec![tree("x", "x", &content(1)), tree("y", "y", &content(2))]);
    let names: Vec<String> =
        children(&analysis, "", true, SortMode::Name).iter().map(|r| r.name.clone()).collect();
    assert_eq!(names, vec!["Èa", "é"]);
}

#[test]
fn unknown_paths_are_errors() {
    let content = r#"[1,2,{"timestamp":1},[{"name":"/r"}]]"#;
    let analysis = analysis(vec![tree("x", "x", content), tree("y", "y", content)]);
    match analysis.row_for_path("no/where", SizeMetric::Apparent) {
        Ok(_) => panic!("the path should not exist"),
        Err(error) => {
            assert_eq!(error.message(), "path no/where does not exist in the snapshot set")
        }
    }
    assert_eq!(children(&analysis, "no", true, SortMode::Name).len(), 0);
}

#[test]
fn paths_are_shown_below_the_root() {
    let content = r#"[1,2,{"timestamp":1},[{"name":"/r"}]]"#;
    let analysis = analysis(vec![tree("x", "x", content), tree("x", "y", content)]);
    assert_eq!(analysis.current_root_name(), "/r");
    assert_eq!(analysis.snapshot_range_label(), "x");
    assert_eq!(analysis.display_path(""), "/r");
    assert_eq!(analysis.display_path("a/b"), "/r/a/b");
    assert_eq!(Analysis::parent_path(""), None);
    assert_eq!(Analysis::parent_path("a"), Some(String::new()));
    assert_eq!(Analysis::parent_path("a/b/c"), Some("a/b".to_string()));
}

#[test]
fn metrics_pick_their_size() {
    let sizes = SizePair { disk: 3, apparent: 4 };
    assert_eq!(sizes.value(SizeMetric::Disk), 3);
    assert_eq!(sizes.value(SizeMetric::Apparent), 4);
    assert_eq!(SizeMetric::Disk.label(), "disk");
    assert_eq!(SizeMetric::Apparent.label(), "apparent");
    assert_eq!(SortMode::LatestSize.label(), "latest size");
    assert_eq!(SortMode::Delta.label(), "delta");
    assert_eq!(SortMode::ShareDelta.label(), "share delta");
    assert_eq!(SortMode::Name.label(), "name");
    assert_eq!(EntryKind::Mixed.label(), "mixed");
    assert_eq!(EntryKind::File.short(), "F");
    assert_eq!(ChangeKind::Changed.label(), "~");
    assert_eq!(ChangeKind::Unchanged.short(), "=");
}

#[test]
fn directory_sizes_stop_at_the_greatest_size() {
    let content = format!(
        r#"[1,2,{{"timestamp":1}},[{{"name":"/r"}},{{"name":"a","dsize":{},"asize":1}},{{"name":"b","dsize":5,"asize":2}}]]"#,
        u64::MAX
    );
    let analysis = analysis(vec![tree("x", "x", &content), tree("y", "y", &content)]);
    let root = match analysis.row_for_path("", SizeMetric::Disk) {
        Ok(root) => root,
        Err(error) => panic!("{}", error.message()),
    };
    assert_eq!(root.latest_size, u64::MAX);
    let root = match analysis.row_for_path("", SizeMetric::Apparent) {
        Ok(root) => root,
        Err(error) => panic!("{}", error.message()),
    };
    assert_eq!(root.latest_size, 3);
}

#[test]
fn a_later_entry_takes_the_place_of_an_earlier_one() {
    let content = r#"[1,2,{"timestamp":1},[{"name":"/r"},{"name":"a","dsize":1},{"name":"a","dsize":7}]]"#;
    let analysis = analysis(vec![tree("x", "x", content), tree("y", "y", content)]);
    let rows = children(&analysis, "", true, SortMode::Name);
    assert_eq!(rows.len(), 1);
    assert_eq!(rows[0].latest_size, 7);
    assert_eq!(value(rows[0].latest_local_share), 7.0 / 8.0);
}

#[test]
fn shares_are_the_nearest_numbers() {
    let cases: [(u64, u64); 8] = [
        (0, 0),
        (5, 0),
        (1, 3),
        (2, 3),
        (7, 7),
        (u64::MAX, 1),
        (1, u64::MAX),
        (123_456_789_012_345_678, 987_654_321_098_765_432),
    ];
    for (part, total) in cases {
        let expected = if total == 0 { 0.0 } else { part as f64 / total as f64 };
        assert_eq!(value(share(part, total)), expected, "{part}/{total}");
    }
}

#[test]
fn a_size_change_wraps() {
    assert_eq!(size_change(5, 7), -2);
    assert_eq!(size_change(u64::MAX, 0), -1);
    assert_eq!(size_change(0, 1 << 63), i64::MIN);
}

#[test]
fn tiny_share_changes_do_not_count() {
    let change = |a: Double, b: Double| change_kind_from_presence_and_delta(true, true, 0, a, b);
    let one = Double::one();
    let half_step = Double { negative: false, significand: 0x1f_ffff_ffff_ffff, exponent: -53 };
    let next = Double { negative: false, significand: 0x10_0000_0000_0001, exponent: -52 };
    let after = Double { negative: false, significand: 0x10_0000_0000_0002, exponent: -52 };
    assert_eq!(change(one, one), ChangeKind::Unchanged);
    assert_eq!(change(one, half_step), ChangeKind::Unchanged);
    assert_eq!(change(one, next), ChangeKind::Unchanged);
    assert_eq!(change(one, after), ChangeKind::Changed);
    assert_eq!(
        change_kind_from_presence_and_delta(true, true, 1, one, one),
        ChangeKind::Changed
    );
    assert_eq!(change_kind_from_presence_and_delta(false, true, 0, one, one), ChangeKind::Added);
    assert_eq!(
        change_kind_from_presence_and_delta(true, false, 0, one, one),
        ChangeKind::Removed
    );
    assert_eq!(
        change_kind_from_presence_and_delta(false, false, 0, one, one),
        ChangeKind::Unchanged
    );
}

#[test]
fn a_rescan_replaces_a_directory_of_the_last_snapshot() {
    let first = tree(
        "old",
        "a.json",
        r#"[1,2,{"timestamp":1},[{"name":"/r"},[{"name":"d"},{"name":"x","dsize":1}],{"name":"y","dsize":2}]]"#,
    );
    let second = tree(
        "current",
        "b.json",
        r#"[1,2,{"timestamp":2},[{"name":"/r"},[{"name":"d"},{"name":"x","dsize":1}],{"name":"y","dsize":2}]]"#,
    );
    let found = tree(
        "found",
        "c.json",
        r#"[1,2,{"timestamp":3},[{"name":"/r/d"},{"name":"z","dsize":40}]]"#,
    );
    let mut analysis = analysis(vec![first, second]);
    analysis.replace_latest("d", &found);
    let rows = children(&analysis, "d", true, SortMode::Name);
    let seen: Vec<(String, u64, u64)> =
        rows.iter().map(|r| (r.path.clone(), r.baseline_size, r.latest_size)).collect();
    assert_eq!(seen, vec![("d/x".to_string(), 1, 0), ("d/z".to_string(), 0, 40)]);
    let root = match analysis.row_for_path("", SizeMetric::Disk) {
        Ok(root) => root,
        Err(error) => panic!("{}", error.message()),
    };
    assert_eq!((root.baseline_size, root.latest_size), (3, 42));
    assert_eq!(analysis.latest_label(), "current");
    assert_eq!(analysis.current_root_name(), "/r");
}

#[test]
fn rows_add_up_to_their_directory() {
    let first = tree(
        "old",
        "a.json",
        r#"[1,2,{"timestamp":1},[{"name":"/r"},[{"name":"d"},{"name":"x","dsize":10},[{"name":"e"},{"name":"y","dsize":5}]],{"name":"z","dsize":2}]]"#,
    );
    let second = tree(
        "new",
        "b.json",
        r#"[1,2,{"timestamp":2},[{"name":"/r"},[{"name":"d"},{"name":"x","dsize":4},{"name":"n","dsize":100}],{"name":"z","dsize":3}]]"#,
    );
    let analysis = analysis(vec![first, second]);
    for path in ["", "d", "d/e"] {
        let row = match analysis.row_for_path(path, SizeMetric::Disk) {
            Ok(row) => row,
            Err(error) => panic!("{}", error.message()),
        };
        let rows = children(&analysis, path, true, SortMode::Delta);
        assert_eq!(rows.iter().map(|r| r.latest_size).sum::<u64>(), row.latest_size);
        assert_eq!(rows.iter().map(|r| r.baseline_size).sum::<u64>(), row.baseline_size);
        assert_eq!(rows.iter().map(|r| r.delta).sum::<i64>(), row.delta);
    }
}

#[test]
fn an_index_has_one_key_for_each_node() {
    let snapshot = tree(
        "old",
        "a.json",
        r#"[1,2,{"timestamp":1},[{"name":"/r"},[{"name":"d"},{"name":"x","asize":1,"dsize":10},[{"name":"e"},{"name":"y","dsize":5}]],{"name":"z","dsize":2}]]"#,
    );
    let index = SnapshotIndex::from_snapshot(&snapshot, 1, 1, &mut Recorder::new());
    assert_eq!((index.label.as_str(), index.root_name.as_str()), ("old", "/r"));
    let seen: Vec<(&str, Option<&str>, bool, u64)> = ["", "d", "d/x", "d/e", "d/e/y", "z"]
        .iter()
        .map(|path| {
            let entry = index.entries.get(path).expect("entry");
            (*path, entry.parent.as_deref(), entry.is_dir, entry.sizes.disk)
        })
        .collect();
    assert_eq!(
        seen,
        vec![
            ("", None, true, 17),
            ("d", Some(""), true, 15),
            ("d/x", Some("d"), false, 10),
            ("d/e", Some("d"), true, 5),
            ("d/e/y", Some("d/e"), false, 5),
            ("z", Some(""), false, 2),
        ]
    );
    assert_eq!(index.entries.pairs().len(), 6);
}

#[test]
fn any_finite_shares_are_compared() {
    let number = |exponent: i32| Double { negative: false, significand: 1 << 52, exponent };
    let change = |a: Double, b: Double| change_kind_from_presence_and_delta(true, true, 0, a, b);
    assert_eq!(change(number(900), number(900)), ChangeKind::Unchanged);
    assert_eq!(change(number(900), number(-1000)), ChangeKind::Changed);
    assert_eq!(change(number(-1000), Double::zero()), ChangeKind::Unchanged);
}
