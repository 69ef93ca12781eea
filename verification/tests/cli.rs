use gdu_diff::cli::{
    Action, CliError, Plan, Reference, ShotCommand, USAGE, action_title, chosen_metric,
    classify_action, classify_args, is_json_like_path, is_snapshot_reference, missing_shot_message,
    no_snapshot_message, parse_shot_alias, plan_args, reference_of, total_steps_for_action,
};
use gdu_diff::index::SizeMetric;

fn texts(args: &[&str]) -> Vec<String> {
    args.iter().map(|arg| arg.to_string()).collect()
}

fn as_it_is(path: &str, _target: &str) -> Result<String, String> {
    Ok(path.to_string())
}

#[test]
fn defaults_to_diff_current_dir() {
    match classify_action(None, &texts(&[]), "/cwd".to_string(), as_it_is).expect("classify") {
        Action::DiffTarget { target } => assert_eq!(target, "/cwd"),
        _ => panic!("expected diff target"),
    }
}

#[test]
fn detects_compare_files() {
    match classify_action(None, &texts(&["a.json", "b.json"]), "/cwd".to_string(), as_it_is)
        .expect("classify")
    {
        Action::CompareFiles { files } => {
            assert_eq!(files.len(), 2);
        }
        _ => panic!("expected compare files"),
    }
}

#[test]
fn detects_shot_subcommand() {
    let command = Some(ShotCommand { path: Some("/tmp".to_string()) });
    match classify_action(command, &texts(&[]), "/cwd".to_string(), as_it_is).expect("classify") {
        Action::Shot { target } => assert_eq!(target, "/tmp"),
        _ => panic!("expected shot"),
    }
    let here = Some(ShotCommand { path: None });
    match classify_action(here, &texts(&["x.json"]), "/cwd".to_string(), as_it_is)
        .expect("classify")
    {
        Action::Shot { target } => assert_eq!(target, "/cwd"),
        _ => panic!("expected shot"),
    }
}

#[test]
fn detects_single_json_as_compare_current() {
    assert!(matches!(
        classify_action(None, &texts(&["base.json"]), "/cwd".to_string(), as_it_is)
            .expect("classify"),
        Action::CompareCurrentWithFile { .. }
    ));
}

#[test]
fn detects_directory_and_json_as_compare_current() {
    match classify_action(None, &texts(&["/tmp", "base.json"]), "/cwd".to_string(), as_it_is)
        .expect("classify")
    {
        Action::CompareCurrentWithFile { file, target } => {
            assert_eq!(file, "base.json");
            assert_eq!(target, "/tmp");
        }
        _ => panic!("expected compare current with file"),
    }
}

#[test]
fn parses_shot_alias() {
    assert_eq!(parse_shot_alias("-1"), Some(1));
    assert_eq!(parse_shot_alias("-3"), Some(3));
    assert_eq!(parse_shot_alias("-0"), None);
    assert_eq!(parse_shot_alias("base.json"), None);
    assert_eq!(parse_shot_alias("-"), None);
    assert_eq!(parse_shot_alias("-x"), None);
    assert_eq!(parse_shot_alias("--1"), None);
    assert_eq!(parse_shot_alias("-+2"), Some(2));
    assert_eq!(parse_shot_alias(&format!("-{}", usize::MAX)), Some(usize::MAX));
    assert_eq!(parse_shot_alias("-99999999999999999999"), None);
}

#[test]
fn detects_single_alias_as_compare_current() {
    let action = classify_args(&texts(&["-3"]), "/cwd".to_string(), |path: &str, target: &str| {
        assert_eq!(path, "-3");
        assert_eq!(target, "/cwd");
        Ok::<String, String>("/shots/3.json".to_string())
    })
    .expect("classify");

    match action {
        Action::CompareCurrentWithFile { file, target } => {
            assert_eq!(file, "/shots/3.json");
            assert_eq!(target, "/cwd");
        }
        _ => panic!("expected compare current with file"),
    }
}

#[test]
fn detects_directory_and_alias_as_compare_current() {
    let action =
        classify_args(&texts(&["/tmp", "-2"]), "/cwd".to_string(), |path: &str, target: &str| {
            assert_eq!(path, "-2");
            assert_eq!(target, "/tmp");
            Ok::<String, String>("/shots/2.json".to_string())
        })
        .expect("classify");

    match action {
        Action::CompareCurrentWithFile { file, target } => {
            assert_eq!(file, "/shots/2.json");
            assert_eq!(target, "/tmp");
        }
        _ => panic!("expected compare current with file"),
    }
}

#[test]
fn detects_alias_and_json_as_compare_files() {
    let action = classify_args(
        &texts(&["-1", "base.json"]),
        "/cwd".to_string(),
        |path: &str, target: &str| {
            assert_eq!(target, "/cwd");
            if path == "-1" {
                return Ok::<String, String>("/shots/1.json".to_string());
            }
            Ok(path.to_string())
        },
    )
    .expect("classify");

    match action {
        Action::CompareFiles { files } => {
            assert_eq!(files, vec!["/shots/1.json".to_string(), "base.json".to_string()]);
        }
        _ => panic!("expected compare files"),
    }
}

#[test]
fn compressed_snapshots_are_snapshot_files() {
    assert!(is_json_like_path("a.json"));
    assert!(is_json_like_path("/x/A.JSON"));
    assert!(is_json_like_path("a.json.zst"));
    assert!(is_json_like_path("a.JSON.Zst"));
    assert!(!is_json_like_path("a.zst"));
    assert!(!is_json_like_path("a.txt.zst"));
    assert!(!is_json_like_path("json"));
    assert!(!is_json_like_path(".json"));
    assert!(is_snapshot_reference("-4"));
    assert!(!is_snapshot_reference("/tmp"));
}

#[test]
fn unclear_arguments_are_refused() {
    for args in [vec!["a.json", "/tmp"], vec!["/a", "/b"], vec!["/a", "b.json", "c.json"]] {
        assert_eq!(plan_args(&texts(&args)), Plan::Unclear);
        match classify_args(&texts(&args), "/cwd".to_string(), as_it_is) {
            Err(CliError::Usage) => {}
            _ => panic!("expected usage"),
        }
    }
    assert!(USAGE.starts_with("use `gdu-diff [directory] snapshot.json`"));
    assert_eq!(plan_args(&texts(&["/a"])), Plan::DiffTarget);
    assert_eq!(plan_args(&texts(&["/a", "-1"])), Plan::CompareThere);
    assert_eq!(plan_args(&texts(&["-1"])), Plan::CompareHere);
    assert_eq!(plan_args(&texts(&["-1", "-2", "c.json"])), Plan::CompareFiles);
}

#[test]
fn the_first_missing_snapshot_is_reported() {
    let resolve = |path: &str, _target: &str| {
        if path == "-1" { Ok("one".to_string()) } else { Err(format!("no {path}")) }
    };
    match classify_args(&texts(&["-1", "-2", "-3"]), "/cwd".to_string(), resolve) {
        Err(CliError::Reference(message)) => assert_eq!(message, "no -2"),
        _ => panic!("expected a missing reference"),
    }
    match classify_args(&texts(&["-7"]), "/cwd".to_string(), resolve) {
        Err(CliError::Reference(message)) => assert_eq!(message, "no -7"),
        _ => panic!("expected a missing reference"),
    }
}

#[test]
fn actions_have_steps_and_titles() {
    let files = Action::CompareFiles { files: Vec::new() };
    let current =
        Action::CompareCurrentWithFile { file: "f".to_string(), target: "t".to_string() };
    let diff = Action::DiffTarget { target: "t".to_string() };
    let shot = Action::Shot { target: "t".to_string() };
    assert_eq!(total_steps_for_action(&files), 3);
    assert_eq!(total_steps_for_action(&current), 6);
    assert_eq!(total_steps_for_action(&diff), 6);
    assert_eq!(total_steps_for_action(&shot), 1);
    assert_eq!(action_title(&files), "Compare snapshots");
    assert_eq!(action_title(&current), "Compare snapshot with current scan");
    assert_eq!(action_title(&diff), "Compare latest shot with current scan");
    assert_eq!(action_title(&shot), "Save snapshot");
}

#[test]
fn messages_name_the_directory() {
    assert_eq!(
        missing_shot_message("/data", "/t", 2),
        "no stored shot -2 found for /t in /data. run `gdu-diff shot /t` first"
    );
    assert_eq!(
        no_snapshot_message("/data", "/t"),
        "no stored snapshot found for /t in /data. run `gdu-diff shot /t` first"
    );
}

#[test]
fn references_are_files_or_numbers() {
    assert!(matches!(reference_of("-12"), Reference::Shot { ordinal: 12 }));
    match reference_of("a.json") {
        Reference::File { path } => assert_eq!(path, "a.json"),
        Reference::Shot { .. } => panic!("expected a file"),
    }
    assert_eq!(chosen_metric(true), SizeMetric::Apparent);
    assert_eq!(chosen_metric(false), SizeMetric::Disk);
}
