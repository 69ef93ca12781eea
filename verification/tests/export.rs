use gdu_diff::export::{ExportEvent, ExportRun, ExportStep};

fn run(output: &str) -> ExportRun {
    ExportRun::start("/srv", output).expect("start")
}

fn failed(run: &mut ExportRun, event: ExportEvent) -> String {
    match run.step(event) {
        ExportStep::Fail { message } => message,
        _ => panic!("expected a failure"),
    }
}

#[test]
fn only_snapshot_names_are_written() {
    match ExportRun::start("/srv", "/x/out.zst") {
        Ok(_) => panic!("expected an error"),
        Err(message) => assert_eq!(
            message,
            "snapshot output must use either .json or .json.zst: /x/out.zst"
        ),
    }
}

#[test]
fn the_second_program_is_tried_when_the_first_is_missing() {
    let mut run = run("/x/out.json");
    assert_eq!(run.program(), "gdu-go");
    assert_eq!(run.export_path(), "/x/out.json");
    match run.step(ExportEvent::NotFound) {
        ExportStep::Run { program } => assert_eq!(program, "gdu"),
        _ => panic!("expected another program"),
    }
    assert_eq!(run.program(), "gdu");
    assert_eq!(
        failed(&mut run, ExportEvent::NotFound),
        "failed to find a gdu executable, tried: gdu-go, gdu"
    );
}

#[test]
fn a_plain_export_is_done_once_the_program_ends() {
    let mut run = run("/x/out.json");
    assert!(matches!(
        run.step(ExportEvent::exited(true, "0".to_string(), b"", b"")),
        ExportStep::Finish
    ));
}

#[test]
fn a_compressed_export_is_compressed_once_the_program_ends() {
    let mut run = run("/x/out.json.zst");
    assert_eq!(run.export_path(), "/x/out.json.json");
    match run.step(ExportEvent::exited(true, "0".to_string(), b"", b"")) {
        ExportStep::Compress { input, output } => {
            assert_eq!(input, "/x/out.json.json");
            assert_eq!(output, "/x/out.json.zst");
        }
        _ => panic!("expected compression"),
    }
}

#[test]
fn progress_is_trimmed_and_empty_progress_is_left_out() {
    let mut run = run("/x/out.json");
    assert!(matches!(run.step(ExportEvent::progress(b" \n\t ")), ExportStep::Wait));
    match run.step(ExportEvent::progress(b"  12 items\n")) {
        ExportStep::Report { text } => assert_eq!(text, "12 items"),
        _ => panic!("expected a report"),
    }
    match run.step(ExportEvent::progress(b"a\xffb")) {
        ExportStep::Report { text } => assert_eq!(text, "a\u{fffd}b"),
        _ => panic!("expected a report"),
    }
}

#[test]
fn a_failure_tells_what_the_program_said() {
    let mut run = run("/x/out.json");
    let status = || "exit status: 3".to_string();
    assert_eq!(
        failed(&mut run, ExportEvent::exited(false, status(), b"out", b" err\n")),
        "gdu-go failed to export /srv: err"
    );
    assert_eq!(
        failed(&mut run, ExportEvent::exited(false, status(), b" out\n", b" ")),
        "gdu-go failed to export /srv: out"
    );
    assert_eq!(
        failed(&mut run, ExportEvent::exited(false, status(), b"", b"")),
        "gdu-go failed to export /srv: exit status exit status: 3"
    );
    let _ = run.step(ExportEvent::progress(b"half"));
    assert_eq!(
        failed(&mut run, ExportEvent::exited(false, status(), b"", b"")),
        "gdu-go failed to export /srv: half"
    );
    assert_eq!(failed(&mut run, ExportEvent::SpawnFailed), "failed to run gdu-go to export /srv");
    assert_eq!(
        failed(&mut run, ExportEvent::ReadFailed),
        "failed to read progress output from gdu-go"
    );
    assert_eq!(
        failed(&mut run, ExportEvent::WaitFailed),
        "failed to wait for gdu-go while exporting /srv"
    );
}
