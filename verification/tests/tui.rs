use gdu_diff::analysis::{Analysis, ChangeKind, EntryKind, SortMode};
use gdu_diff::double::Double;
use gdu_diff::gdu::SnapshotTree;
use gdu_diff::index::SizeMetric;
use gdu_diff::tui::{App, AppAction, CopyKind, Key, column_headers, help_lines, marked_panel_lines};
use gdu_diff::view::{
    ChangeCounts, Color, Span, StatusKind, children_empty_lines, children_page_step,
    compact_timeline, delta_style, extension_style, fill_up, marked_counts_line, marquee_offset,
    share_line, share_style, shows_details, spans_width, stat_line, status_line, styled_entry_name_spans,
    styled_path_spans, value_area_width, TextStyle,
};

fn tree(label: &str, source: &str, content: &str) -> SnapshotTree {
    match SnapshotTree::from_json_str(label.to_string(), source.to_string(), content) {
        Ok(tree) => tree,
        Err(error) => panic!("{}", error.message()),
    }
}

fn browser(first: SnapshotTree, second: SnapshotTree) -> App {
    let analysis = match Analysis::new(vec![first, second]) {
        Ok(analysis) => analysis,
        Err(error) => panic!("{}", error.message()),
    };
    match App::new(analysis, SizeMetric::Disk, true) {
        Ok(app) => app,
        Err(error) => panic!("{}", error.message()),
    }
}

fn press(app: &mut App, key: Key) -> AppAction {
    match app.on_key(key) {
        Ok(action) => action,
        Err(error) => panic!("{}", error.message()),
    }
}

fn refresh(app: &mut App) {
    if let Err(error) = app.refresh_rows() {
        panic!("{}", error.message());
    }
}

fn text_of(line: &[Span]) -> String {
    line.iter().map(|span| span.text.as_str()).collect()
}

fn message(app: &App) -> String {
    app.status_message.as_ref().expect("message").text.clone()
}

fn sample() -> App {
    browser(
        tree(
            "first",
            "first.json",
            r#"[1,2,{"progname":"gdu","progver":"v0","timestamp":10},[{"name":"/root","mtime":1},[{"name":"a","mtime":1},{"name":"one.bin","asize":10,"dsize":10,"mtime":1}],{"name":"b.bin","asize":5,"dsize":5,"mtime":1}]]"#,
        ),
        tree(
            "current",
            "second.json",
            r#"[1,2,{"progname":"gdu","progver":"v0","timestamp":20},[{"name":"/root","mtime":1},[{"name":"a","mtime":1},{"name":"one.bin","asize":20,"dsize":20,"mtime":1}],{"name":"b.bin","asize":7,"dsize":7,"mtime":1}]]"#,
        ),
    )
}

#[test]
fn go_parent_reselects_the_directory_we_came_from() {
    let first = tree(
        "first",
        "first.json",
        r#"[1,2,{"progname":"gdu","progver":"v0","timestamp":10},[{"name":"/root","mtime":1},[{"name":"a","mtime":1},{"name":"one.bin","asize":10,"dsize":10,"mtime":1}],{"name":"b.bin","asize":5,"dsize":5,"mtime":1}]]"#,
    );
    let second = tree(
        "second",
        "second.json",
        r#"[1,2,{"progname":"gdu","progver":"v0","timestamp":20},[{"name":"/root","mtime":1},[{"name":"a","mtime":1},{"name":"one.bin","asize":20,"dsize":20,"mtime":1}],{"name":"b.bin","asize":7,"dsize":7,"mtime":1}]]"#,
    );

    let mut app = browser(first, second);
    app.sort = SortMode::Name;
    refresh(&mut app);
    let selected_index =
        app.rows.iter().position(|row| row.path == "a").expect("directory a should exist");
    app.selected = Some(selected_index);

    assert!(app.enter_selected().is_ok());
    assert!(app.go_parent().is_ok());

    assert_eq!(app.current_path, "");
    assert_eq!(app.selected_row().map(|row| row.path.as_str()), Some("a"));
}

#[test]
fn space_marks_and_escape_clears_selection() {
    let first = tree(
        "first",
        "first.json",
        r#"[1,2,{"progname":"gdu","progver":"v0","timestamp":10},[{"name":"/root","mtime":1},{"name":"a.bin","asize":10,"dsize":10,"mtime":1},{"name":"b.bin","asize":5,"dsize":5,"mtime":1}]]"#,
    );
    let second = tree(
        "second",
        "second.json",
        r#"[1,2,{"progname":"gdu","progver":"v0","timestamp":20},[{"name":"/root","mtime":1},{"name":"a.bin","asize":20,"dsize":20,"mtime":1},{"name":"b.bin","asize":7,"dsize":7,"mtime":1}]]"#,
    );

    let mut app = browser(first, second);

    assert!(matches!(press(&mut app, Key::Char(' ')), AppAction::Nothing));
    assert_eq!(app.marked_paths.len(), 1);
    assert_eq!(message(&app), "Marked a.bin");

    assert!(matches!(press(&mut app, Key::Esc), AppAction::Nothing));
    assert!(app.marked_paths.is_empty());
    assert_eq!(message(&app), "Cleared 1 marked entries");
}

#[test]
fn entering_directory_clears_marked_selection() {
    let first = tree(
        "first",
        "first.json",
        r#"[1,2,{"progname":"gdu","progver":"v0","timestamp":10},[{"name":"/root","mtime":1},[{"name":"a","mtime":1},{"name":"one.bin","asize":10,"dsize":10,"mtime":1}],{"name":"b.bin","asize":5,"dsize":5,"mtime":1}]]"#,
    );
    let second = tree(
        "second",
        "second.json",
        r#"[1,2,{"progname":"gdu","progver":"v0","timestamp":20},[{"name":"/root","mtime":1},[{"name":"a","mtime":1},{"name":"one.bin","asize":20,"dsize":20,"mtime":1}],{"name":"b.bin","asize":7,"dsize":7,"mtime":1}]]"#,
    );

    let mut app = browser(first, second);
    app.sort = SortMode::Name;
    refresh(&mut app);
    let selected_index =
        app.rows.iter().position(|row| row.path == "a").expect("directory a should exist");
    app.selected = Some(selected_index);

    let _ = press(&mut app, Key::Char(' '));
    assert_eq!(app.marked_paths.len(), 1);

    let _ = press(&mut app, Key::Enter);
    assert!(app.marked_paths.is_empty());
}

#[test]
fn changing_sort_keeps_marked_selection() {
    let first = tree(
        "first",
        "first.json",
        r#"[1,2,{"progname":"gdu","progver":"v0","timestamp":10},[{"name":"/root","mtime":1},{"name":"b.bin","asize":10,"dsize":10,"mtime":1},{"name":"a.bin","asize":5,"dsize":5,"mtime":1}]]"#,
    );
    let second = tree(
        "second",
        "second.json",
        r#"[1,2,{"progname":"gdu","progver":"v0","timestamp":20},[{"name":"/root","mtime":1},{"name":"b.bin","asize":20,"dsize":20,"mtime":1},{"name":"a.bin","asize":7,"dsize":7,"mtime":1}]]"#,
    );

    let mut app = browser(first, second);

    app.selected = Some(0);
    let _ = press(&mut app, Key::Char(' '));
    app.selected = Some(1);
    let _ = press(&mut app, Key::Char(' '));
    assert_eq!(app.marked_paths.len(), 2);

    let _ = press(&mut app, Key::Char('n'));
    assert_eq!(app.marked_paths.len(), 2);
    assert_eq!(app.marked_summary().map(|summary| summary.count), Some(2));
}

#[test]
fn the_selection_moves_within_the_rows() {
    let mut app = sample();
    assert_eq!(app.rows[0].path, "a");
    assert_eq!(app.selected, Some(0));
    let _ = press(&mut app, Key::Up);
    assert_eq!(app.selected, Some(0));
    let _ = press(&mut app, Key::Char('j'));
    assert_eq!(app.selected, Some(1));
    let _ = press(&mut app, Key::Down);
    assert_eq!(app.selected, Some(1));
    let _ = press(&mut app, Key::Char('g'));
    assert_eq!(app.selected, Some(0));
    app.page_step = 7;
    let _ = press(&mut app, Key::Char('.'));
    assert_eq!(app.selected, Some(1));
    let _ = press(&mut app, Key::PageUp);
    assert_eq!(app.selected, Some(0));
    let _ = press(&mut app, Key::Char('G'));
    assert_eq!(app.selected, Some(1));
}

#[test]
fn an_empty_directory_has_no_selection() {
    let content = r#"[1,2,{"timestamp":1},[{"name":"/root"},[{"name":"e"}]]]"#;
    let mut app = browser(tree("x", "x", content), tree("y", "y", content));
    let _ = press(&mut app, Key::Char('l'));
    assert_eq!(app.current_path, "e");
    assert_eq!(app.selected, None);
    for key in [Key::Up, Key::Char('g'), Key::Char('G'), Key::PageDown, Key::Char(' '), Key::Enter] {
        let _ = press(&mut app, key);
        assert_eq!(app.selected, None);
        assert_eq!(app.current_path, "e");
    }
    match press(&mut app, Key::Char('c')) {
        AppAction::Copy { kind, value } => {
            assert_eq!(kind, CopyKind::RelativePath);
            assert_eq!(value, "e");
        }
        _ => panic!("expected a copy"),
    }
    assert!(app.selected_detail().is_none());
    assert!(app.table_rows().is_empty());
    assert_eq!(text_of(&app.empty_list_lines()[0]), "This directory is empty.");
    let _ = press(&mut app, Key::Backspace);
    assert_eq!(app.current_path, "");
    let _ = press(&mut app, Key::Left);
    assert_eq!(app.current_path, "");
}

#[test]
fn help_takes_the_keys() {
    let mut app = sample();
    let _ = press(&mut app, Key::Char('?'));
    assert!(app.show_help);
    let _ = press(&mut app, Key::Char('j'));
    assert_eq!(app.selected, Some(0));
    let _ = press(&mut app, Key::Esc);
    assert!(!app.show_help);
    let _ = press(&mut app, Key::Char('?'));
    let _ = press(&mut app, Key::Char('?'));
    assert!(!app.show_help);
    let _ = press(&mut app, Key::Char('?'));
    let _ = press(&mut app, Key::Char('q'));
    assert!(app.should_quit && app.show_help);
    assert_eq!(text_of(&help_lines()[0]), "Navigation");
    assert_eq!(help_lines().len(), 16);
}

#[test]
fn keys_switch_what_is_shown() {
    let mut app = sample();
    let _ = press(&mut app, Key::Char(' '));
    let _ = press(&mut app, Key::Char('a'));
    assert_eq!(app.metric, SizeMetric::Apparent);
    assert!(app.marked_paths.is_empty());
    let _ = press(&mut app, Key::Char('f'));
    assert!(!app.include_files);
    assert_eq!(app.rows.len(), 1);
    let _ = press(&mut app, Key::Char('s'));
    assert_eq!(app.sort, SortMode::LatestSize);
    let _ = press(&mut app, Key::Char('p'));
    assert_eq!(app.sort, SortMode::ShareDelta);
    let _ = press(&mut app, Key::Char('d'));
    assert_eq!(app.sort, SortMode::Delta);
    let _ = press(&mut app, Key::Char('n'));
    assert_eq!(app.sort, SortMode::Name);
    let _ = press(&mut app, Key::Other);
    assert!(!app.should_quit);
    let _ = press(&mut app, Key::Char('q'));
    assert!(app.should_quit);
}

#[test]
fn keys_ask_for_copies_shells_and_scans() {
    let mut app = sample();
    match press(&mut app, Key::Char('C')) {
        AppAction::Copy { kind, value } => {
            assert_eq!(kind, CopyKind::AbsolutePath);
            assert_eq!(value, "/root/a");
            app.finish_copy(kind, &value, None);
        }
        _ => panic!("expected a copy"),
    }
    assert_eq!(message(&app), "Copied absolute path: /root/a");
    app.finish_copy(CopyKind::RelativePath, "a", Some("no display".to_string()));
    assert_eq!(message(&app), "Failed to copy relative path: no display");
    match press(&mut app, Key::Char('b')) {
        AppAction::OpenShell { path } => {
            assert_eq!(path, "/root");
            app.finish_shell(&path, None);
        }
        _ => panic!("expected a shell"),
    }
    assert_eq!(message(&app), "Returned from shell: /root");
    app.finish_shell("/root", Some("gone".to_string()));
    assert_eq!(message(&app), "Failed to open shell: gone");
    match press(&mut app, Key::Char('r')) {
        AppAction::Rescan { path } => assert_eq!(path, "/root"),
        _ => panic!("expected a scan"),
    }
    let content = r#"[1,2,{"timestamp":1},[{"name":"/root"}]]"#;
    let mut plain = browser(tree("x", "x", content), tree("y", "y", content));
    assert!(matches!(press(&mut plain, Key::Char('r')), AppAction::Nothing));
    match press(&mut plain, Key::Char('c')) {
        AppAction::Copy { value, .. } => assert_eq!(value, "."),
        _ => panic!("expected a copy"),
    }
}

#[test]
fn a_scan_replaces_the_directory_on_the_screen() {
    let mut app = sample();
    let _ = press(&mut app, Key::Char('l'));
    assert_eq!(app.current_path, "a");
    let found = tree(
        "found",
        "found.json",
        r#"[1,2,{"timestamp":30},[{"name":"/root/a"},{"name":"two.bin","asize":1,"dsize":2}]]"#,
    );
    assert!(app.finish_rescan(&found).is_ok());
    assert_eq!(message(&app), "Rescanned /root/a");
    let rows: Vec<(&str, u64, ChangeKind)> =
        app.rows.iter().map(|r| (r.name.as_str(), r.latest_size, r.change_kind)).collect();
    assert_eq!(
        rows,
        vec![("two.bin", 2, ChangeKind::Added), ("one.bin", 0, ChangeKind::Removed)]
    );
    let _ = press(&mut app, Key::Char('h'));
    let sizes: Vec<(&str, u64)> =
        app.rows.iter().map(|r| (r.name.as_str(), r.latest_size)).collect();
    assert_eq!(sizes, vec![("b.bin", 7), ("a", 2)]);
    let _ = press(&mut app, Key::Char('l'));
    let _ = press(&mut app, Key::Down);
    let _ = press(&mut app, Key::Char('l'));
    let empty = tree("found", "found.json", r#"[1,2,{"timestamp":40},[{"name":"/root/a"}]]"#);
    assert_eq!(app.current_path, "a");
    assert!(app.finish_rescan(&empty).is_ok());
    let _ = press(&mut app, Key::Char('h'));
    let sizes: Vec<(&str, u64)> =
        app.rows.iter().map(|r| (r.name.as_str(), r.latest_size)).collect();
    assert_eq!(sizes, vec![("b.bin", 7), ("a", 0)]);
}

#[test]
fn marks_are_toggled_and_summed_up() {
    let mut app = sample();
    let _ = press(&mut app, Key::Char(' '));
    let _ = press(&mut app, Key::Down);
    let _ = press(&mut app, Key::Char(' '));
    assert!(app.is_marked("a") && app.is_marked("b.bin"));
    let summary = app.marked_summary().expect("summary");
    assert_eq!(summary.count, 2);
    assert_eq!(
        summary.counts,
        ChangeCounts { added: 0, removed: 0, changed: 2, unchanged: 0 }
    );
    assert_eq!((summary.baseline_size, summary.latest_size, summary.delta), (15, 27, 12));
    let lines: Vec<String> =
        marked_panel_lines(Some(summary)).iter().map(|line| text_of(line)).collect();
    assert_eq!(
        lines,
        vec![
            "Items     2",
            "Counts    +0  -0  ~2  =0",
            "Baseline  15 B",
            "Latest    27 B",
            "Delta     +12 B",
            "Parent  100.0% -> 100.0%  +0.0pp",
            "Root    100.0% -> 100.0%  +0.0pp",
        ]
    );
    let _ = press(&mut app, Key::Char(' '));
    assert!(!app.is_marked("b.bin"));
    assert_eq!(message(&app), "Unmarked b.bin");
    let _ = press(&mut app, Key::Char('k'));
    let _ = press(&mut app, Key::Char(' '));
    assert!(app.marked_summary().is_none());
    let lines: Vec<String> =
        marked_panel_lines(None).iter().map(|line| text_of(line)).collect();
    assert_eq!(lines, vec!["No marked entries.", "Press Space to mark the current row."]);
}

#[test]
fn the_overview_tells_where_we_are() {
    let mut app = sample();
    let lines = |app: &App| -> Vec<String> {
        match app.overview_lines() {
            Ok(lines) => lines.iter().map(|line| text_of(line)).collect(),
            Err(error) => panic!("{}", error.message()),
        }
    };
    assert_eq!(
        lines(&app),
        vec![
            "gdu-diff  root /root  snapshots 2  range first -> current  metric disk",
            "Path      /root/  visible dirs + files  sort delta",
            "Current 15 B -> 27 B  +12 B  R 100.0% -> 100.0% +0.0pp",
            "Status  Ready",
        ]
    );
    let _ = press(&mut app, Key::Char('l'));
    let _ = press(&mut app, Key::Char('f'));
    assert_eq!(
        lines(&app),
        vec![
            "gdu-diff  root /root  snapshots 2  range first -> current  metric disk",
            "Path      /root/a/  visible dirs only  sort delta",
            "Current 10 B -> 20 B  +10 B  P 66.7% -> 74.1% +7.4pp  R 66.7% -> 74.1% +7.4pp",
            "Status  Ready",
        ]
    );
    app.current_path = "nowhere".to_string();
    match app.overview_lines() {
        Ok(_) => panic!("expected an error"),
        Err(error) => {
            assert_eq!(error.message(), "path nowhere does not exist in the snapshot set")
        }
    }
}

#[test]
fn rows_are_shown_in_columns() {
    let mut app = sample();
    let _ = press(&mut app, Key::Char(' '));
    let table: Vec<Vec<String>> = app
        .table_rows()
        .iter()
        .map(|cells| cells.iter().map(|cell| text_of(cell)).collect())
        .collect();
    assert_eq!(
        table,
        vec![
            vec!["*", "D", "~", "a/", "20 B", "+10 B", "74.1%", "+7.4pp"],
            vec!["", "F", "~", "b.bin", "7 B", "+2 B", "25.9%", "-7.4pp"],
        ]
    );
    assert_eq!(
        column_headers(),
        vec!["M", "Type", "Change", "Name", "Latest", "Delta", "Share", "ShareD"]
    );
}

#[test]
fn the_selected_row_is_told_in_detail() {
    let mut app = sample();
    let _ = press(&mut app, Key::Char('G'));
    let detail = app.selected_detail().expect("detail");
    assert_eq!(text_of(&detail.name_spans), "b.bin");
    assert_eq!(text_of(&detail.path_spans), "/root/b.bin");
    assert_eq!(text_of(&detail.kind_spans), "file");
    assert_eq!(text_of(&detail.change_spans), "~");
    let all = |lines: &Vec<Vec<Span>>| -> Vec<String> {
        lines.iter().map(|line| text_of(line)).collect()
    };
    assert_eq!(all(&detail.size_lines), vec!["Baseline  5 B", "Latest    7 B", "Delta     +2 B"]);
    assert_eq!(
        all(&detail.share_lines),
        vec!["Parent  33.3% -> 25.9%  -7.4pp", "Root    33.3% -> 25.9%  -7.4pp"]
    );
    assert_eq!(
        all(&detail.timeline_lines),
        vec!["Labels    first | current", "Sizes     5 B | 7 B", "Parent    33.3% | 25.9%"]
    );
}

#[test]
fn long_timelines_are_shortened() {
    let list = |n: usize| (1..=n).map(|i| i.to_string()).collect::<Vec<String>>();
    assert_eq!(compact_timeline(&list(0)), "");
    assert_eq!(compact_timeline(&list(6)), "1 | 2 | 3 | 4 | 5 | 6");
    assert_eq!(compact_timeline(&list(7)), "1 | 2 | 3 | ... | 6 | 7");
    assert_eq!(compact_timeline(&list(20)), "1 | 2 | 3 | ... | 19 | 20");
}

#[test]
fn names_and_paths_have_colors() {
    let shown = |name: &str, kind: EntryKind| -> Vec<(String, Color, bool)> {
        styled_entry_name_spans(name, kind)
            .into_iter()
            .map(|span| (span.text, span.style.color, span.style.bold))
            .collect()
    };
    let blue = Color::Rgb(36, 148, 255);
    let white = Color::Rgb(235, 235, 235);
    let magenta = Color::Rgb(215, 0, 255);
    let gray = Color::Rgb(214, 214, 214);
    let piece = |text: &str, color: Color, bold: bool| (text.to_string(), color, bold);
    assert_eq!(
        shown("src", EntryKind::Mixed),
        vec![piece("src", blue, true), piece("/", gray, false)]
    );
    assert_eq!(
        shown("main.rs", EntryKind::File),
        vec![piece("main", white, true), piece(".rs", Color::Rgb(107, 214, 114), true)]
    );
    assert_eq!(
        shown("shot-1.json.zst", EntryKind::File),
        vec![piece("shot-1", white, true), piece(".json.zst", magenta, true)]
    );
    assert_eq!(
        shown("a.zst", EntryKind::File),
        vec![piece("a", white, true), piece(".zst", white, true)]
    );
    assert_eq!(
        shown("x.json", EntryKind::File),
        vec![piece("x", white, true), piece(".json", magenta, true)]
    );
    assert_eq!(
        shown(".hidden.json", EntryKind::File),
        vec![piece(".hidden.json", Color::Rgb(198, 198, 198), true)]
    );
    assert_eq!(shown("plain", EntryKind::File), vec![piece("plain", white, true)]);
    assert_eq!(shown("dot.", EntryKind::File), vec![piece("dot.", white, true)]);
    let path = |text: &str, kind: EntryKind| -> Vec<String> {
        styled_path_spans(text, kind).into_iter().map(|span| span.text).collect()
    };
    assert_eq!(path("/", EntryKind::Dir), vec!["/"]);
    assert_eq!(path("/a//b.md", EntryKind::File), vec!["/", "a", "/", "b", ".md"]);
    assert_eq!(path("a/b", EntryKind::Dir), vec!["a", "/", "b", "/"]);
    assert_eq!(path("", EntryKind::Dir), Vec::<String>::new());
    assert_eq!(extension_style("yml").color, Color::Rgb(255, 176, 0));
    assert_eq!(extension_style("txt").color, Color::Rgb(224, 224, 224));
}

#[test]
fn changes_have_colors() {
    assert_eq!(delta_style(3).color, Color::Red);
    assert_eq!(delta_style(-3).color, Color::Green);
    assert_eq!(delta_style(0).color, Color::Plain);
    assert_eq!(share_style(Double::one()).color, Color::Red);
    assert_eq!(share_style(Double::one().negated()).color, Color::Green);
    assert_eq!(share_style(Double::zero()).color, Color::Plain);
    assert_eq!(StatusKind::Error.style(), TextStyle { color: Color::Red, bold: true });
    assert_eq!(
        StatusKind::Info.style(),
        TextStyle { color: Color::Rgb(170, 170, 170), bold: false }
    );
}

#[test]
fn labels_are_filled_up() {
    assert_eq!(fill_up("ab", 4), "ab  ");
    assert_eq!(fill_up("abcde", 4), "abcde");
    assert_eq!(fill_up("é", 2), "é ");
    let style = TextStyle { color: Color::Cyan, bold: true };
    assert_eq!(text_of(&stat_line("Size", "3 B".to_string(), style)), "Size      3 B");
    assert_eq!(
        text_of(&share_line("Parent", Double::zero(), Double::one(), Double::one())),
        "Parent  0.0% -> 100.0%  +100.0pp"
    );
    let counts = ChangeCounts { added: 1, removed: 2, changed: 3, unchanged: 4 };
    assert_eq!(text_of(&marked_counts_line(counts)), "Counts    +1  -2  ~3  =4");
    assert_eq!(text_of(&status_line(&None)), "Status  Ready");
    assert_eq!(children_empty_lines(true).len(), 1);
    assert_eq!(
        text_of(&children_empty_lines(false)[1]),
        "If it only contains files, press f to show them."
    );
}

#[test]
fn wide_texts_move_forth_and_back() {
    assert_eq!(marquee_offset(10, 0, 5), 0);
    assert_eq!(marquee_offset(10, 10, 5), 0);
    let offsets: Vec<u16> = (0..15).map(|tick| marquee_offset(13, 10, tick)).collect();
    assert_eq!(offsets, vec![0, 0, 0, 0, 0, 1, 2, 3, 3, 3, 3, 3, 2, 1, 0]);
    assert_eq!(marquee_offset(200_000, 10, 100_000), u16::MAX);
    assert_eq!(value_area_width(30, 10), 20);
    assert_eq!(value_area_width(5, 10), 0);
    assert_eq!(children_page_step(0), 1);
    assert_eq!(children_page_step(4), 1);
    assert_eq!(children_page_step(20), 17);
    let line = stat_line("é", "ab".to_string(), TextStyle { color: Color::Plain, bold: false });
    assert_eq!(spans_width(&line), 12);
}

#[test]
fn details_need_room() {
    assert!(shows_details(85, 27));
    assert!(!shows_details(84, 27));
    assert!(!shows_details(85, 26));
    assert!(shows_details(200, 60));
}
