//! The browser of a comparison: what is on the screen, and what the keys do.

use crate::analysis::{Analysis, ChangeKind, EntryKind, RowData, RowView, SortMode, baseline_root, change_sign, full_path, holds_latest, is_child, is_child_row, kind_label, kind_letter, latest_root, law_children_are_determined, lemma_row_order_asymmetric, lists_children, opens, parent_of, range_label, rescanned, root_delta, row_at, row_comes_first, row_for, row_sound, row_views, sort_label, wrapped};
use crate::double::{Double, negation, sum_of};
use crate::format::{format_share_delta, format_signed_size, format_size, percent, percent_text, share_change, signed_size, size_text};
use crate::gdu::{NodeView, SnapshotTree};
use crate::index::{AnalysisError, AnalysisErrorView, IndexView, SizeMetric, TreeView, child_path, index_of, is_within, law_replacing_keeps_the_rest, metric_label, same_entry, zero};
use crate::text::{copied, decimal, decimal_text, joined_pair, same_text, view_option, views};
use crate::view::{ChangeCounts, Color, Span, SpanView, StatusKind, StatusMessage, StatusView, TextStyle, bold, change_color, change_kind_style, children_empty_lines, compact, compact_timeline, counts_line, current_dir_summary_line, delta_color, delta_style, directory_color, directory_style, empty_lines, entry_spans, labelled_line, line_view, lines_view, marked_counts_line, message_line, pale, path_spans, raw, share_color, share_line, share_style, shares_line, span, stat_line, stat_line_spans, status_line, styled_entry_name_spans, styled_path_spans, summary_line, thin, value_line, view_status};
use vstd::prelude::*;
use vstd::string::StringExecFns;

verus! {

/// The label of a scan of the current state.
pub const CURRENT_LABEL: &'static str = "current";

/// What is on the screen.
#[verifier::ext_equal]
pub struct AppView {
    pub all: Seq<IndexView>,
    pub latest: NodeView,
    pub metric: SizeMetric,
    pub sort: SortMode,
    pub include_files: bool,
    pub current_path: Seq<char>,
    pub rows: Seq<RowView>,
    pub marked: Seq<Seq<char>>,
    pub selected: Option<usize>,
    pub page_step: usize,
    pub show_help: bool,
    pub should_quit: bool,
    pub status: Option<StatusView>,
}

/// A browser of a comparison.
pub struct App {
    pub analysis: Analysis,
    pub metric: SizeMetric,
    pub sort: SortMode,
    pub include_files: bool,
    pub current_path: String,
    pub rows: Vec<RowData>,
    pub marked_paths: Vec<String>,
    pub selected: Option<usize>,
    pub page_step: usize,
    pub show_help: bool,
    pub should_quit: bool,
    pub status_message: Option<StatusMessage>,
}

/// A key.
#[derive(Clone, Copy, Debug, PartialEq, Eq, Structural)]
pub enum Key {
    Char(char),
    Up,
    Down,
    PageUp,
    PageDown,
    Left,
    Right,
    Enter,
    Backspace,
    Esc,
    Other,
}

/// What is copied.
#[derive(Clone, Copy, Debug, PartialEq, Eq, Structural)]
pub enum CopyKind {
    RelativePath,
    AbsolutePath,
}

/// The name of what is copied.
pub open spec fn copy_label(kind: CopyKind) -> Seq<char> {
    match kind {
        CopyKind::RelativePath => "relative path"@,
        CopyKind::AbsolutePath => "absolute path"@,
    }
}

impl CopyKind {
    /// The name of what is copied.
    pub fn label(self) -> (r: &'static str)
        ensures
            r@ == copy_label(self),
    {
        match self {
            CopyKind::RelativePath => "relative path",
            CopyKind::AbsolutePath => "absolute path",
        }
    }
}

/// What a key asks for outside of the browser.
pub enum AppActionView {
    Nothing,
    OpenShell { path: Seq<char> },
    Copy { kind: CopyKind, value: Seq<char> },
    Rescan { path: Seq<char> },
}

/// What a key asks for outside of the browser.
#[derive(Debug)]
pub enum AppAction {
    Nothing,
    OpenShell { path: String },
    Copy { kind: CopyKind, value: String },
    Rescan { path: String },
}

impl AppAction {
    /// What is asked for.
    pub open spec fn view(&self) -> AppActionView {
        match *self {
            AppAction::Nothing => AppActionView::Nothing,
            AppAction::OpenShell { path } => AppActionView::OpenShell { path: path@ },
            AppAction::Copy { kind, value } => AppActionView::Copy { kind, value: value@ },
            AppAction::Rescan { path } => AppActionView::Rescan { path: path@ },
        }
    }
}

/// The row that is selected, if there is one.
pub open spec fn selected_of(app: AppView) -> Option<RowView> {
    match app.selected {
        Some(i) if i < app.rows.len() => Some(app.rows[i as int]),
        _ => None,
    }
}

/// The first place of a path among rows, or -1.
pub open spec fn row_place(rows: Seq<RowView>, path: Seq<char>) -> int
    decreases rows.len(),
{
    if rows.len() == 0 {
        -1
    } else if row_place(rows.drop_last(), path) >= 0 {
        row_place(rows.drop_last(), path)
    } else if rows.last().path == path {
        rows.len() - 1
    } else {
        -1
    }
}

/// The place to select: that of the path if it is there, or else the first.
pub open spec fn selection_for(rows: Seq<RowView>, path: Option<Seq<char>>) -> Option<usize> {
    match path {
        Some(wanted) if row_place(rows, wanted) >= 0 => Some(row_place(rows, wanted) as usize),
        _ => if rows.len() > 0 {
            Some(0)
        } else {
            None
        },
    }
}

/// The rows are listed anew; what was selected, or is wanted, stays selected.
pub open spec fn refreshed(before: AppView, wanted: Option<Seq<char>>, after: AppView) -> bool {
    let path = match wanted {
        Some(path) => Some(path),
        None => match selected_of(before) {
            Some(row) => Some(row.path),
            None => None,
        },
    };
    &&& lists_children(
        before.all,
        before.current_path,
        before.include_files,
        before.metric,
        before.sort,
        after.rows,
    )
    &&& after == (AppView {
        rows: after.rows,
        selected: selection_for(after.rows, path),
        ..before
    })
}

/// Another place is selected, as far as there are rows.
pub open spec fn moved_by(app: AppView, steps: int) -> AppView {
    if app.rows.len() == 0 {
        AppView { selected: None, ..app }
    } else {
        let from = match app.selected {
            Some(i) => i as int,
            None => 0,
        };
        let to = from + steps;
        let last = app.rows.len() - 1;
        AppView {
            selected: Some(
                (if to < 0 {
                    0
                } else if to > last {
                    last
                } else {
                    to
                }) as usize,
            ),
            ..app
        }
    }
}

/// How many rows a page has.
pub open spec fn page_of(app: AppView) -> int {
    if app.page_step == 0 {
        1
    } else {
        app.page_step as int
    }
}

/// The place of a path among the marked ones, or -1.
pub open spec fn mark_place(marked: Seq<Seq<char>>, path: Seq<char>) -> int
    decreases marked.len(),
{
    if marked.len() == 0 {
        -1
    } else if mark_place(marked.drop_last(), path) >= 0 {
        mark_place(marked.drop_last(), path)
    } else if marked.last() == path {
        marked.len() - 1
    } else {
        -1
    }
}

/// A message about what was done.
pub open spec fn info(text: Seq<char>) -> Option<StatusView> {
    Some(StatusView { text, kind: StatusKind::Info })
}

/// A message about what failed.
pub open spec fn failure(text: Seq<char>) -> Option<StatusView> {
    Some(StatusView { text, kind: StatusKind::Error })
}

/// The selected row is marked, or no longer marked.
pub open spec fn toggled(app: AppView) -> AppView {
    match selected_of(app) {
        Some(row) => if mark_place(app.marked, row.path) >= 0 {
            AppView {
                marked: app.marked.remove(mark_place(app.marked, row.path)),
                status: info("Unmarked "@ + row.name),
                ..app
            }
        } else {
            AppView {
                marked: app.marked.push(row.path),
                status: info("Marked "@ + row.name),
                ..app
            }
        },
        None => app,
    }
}

/// No row is marked.
pub open spec fn unmarked(app: AppView) -> AppView {
    AppView { marked: seq![], ..app }
}

/// No row is marked, and a message says how many were.
pub open spec fn cleared(app: AppView) -> AppView {
    if app.marked.len() == 0 {
        app
    } else {
        AppView {
            marked: seq![],
            status: info("Cleared "@ + decimal(app.marked.len()) + " marked entries"@),
            ..app
        }
    }
}

/// What is copied: the path of the selected row, or of the directory.
pub open spec fn copied_path(app: AppView) -> Seq<char> {
    match selected_of(app) {
        Some(row) => row.path,
        None => app.current_path,
    }
}

/// The relative path that is copied.
pub open spec fn relative_path(app: AppView) -> Seq<char> {
    if copied_path(app).len() == 0 {
        "."@
    } else {
        copied_path(app)
    }
}

/// The metric that is not the given one.
pub open spec fn other_metric(metric: SizeMetric) -> SizeMetric {
    match metric {
        SizeMetric::Disk => SizeMetric::Apparent,
        SizeMetric::Apparent => SizeMetric::Disk,
    }
}

/// What was found in the directory on the screen takes the place of what the last snapshot
/// holds there, and a message says so.
pub open spec fn rescanned_app(app: AppView, found: NodeView) -> AppView {
    let latest = rescanned(app.latest, app.current_path, found);
    AppView {
        all: app.all.update(
            app.all.len() - 1,
            index_of(TreeView { label: app.all.last().label, exported_at: None, root: latest }),
        ),
        latest,
        status: info("Rescanned "@ + full_path(app.all, app.current_path)),
        ..app
    }
}

/// The selected directory is entered.
pub open spec fn entered(before: AppView, after: AppView) -> bool {
    match selected_of(before) {
        Some(row) if opens(row.kind) => refreshed(
            AppView { current_path: row.path, ..unmarked(before) },
            None,
            after,
        ),
        _ => after == before,
    }
}

/// The parent directory is entered, and the directory that was left is selected.
pub open spec fn left(before: AppView, after: AppView) -> bool {
    match parent_of(before.current_path) {
        Some(parent) => refreshed(
            AppView { current_path: parent, ..unmarked(before) },
            Some(before.current_path),
            after,
        ),
        None => after == before,
    }
}

/// What a key does.
pub open spec fn pressed(
    before: AppView,
    key: Key,
    after: AppView,
    action: AppActionView,
) -> bool {
    let quiet = action == AppActionView::Nothing;
    if before.show_help {
        quiet && after == (match key {
            Key::Esc => AppView { show_help: false, ..before },
            Key::Char('?') => AppView { show_help: false, ..before },
            Key::Char('q') => AppView { should_quit: true, ..before },
            _ => before,
        })
    } else {
        match key {
            Key::Char('q') => quiet && after == (AppView { should_quit: true, ..before }),
            Key::Esc => quiet && after == cleared(before),
            Key::Up | Key::Char('k') => quiet && after == moved_by(before, -1),
            Key::Down | Key::Char('j') => quiet && after == moved_by(before, 1),
            Key::PageUp | Key::Char(',') => quiet && after == moved_by(before, -page_of(before)),
            Key::PageDown | Key::Char('.') => quiet && after == moved_by(before, page_of(before)),
            Key::Char('g') => quiet && after == (AppView {
                selected: if before.rows.len() == 0 {
                    None
                } else {
                    Some(0usize)
                },
                ..before
            }),
            Key::Char('G') => quiet && after == (AppView {
                selected: if before.rows.len() == 0 {
                    None
                } else {
                    Some((before.rows.len() - 1) as usize)
                },
                ..before
            }),
            Key::Right | Key::Enter | Key::Char('l') => quiet && entered(before, after),
            Key::Left | Key::Backspace | Key::Char('h') => quiet && left(before, after),
            Key::Char('a') => quiet && refreshed(
                AppView { metric: other_metric(before.metric), ..unmarked(before) },
                None,
                after,
            ),
            Key::Char('f') => quiet && refreshed(
                AppView { include_files: !before.include_files, ..unmarked(before) },
                None,
                after,
            ),
            Key::Char('n') => quiet && refreshed(
                AppView { sort: SortMode::Name, ..before },
                None,
                after,
            ),
            Key::Char('s') => quiet && refreshed(
                AppView { sort: SortMode::LatestSize, ..before },
                None,
                after,
            ),
            Key::Char('d') => quiet && refreshed(
                AppView { sort: SortMode::Delta, ..before },
                None,
                after,
            ),
            Key::Char('p') => quiet && refreshed(
                AppView { sort: SortMode::ShareDelta, ..before },
                None,
                after,
            ),
            Key::Char(' ') => quiet && after == toggled(before),
            Key::Char('c') => after == before && action == (AppActionView::Copy {
                kind: CopyKind::RelativePath,
                value: relative_path(before),
            }),
            Key::Char('C') => after == before && action == (AppActionView::Copy {
                kind: CopyKind::AbsolutePath,
                value: full_path(before.all, copied_path(before)),
            }),
            Key::Char('b') => after == before && action == (AppActionView::OpenShell {
                path: full_path(before.all, before.current_path),
            }),
            Key::Char('r') => after == before && action == (if before.all.last().label
                == CURRENT_LABEL@ {
                AppActionView::Rescan { path: full_path(before.all, before.current_path) }
            } else {
                AppActionView::Nothing
            }),
            Key::Char('?') => quiet && after == (AppView { show_help: true, ..before }),
            _ => quiet && after == before,
        }
    }
}

/// No path is marked twice.
pub open spec fn no_repeats(marked: Seq<Seq<char>>) -> bool {
    forall|i: int, j: int|
        0 <= i < j < marked.len() ==> #[trigger] marked[i] != #[trigger] marked[j]
}

pub proof fn lemma_mark_place(marked: Seq<Seq<char>>, path: Seq<char>)
    ensures
        -1 <= mark_place(marked, path) < marked.len(),
        mark_place(marked, path) >= 0 ==> marked[mark_place(marked, path)] == path,
        mark_place(marked, path) < 0 ==> !marked.contains(path),
        forall|i: int| 0 <= i < mark_place(marked, path) ==> marked[i] != path,
    decreases marked.len(),
{
    if marked.len() > 0 {
        lemma_mark_place(marked.drop_last(), path);
        if mark_place(marked, path) < 0 && marked.contains(path) {
            let i = choose|i: int| 0 <= i < marked.len() && marked[i] == path;
            assert(marked.drop_last()[i] == path);
        }
        assert forall|i: int| 0 <= i < mark_place(marked, path) implies marked[i] != path by {
            assert(marked.drop_last()[i] == marked[i]);
            if mark_place(marked.drop_last(), path) < 0 && marked[i] == path {
                assert(marked.drop_last().contains(path));
            }
        }
    }
}

pub proof fn lemma_row_place(rows: Seq<RowView>, path: Seq<char>)
    ensures
        -1 <= row_place(rows, path) < rows.len(),
        row_place(rows, path) >= 0 ==> rows[row_place(rows, path)].path == path,
        forall|i: int| 0 <= i < rows.len() && (#[trigger] rows[i]).path == path ==> 0 <= row_place(
            rows,
            path,
        ) <= i,
    decreases rows.len(),
{
    if rows.len() > 0 {
        lemma_row_place(rows.drop_last(), path);
        assert forall|i: int| 0 <= i < rows.len() && (#[trigger] rows[i]).path == path implies 0
            <= row_place(rows, path) <= i by {
            if i < rows.len() - 1 {
                assert(rows.drop_last()[i] == rows[i]);
            }
        }
    }
}

impl App {
    /// What is on the screen.
    pub open spec fn view(&self) -> AppView {
        AppView {
            all: self.analysis@.all,
            latest: self.analysis@.latest,
            metric: self.metric,
            sort: self.sort,
            include_files: self.include_files,
            current_path: self.current_path@,
            rows: row_views(self.rows@),
            marked: views(self.marked_paths@),
            selected: self.selected,
            page_step: self.page_step,
            show_help: self.show_help,
            should_quit: self.should_quit,
            status: view_status(self.status_message),
        }
    }

    /// The rows are those of some analysis, no path is marked twice, and a row is selected
    /// if there is one.
    pub open spec fn wf(&self) -> bool {
        &&& forall|i: int| 0 <= i < self.rows@.len() ==> row_sound((#[trigger] self.rows@[i])@)
        &&& no_repeats(views(self.marked_paths@))
        &&& match self.selected {
            Some(i) => i < self.rows@.len(),
            None => self.rows@.len() == 0,
        }
    }

    /// A browser at the root of a comparison.
    pub fn new(analysis: Analysis, metric: SizeMetric, include_files: bool) -> (r: Result<
        App,
        AnalysisError,
    >)
        ensures
            r matches Ok(app) && app.wf() && app.analysis == analysis && refreshed(
                (AppView {
                    all: analysis@.all,
                    latest: analysis@.latest,
                    metric,
                    sort: SortMode::Delta,
                    include_files,
                    current_path: seq![],
                    rows: seq![],
                    marked: seq![],
                    selected: None,
                    page_step: 1,
                    show_help: false,
                    should_quit: false,
                    status: None,
                }),
                None,
                app@,
            ),
    {
        let mut app = App {
            analysis,
            metric,
            sort: SortMode::Delta,
            include_files,
            current_path: String::new(),
            rows: Vec::new(),
            marked_paths: Vec::new(),
            selected: None,
            page_step: 1,
            show_help: false,
            should_quit: false,
            status_message: None,
        };
        proof {
            assert(app@.current_path =~= seq![]);
            assert(app@.rows =~= seq![]);
            assert(app@.marked =~= seq![]);
        }
        match app.refresh_rows() {
            Ok(()) => Ok(app),
            Err(error) => Err(error),
        }
    }

    /// Lists the rows anew.
    pub fn refresh_rows(&mut self) -> (r: Result<(), AnalysisError>)
        requires
            no_repeats(old(self)@.marked),
        ensures
            r is Ok,
            final(self).wf(),
            refreshed(old(self)@, None, final(self)@),
            final(self).analysis == old(self).analysis,
    {
        self.refresh_rows_with_selection(None)
    }

    /// Lists the rows anew, and selects the row with a path if it is there.
    pub fn refresh_rows_with_selection(&mut self, preferred_path: Option<String>) -> (r: Result<
        (),
        AnalysisError,
    >)
        requires
            no_repeats(old(self)@.marked),
        ensures
            r is Ok,
            final(self).wf(),
            refreshed(old(self)@, view_option(preferred_path), final(self)@),
            final(self).analysis == old(self).analysis,
    {
        let ghost before = self@;
        let wanted = match preferred_path {
            Some(path) => Some(path),
            None => match self.selected_row() {
                Some(row) => Some(copied(row.path.as_str())),
                None => None,
            },
        };
        match self.analysis.children_of(
            self.current_path.as_str(),
            self.include_files,
            self.metric,
            self.sort,
        ) {
            Ok(rows) => {
                self.selected = choose_row(&rows, &wanted);
                self.rows = rows;
                proof {
                    match view_option(wanted) {
                        Some(path) => lemma_row_place(self@.rows, path),
                        None => {},
                    }
                    assert(self@ =~= AppView {
                        rows: self@.rows,
                        selected: self@.selected,
                        ..before
                    });
                }
                Ok(())
            },
            Err(error) => Err(error),
        }
    }

    /// The row that is selected.
    pub fn selected_row(&self) -> (r: Option<&RowData>)
        ensures
            match r {
                Some(row) => selected_of(self@) == Some(row@),
                None => selected_of(self@) is None,
            },
            self.wf() ==> (r matches Some(row) ==> row_sound(row@)),
    {
        match self.selected {
            Some(i) => if i < self.rows.len() {
                assert(self@.rows[i as int] == self.rows@[i as int]@);
                Some(&self.rows[i])
            } else {
                None
            },
            None => None,
        }
    }
}

/// The place to select.
fn choose_row(rows: &Vec<RowData>, wanted: &Option<String>) -> (r: Option<usize>)
    ensures
        r == selection_for(row_views(rows@), view_option(*wanted)),
{
    let ghost all = row_views(rows@);
    match wanted {
        Some(path) => {
            let mut i: usize = 0;
            assert(all.take(0) =~= seq![]);
            while i < rows.len()
                invariant
                    *wanted == Some(*path),
                    all == row_views(rows@),
                    i <= rows@.len(),
                    row_place(all.take(i as int), path@) < 0,
                decreases rows@.len() - i,
            {
                proof {
                    assert(all.take(i + 1).drop_last() =~= all.take(i as int));
                    assert(all.take(i + 1).last() == rows@[i as int]@);
                }
                if same_text(rows[i].path.as_str(), path.as_str()) {
                    proof {
                        lemma_row_place_stays(all, path@, i + 1);
                    }
                    return Some(i);
                }
                i = i + 1;
            }
            assert(all.take(i as int) =~= all);
        },
        None => {},
    }
    if rows.len() > 0 {
        Some(0)
    } else {
        None
    }
}

proof fn lemma_row_place_stays(rows: Seq<RowView>, path: Seq<char>, n: int)
    requires
        0 <= n <= rows.len(),
        row_place(rows.take(n), path) >= 0,
    ensures
        row_place(rows, path) == row_place(rows.take(n), path),
    decreases rows.len() - n,
{
    if n < rows.len() {
        assert(rows.take(n + 1).drop_last() =~= rows.take(n));
        lemma_row_place_stays(rows, path, n + 1);
    } else {
        assert(rows.take(n) =~= rows);
    }
}

proof fn lemma_removed_has_no_repeats(marked: Seq<Seq<char>>, i: int)
    requires
        no_repeats(marked),
        0 <= i < marked.len(),
    ensures
        no_repeats(marked.remove(i)),
{
    let rest = marked.remove(i);
    assert forall|a: int, b: int| 0 <= a < b < rest.len() implies #[trigger] rest[a]
        != #[trigger] rest[b] by {
        let x = if a < i { a } else { a + 1 };
        let y = if b < i { b } else { b + 1 };
        assert(rest[a] == marked[x]);
        assert(rest[b] == marked[y]);
    }
}

/// The place of a path among the marked ones.
fn find_mark(marked: &Vec<String>, path: &str) -> (r: Option<usize>)
    ensures
        match r {
            Some(i) => i == mark_place(views(marked@), path@) && i < marked@.len(),
            None => mark_place(views(marked@), path@) < 0,
        },
{
    let ghost all = views(marked@);
    let mut i: usize = 0;
    assert(all.take(0) =~= seq![]);
    while i < marked.len()
        invariant
            all == views(marked@),
            i <= marked@.len(),
            mark_place(all.take(i as int), path@) < 0,
        decreases marked@.len() - i,
    {
        proof {
            assert(all.take(i + 1).drop_last() =~= all.take(i as int));
            assert(all.take(i + 1).last() == marked@[i as int]@);
        }
        if same_text(marked[i].as_str(), path) {
            proof {
                lemma_mark_place_stays(all, path@, i + 1);
            }
            return Some(i);
        }
        i = i + 1;
    }
    assert(all.take(i as int) =~= all);
    None
}

proof fn lemma_mark_place_stays(marked: Seq<Seq<char>>, path: Seq<char>, n: int)
    requires
        0 <= n <= marked.len(),
        mark_place(marked.take(n), path) >= 0,
    ensures
        mark_place(marked, path) == mark_place(marked.take(n), path),
    decreases marked.len() - n,
{
    if n < marked.len() {
        assert(marked.take(n + 1).drop_last() =~= marked.take(n));
        lemma_mark_place_stays(marked, path, n + 1);
    } else {
        assert(marked.take(n) =~= marked);
    }
}

impl App {
    /// Selects another row, as far as there are rows.
    pub fn move_selection(&mut self, delta: isize)
        requires
            old(self).wf(),
        ensures
            final(self).wf(),
            final(self)@ == moved_by(old(self)@, delta as int),
            final(self).analysis == old(self).analysis,
    {
        self.move_selection_by(delta as i128)
    }

    fn move_selection_by(&mut self, steps: i128)
        requires
            old(self).wf(),
            -0x1_0000_0000_0000_0000 <= steps <= 0x1_0000_0000_0000_0000,
        ensures
            final(self).wf(),
            final(self)@ == moved_by(old(self)@, steps as int),
            final(self).analysis == old(self).analysis,
    {
        let count: usize = self.rows.len();
        if count == 0 {
            self.selected = None;
            return;
        }
        let from: usize = match self.selected {
            Some(i) => i,
            None => 0,
        };
        let to: i128 = from as i128 + steps;
        let last: usize = count - 1;
        let next: usize = if to < 0 {
            0
        } else if to > last as i128 {
            last
        } else {
            to as usize
        };
        self.selected = Some(next);
    }

    /// Selects a row a page further.
    pub fn move_selection_page(&mut self, forward: bool)
        requires
            old(self).wf(),
        ensures
            final(self).wf(),
            final(self)@ == moved_by(
                old(self)@,
                if forward {
                    page_of(old(self)@)
                } else {
                    -page_of(old(self)@)
                },
            ),
            final(self).analysis == old(self).analysis,
    {
        let step: i128 = if self.page_step == 0 {
            1
        } else {
            self.page_step as i128
        };
        self.move_selection_by(if forward {
            step
        } else {
            -step
        })
    }

    /// Selects the first row.
    pub fn move_selection_to_start(&mut self)
        requires
            old(self).wf(),
        ensures
            final(self).wf(),
            final(self)@ == (AppView {
                selected: if old(self)@.rows.len() == 0 {
                    None
                } else {
                    Some(0usize)
                },
                ..old(self)@
            }),
            final(self).analysis == old(self).analysis,
    {
        if self.rows.len() == 0 {
            self.selected = None;
        } else {
            self.selected = Some(0);
        }
    }

    /// Selects the last row.
    pub fn move_selection_to_end(&mut self)
        requires
            old(self).wf(),
        ensures
            final(self).wf(),
            final(self)@ == (AppView {
                selected: if old(self)@.rows.len() == 0 {
                    None
                } else {
                    Some((old(self)@.rows.len() - 1) as usize)
                },
                ..old(self)@
            }),
            final(self).analysis == old(self).analysis,
    {
        let count: usize = self.rows.len();
        if count == 0 {
            self.selected = None;
        } else {
            self.selected = Some(count - 1);
        }
    }

    /// Enters the selected directory.
    pub fn enter_selected(&mut self) -> (r: Result<(), AnalysisError>)
        requires
            old(self).wf(),
        ensures
            r is Ok,
            final(self).wf(),
            entered(old(self)@, final(self)@),
            final(self).analysis == old(self).analysis,
    {
        let path = match self.selected_row() {
            Some(row) => {
                if !row.has_children() {
                    return Ok(());
                }
                copied(row.path.as_str())
            },
            None => {
                return Ok(());
            },
        };
        self.clear_marked_silently();
        self.current_path = path;
        self.refresh_rows()
    }

    /// Enters the parent directory.
    pub fn go_parent(&mut self) -> (r: Result<(), AnalysisError>)
        requires
            old(self).wf(),
        ensures
            r is Ok,
            final(self).wf(),
            left(old(self)@, final(self)@),
            final(self).analysis == old(self).analysis,
    {
        let child_path = copied(self.current_path.as_str());
        let parent = match Analysis::parent_path(self.current_path.as_str()) {
            Some(parent) => parent,
            None => {
                return Ok(());
            },
        };
        self.clear_marked_silently();
        self.current_path = parent;
        self.refresh_rows_with_selection(Some(child_path))
    }

    fn clear_marked_silently(&mut self)
        requires
            old(self).wf(),
        ensures
            final(self).wf(),
            final(self)@ == unmarked(old(self)@),
            final(self).analysis == old(self).analysis,
    {
        self.marked_paths = Vec::new();
        assert(self@.marked =~= seq![]);
    }

    /// Shows a message.
    pub fn set_status(&mut self, text: String, kind: StatusKind)
        ensures
            old(self).wf() ==> final(self).wf(),
            final(self)@ == (AppView {
                status: Some(StatusView { text: text@, kind }),
                ..old(self)@
            }),
            final(self).analysis == old(self).analysis,
    {
        self.status_message = Some(StatusMessage { text, kind });
    }

    /// Marks the selected row, or no longer marks it.
    pub fn toggle_mark_selected(&mut self)
        requires
            old(self).wf(),
        ensures
            final(self).wf(),
            final(self)@ == toggled(old(self)@),
            final(self).analysis == old(self).analysis,
    {
        let ghost before = self@;
        let (path, name) = match self.selected_row() {
            Some(row) => (copied(row.path.as_str()), copied(row.name.as_str())),
            None => {
                return;
            },
        };
        proof {
            lemma_mark_place(before.marked, path@);
        }
        match find_mark(&self.marked_paths, path.as_str()) {
            Some(i) => {
                proof {
                    lemma_removed_has_no_repeats(before.marked, i as int);
                }
                let _ = self.marked_paths.remove(i);
                assert(self@.marked =~= before.marked.remove(i as int));
                self.set_status(joined_pair("Unmarked ", name.as_str()), StatusKind::Info);
            },
            None => {
                let ghost added = path@;
                self.marked_paths.push(path);
                proof {
                    assert(self@.marked =~= before.marked.push(added));
                    assert forall|i: int| 0 <= i < before.marked.len() implies #[trigger] before.marked[i]
                        != added by {
                        assert(before.marked.contains(before.marked[i]));
                    }
                }
                self.set_status(joined_pair("Marked ", name.as_str()), StatusKind::Info);
            },
        }
    }

    /// Marks no row, and says how many were marked.
    pub fn clear_marked_with_status(&mut self)
        requires
            old(self).wf(),
        ensures
            final(self).wf(),
            final(self)@ == cleared(old(self)@),
            final(self).analysis == old(self).analysis,
    {
        let count: usize = self.marked_paths.len();
        if count > 0 {
            self.clear_marked_silently();
            let mut text = copied("Cleared ");
            text.append(decimal_text(count as u128).as_str());
            text.append(" marked entries");
            self.set_status(text, StatusKind::Info);
        }
    }

    /// The path that is copied.
    fn copied_path(&self) -> (r: &str)
        ensures
            r@ == copied_path(self@),
    {
        match self.selected_row() {
            Some(row) => row.path.as_str(),
            None => self.current_path.as_str(),
        }
    }

    /// The relative path that is copied.
    pub fn copy_relative_path(&self) -> (r: String)
        ensures
            r@ == relative_path(self@),
    {
        let path = self.copied_path();
        if path.is_empty() {
            copied(".")
        } else {
            copied(path)
        }
    }

    /// The absolute path that is copied.
    pub fn copy_absolute_path(&self) -> (r: String)
        ensures
            r@ == full_path(self@.all, copied_path(self@)),
    {
        self.analysis.display_path(self.copied_path())
    }

    /// The path of the directory on the screen.
    pub fn current_directory_path(&self) -> (r: String)
        ensures
            r@ == full_path(self@.all, self@.current_path),
    {
        self.analysis.display_path(self.current_path.as_str())
    }

    /// Whether the last snapshot is a scan of the current state.
    pub fn compares_with_current(&self) -> (r: bool)
        ensures
            r == (self@.all.last().label == CURRENT_LABEL@),
    {
        same_text(self.analysis.latest_label(), CURRENT_LABEL)
    }

    /// What a key does.
    pub fn on_key(&mut self, key: Key) -> (r: Result<AppAction, AnalysisError>)
        requires
            old(self).wf(),
        ensures
            final(self).wf(),
            r matches Ok(action) && pressed(old(self)@, key, final(self)@, action@),
            final(self).analysis == old(self).analysis,
    {
        if self.show_help {
            match key {
                Key::Esc | Key::Char('?') => {
                    self.show_help = false;
                },
                Key::Char('q') => {
                    self.should_quit = true;
                },
                _ => {},
            }
            return Ok(AppAction::Nothing);
        }
        match key {
            Key::Char('q') => {
                self.should_quit = true;
            },
            Key::Esc => {
                self.clear_marked_with_status();
            },
            Key::Up | Key::Char('k') => {
                self.move_selection(-1);
            },
            Key::Down | Key::Char('j') => {
                self.move_selection(1);
            },
            Key::PageUp | Key::Char(',') => {
                self.move_selection_page(false);
            },
            Key::PageDown | Key::Char('.') => {
                self.move_selection_page(true);
            },
            Key::Char('g') => {
                self.move_selection_to_start();
            },
            Key::Char('G') => {
                self.move_selection_to_end();
            },
            Key::Right | Key::Enter | Key::Char('l') => {
                self.enter_selected()?;
            },
            Key::Left | Key::Backspace | Key::Char('h') => {
                self.go_parent()?;
            },
            Key::Char('a') => {
                self.clear_marked_silently();
                self.metric =
                match self.metric {
                    SizeMetric::Disk => SizeMetric::Apparent,
                    SizeMetric::Apparent => SizeMetric::Disk,
                };
                self.refresh_rows()?;
            },
            Key::Char('f') => {
                self.clear_marked_silently();
                self.include_files = !self.include_files;
                self.refresh_rows()?;
            },
            Key::Char('n') => {
                self.sort = SortMode::Name;
                self.refresh_rows()?;
            },
            Key::Char('s') => {
                self.sort = SortMode::LatestSize;
                self.refresh_rows()?;
            },
            Key::Char('d') => {
                self.sort = SortMode::Delta;
                self.refresh_rows()?;
            },
            Key::Char('p') => {
                self.sort = SortMode::ShareDelta;
                self.refresh_rows()?;
            },
            Key::Char(' ') => {
                self.toggle_mark_selected();
            },
            Key::Char('c') => {
                return Ok(
                    AppAction::Copy {
                        kind: CopyKind::RelativePath,
                        value: self.copy_relative_path(),
                    },
                );
            },
            Key::Char('C') => {
                return Ok(
                    AppAction::Copy {
                        kind: CopyKind::AbsolutePath,
                        value: self.copy_absolute_path(),
                    },
                );
            },
            Key::Char('b') => {
                return Ok(AppAction::OpenShell { path: self.current_directory_path() });
            },
            Key::Char('r') => {
                if self.compares_with_current() {
                    return Ok(AppAction::Rescan { path: self.current_directory_path() });
                }
            },
            Key::Char('?') => {
                self.show_help = true;
            },
            _ => {},
        }
        Ok(AppAction::Nothing)
    }
}

/// The marked rows together.
#[derive(Clone, Copy, Debug, PartialEq, Eq, Structural)]
pub struct MarkedSummary {
    pub count: usize,
    pub counts: ChangeCounts,
    pub baseline_size: u64,
    pub latest_size: u64,
    pub delta: i64,
    pub baseline_local_share: Double,
    pub latest_local_share: Double,
    pub baseline_root_share: Double,
    pub latest_root_share: Double,
}

/// No row.
pub open spec fn no_summary() -> MarkedSummary {
    MarkedSummary {
        count: 0,
        counts: ChangeCounts { added: 0, removed: 0, changed: 0, unchanged: 0 },
        baseline_size: 0,
        latest_size: 0,
        delta: 0,
        baseline_local_share: zero(),
        latest_local_share: zero(),
        baseline_root_share: zero(),
        latest_root_share: zero(),
    }
}

/// The sum of two sizes, modulo 2 to the 64th.
pub open spec fn wrapped_size(a: u64, b: u64) -> u64 {
    ((a + b) % 0x1_0000_0000_0000_0000) as u64
}

/// One more of a kind of change.
pub open spec fn counted(counts: ChangeCounts, kind: ChangeKind) -> ChangeCounts {
    match kind {
        ChangeKind::Added => ChangeCounts { added: (counts.added + 1) as usize, ..counts },
        ChangeKind::Removed => ChangeCounts { removed: (counts.removed + 1) as usize, ..counts },
        ChangeKind::Changed => ChangeCounts { changed: (counts.changed + 1) as usize, ..counts },
        ChangeKind::Unchanged => ChangeCounts {
            unchanged: (counts.unchanged + 1) as usize,
            ..counts
        },
    }
}

/// One more row.
pub open spec fn with_row(summary: MarkedSummary, row: RowView) -> MarkedSummary {
    MarkedSummary {
        count: (summary.count + 1) as usize,
        counts: counted(summary.counts, row.change_kind),
        baseline_size: wrapped_size(summary.baseline_size, row.baseline_size),
        latest_size: wrapped_size(summary.latest_size, row.latest_size),
        delta: wrapped(summary.delta + row.delta),
        baseline_local_share: sum_of(summary.baseline_local_share, row.baseline_local_share),
        latest_local_share: sum_of(summary.latest_local_share, row.latest_local_share),
        baseline_root_share: sum_of(summary.baseline_root_share, baseline_root(row)),
        latest_root_share: sum_of(summary.latest_root_share, latest_root(row)),
    }
}

/// Those of the rows that are marked, one after the other.
pub open spec fn summary_of(rows: Seq<RowView>, marked: Seq<Seq<char>>) -> MarkedSummary
    decreases rows.len(),
{
    if rows.len() == 0 {
        no_summary()
    } else {
        let before = summary_of(rows.drop_last(), marked);
        if mark_place(marked, rows.last().path) >= 0 {
            with_row(before, rows.last())
        } else {
            before
        }
    }
}

/// A sum of shares of rows.
spec fn sum_sized(x: Double) -> bool {
    x.wf() && !x.negative && -200 <= x.exponent <= 70
}

spec fn summary_sized(summary: MarkedSummary) -> bool {
    &&& sum_sized(summary.baseline_local_share)
    &&& sum_sized(summary.latest_local_share)
    &&& sum_sized(summary.baseline_root_share)
    &&& sum_sized(summary.latest_root_share)
}

fn add_share(sum: Double, share: Double) -> (r: Double)
    requires
        sum_sized(sum),
        share.wf(),
        !share.negative,
        -200 <= share.exponent <= 13,
    ensures
        r == sum_of(sum, share),
        sum_sized(r),
{
    sum.plus(share)
}

fn add_wrapped(a: u64, b: u64) -> (r: u64)
    ensures
        r == wrapped_size(a, b),
{
    a.wrapping_add(b)
}

fn add_delta(a: i64, b: i64) -> (r: i64)
    ensures
        r == wrapped(a + b),
{
    let sum: i128 = a as i128 + b as i128;
    if sum > i64::MAX as i128 {
        (sum - 0x1_0000_0000_0000_0000) as i64
    } else if sum < i64::MIN as i128 {
        (sum + 0x1_0000_0000_0000_0000) as i64
    } else {
        sum as i64
    }
}

impl App {
    /// The marked rows together, if there are any.
    pub fn marked_summary(&self) -> (r: Option<MarkedSummary>)
        requires
            self.wf(),
        ensures
            match r {
                Some(summary) => summary == summary_of(self@.rows, self@.marked) && summary.count
                    > 0,
                None => summary_of(self@.rows, self@.marked).count == 0,
            },
            r matches Some(summary) ==> summary_shown(summary),
    {
        let ghost rows = self@.rows;
        let ghost marked = self@.marked;
        let mut summary = MarkedSummary {
            count: 0,
            counts: ChangeCounts { added: 0, removed: 0, changed: 0, unchanged: 0 },
            baseline_size: 0,
            latest_size: 0,
            delta: 0,
            baseline_local_share: Double::zero(),
            latest_local_share: Double::zero(),
            baseline_root_share: Double::zero(),
            latest_root_share: Double::zero(),
        };
        let mut i: usize = 0;
        assert(rows.take(0) =~= seq![]);
        while i < self.rows.len()
            invariant
                self.wf(),
                rows == self@.rows,
                marked == self@.marked,
                i <= self.rows@.len(),
                summary == summary_of(rows.take(i as int), marked),
                summary_sized(summary),
                summary.count <= i,
                summary.counts.added <= i,
                summary.counts.removed <= i,
                summary.counts.changed <= i,
                summary.counts.unchanged <= i,
            decreases self.rows@.len() - i,
        {
            let row = &self.rows[i];
            proof {
                assert(rows.take(i + 1).drop_last() =~= rows.take(i as int));
                assert(rows.take(i + 1).last() == row@);
                assert(row_sound(row@));
                assert(row@.timeline[0] == row.timeline@[0]@);
                assert(row@.timeline.last() == row.timeline@.last()@);
            }
            let is_marked = match find_mark(&self.marked_paths, row.path.as_str()) {
                Some(_) => true,
                None => false,
            };
            if is_marked {
                let counts = match row.change_kind {
                    ChangeKind::Added => ChangeCounts {
                        added: summary.counts.added + 1,
                        ..summary.counts
                    },
                    ChangeKind::Removed => ChangeCounts {
                        removed: summary.counts.removed + 1,
                        ..summary.counts
                    },
                    ChangeKind::Changed => ChangeCounts {
                        changed: summary.counts.changed + 1,
                        ..summary.counts
                    },
                    ChangeKind::Unchanged => ChangeCounts {
                        unchanged: summary.counts.unchanged + 1,
                        ..summary.counts
                    },
                };
                summary =
                MarkedSummary {
                    count: summary.count + 1,
                    counts,
                    baseline_size: add_wrapped(summary.baseline_size, row.baseline_size),
                    latest_size: add_wrapped(summary.latest_size, row.latest_size),
                    delta: add_delta(summary.delta, row.delta),
                    baseline_local_share: add_share(
                        summary.baseline_local_share,
                        row.baseline_local_share,
                    ),
                    latest_local_share: add_share(
                        summary.latest_local_share,
                        row.latest_local_share,
                    ),
                    baseline_root_share: add_share(
                        summary.baseline_root_share,
                        row.baseline_root_share(),
                    ),
                    latest_root_share: add_share(
                        summary.latest_root_share,
                        row.latest_root_share(),
                    ),
                };
            }
            i = i + 1;
        }
        assert(rows.take(i as int) =~= rows);
        if summary.count > 0 {
            Some(summary)
        } else {
            None
        }
    }
}

/// A sum of shares can be shown, and so can the difference of two.
pub open spec fn sum_shown(x: Double) -> bool {
    x.wf() && -1000 <= x.exponent <= 70
}

/// The shares of a summary can be shown.
pub open spec fn summary_shown(summary: MarkedSummary) -> bool {
    &&& sum_shown(summary.baseline_local_share)
    &&& sum_shown(summary.latest_local_share)
    &&& sum_shown(summary.baseline_root_share)
    &&& sum_shown(summary.latest_root_share)
}

/// What is said of the marked rows.
pub open spec fn marked_lines(summary: Option<MarkedSummary>) -> Seq<Seq<SpanView>> {
    match summary {
        None => seq![
            seq![span("No marked entries."@, thin(Color::DarkGray))],
            seq![span("Press Space to mark the current row."@, thin(pale()))],
        ],
        Some(summary) => seq![
            value_line("Items"@, decimal(summary.count as nat), bold(Color::White)),
            counts_line(summary.counts),
            value_line("Baseline"@, size_text(summary.baseline_size), thin(Color::DarkGray)),
            value_line("Latest"@, size_text(summary.latest_size), bold(Color::Cyan)),
            value_line("Delta"@, signed_size(summary.delta), bold(delta_color(summary.delta))),
            shares_line(
                "Parent"@,
                summary.baseline_local_share,
                summary.latest_local_share,
                sum_of(
                    summary.latest_local_share,
                    negation(summary.baseline_local_share),
                ),
            ),
            shares_line(
                "Root"@,
                summary.baseline_root_share,
                summary.latest_root_share,
                sum_of(
                    summary.latest_root_share,
                    negation(summary.baseline_root_share),
                ),
            ),
        ],
    }
}

/// A line of one piece.
fn one_span(text: &str, style: TextStyle) -> (r: Vec<Span>)
    ensures
        line_view(r@) == seq![span(text@, style)],
{
    let mut line: Vec<Span> = Vec::new();
    line.push(Span::new(text, style));
    assert(line_view(line@) =~= seq![span(text@, style)]);
    line
}

/// What is said of the marked rows.
pub fn marked_panel_lines(summary: Option<MarkedSummary>) -> (r: Vec<Vec<Span>>)
    requires
        summary matches Some(some) ==> summary_shown(some),
    ensures
        lines_view(r@) == marked_lines(summary),
{
    let mut lines: Vec<Vec<Span>> = Vec::new();
    match summary {
        None => {
            lines.push(one_span("No marked entries.", TextStyle::thin(Color::DarkGray)));
            lines.push(
                one_span(
                    "Press Space to mark the current row.",
                    TextStyle::thin(Color::Rgb(170, 170, 170)),
                ),
            );
            assert(lines_view(lines@) =~= marked_lines(summary));
        },
        Some(some) => {
            lines.push(
                stat_line(
                    "Items",
                    decimal_text(some.count as u128),
                    TextStyle::bold(Color::White),
                ),
            );
            lines.push(marked_counts_line(some.counts));
            lines.push(
                stat_line(
                    "Baseline",
                    format_size(some.baseline_size),
                    TextStyle::thin(Color::DarkGray),
                ),
            );
            lines.push(
                stat_line("Latest", format_size(some.latest_size), TextStyle::bold(Color::Cyan)),
            );
            lines.push(
                stat_line(
                    "Delta",
                    format_signed_size(some.delta),
                    delta_style(some.delta).in_bold(),
                ),
            );
            lines.push(
                share_line(
                    "Parent",
                    some.baseline_local_share,
                    some.latest_local_share,
                    some.latest_local_share.minus(some.baseline_local_share),
                ),
            );
            lines.push(
                share_line(
                    "Root",
                    some.baseline_root_share,
                    some.latest_root_share,
                    some.latest_root_share.minus(some.baseline_root_share),
                ),
            );
            assert(lines_view(lines@) =~= marked_lines(summary));
        },
    }
    lines
}

/// What is said of the selected row.
pub struct DetailView {
    pub name: Seq<SpanView>,
    pub path: Seq<SpanView>,
    pub kind: Seq<SpanView>,
    pub change: Seq<SpanView>,
    pub sizes: Seq<Seq<SpanView>>,
    pub shares: Seq<Seq<SpanView>>,
    pub timeline: Seq<Seq<SpanView>>,
}

/// What is said of the selected row.
#[derive(Clone, Debug)]
pub struct SelectedDetail {
    pub name_spans: Vec<Span>,
    pub path_spans: Vec<Span>,
    pub kind_spans: Vec<Span>,
    pub change_spans: Vec<Span>,
    pub size_lines: Vec<Vec<Span>>,
    pub share_lines: Vec<Vec<Span>>,
    pub timeline_lines: Vec<Vec<Span>>,
}

impl SelectedDetail {
    /// What is said.
    pub open spec fn view(&self) -> DetailView {
        DetailView {
            name: line_view(self.name_spans@),
            path: line_view(self.path_spans@),
            kind: line_view(self.kind_spans@),
            change: line_view(self.change_spans@),
            sizes: lines_view(self.size_lines@),
            shares: lines_view(self.share_lines@),
            timeline: lines_view(self.timeline_lines@),
        }
    }
}

/// The labels of the snapshots.
pub open spec fn label_texts(row: RowView) -> Seq<Seq<char>> {
    Seq::new(row.timeline.len(), |i: int| row.timeline[i].label)
}

/// The sizes in the snapshots.
pub open spec fn size_texts(row: RowView) -> Seq<Seq<char>> {
    Seq::new(row.timeline.len(), |i: int| size_text(row.timeline[i].size))
}

/// The shares in the snapshots.
pub open spec fn share_texts(row: RowView) -> Seq<Seq<char>> {
    Seq::new(row.timeline.len(), |i: int| percent(row.timeline[i].local_share))
}

/// What is said of a row.
pub open spec fn detail_of(all: Seq<IndexView>, row: RowView) -> DetailView {
    DetailView {
        name: entry_spans(row.name, row.kind),
        path: path_spans(full_path(all, row.path), row.kind),
        kind: seq![span(kind_label(row.kind), bold(Color::Magenta))],
        change: seq![span(change_sign(row.change_kind), bold(change_color(row.change_kind)))],
        sizes: seq![
            value_line("Baseline"@, size_text(row.baseline_size), thin(Color::DarkGray)),
            value_line("Latest"@, size_text(row.latest_size), bold(Color::Cyan)),
            value_line("Delta"@, signed_size(row.delta), bold(delta_color(row.delta))),
        ],
        shares: seq![
            shares_line(
                "Parent"@,
                row.baseline_local_share,
                row.latest_local_share,
                row.local_share_delta,
            ),
            shares_line("Root"@, baseline_root(row), latest_root(row), root_delta(row)),
        ],
        timeline: seq![
            value_line("Labels"@, compact(label_texts(row)), thin(Color::DarkGray)),
            value_line("Sizes"@, compact(size_texts(row)), thin(Color::Cyan)),
            value_line("Parent"@, compact(share_texts(row)), thin(Color::Yellow)),
        ],
    }
}

fn timeline_lines(row: &RowData) -> (r: Vec<Vec<Span>>)
    requires
        row_sound(row@),
    ensures
        lines_view(r@) == seq![
            value_line("Labels"@, compact(label_texts(row@)), thin(Color::DarkGray)),
            value_line("Sizes"@, compact(size_texts(row@)), thin(Color::Cyan)),
            value_line("Parent"@, compact(share_texts(row@)), thin(Color::Yellow)),
        ],
{
    let mut labels: Vec<String> = Vec::new();
    let mut sizes: Vec<String> = Vec::new();
    let mut shares: Vec<String> = Vec::new();
    let mut i: usize = 0;
    while i < row.timeline.len()
        invariant
            row_sound(row@),
            i <= row.timeline@.len(),
            labels@.len() == i,
            sizes@.len() == i,
            shares@.len() == i,
            forall|k: int| 0 <= k < i ==> (#[trigger] labels@[k])@ == row@.timeline[k].label,
            forall|k: int|
                0 <= k < i ==> (#[trigger] sizes@[k])@ == size_text(row@.timeline[k].size),
            forall|k: int|
                0 <= k < i ==> (#[trigger] shares@[k])@ == percent(row@.timeline[k].local_share),
        decreases row.timeline@.len() - i,
    {
        let point = &row.timeline[i];
        assert(row@.timeline[i as int] == point@);
        labels.push(copied(point.label.as_str()));
        sizes.push(format_size(point.size));
        shares.push(percent_text(point.local_share));
        i = i + 1;
    }
    assert(views(labels@) =~= label_texts(row@));
    assert(views(sizes@) =~= size_texts(row@));
    assert(views(shares@) =~= share_texts(row@));
    let mut lines: Vec<Vec<Span>> = Vec::new();
    lines.push(
        stat_line("Labels", compact_timeline(&labels), TextStyle::thin(Color::DarkGray)),
    );
    lines.push(stat_line("Sizes", compact_timeline(&sizes), TextStyle::thin(Color::Cyan)));
    lines.push(stat_line("Parent", compact_timeline(&shares), TextStyle::thin(Color::Yellow)));
    assert(lines_view(lines@) =~= seq![
        value_line("Labels"@, compact(label_texts(row@)), thin(Color::DarkGray)),
        value_line("Sizes"@, compact(size_texts(row@)), thin(Color::Cyan)),
        value_line("Parent"@, compact(share_texts(row@)), thin(Color::Yellow)),
    ]);
    lines
}

impl App {
    /// What is said of the selected row, if there is one.
    pub fn selected_detail(&self) -> (r: Option<SelectedDetail>)
        requires
            self.wf(),
        ensures
            match r {
                Some(detail) => selected_of(self@) is Some && detail@ == detail_of(
                    self@.all,
                    selected_of(self@)->Some_0,
                ),
                None => selected_of(self@) is None,
            },
    {
        let row = match self.selected_row() {
            Some(row) => row,
            None => {
                return None;
            },
        };
        proof {
            assert(row@.timeline[0] == row.timeline@[0]@);
            assert(row@.timeline.last() == row.timeline@.last()@);
        }
        let mut size_lines: Vec<Vec<Span>> = Vec::new();
        size_lines.push(
            stat_line(
                "Baseline",
                format_size(row.baseline_size),
                TextStyle::thin(Color::DarkGray),
            ),
        );
        size_lines.push(
            stat_line("Latest", format_size(row.latest_size), TextStyle::bold(Color::Cyan)),
        );
        size_lines.push(
            stat_line("Delta", format_signed_size(row.delta), delta_style(row.delta).in_bold()),
        );
        let mut share_lines: Vec<Vec<Span>> = Vec::new();
        share_lines.push(
            share_line(
                "Parent",
                row.baseline_local_share,
                row.latest_local_share,
                row.local_share_delta,
            ),
        );
        share_lines.push(
            share_line(
                "Root",
                row.baseline_root_share(),
                row.latest_root_share(),
                row.root_share_delta(),
            ),
        );
        let detail = SelectedDetail {
            name_spans: styled_entry_name_spans(row.name.as_str(), row.kind),
            path_spans: styled_path_spans(
                self.analysis.display_path(row.path.as_str()).as_str(),
                row.kind,
            ),
            kind_spans: one_span(row.kind.label(), TextStyle::bold(Color::Magenta)),
            change_spans: one_span(
                row.change_kind.label(),
                change_kind_style(row.change_kind).in_bold(),
            ),
            size_lines,
            share_lines,
            timeline_lines: timeline_lines(row),
        };
        proof {
            let expected = detail_of(self@.all, row@);
            assert(detail@.sizes =~= expected.sizes);
            assert(detail@.shares =~= expected.shares);
        }
        Some(detail)
    }
}

/// What stands above the list.
pub open spec fn overview(app: AppView, row: RowView) -> Seq<Seq<SpanView>> {
    seq![
        seq![
            span("gdu-diff  "@, bold(Color::White)),
            span("root "@, thin(Color::DarkGray)),
            span(app.all.last().root_name, bold(directory_color())),
            raw("  "@),
            span("snapshots "@, thin(Color::DarkGray)),
            span(decimal(app.all.len()), bold(Color::Cyan)),
            raw("  "@),
            span("range "@, thin(Color::DarkGray)),
            span(range_label(app.all), thin(Color::Yellow)),
            raw("  "@),
            span("metric "@, thin(Color::DarkGray)),
            span(metric_label(app.metric), bold(Color::Magenta)),
        ],
        labelled_line(
            "Path"@,
            path_spans(full_path(app.all, app.current_path), EntryKind::Dir) + seq![
                raw("  "@),
                span("visible "@, thin(Color::DarkGray)),
                span(
                    if app.include_files {
                        "dirs + files"@
                    } else {
                        "dirs only"@
                    },
                    thin(Color::Rgb(210, 210, 210)),
                ),
                raw("  "@),
                span("sort "@, thin(Color::DarkGray)),
                span(sort_label(app.sort), thin(Color::Rgb(120, 196, 255))),
            ],
        ),
        summary_line(row),
        message_line(app.status),
    ]
}

/// How a row is shown: a cell for each column.
pub open spec fn row_cells(row: RowView, marked: bool) -> Seq<Seq<SpanView>> {
    seq![
        seq![
            if marked {
                span("*"@, bold(Color::Cyan))
            } else {
                raw(""@)
            },
        ],
        seq![raw(kind_letter(row.kind))],
        seq![span(change_sign(row.change_kind), bold(change_color(row.change_kind)))],
        entry_spans(row.name, row.kind),
        seq![raw(size_text(row.latest_size))],
        seq![span(signed_size(row.delta), thin(delta_color(row.delta)))],
        seq![raw(percent(row.latest_local_share))],
        seq![span(share_change(row.local_share_delta), thin(share_color(row.local_share_delta)))],
    ]
}

/// The titles of the columns.
pub open spec fn column_titles() -> Seq<Seq<char>> {
    seq!["M"@, "Type"@, "Change"@, "Name"@, "Latest"@, "Delta"@, "Share"@, "ShareD"@]
}

/// The titles of the columns.
pub fn column_headers() -> (r: Vec<String>)
    ensures
        views(r@) == column_titles(),
{
    let mut titles: Vec<String> = Vec::new();
    titles.push(copied("M"));
    titles.push(copied("Type"));
    titles.push(copied("Change"));
    titles.push(copied("Name"));
    titles.push(copied("Latest"));
    titles.push(copied("Delta"));
    titles.push(copied("Share"));
    titles.push(copied("ShareD"));
    assert(views(titles@) =~= column_titles());
    titles
}

/// A line of one piece that is made of a text.
fn text_span(text: String, style: TextStyle) -> (r: Vec<Span>)
    ensures
        line_view(r@) == seq![span(text@, style)],
{
    let ghost shown = text@;
    let mut line: Vec<Span> = Vec::new();
    line.push(Span::of(text, style));
    assert(line_view(line@) =~= seq![span(shown, style)]);
    line
}

/// How a row is shown.
pub fn table_cells(row: &RowData, marked: bool) -> (r: Vec<Vec<Span>>)
    requires
        row_sound(row@),
    ensures
        lines_view(r@) == row_cells(row@, marked),
{
    let plain = TextStyle::thin(Color::Plain);
    let mut cells: Vec<Vec<Span>> = Vec::new();
    if marked {
        cells.push(one_span("*", TextStyle::bold(Color::Cyan)));
    } else {
        cells.push(one_span("", plain));
    }
    cells.push(one_span(row.kind.short(), plain));
    cells.push(one_span(row.change_kind.short(), change_kind_style(row.change_kind).in_bold()));
    cells.push(styled_entry_name_spans(row.name.as_str(), row.kind));
    cells.push(text_span(format_size(row.latest_size), plain));
    cells.push(text_span(format_signed_size(row.delta), delta_style(row.delta)));
    cells.push(text_span(percent_text(row.latest_local_share), plain));
    cells.push(
        text_span(format_share_delta(row.local_share_delta), share_style(row.local_share_delta)),
    );
    assert(lines_view(cells@) =~= row_cells(row@, marked));
    cells
}

impl App {
    /// What stands above the list.
    pub fn overview_lines(&self) -> (r: Result<Vec<Vec<Span>>, AnalysisError>)
        ensures
            match r {
                Ok(lines) => row_for(self@.all, self@.current_path, self@.metric) is Some
                    && lines_view(lines@) == overview(
                    self@,
                    row_for(self@.all, self@.current_path, self@.metric)->Some_0,
                ),
                Err(error) => row_for(self@.all, self@.current_path, self@.metric) is None
                    && error@ == (AnalysisErrorView::UnknownPath { path: self@.current_path }),
            },
    {
        let row = match self.analysis.row_for_path(self.current_path.as_str(), self.metric) {
            Ok(row) => row,
            Err(error) => {
                return Err(error);
            },
        };
        let gray = TextStyle::thin(Color::DarkGray);
        let plain = TextStyle::thin(Color::Plain);
        let mut first: Vec<Span> = Vec::new();
        first.push(Span::new("gdu-diff  ", TextStyle::bold(Color::White)));
        first.push(Span::new("root ", gray));
        first.push(Span::new(self.analysis.current_root_name(), directory_style().in_bold()));
        first.push(Span::new("  ", plain));
        first.push(Span::new("snapshots ", gray));
        first.push(
            Span::of(
                decimal_text(self.analysis.snapshot_count() as u128),
                TextStyle::bold(Color::Cyan),
            ),
        );
        first.push(Span::new("  ", plain));
        first.push(Span::new("range ", gray));
        first.push(
            Span::of(self.analysis.snapshot_range_label(), TextStyle::thin(Color::Yellow)),
        );
        first.push(Span::new("  ", plain));
        first.push(Span::new("metric ", gray));
        first.push(Span::new(self.metric.label(), TextStyle::bold(Color::Magenta)));

        let mut path = styled_path_spans(
            self.analysis.display_path(self.current_path.as_str()).as_str(),
            EntryKind::Dir,
        );
        let ghost shown_path = line_view(path@);
        path.push(Span::new("  ", plain));
        path.push(Span::new("visible ", gray));
        path.push(
            Span::new(
                if self.include_files {
                    "dirs + files"
                } else {
                    "dirs only"
                },
                TextStyle::thin(Color::Rgb(210, 210, 210)),
            ),
        );
        path.push(Span::new("  ", plain));
        path.push(Span::new("sort ", gray));
        path.push(Span::new(self.sort.label(), TextStyle::thin(Color::Rgb(120, 196, 255))));
        proof {
            let expected = overview(self@, row@);
            assert(line_view(first@) =~= expected[0]);
            assert(line_view(path@) =~= shown_path + seq![
                raw("  "@),
                span("visible "@, thin(Color::DarkGray)),
                span(
                    if self@.include_files {
                        "dirs + files"@
                    } else {
                        "dirs only"@
                    },
                    thin(Color::Rgb(210, 210, 210)),
                ),
                raw("  "@),
                span("sort "@, thin(Color::DarkGray)),
                span(sort_label(self@.sort), thin(Color::Rgb(120, 196, 255))),
            ]);
        }
        let mut lines: Vec<Vec<Span>> = Vec::new();
        lines.push(first);
        lines.push(stat_line_spans("Path", path));
        lines.push(current_dir_summary_line(&row));
        lines.push(status_line(&self.status_message));
        assert(lines_view(lines@) =~= overview(self@, row@));
        Ok(lines)
    }

    /// Whether a row is marked.
    pub fn is_marked(&self, path: &str) -> (r: bool)
        ensures
            r == (mark_place(self@.marked, path@) >= 0),
    {
        match find_mark(&self.marked_paths, path) {
            Some(_) => true,
            None => false,
        }
    }

    /// How the rows are shown.
    pub fn table_rows(&self) -> (r: Vec<Vec<Vec<Span>>>)
        requires
            self.wf(),
        ensures
            r@.len() == self@.rows.len(),
            forall|i: int|
                0 <= i < r@.len() ==> lines_view((#[trigger] r@[i])@) == row_cells(
                    self@.rows[i],
                    mark_place(self@.marked, self@.rows[i].path) >= 0,
                ),
    {
        let mut table: Vec<Vec<Vec<Span>>> = Vec::new();
        while table.len() < self.rows.len()
            invariant
                self.wf(),
                table@.len() <= self.rows@.len(),
                forall|i: int|
                    0 <= i < table@.len() ==> lines_view((#[trigger] table@[i])@) == row_cells(
                        self@.rows[i],
                        mark_place(self@.marked, self@.rows[i].path) >= 0,
                    ),
            decreases self.rows@.len() - table@.len(),
        {
            let row = &self.rows[table.len()];
            assert(self@.rows[table@.len() as int] == row@);
            assert(row_sound(row@));
            table.push(table_cells(row, self.is_marked(row.path.as_str())));
        }
        table
    }

    /// What is shown in place of an empty list.
    pub fn empty_list_lines(&self) -> (r: Vec<Vec<Span>>)
        ensures
            lines_view(r@) == empty_lines(self@.include_files),
    {
        children_empty_lines(self.include_files)
    }

    /// Says how the copying ended.
    pub fn finish_copy(&mut self, kind: CopyKind, value: &str, error: Option<String>)
        ensures
            old(self).wf() ==> final(self).wf(),
            final(self)@ == (AppView {
                status: match error {
                    None => info("Copied "@ + copy_label(kind) + ": "@ + value@),
                    Some(error) => failure(
                        "Failed to copy "@ + copy_label(kind) + ": "@ + error@,
                    ),
                },
                ..old(self)@
            }),
            final(self).analysis == old(self).analysis,
    {
        match error {
            None => {
                let mut text = copied("Copied ");
                text.append(kind.label());
                text.append(": ");
                text.append(value);
                self.set_status(text, StatusKind::Info);
            },
            Some(error) => {
                let mut text = copied("Failed to copy ");
                text.append(kind.label());
                text.append(": ");
                text.append(error.as_str());
                self.set_status(text, StatusKind::Error);
            },
        }
    }

    /// Says how the shell ended.
    pub fn finish_shell(&mut self, path: &str, error: Option<String>)
        ensures
            old(self).wf() ==> final(self).wf(),
            final(self)@ == (AppView {
                status: match error {
                    None => info("Returned from shell: "@ + path@),
                    Some(error) => failure("Failed to open shell: "@ + error@),
                },
                ..old(self)@
            }),
            final(self).analysis == old(self).analysis,
    {
        match error {
            None => {
                self.set_status(joined_pair("Returned from shell: ", path), StatusKind::Info);
            },
            Some(error) => {
                self.set_status(
                    joined_pair("Failed to open shell: ", error.as_str()),
                    StatusKind::Error,
                );
            },
        }
    }

    /// Takes over what was found when the directory on the screen was scanned again.
    pub fn finish_rescan(&mut self, found: &SnapshotTree) -> (r: Result<(), AnalysisError>)
        requires
            old(self).wf(),
        ensures
            r is Ok,
            final(self).wf(),
            refreshed(rescanned_app(old(self)@, found@.root), None, final(self)@),
    {
        let path = copied(self.current_path.as_str());
        let text = joined_pair("Rescanned ", self.current_directory_path().as_str());
        self.analysis.replace_latest(path.as_str(), found);
        self.set_status(text, StatusKind::Info);
        self.refresh_rows()
    }
}

/// The keys that are shown below the list.
pub const KEYS_HINT: &'static str = "j/k move  space mark  g/G ends  l open  h up  ? help  q quit";

/// What the help says: titles and lines.
pub open spec fn help() -> Seq<Seq<SpanView>> {
    let title = |text: Seq<char>| seq![span(text, bold(Color::Cyan))];
    let line = |text: Seq<char>| seq![raw(text)];
    seq![
        title("Navigation"@),
        line("j/k or arrows move, ,/. page, g/G jump to first/last"@),
        line("l or Enter opens a directory, h or Backspace goes to parent"@),
        line(""@),
        title("View"@),
        line("d delta sort (default), s size sort, p share sort, n name sort"@),
        line("a toggles disk/apparent, f toggles files"@),
        line(""@),
        title("Actions"@),
        line("Space toggles the current row in the marked set"@),
        line("c copies relative path, C copies absolute path"@),
        line("b opens a shell in the current view directory"@),
        line("r rescans the current view directory"@),
        line("Esc clears marked rows, or closes this help"@),
        line("Entering or leaving a directory also clears the marked set"@),
        line("q quits"@),
    ]
}

/// What the help says.
pub fn help_lines() -> (r: Vec<Vec<Span>>)
    ensures
        lines_view(r@) == help(),
{
    let title = TextStyle::bold(Color::Cyan);
    let plain = TextStyle::thin(Color::Plain);
    let mut lines: Vec<Vec<Span>> = Vec::new();
    lines.push(one_span("Navigation", title));
    lines.push(one_span("j/k or arrows move, ,/. page, g/G jump to first/last", plain));
    lines.push(one_span("l or Enter opens a directory, h or Backspace goes to parent", plain));
    lines.push(one_span("", plain));
    lines.push(one_span("View", title));
    lines.push(
        one_span("d delta sort (default), s size sort, p share sort, n name sort", plain),
    );
    lines.push(one_span("a toggles disk/apparent, f toggles files", plain));
    lines.push(one_span("", plain));
    lines.push(one_span("Actions", title));
    lines.push(one_span("Space toggles the current row in the marked set", plain));
    lines.push(one_span("c copies relative path, C copies absolute path", plain));
    lines.push(one_span("b opens a shell in the current view directory", plain));
    lines.push(one_span("r rescans the current view directory", plain));
    lines.push(one_span("Esc clears marked rows, or closes this help", plain));
    lines.push(one_span("Entering or leaving a directory also clears the marked set", plain));
    lines.push(one_span("q quits", plain));
    assert(lines_view(lines@) =~= help());
    lines
}

/// The rows on the screen are those of the directory on the screen.
pub open spec fn up_to_date(app: AppView) -> bool {
    lists_children(
        app.all,
        app.current_path,
        app.include_files,
        app.metric,
        app.sort,
        app.rows,
    )
}

/// Whatever lists the rows anew leaves them up to date.
pub proof fn law_refreshing_is_up_to_date(
    before: AppView,
    wanted: Option<Seq<char>>,
    after: AppView,
)
    requires
        refreshed(before, wanted, after),
    ensures
        up_to_date(after),
{
}

/// No key leaves rows on the screen that are not those of the directory on the screen.
pub proof fn law_keys_keep_rows_up_to_date(
    before: AppView,
    key: Key,
    after: AppView,
    action: AppActionView,
)
    requires
        up_to_date(before),
        pressed(before, key, after, action),
    ensures
        up_to_date(after),
        after.all == before.all,
        after.latest == before.latest,
{
}

/// A rescan changes nothing but the directory on the screen: the other snapshots stay as
/// they were, and so does every path of the last one outside of the directory, but for the
/// sizes of the directories that it is in. The stored tree and its index still agree.
pub proof fn law_rescan_keeps_the_rest(app: AppView, found: NodeView, path: Seq<char>)
    requires
        app.all.len() > 0,
        holds_latest(app.all, app.latest),
        !is_within(app.current_path, path),
    ensures
        ({
            let after = rescanned_app(app, found);
            &&& after.all.len() == app.all.len()
            &&& forall|i: int| 0 <= i < app.all.len() - 1 ==> after.all[i] == app.all[i]
            &&& after.all.last().label == app.all.last().label
            &&& after.all.last().root_name == app.all.last().root_name
            &&& same_entry(
                app.all.last().entry_at(path),
                after.all.last().entry_at(path),
                is_within(path, app.current_path),
            )
            &&& holds_latest(after.all, after.latest)
        }),
{
    let tree = TreeView { label: app.all.last().label, exported_at: None, root: app.latest };
    match found {
        NodeView::Dir { children, .. } => {
            law_replacing_keeps_the_rest(tree, app.current_path, children, path);
        },
        NodeView::File { .. } => {},
    }
}

/// Two rows of a directory have different paths.
proof fn lemma_paths_differ(app: AppView, i: int, j: int)
    requires
        up_to_date(app),
        0 <= i < j < app.rows.len(),
    ensures
        app.rows[i].path != app.rows[j].path,
{
    reveal(lists_children);
    let a = app.rows[i];
    let b = app.rows[j];
    assert(row_comes_first(app.sort, a, b));
    if a.path == b.path {
        assert(is_child_row(app.all, app.current_path, app.include_files, app.metric, a));
        assert(is_child_row(app.all, app.current_path, app.include_files, app.metric, b));
        let x = choose|name: Seq<char>| #[trigger]
            is_child(app.all, app.current_path, name) && row_at(
                app.all,
                child_path(app.current_path, name),
                app.metric,
            ) == Some(a) && (app.include_files || opens(a.kind));
        let y = choose|name: Seq<char>| #[trigger]
            is_child(app.all, app.current_path, name) && row_at(
                app.all,
                child_path(app.current_path, name),
                app.metric,
            ) == Some(b) && (app.include_files || opens(b.kind));
        assert(a == b);
        lemma_row_order_asymmetric(app.sort, a, b);
    }
}

/// Whoever enters a directory and leaves it again is back where they were, with the same
/// row selected and nothing marked.
pub proof fn law_leaving_returns(before: AppView, inside: AppView, after: AppView)
    requires
        up_to_date(before),
        before.rows.len() <= usize::MAX,
        selected_of(before) is Some,
        opens(selected_of(before)->Some_0.kind),
        parent_of(selected_of(before)->Some_0.path) == Some(before.current_path),
        entered(before, inside),
        left(inside, after),
    ensures
        after.current_path == before.current_path,
        after.rows == before.rows,
        after.selected == before.selected,
        selected_of(after) == selected_of(before),
        after.marked.len() == 0,
{
    let row = selected_of(before)->Some_0;
    let i = before.selected->Some_0 as int;
    law_children_are_determined(
        before.all,
        before.current_path,
        before.include_files,
        before.metric,
        before.sort,
        before.rows,
        after.rows,
    );
    lemma_row_place(before.rows, row.path);
    let p = row_place(before.rows, row.path);
    if p < i {
        lemma_paths_differ(before, p, i);
    }
}

/// Sorting keeps the marks; changing what is shown, or clearing them, removes them.
pub proof fn law_keys_and_marks(
    before: AppView,
    key: Key,
    after: AppView,
    action: AppActionView,
)
    requires
        pressed(before, key, after, action),
        !before.show_help,
    ensures
        key == Key::Char('n') || key == Key::Char('s') || key == Key::Char('d') || key
            == Key::Char('p') ==> after.marked == before.marked,
        key == Key::Char('a') || key == Key::Char('f') || key == Key::Esc ==> after.marked.len()
            == 0,
        after.current_path != before.current_path ==> after.marked.len() == 0,
{
}

/// Marking a row twice leaves the marks as they were.
pub proof fn law_toggling_twice(app: AppView, path: Seq<char>)
    requires
        no_repeats(app.marked),
        selected_of(app) is Some,
    ensures
        toggled(toggled(app)).marked.contains(path) == app.marked.contains(path),
        toggled(app).marked.contains(selected_of(app)->Some_0.path) != app.marked.contains(
            selected_of(app)->Some_0.path,
        ),
{
    let row = selected_of(app)->Some_0;
    let once = toggled(app);
    let twice = toggled(once);
    lemma_mark_place(app.marked, row.path);
    lemma_mark_place(once.marked, row.path);
    let p = mark_place(app.marked, row.path);
    if p >= 0 {
        assert(app.marked.contains(row.path));
        assert forall|q: Seq<char>| once.marked.contains(q) == (app.marked.contains(q) && q
            != row.path) by {
            lemma_removed_contains(app.marked, p, q);
        }
        assert(twice.marked == once.marked.push(row.path));
        lemma_pushed_contains(once.marked, row.path, path);
    } else {
        lemma_pushed_contains(app.marked, row.path, row.path);
        let k = mark_place(once.marked, row.path);
        assert(once.marked[app.marked.len() as int] == row.path);
        assert(k >= 0);
        if k < app.marked.len() {
            assert(app.marked[k] == row.path);
        }
        assert(twice.marked =~= app.marked);
    }
}

pub proof fn lemma_pushed_contains(marked: Seq<Seq<char>>, added: Seq<char>, path: Seq<char>)
    ensures
        marked.push(added).contains(path) == (marked.contains(path) || path == added),
{
    let more = marked.push(added);
    assert(more[marked.len() as int] == added);
    if marked.contains(path) {
        let i = choose|i: int| 0 <= i < marked.len() && marked[i] == path;
        assert(more[i] == path);
    }
    if more.contains(path) {
        let i = choose|i: int| 0 <= i < more.len() && more[i] == path;
        if i < marked.len() {
            assert(marked[i] == path);
        }
    }
}

pub proof fn lemma_removed_contains(marked: Seq<Seq<char>>, p: int, path: Seq<char>)
    requires
        no_repeats(marked),
        0 <= p < marked.len(),
    ensures
        marked.remove(p).contains(path) == (marked.contains(path) && path != marked[p]),
{
    let rest = marked.remove(p);
    if rest.contains(path) {
        let i = choose|i: int| 0 <= i < rest.len() && rest[i] == path;
        let x = if i < p { i } else { i + 1 };
        assert(marked[x] == path);
        if path == marked[p] {
            if x < p {
                assert(marked[x] != marked[p]);
            } else {
                assert(marked[p] != marked[x]);
            }
        }
    }
    if marked.contains(path) && path != marked[p] {
        let i = choose|i: int| 0 <= i < marked.len() && marked[i] == path;
        if i < p {
            assert(rest[i] == path);
        } else {
            assert(rest[i - 1] == path);
        }
    }
}

} // verus!
