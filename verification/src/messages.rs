//! What the messages to the user are about.

use crate::analysis::{EntryKind, RowView, kind_label, kind_letter, range_label, sort_label};
use crate::cli::{missing_shot, no_snapshot};
use crate::export::{ExportEventView, ExportState, export_step, program_name, wrong_output};
use crate::gdu::{FaultView, SNAPSHOT_FILE_SUFFIX, fault_message};
use crate::index::{AnalysisErrorView, analysis_message, metric_label};
use crate::screen::{lemma_shown_one, lemma_shown_sum, shown};
use crate::store::{StoreErrorView, store_message};
use crate::text::decimal;
use crate::tui::{AppView, cleared, overview, selected_of, toggled};
use crate::view::{SpanView, StatusKind, StatusView, message_line, summary_line};
use vstd::prelude::*;

verus! {

/// The text holds the other one somewhere.
#[verifier::opaque]
pub open spec fn mentions(text: Seq<char>, part: Seq<char>) -> bool {
    exists|i: int|
        0 <= i <= text.len() - part.len() && #[trigger] text.subrange(i, i + part.len()) == part
}

proof fn lemma_mentioned(before: Seq<char>, part: Seq<char>, after: Seq<char>)
    ensures
        mentions(before + part + after, part),
{
    reveal(mentions);
    let text = before + part + after;
    let i = before.len() as int;
    assert(text.subrange(i, i + part.len()) =~= part);
}

/// Snapshots with different roots are named with their roots, a snapshot without a root by
/// its label, and a path that is not there by itself.
pub proof fn law_analysis_messages(
    first_label: Seq<char>,
    first_root: Seq<char>,
    label: Seq<char>,
    root: Seq<char>,
)
    ensures
        ({
            let message = analysis_message(
                AnalysisErrorView::DifferentRoots { first_label, first_root, label, root },
            );
            mentions(message, first_label) && mentions(message, first_root) && mentions(
                message,
                label,
            ) && mentions(message, root)
        }),
        mentions(analysis_message(AnalysisErrorView::MissingRoot { label }), label),
        mentions(analysis_message(AnalysisErrorView::UnknownPath { path: root }), root),
{
    let message = analysis_message(
        AnalysisErrorView::DifferentRoots { first_label, first_root, label, root },
    );
    let a = "cannot compare snapshots with different roots: "@;
    let b = " is "@;
    let c = ", but "@;
    lemma_mentioned(a, first_label, b + first_root + c + label + b + root);
    assert(message =~= a + first_label + (b + first_root + c + label + b + root));
    lemma_mentioned(a + first_label + b, first_root, c + label + b + root);
    assert(message =~= a + first_label + b + first_root + (c + label + b + root));
    lemma_mentioned(a + first_label + b + first_root + c, label, b + root);
    assert(message =~= a + first_label + b + first_root + c + label + (b + root));
    lemma_mentioned(a + first_label + b + first_root + c + label + b, root, seq![]);
    assert(message =~= a + first_label + b + first_root + c + label + b + root
        + Seq::<char>::empty());
    lemma_mentioned("snapshot "@, label, " does not have a root node"@);
    lemma_mentioned("path "@, root, " does not exist in the snapshot set"@);
}

/// What is said of a saved snapshot that is not there names the directory, its number and
/// where it was looked for.
pub proof fn law_missing_snapshots(data_dir: Seq<char>, target: Seq<char>, ordinal: nat)
    ensures
        mentions(missing_shot(data_dir, target, ordinal), seq!['-'] + decimal(ordinal)),
        mentions(missing_shot(data_dir, target, ordinal), target),
        mentions(missing_shot(data_dir, target, ordinal), data_dir),
        mentions(no_snapshot(data_dir, target), target),
        mentions(no_snapshot(data_dir, target), data_dir),
{
    reveal_strlit("no stored shot -");
    let message = missing_shot(data_dir, target, ordinal);
    let a = "no stored shot -"@;
    let front = a.drop_last();
    assert(a =~= front + seq!['-']);
    let n = decimal(ordinal);
    let b = " found for "@;
    let c = " in "@;
    let d = ". run `gdu-diff shot "@;
    let e = "` first"@;
    lemma_mentioned(front, seq!['-'] + n, b + target + c + data_dir + d + target + e);
    assert(message =~= front + (seq!['-'] + n) + (b + target + c + data_dir + d + target + e));
    lemma_mentioned(a + n + b, target, c + data_dir + d + target + e);
    assert(message =~= a + n + b + target + (c + data_dir + d + target + e));
    lemma_mentioned(a + n + b + target + c, data_dir, d + target + e);
    assert(message =~= a + n + b + target + c + data_dir + (d + target + e));
    let other = no_snapshot(data_dir, target);
    let x = "no stored snapshot found for "@;
    lemma_mentioned(x, target, c + data_dir + d + target + e);
    assert(other =~= x + target + (c + data_dir + d + target + e));
    lemma_mentioned(x + target + c, data_dir, d + target + e);
    assert(other =~= x + target + c + data_dir + (d + target + e));
}

/// What is said of the store, of a file that is no export and of a name that is not that of
/// a snapshot names the directory or the file.
pub proof fn law_files_are_named(path: Seq<char>, cause: Seq<char>)
    ensures
        mentions(store_message(StoreErrorView::TooManyAtOnce { bucket: path }), path),
        mentions(fault_message(path, FaultView::Unreadable { cause }), path),
        mentions(fault_message(path, FaultView::InvalidJson { cause }), path),
        mentions(fault_message(path, FaultView::NotArray), path),
        mentions(fault_message(path, FaultView::TooShort), path),
        mentions(fault_message(path, FaultView::RootNotDirectory), path),
        mentions(wrong_output(path), path),
{
    let none = Seq::<char>::empty();
    let a = "too many snapshots with the same timestamp in "@;
    lemma_mentioned(a, path, none);
    assert(a + path + none =~= a + path);
    let b = "failed to read gdu export file "@;
    lemma_mentioned(b, path, none);
    assert(b + path + none =~= b + path);
    let c = "failed to parse JSON from "@;
    lemma_mentioned(c, path, none);
    assert(c + path + none =~= c + path);
    let d = " is not a valid gdu export array"@;
    lemma_mentioned(none, path, d);
    assert(none + path + d =~= path + d);
    let e = " is too short to be a valid gdu export"@;
    lemma_mentioned(none, path, e);
    assert(none + path + e =~= path + e);
    let f = " root node is not a directory"@;
    lemma_mentioned(none, path, f);
    assert(none + path + f =~= path + f);
    let g = "snapshot output must use either .json or "@ + SNAPSHOT_FILE_SUFFIX@
        + ": "@;
    lemma_mentioned(g, path, none);
    assert(g + path + none =~= g + path);
}

/// An export that fails names the program that was run, and the directory where it was being
/// scanned.
pub proof fn law_failed_exports(state: ExportState)
    ensures
        ({
            let program = program_name(state.candidate);
            let start = export_step(state, ExportEventView::SpawnFailed).1;
            let read = export_step(state, ExportEventView::ReadFailed).1;
            let wait = export_step(state, ExportEventView::WaitFailed).1;
            &&& start is Fail && mentions(start->message, program) && mentions(
                start->message,
                state.target,
            )
            &&& read is Fail && mentions(read->message, program)
            &&& wait is Fail && mentions(wait->message, program) && mentions(
                wait->message,
                state.target,
            )
        }),
{
    let none = Seq::<char>::empty();
    let program = program_name(state.candidate);
    let target = state.target;
    let a = "failed to run "@;
    let b = " to export "@;
    lemma_mentioned(a, program, b + target);
    assert(a + program + (b + target) =~= a + program + b + target);
    lemma_mentioned(a + program + b, target, none);
    assert(a + program + b + target + none =~= a + program + b + target);
    let c = "failed to read progress output from "@;
    lemma_mentioned(c, program, none);
    assert(c + program + none =~= c + program);
    let d = "failed to wait for "@;
    let e = " while exporting "@;
    lemma_mentioned(d, program, e + target);
    assert(d + program + (e + target) =~= d + program + e + target);
    lemma_mentioned(d + program + e, target, none);
    assert(d + program + e + target + none =~= d + program + e + target);
}

/// Marking a row says its name, and clearing the marks how many there were; neither is
/// shown as an error.
pub proof fn law_messages_on_marks(app: AppView)
    ensures
        selected_of(app) matches Some(row) ==> (toggled(app).status matches Some(status)
            && mentions(status.text, row.name) && status.kind is Info),
        app.marked.len() > 0 ==> (cleared(app).status matches Some(status) && mentions(
            status.text,
            decimal(app.marked.len()),
        ) && status.kind is Info),
        app.marked.len() == 0 ==> cleared(app) == app,
{
    let none = Seq::<char>::empty();
    if let Some(row) = selected_of(app) {
        let a = "Unmarked "@;
        let b = "Marked "@;
        lemma_mentioned(a, row.name, none);
        assert(a + row.name + none =~= a + row.name);
        lemma_mentioned(b, row.name, none);
        assert(b + row.name + none =~= b + row.name);
    }
    lemma_mentioned("Cleared "@, decimal(app.marked.len()), " marked entries"@);
}

/// The message to the user is shown as it is, and errors are told apart by their style.
pub proof fn law_status_is_shown(text: Seq<char>, kind: StatusKind)
    ensures
        mentions(shown(message_line(Some(StatusView { text, kind }))), text),
        message_line(Some(StatusView { text, kind: StatusKind::Error })).last().style
            != message_line(Some(StatusView { text, kind: StatusKind::Info })).last().style,
{
    let line = message_line(Some(StatusView { text, kind }));
    lemma_mentioned_in_line(line, 1);
}

/// A line mentions the text of each of its pieces.
proof fn lemma_mentioned_in_line(line: Seq<SpanView>, i: int)
    requires
        0 <= i < line.len(),
    ensures
        mentions(shown(line), line[i].text),
{
    let front = line.take(i);
    let piece = seq![line[i]];
    let back = line.skip(i + 1);
    assert(line =~= front + piece + back);
    lemma_shown_sum(front, piece);
    lemma_shown_sum(front + piece, back);
    lemma_shown_one(line[i]);
    lemma_mentioned(shown(front), line[i].text, shown(back));
}

/// The overview says what is compared: the root, how many snapshots there are, their range
/// and the metric, and how the rows are sorted.
pub proof fn law_overview_says_what_is_compared(app: AppView, row: RowView)
    ensures
        ({
            let lines = overview(app, row);
            &&& mentions(shown(lines[0]), app.all.last().root_name)
            &&& mentions(shown(lines[0]), decimal(app.all.len()))
            &&& mentions(shown(lines[0]), range_label(app.all))
            &&& mentions(shown(lines[0]), metric_label(app.metric))
            &&& mentions(shown(lines[1]), sort_label(app.sort))
            &&& lines[2] == summary_line(row)
            &&& app.status matches Some(status) ==> mentions(shown(lines[3]), status.text)
        }),
{
    let lines = overview(app, row);
    let first = lines[0];
    let second = lines[1];
    assert(first.len() == 12);
    assert(first[2].text == app.all.last().root_name);
    assert(first[5].text == decimal(app.all.len()));
    assert(first[8].text == range_label(app.all));
    assert(first[11].text == metric_label(app.metric));
    lemma_mentioned_in_line(first, 2);
    lemma_mentioned_in_line(first, 5);
    lemma_mentioned_in_line(first, 8);
    lemma_mentioned_in_line(first, 11);
    let n = second.len() - 1;
    assert(second[n].text == sort_label(app.sort));
    lemma_mentioned_in_line(second, n);
    if let Some(status) = app.status {
        law_status_is_shown(status.text, status.kind);
    }
}

/// The letter of a kind of entry is that with which its name starts.
pub proof fn law_letters_are_those_of_the_names(kind: EntryKind)
    ensures
        kind_letter(kind).len() == 1,
        kind_letter(kind)[0] as int + 32 == kind_label(kind)[0] as int,
{
    reveal_strlit("D");
    reveal_strlit("F");
    reveal_strlit("M");
    reveal_strlit("dir");
    reveal_strlit("file");
    reveal_strlit("mixed");
}

} // verus!
