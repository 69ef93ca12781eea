//! What the marked rows come to, and where the keys of the browser lead.

use crate::analysis::{ChangeKind, RowView, baseline_root, holds_latest, latest_root, law_children_are_determined, law_parent_of_child, opens, row_sound, wrapped};
use crate::double::{Double, distance, law_adding_to_nothing, law_sum_is_nearest, limited, steps};
use crate::gdu::NodeView;
use crate::index::child_path;
use crate::rows::law_rescan_takes_what_was_found;
use crate::totals::{baseline_total, delta_total, is_plain_name, latest_total, node_at};
use crate::tui::{AppActionView, AppView, CURRENT_LABEL, CopyKind, Key, MarkedSummary, lemma_mark_place, lemma_pushed_contains, lemma_removed_contains, lemma_row_place, mark_place, no_repeats, pressed, refreshed, rescanned_app, selected_of, summary_of, up_to_date, with_row, wrapped_size};
use vstd::arithmetic::power2::pow2;
use vstd::prelude::*;

verus! {

/// Those of the rows that are marked.
pub open spec fn marked_rows(rows: Seq<RowView>, marked: Seq<Seq<char>>) -> Seq<RowView> {
    rows.filter(|row: RowView| marked.contains(row.path))
}

/// How many of the rows changed in a way.
pub open spec fn changed_as(rows: Seq<RowView>, kind: ChangeKind) -> nat {
    rows.filter(|row: RowView| row.change_kind == kind).len()
}

proof fn lemma_one_more_marked(rows: Seq<RowView>, marked: Seq<Seq<char>>)
    requires
        rows.len() > 0,
    ensures
        marked_rows(rows, marked) == (if marked.contains(rows.last().path) {
            marked_rows(rows.drop_last(), marked).push(rows.last())
        } else {
            marked_rows(rows.drop_last(), marked)
        }),
{
    reveal(Seq::filter);
}

proof fn lemma_one_more_changed(rows: Seq<RowView>, row: RowView, kind: ChangeKind)
    ensures
        changed_as(rows.push(row), kind) == changed_as(rows, kind) + (if row.change_kind == kind {
            1nat
        } else {
            0
        }),
{
    reveal(Seq::filter);
    assert(rows.push(row).drop_last() =~= rows);
}

proof fn lemma_marked(marked: Seq<Seq<char>>, path: Seq<char>)
    ensures
        mark_place(marked, path) >= 0 <==> marked.contains(path),
{
    lemma_mark_place(marked, path);
}

proof fn lemma_no_more_than(rows: Seq<RowView>, kind: ChangeKind)
    ensures
        changed_as(rows, kind) <= rows.len(),
    decreases rows.len(),
{
    reveal(Seq::filter);
    if rows.len() > 0 {
        lemma_no_more_than(rows.drop_last(), kind);
    }
}

proof fn lemma_marked_are_rows(rows: Seq<RowView>, marked: Seq<Seq<char>>)
    ensures
        marked_rows(rows, marked).len() <= rows.len(),
        marked_rows(rows, marked).len() == 0 <==> forall|i: int|
            0 <= i < rows.len() ==> !marked.contains((#[trigger] rows[i]).path),
    decreases rows.len(),
{
    if rows.len() == 0 {
        reveal(Seq::filter);
    } else {
        lemma_marked_are_rows(rows.drop_last(), marked);
        lemma_one_more_marked(rows, marked);
        let front = rows.drop_last();
        assert(forall|i: int| 0 <= i < front.len() ==> front[i] == rows[i]);
        if forall|i: int| 0 <= i < rows.len() ==> !marked.contains((#[trigger] rows[i]).path) {
            assert forall|i: int| 0 <= i < front.len() implies !marked.contains(
                (#[trigger] front[i]).path,
            ) by {
                assert(front[i] == rows[i]);
            }
        }
        if marked_rows(rows, marked).len() == 0 {
            assert forall|i: int| 0 <= i < rows.len() implies !marked.contains(
                (#[trigger] rows[i]).path,
            ) by {
                if i < front.len() {
                    assert(front[i] == rows[i]);
                }
            }
        }
    }
}

/// A sum that starts again beyond 64 bits.
proof fn lemma_wrapping_step(sum: u64, total: nat, more: u64)
    requires
        (sum - total) % 0x1_0000_0000_0000_0000 == 0,
    ensures
        (wrapped_size(sum, more) - (total + more)) % 0x1_0000_0000_0000_0000 == 0,
{
}

/// A sum with a sign that starts again beyond 64 bits.
proof fn lemma_signed_step(sum: i64, total: int, more: i64)
    requires
        (sum - total) % 0x1_0000_0000_0000_0000 == 0,
    ensures
        (wrapped(sum + more) - (total + more)) % 0x1_0000_0000_0000_0000 == 0,
{
}

/// The summary counts the rows and adds up what they show.
spec fn adds_up(summary: MarkedSummary, chosen: Seq<RowView>) -> bool {
    &&& summary.count == chosen.len()
    &&& summary.counts.added == changed_as(chosen, ChangeKind::Added)
    &&& summary.counts.removed == changed_as(chosen, ChangeKind::Removed)
    &&& summary.counts.changed == changed_as(chosen, ChangeKind::Changed)
    &&& summary.counts.unchanged == changed_as(chosen, ChangeKind::Unchanged)
    &&& (summary.baseline_size - baseline_total(chosen)) % 0x1_0000_0000_0000_0000 == 0
    &&& (summary.latest_size - latest_total(chosen)) % 0x1_0000_0000_0000_0000 == 0
    &&& (summary.delta - delta_total(chosen)) % 0x1_0000_0000_0000_0000 == 0
}

proof fn lemma_one_more_row(summary: MarkedSummary, chosen: Seq<RowView>, row: RowView)
    requires
        adds_up(summary, chosen),
        chosen.len() < usize::MAX,
    ensures
        adds_up(with_row(summary, row), chosen.push(row)),
{
    assert(chosen.push(row).drop_last() =~= chosen);
    lemma_one_more_changed(chosen, row, ChangeKind::Added);
    lemma_one_more_changed(chosen, row, ChangeKind::Removed);
    lemma_one_more_changed(chosen, row, ChangeKind::Changed);
    lemma_one_more_changed(chosen, row, ChangeKind::Unchanged);
    lemma_no_more_than(chosen, ChangeKind::Added);
    lemma_no_more_than(chosen, ChangeKind::Removed);
    lemma_no_more_than(chosen, ChangeKind::Changed);
    lemma_no_more_than(chosen, ChangeKind::Unchanged);
    lemma_wrapping_step(summary.baseline_size, baseline_total(chosen), row.baseline_size);
    lemma_wrapping_step(summary.latest_size, latest_total(chosen), row.latest_size);
    lemma_signed_step(summary.delta, delta_total(chosen), row.delta);
}

proof fn lemma_adds_up(rows: Seq<RowView>, marked: Seq<Seq<char>>)
    requires
        rows.len() <= usize::MAX,
    ensures
        adds_up(summary_of(rows, marked), marked_rows(rows, marked)),
    decreases rows.len(),
{
    if rows.len() == 0 {
        reveal(Seq::filter);
    } else {
        let front = rows.drop_last();
        let last = rows.last();
        lemma_adds_up(front, marked);
        lemma_one_more_marked(rows, marked);
        lemma_marked(marked, last.path);
        lemma_marked_are_rows(front, marked);
        if marked.contains(last.path) {
            lemma_one_more_row(summary_of(front, marked), marked_rows(front, marked), last);
        }
    }
}

/// The summary of the marked rows counts each of them once, under the way in which it
/// changed, and nothing else. Its sizes are the sums of their sizes, and its change is the
/// sum of their changes, of either sign. Only sums beyond 64 bits start again.
pub proof fn law_summary_adds_up(rows: Seq<RowView>, marked: Seq<Seq<char>>)
    requires
        rows.len() <= usize::MAX,
    ensures
        ({
            let summary = summary_of(rows, marked);
            let chosen = marked_rows(rows, marked);
            &&& summary.count == chosen.len()
            &&& summary.counts.added == changed_as(chosen, ChangeKind::Added)
            &&& summary.counts.removed == changed_as(chosen, ChangeKind::Removed)
            &&& summary.counts.changed == changed_as(chosen, ChangeKind::Changed)
            &&& summary.counts.unchanged == changed_as(chosen, ChangeKind::Unchanged)
            &&& (summary.baseline_size - baseline_total(chosen)) % 0x1_0000_0000_0000_0000 == 0
            &&& (summary.latest_size - latest_total(chosen)) % 0x1_0000_0000_0000_0000 == 0
            &&& (summary.delta - delta_total(chosen)) % 0x1_0000_0000_0000_0000 == 0
            &&& baseline_total(chosen) <= u64::MAX ==> summary.baseline_size == baseline_total(
                chosen,
            )
            &&& latest_total(chosen) <= u64::MAX ==> summary.latest_size == latest_total(chosen)
            &&& i64::MIN <= delta_total(chosen) <= i64::MAX ==> summary.delta == delta_total(
                chosen,
            )
        }),
{
    lemma_adds_up(rows, marked);
}

/// Where the change of every row is the difference of its sizes and no sum goes beyond 64
/// bits, the change of the summary is the difference of its sizes.
pub proof fn law_summary_is_consistent(rows: Seq<RowView>, marked: Seq<Seq<char>>)
    requires
        rows.len() <= usize::MAX,
        forall|i: int|
            0 <= i < rows.len() ==> (#[trigger] rows[i]).delta == rows[i].latest_size
                - rows[i].baseline_size,
        latest_total(marked_rows(rows, marked)) <= i64::MAX,
        baseline_total(marked_rows(rows, marked)) <= i64::MAX,
    ensures
        summary_of(rows, marked).delta == summary_of(rows, marked).latest_size - summary_of(
            rows,
            marked,
        ).baseline_size,
{
    law_summary_adds_up(rows, marked);
    lemma_totals_are_consistent(rows, marked);
}

proof fn lemma_totals_are_consistent(rows: Seq<RowView>, marked: Seq<Seq<char>>)
    requires
        forall|i: int|
            0 <= i < rows.len() ==> (#[trigger] rows[i]).delta == rows[i].latest_size
                - rows[i].baseline_size,
    ensures
        delta_total(marked_rows(rows, marked)) == latest_total(marked_rows(rows, marked))
            - baseline_total(marked_rows(rows, marked)),
    decreases rows.len(),
{
    if rows.len() == 0 {
        reveal(Seq::filter);
    } else {
        let front = rows.drop_last();
        assert forall|i: int| 0 <= i < front.len() implies (#[trigger] front[i]).delta
            == front[i].latest_size - front[i].baseline_size by {
            assert(front[i] == rows[i]);
        }
        lemma_totals_are_consistent(front, marked);
        lemma_one_more_marked(rows, marked);
        if marked.contains(rows.last().path) {
            assert(marked_rows(rows, marked).drop_last() =~= marked_rows(front, marked));
            assert(rows[rows.len() - 1] == rows.last());
        }
    }
}

/// There is a summary only where some row on the screen is marked; marks of rows that are
/// not on the screen do not count.
pub proof fn law_summary_needs_a_marked_row(rows: Seq<RowView>, marked: Seq<Seq<char>>)
    requires
        rows.len() <= usize::MAX,
    ensures
        summary_of(rows, marked).count > 0 <==> exists|i: int|
            0 <= i < rows.len() && marked.contains((#[trigger] rows[i]).path),
{
    law_summary_adds_up(rows, marked);
    lemma_marked_are_rows(rows, marked);
}

/// The order in which rows were marked does not count.
pub proof fn law_summary_depends_on_what_is_marked(
    rows: Seq<RowView>,
    marked: Seq<Seq<char>>,
    other: Seq<Seq<char>>,
)
    requires
        forall|i: int|
            0 <= i < rows.len() ==> (marked.contains((#[trigger] rows[i]).path) <==> other.contains(
                rows[i].path,
            )),
    ensures
        summary_of(rows, marked) == summary_of(rows, other),
    decreases rows.len(),
{
    if rows.len() > 0 {
        let front = rows.drop_last();
        assert forall|i: int| 0 <= i < front.len() implies (marked.contains(
            (#[trigger] front[i]).path,
        ) <==> other.contains(front[i].path)) by {
            assert(front[i] == rows[i]);
        }
        law_summary_depends_on_what_is_marked(front, marked, other);
        assert(rows[rows.len() - 1] == rows.last());
        lemma_marked(marked, rows.last().path);
        lemma_marked(other, rows.last().path);
    }
}

/// The number is the sum of two that are not negative, rounded.
pub open spec fn is_rounded_sum(x: Double, a: Double, b: Double) -> bool {
    &&& x.wf() && !x.negative
    &&& x.significand == 0 <==> steps(a) + steps(b) == 0
    &&& x.significand > 0 ==> 2 * distance(steps(x) as int, (steps(a) + steps(b)) as int) <= pow2(
        (x.exponent + 2000) as nat,
    )
}

/// A share that a sum can go on with.
pub open spec fn is_sum(x: Double) -> bool {
    limited(x) && x.exponent >= -1900
}

/// A further marked row adds its shares to those of the summary: its share of the
/// directory and of the root, in the first and in the last snapshot, each to its own sum.
pub proof fn law_summary_adds_shares(rows: Seq<RowView>, row: RowView, marked: Seq<Seq<char>>)
    requires
        marked.contains(row.path),
        row_sound(row),
        is_sum(summary_of(rows, marked).baseline_local_share),
        is_sum(summary_of(rows, marked).latest_local_share),
        is_sum(summary_of(rows, marked).baseline_root_share),
        is_sum(summary_of(rows, marked).latest_root_share),
    ensures
        ({
            let before = summary_of(rows, marked);
            let after = summary_of(rows.push(row), marked);
            &&& is_rounded_sum(
                after.baseline_local_share,
                before.baseline_local_share,
                row.baseline_local_share,
            )
            &&& is_rounded_sum(
                after.latest_local_share,
                before.latest_local_share,
                row.latest_local_share,
            )
            &&& is_rounded_sum(
                after.baseline_root_share,
                before.baseline_root_share,
                row.timeline[0].root_share,
            )
            &&& is_rounded_sum(
                after.latest_root_share,
                before.latest_root_share,
                row.timeline.last().root_share,
            )
        }),
{
    let before = summary_of(rows, marked);
    assert(rows.push(row).drop_last() =~= rows);
    lemma_marked(marked, row.path);
    let n = row.timeline.len() - 1;
    assert(row.timeline[0] == row.timeline[0]);
    assert(row.timeline[n] == row.timeline.last());
    law_sum_is_nearest(before.baseline_local_share, row.baseline_local_share);
    law_sum_is_nearest(before.latest_local_share, row.latest_local_share);
    law_sum_is_nearest(before.baseline_root_share, baseline_root(row));
    law_sum_is_nearest(before.latest_root_share, latest_root(row));
}

/// The summary of one marked row shows what the row shows.
pub proof fn law_summary_of_one_row(row: RowView, marked: Seq<Seq<char>>)
    requires
        marked.contains(row.path),
        row_sound(row),
    ensures
        ({
            let summary = summary_of(seq![row], marked);
            &&& summary.count == 1
            &&& summary.baseline_size == row.baseline_size
            &&& summary.latest_size == row.latest_size
            &&& summary.delta == row.delta
            &&& summary.baseline_local_share == row.baseline_local_share
            &&& summary.latest_local_share == row.latest_local_share
            &&& summary.baseline_root_share == row.timeline[0].root_share
            &&& summary.latest_root_share == row.timeline.last().root_share
        }),
{
    reveal_with_fuel(summary_of, 2);
    let rows = seq![row];
    assert(rows.drop_last() =~= Seq::<RowView>::empty());
    lemma_marked(marked, row.path);
    let n = row.timeline.len() - 1;
    assert(row.timeline[n] == row.timeline.last());
    assert(row.timeline[0] == row.timeline[0]);
    law_adding_to_nothing(row.baseline_local_share);
    law_adding_to_nothing(row.latest_local_share);
    law_adding_to_nothing(baseline_root(row));
    law_adding_to_nothing(latest_root(row));
}

/// The same screen, but for the row that is selected.
pub open spec fn only_selection_differs(before: AppView, after: AppView) -> bool {
    after == (AppView { selected: after.selected, ..before })
}

/// The keys that move the selection do so by one row, by one page or to an end, stop at
/// the first and at the last row, and change nothing else.
pub proof fn law_moving_keys(before: AppView, key: Key, after: AppView, action: AppActionView)
    requires
        pressed(before, key, after, action),
        !before.show_help,
        before.selected matches Some(i) && i < before.rows.len() <= usize::MAX,
    ensures
        ({
            let i = before.selected->Some_0 as int;
            let last = before.rows.len() - 1;
            let page = if before.page_step > 1 {
                before.page_step as int
            } else {
                1
            };
            let down = key == Key::Down || key == Key::Char('j');
            let up = key == Key::Up || key == Key::Char('k');
            let page_down = key == Key::PageDown || key == Key::Char('.');
            let page_up = key == Key::PageUp || key == Key::Char(',');
            let start = key == Key::Char('g');
            let end = key == Key::Char('G');
            let moves = down || up || page_down || page_up || start || end;
            &&& moves ==> only_selection_differs(before, after) && action
                == AppActionView::Nothing
            &&& moves ==> after.selected is Some
            &&& moves ==> after.selected->Some_0 < after.rows.len()
            &&& down && i < last ==> after.selected->Some_0 == i + 1
            &&& down && i == last ==> after.selected->Some_0 == i
            &&& up && i > 0 ==> after.selected->Some_0 == i - 1
            &&& up && i == 0 ==> after.selected->Some_0 == i
            &&& page_down && i + page <= last ==> after.selected->Some_0 == i + page
            &&& page_down && i + page > last ==> after.selected->Some_0 == last
            &&& page_up && i >= page ==> after.selected->Some_0 == i - page
            &&& page_up && i < page ==> after.selected->Some_0 == 0
            &&& start ==> after.selected->Some_0 == 0
            &&& end ==> after.selected->Some_0 == last
        }),
{
}

/// Where there are no rows, no key that moves the selection selects anything.
pub proof fn law_nothing_to_select(
    before: AppView,
    key: Key,
    after: AppView,
    action: AppActionView,
)
    requires
        pressed(before, key, after, action),
        !before.show_help,
        before.rows.len() == 0,
        before.selected is None,
        key == Key::Down || key == Key::Up || key == Key::PageDown || key == Key::PageUp || key
            == Key::Char('j') || key == Key::Char('k') || key == Key::Char('.') || key
            == Key::Char(',') || key == Key::Char('g') || key == Key::Char('G') || key
            == Key::Char(' '),
    ensures
        after == before,
        action == AppActionView::Nothing,
{
}

/// Going down a row and up again, where there is a row below, leads back.
pub proof fn law_down_and_up(
    before: AppView,
    between: AppView,
    after: AppView,
    first: AppActionView,
    second: AppActionView,
)
    requires
        !before.show_help,
        before.selected matches Some(i) && i + 1 < before.rows.len() <= usize::MAX,
        pressed(before, Key::Down, between, first),
        pressed(between, Key::Up, after, second),
    ensures
        after == before,
{
}

/// The space key marks the selected row where it is not marked, and else removes the mark;
/// every other mark stays.
pub proof fn law_space_marks_the_selected_row(
    before: AppView,
    after: AppView,
    action: AppActionView,
    path: Seq<char>,
)
    requires
        pressed(before, Key::Char(' '), after, action),
        !before.show_help,
        no_repeats(before.marked),
        selected_of(before) is Some,
    ensures
        path != selected_of(before)->Some_0.path ==> (after.marked.contains(path)
            <==> before.marked.contains(path)),
        path == selected_of(before)->Some_0.path ==> (after.marked.contains(path)
            <==> !before.marked.contains(path)),
        after.rows == before.rows,
        after.selected == before.selected,
        after.current_path == before.current_path,
        after.marked.len() == before.marked.len() + 1 || after.marked.len() + 1
            == before.marked.len(),
{
    let row = selected_of(before)->Some_0;
    lemma_mark_place(before.marked, row.path);
    let k = mark_place(before.marked, row.path);
    if k >= 0 {
        lemma_removed_contains(before.marked, k, path);
    } else {
        lemma_pushed_contains(before.marked, row.path, path);
    }
}

/// Where the rows are listed anew, the row that was selected stays selected as long as it
/// is still listed; else the first one is selected.
pub proof fn law_selection_stays(before: AppView, after: AppView)
    requires
        refreshed(before, None, after),
        after.rows.len() <= usize::MAX,
        selected_of(before) is Some,
    ensures
        (exists|i: int|
            0 <= i < after.rows.len() && (#[trigger] after.rows[i]).path == selected_of(
                before,
            )->Some_0.path) ==> selected_of(after) is Some && selected_of(after)->Some_0.path
            == selected_of(before)->Some_0.path,
        !(exists|i: int|
            0 <= i < after.rows.len() && (#[trigger] after.rows[i]).path == selected_of(
                before,
            )->Some_0.path) && after.rows.len() > 0 ==> after.selected == Some(0usize),
        after.rows.len() == 0 ==> after.selected is None,
{
    lemma_row_place(after.rows, selected_of(before)->Some_0.path);
}

/// The keys for the order of the rows, for the metric and for the files set what they say
/// and leave the rest of what is shown.
pub proof fn law_keys_for_what_is_shown(
    before: AppView,
    key: Key,
    after: AppView,
    action: AppActionView,
)
    requires
        pressed(before, key, after, action),
        !before.show_help,
    ensures
        key == Key::Char('n') ==> after.sort is Name,
        key == Key::Char('s') ==> after.sort is LatestSize,
        key == Key::Char('d') ==> after.sort is Delta,
        key == Key::Char('p') ==> after.sort is ShareDelta,
        key == Key::Char('n') || key == Key::Char('s') || key == Key::Char('d') || key
            == Key::Char('p') ==> {
            &&& up_to_date(after)
            &&& after.metric == before.metric
            &&& after.include_files == before.include_files
            &&& after.current_path == before.current_path
            &&& after.marked == before.marked
            &&& after.status == before.status
        },
        key == Key::Char('a') ==> {
            &&& up_to_date(after)
            &&& after.metric != before.metric
            &&& after.include_files == before.include_files
            &&& after.sort == before.sort
            &&& after.current_path == before.current_path
        },
        key == Key::Char('f') ==> {
            &&& up_to_date(after)
            &&& after.include_files != before.include_files
            &&& after.metric == before.metric
            &&& after.sort == before.sort
            &&& after.current_path == before.current_path
        },
        key == Key::Char('a') || key == Key::Char('f') || key == Key::Char('n') || key == Key::Char(
            's',
        ) || key == Key::Char('d') || key == Key::Char('p') ==> action == AppActionView::Nothing,
{
}

/// Pressing the key for the metric, or the one for the files, twice shows the same rows
/// again.
pub proof fn law_switching_back(
    before: AppView,
    key: Key,
    between: AppView,
    after: AppView,
    first: AppActionView,
    second: AppActionView,
)
    requires
        up_to_date(before),
        !before.show_help,
        key == Key::Char('a') || key == Key::Char('f'),
        pressed(before, key, between, first),
        pressed(between, key, after, second),
    ensures
        after.metric == before.metric,
        after.include_files == before.include_files,
        after.sort == before.sort,
        after.current_path == before.current_path,
        after.rows == before.rows,
{
    law_children_are_determined(
        before.all,
        before.current_path,
        before.include_files,
        before.metric,
        before.sort,
        before.rows,
        after.rows,
    );
}

/// What can be opened is entered, and nothing is marked there; what can not be opened
/// stays closed.
pub proof fn law_opening(before: AppView, key: Key, after: AppView, action: AppActionView)
    requires
        pressed(before, key, after, action),
        !before.show_help,
        key == Key::Enter || key == Key::Right || key == Key::Char('l'),
    ensures
        action == AppActionView::Nothing,
        selected_of(before) matches Some(row) && opens(row.kind) ==> {
            &&& after.current_path == selected_of(before)->Some_0.path
            &&& after.marked.len() == 0
            &&& up_to_date(after)
            &&& after.metric == before.metric
            &&& after.sort == before.sort
            &&& after.include_files == before.include_files
        },
        !(selected_of(before) matches Some(row) && opens(row.kind)) ==> after == before,
{
}

/// The key for the parent leads up one directory and selects the one that was left; at the
/// root it does nothing.
pub proof fn law_going_up(
    before: AppView,
    key: Key,
    after: AppView,
    action: AppActionView,
    parent: Seq<char>,
    name: Seq<char>,
)
    requires
        pressed(before, key, after, action),
        !before.show_help,
        key == Key::Left || key == Key::Backspace || key == Key::Char('h'),
        after.rows.len() <= usize::MAX,
    ensures
        action == AppActionView::Nothing,
        before.current_path.len() == 0 ==> after == before,
        is_plain_name(name) && before.current_path == child_path(parent, name) ==> {
            &&& after.current_path == parent
            &&& after.marked.len() == 0
            &&& up_to_date(after)
            &&& (exists|i: int|
                0 <= i < after.rows.len() && (#[trigger] after.rows[i]).path
                    == before.current_path) ==> selected_of(after) is Some && selected_of(
                after,
            )->Some_0.path == before.current_path
        },
{
    if is_plain_name(name) && before.current_path == child_path(parent, name) {
        law_parent_of_child(parent, name);
        lemma_row_place(after.rows, before.current_path);
    }
}

/// While the help is shown only three keys do anything: escape and the question mark close
/// it, and `q` quits. Else the question mark opens it.
pub proof fn law_help_keys(before: AppView, key: Key, after: AppView, action: AppActionView)
    requires
        pressed(before, key, after, action),
    ensures
        before.show_help ==> action == AppActionView::Nothing,
        before.show_help && (key == Key::Esc || key == Key::Char('?')) ==> after == (AppView {
            show_help: false,
            ..before
        }),
        before.show_help && key != Key::Esc && key != Key::Char('?') && key != Key::Char('q')
            ==> after == before,
        !before.show_help && key == Key::Char('?') ==> after == (AppView {
            show_help: true,
            ..before
        }),
        !before.show_help && key != Key::Char('?') ==> !after.show_help,
        key == Key::Char('q') ==> after == (AppView { should_quit: true, ..before }),
        key != Key::Char('q') ==> after.should_quit == before.should_quit,
        after.page_step == before.page_step,
{
}

/// The keys that ask for something outside of the browser leave the screen as it is. What
/// is copied is the path of the selected row, or of the directory where there is none, from
/// the root or in full; a shell opens, and a scan is made, in the directory on the screen,
/// the latter only where the last snapshot is one of the current state. No other key asks
/// for anything.
pub proof fn law_outside_keys(before: AppView, key: Key, after: AppView, action: AppActionView)
    requires
        pressed(before, key, after, action),
        !before.show_help,
        before.all.len() > 0,
    ensures
        ({
            let root = before.all.last().root_name;
            let shown = if before.current_path.len() == 0 {
                root
            } else {
                root + "/"@ + before.current_path
            };
            &&& key == Key::Char('c') || key == Key::Char('C') || key == Key::Char('b') || key
                == Key::Char('r') ==> after == before
            &&& key == Key::Char('c') && selected_of(before) is Some && selected_of(
                before,
            )->Some_0.path.len() > 0 ==> action == (AppActionView::Copy {
                kind: CopyKind::RelativePath,
                value: selected_of(before)->Some_0.path,
            })
            &&& key == Key::Char('C') && selected_of(before) is Some && selected_of(
                before,
            )->Some_0.path.len() > 0 ==> action == (AppActionView::Copy {
                kind: CopyKind::AbsolutePath,
                value: root + "/"@ + selected_of(before)->Some_0.path,
            })
            &&& key == Key::Char('c') && selected_of(before) is None && before.current_path.len() > 0
                ==> action == (AppActionView::Copy {
                kind: CopyKind::RelativePath,
                value: before.current_path,
            })
            &&& key == Key::Char('c') && selected_of(before) is None && before.current_path.len() == 0
                ==> action == (AppActionView::Copy { kind: CopyKind::RelativePath, value: "."@ })
            &&& key == Key::Char('C') && selected_of(before) is None ==> action == (
            AppActionView::Copy { kind: CopyKind::AbsolutePath, value: shown })
            &&& key == Key::Char('b') ==> action == (AppActionView::OpenShell { path: shown })
            &&& key == Key::Char('r') && before.all.last().label == CURRENT_LABEL@ ==> action == (
            AppActionView::Rescan { path: shown })
            &&& key == Key::Char('r') && before.all.last().label != CURRENT_LABEL@ ==> action
                == AppActionView::Nothing
            &&& key != Key::Char('c') && key != Key::Char('C') && key != Key::Char('b') && key
                != Key::Char('r') ==> action == AppActionView::Nothing
        }),
{
}

/// After a rescan the last snapshot holds in the directory on the screen what was found
/// there, and the rows that are listed then are those of the snapshots with it.
pub proof fn law_rescan_shows_what_was_found(app: AppView, found: NodeView, after: AppView)
    requires
        app.all.len() > 0,
        found is Dir,
        node_at(app.latest, seq![], app.current_path) matches Some(node) && node is Dir,
        refreshed(rescanned_app(app, found), None, after),
    ensures
        node_at(after.latest, seq![], app.current_path) matches Some(node) && node is Dir
            && node->children == found->children,
        holds_latest(after.all, after.latest),
        after.all.len() == app.all.len(),
        forall|i: int| 0 <= i < app.all.len() - 1 ==> #[trigger] after.all[i] == app.all[i],
        after.current_path == app.current_path,
        up_to_date(after),
{
    law_rescan_takes_what_was_found(app.latest, app.current_path, found);
}

/// Escape removes the marks and changes nothing else but the message.
pub proof fn law_escape(before: AppView, after: AppView, action: AppActionView)
    requires
        pressed(before, Key::Esc, after, action),
        !before.show_help,
    ensures
        after.marked.len() == 0,
        action == AppActionView::Nothing,
        after == (AppView { marked: after.marked, status: after.status, ..before }),
{
    if before.marked.len() == 0 {
        assert(before.marked =~= seq![]);
    }
}

/// The keys that the browser knows.
pub open spec fn is_known(key: Key) -> bool {
    match key {
        Key::Other => false,
        Key::Char(c) => seq![
            'q', 'k', 'j', ',', '.', 'g', 'G', 'l', 'h', 'a', 'f', 'n', 's', 'd', 'p', ' ', 'c', 'C',
            'b', 'r', '?',
        ].contains(c),
        _ => true,
    }
}

/// No other key does anything.
pub proof fn law_other_keys(before: AppView, key: Key, after: AppView, action: AppActionView)
    requires
        pressed(before, key, after, action),
        !is_known(key),
    ensures
        after == before,
        action == AppActionView::Nothing,
{
    if let Key::Char(c) = key {
        let known = seq![
            'q', 'k', 'j', ',', '.', 'g', 'G', 'l', 'h', 'a', 'f', 'n', 's', 'd', 'p', ' ', 'c', 'C',
            'b', 'r', '?',
        ];
        assert(forall|i: int| 0 <= i < known.len() ==> #[trigger] known[i] != c);
        assert(known[0] != c && known[1] != c && known[2] != c && known[3] != c && known[4] != c
            && known[5] != c && known[6] != c && known[7] != c && known[8] != c && known[9] != c
            && known[10] != c && known[11] != c && known[12] != c && known[13] != c && known[14]
            != c && known[15] != c && known[16] != c && known[17] != c && known[18] != c
            && known[19] != c && known[20] != c);
    }
}

/// In a directory that was entered the first row is selected.
pub proof fn law_opening_selects_the_first_row(
    before: AppView,
    after: AppView,
    action: AppActionView,
)
    requires
        pressed(before, Key::Enter, after, action),
        !before.show_help,
        selected_of(before) matches Some(row) && opens(row.kind),
        forall|i: int|
            0 <= i < after.rows.len() ==> (#[trigger] after.rows[i]).path != after.current_path,
    ensures
        after.rows.len() > 0 ==> after.selected == Some(0usize),
        after.rows.len() == 0 ==> after.selected is None,
{
    lemma_row_place(after.rows, after.current_path);
}

} // verus!
