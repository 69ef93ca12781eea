//! What can be read on the screen.

use crate::analysis::{ChangeKind, EntryKind, RowView, SortMode, baseline_root, change_sign, kind_label, kind_letter, latest_root, opens, root_delta, sort_label};
use crate::double::{Double, negation, sum_of};
use crate::format::{percent, share_change, signed_size, size_text};
use crate::index::{IndexView, zero};
use crate::path::split;
use crate::text::{decimal, join, last_place, lemma_last_place};
use crate::texts::{law_joining, lemma_split_longer};
use crate::tui::{MarkedSummary, column_titles, detail_of, label_texts, marked_lines, row_cells, share_texts, size_texts};
use crate::view::{ChangeCounts, Color, DETAIL_LABEL_WIDTH, MARQUEE_PAUSE, SHARE_LABEL_WIDTH, SpanView, TextStyle, bold, change_color, compact, counts_line, delta_color, directory_color, empty_lines, entry_spans, file_spans, filled, filled_up, marquee, name_parts, names_spans, path_spans, raw, separator_color, share_color, shares, shares_line, spaces, span, summary_line, thin, value_line, width_of};
use vstd::prelude::*;

verus! {

/// The text of some pieces, one after the other.
pub open spec fn shown(spans: Seq<SpanView>) -> Seq<char>
    decreases spans.len(),
{
    if spans.len() == 0 {
        seq![]
    } else {
        shown(spans.drop_last()) + spans.last().text
    }
}

pub proof fn lemma_shown_sum(a: Seq<SpanView>, b: Seq<SpanView>)
    ensures
        shown(a + b) == shown(a) + shown(b),
    decreases b.len(),
{
    if b.len() == 0 {
        assert(a + b =~= a);
        assert(shown(a) + shown(b) =~= shown(a));
    } else {
        lemma_shown_sum(a, b.drop_last());
        assert((a + b).drop_last() =~= a + b.drop_last());
        assert(shown(a) + (shown(b.drop_last()) + b.last().text) =~= shown(a) + shown(
            b.drop_last(),
        ) + b.last().text);
    }
}

pub proof fn lemma_shown_one(a: SpanView)
    ensures
        shown(seq![a]) == a.text,
{
    reveal_with_fuel(shown, 2);
    assert(seq![a].drop_last() =~= seq![]);
    assert(Seq::<char>::empty() + a.text =~= a.text);
}

proof fn lemma_shown_two(a: SpanView, b: SpanView)
    ensures
        shown(seq![a, b]) == a.text + b.text,
{
    lemma_shown_one(a);
    assert(seq![a, b].drop_last() =~= seq![a]);
}

/// The pieces are as wide as what they show.
pub proof fn law_width_is_that_of_the_text(spans: Seq<SpanView>)
    ensures
        width_of(spans) == shown(spans).len(),
    decreases spans.len(),
{
    if spans.len() > 0 {
        law_width_is_that_of_the_text(spans.drop_last());
    }
}

proof fn lemma_name_parts(name: Seq<char>)
    ensures
        name_parts(name) matches Some((stem, extension)) ==> name == stem + seq!['.'] + extension,
{
    lemma_last_place(name, '.');
    if let Some((stem, extension)) = name_parts(name) {
        assert(name =~= stem + seq!['.'] + extension);
    }
}

/// The name of a file is shown in full, in whatever pieces.
pub proof fn law_file_names_are_shown_in_full(name: Seq<char>)
    ensures
        shown(file_spans(name)) == name,
{
    reveal_strlit(".");
    reveal_strlit(".json.zst");
    reveal_strlit("zst");
    reveal_strlit("json");
    assert("."@ =~= seq!['.']);
    let spans = file_spans(name);
    if spans.len() == 1 {
        lemma_shown_one(spans[0]);
        assert(spans =~= seq![spans[0]]);
    } else {
        lemma_shown_two(spans[0], spans[1]);
        assert(spans =~= seq![spans[0], spans[1]]);
        lemma_name_parts(name);
        let (stem, extension) = name_parts(name)->Some_0;
        lemma_name_parts(stem);
        assert(stem + (seq!['.'] + extension) =~= stem + seq!['.'] + extension);
        if let Some((inner, second)) = name_parts(stem) {
            if extension == "zst"@ && second == "json"@ {
                assert(inner + ".json.zst"@ =~= inner + seq!['.'] + second + seq!['.'] + extension);
            }
        }
    }
}

/// The name of an entry is shown in full, and with a separator behind it where something
/// can be in it.
pub proof fn law_entry_names_are_shown_in_full(name: Seq<char>, kind: EntryKind)
    ensures
        opens(kind) ==> shown(entry_spans(name, kind)) == name + seq!['/'],
        !opens(kind) ==> shown(entry_spans(name, kind)) == name,
{
    reveal_strlit("/");
    assert("/"@ =~= seq!['/']);
    let spans = entry_spans(name, kind);
    if opens(kind) {
        lemma_shown_two(spans[0], spans[1]);
        assert(spans =~= seq![spans[0], spans[1]]);
    } else {
        law_file_names_are_shown_in_full(name);
    }
}

/// Every one is the name of a file or directory.
pub open spec fn all_names(names: Seq<Seq<char>>) -> bool {
    forall|i: int| 0 <= i < names.len() ==> (#[trigger] names[i]).len() > 0 && !names[i].contains(
        '/',
    )
}

proof fn lemma_split_of_join(names: Seq<Seq<char>>)
    requires
        names.len() > 0,
        all_names(names),
    ensures
        split(join(names, seq!['/']), '/') == names,
    decreases names.len(),
{
    let none = Seq::<char>::empty();
    assert(split(none, '/') == seq![none]);
    let last = names.last();
    assert(!names[names.len() - 1].contains('/'));
    if names.len() == 1 {
        lemma_split_longer(none, last, '/');
        assert(none + last =~= last);
        assert(split(none, '/').drop_last() =~= seq![]);
        assert(names =~= seq![last]);
        assert(seq![none].drop_last().push(last) =~= names);
    } else {
        let front = names.drop_last();
        assert forall|i: int| 0 <= i < front.len() implies (#[trigger] front[i]).len() > 0
            && !front[i].contains('/') by {
            assert(front[i] == names[i]);
        }
        lemma_split_of_join(front);
        let s = join(front, seq!['/']) + seq!['/'];
        assert(s.drop_last() =~= join(front, seq!['/']));
        lemma_split_longer(s, last, '/');
        assert(split(s, '/').drop_last() =~= front);
        assert(none + last =~= last);
        assert(front.push(last) =~= names);
    }
}

proof fn lemma_nothing_to_drop(names: Seq<Seq<char>>)
    requires
        all_names(names),
    ensures
        filled(names) == names,
    decreases names.len(),
{
    if names.len() > 0 {
        let front = names.drop_last();
        assert forall|i: int| 0 <= i < front.len() implies (#[trigger] front[i]).len() > 0
            && !front[i].contains('/') by {
            assert(front[i] == names[i]);
        }
        lemma_nothing_to_drop(front);
        assert(names[names.len() - 1].len() > 0);
        assert(front.push(names.last()) =~= names);
    } else {
        assert(names =~= seq![]);
    }
}

proof fn lemma_names_shown(names: Seq<Seq<char>>, n: nat, kind: EntryKind)
    requires
        0 < n <= names.len(),
    ensures
        shown(names_spans(names, n, kind)) == join(names.take(n as int), seq!['/']) + (if n
            < names.len() || opens(kind) {
            seq!['/']
        } else {
            seq![]
        }),
    decreases n,
{
    reveal_strlit("/");
    assert("/"@ =~= seq!['/']);
    let name = names[n - 1];
    let before = names_spans(names, (n - 1) as nat, kind);
    let sep = seq!['/'];
    let taken = names.take(n as int);
    assert(taken.last() == name);
    assert(taken.drop_last() =~= names.take(n - 1));
    let more = if n == names.len() {
        entry_spans(name, kind)
    } else {
        seq![
            span(name, bold(directory_color())),
            span("/"@, thin(separator_color())),
        ]
    };
    lemma_shown_sum(before, more);
    law_entry_names_are_shown_in_full(name, kind);
    if n < names.len() {
        lemma_shown_two(more[0], more[1]);
        assert(more =~= seq![more[0], more[1]]);
    }
    if n > 1 {
        lemma_names_shown(names, (n - 1) as nat, kind);
        let front = join(names.take(n - 1), sep);
        assert(front + sep + (name + sep) =~= front + sep + name + sep);
        assert(front + sep + name + Seq::<char>::empty() =~= front + sep + name);
    } else {
        assert(shown(before) == Seq::<char>::empty());
        assert(Seq::<char>::empty() + (name + sep) =~= name + sep);
        assert(Seq::<char>::empty() + name =~= name);
        assert(name + Seq::<char>::empty() =~= name);
    }
}

/// A path is shown in full, from the root or from where it starts, and with a separator
/// behind it where something can be in it.
pub proof fn law_paths_are_shown_in_full(names: Seq<Seq<char>>, kind: EntryKind)
    requires
        names.len() > 0,
        all_names(names),
    ensures
        ({
            let path = join(names, seq!['/']);
            let end = if opens(kind) {
                seq!['/']
            } else {
                seq![]
            };
            &&& shown(path_spans(path, kind)) == path + end
            &&& shown(path_spans(seq!['/'] + path, kind)) == seq!['/'] + path + end
        }),
{
    reveal_strlit("/");
    assert("/"@ =~= seq!['/']);
    let path = join(names, seq!['/']);
    let full = seq!['/'] + path;
    let none = Seq::<char>::empty();
    lemma_split_of_join(names);
    lemma_nothing_to_drop(names);
    lemma_names_shown(names, names.len(), kind);
    assert(names.take(names.len() as int) =~= names);
    law_joining(names, seq!['/']);
    assert(names[0].len() > 0 && !names[0].contains('/'));
    assert(path[0] == names[0][0]);
    assert(names[0].contains(names[0][0]));
    let spans = names_spans(names, names.len(), kind);
    assert(Seq::<SpanView>::empty() + spans =~= spans);
    lemma_split_front(path);
    let pieces = split(full, '/');
    assert(pieces == seq![none] + names);
    lemma_filled_front(names);
    let start = span("/"@, thin(separator_color()));
    lemma_shown_one(start);
    lemma_shown_sum(seq![start], spans);
    assert(full[0] == '/');
    assert(path_spans(full, kind) == seq![start] + spans);
    assert(seq!['/'] + (path + seq!['/']) =~= seq!['/'] + path + seq!['/']);
    assert(seq!['/'] + (path + none) =~= seq!['/'] + path + none);
}

proof fn lemma_split_front(s: Seq<char>)
    ensures
        split(seq!['/'] + s, '/') == seq![Seq::<char>::empty()] + split(s, '/'),
    decreases s.len(),
{
    let none = Seq::<char>::empty();
    let full = seq!['/'] + s;
    if s.len() == 0 {
        assert(full =~= seq!['/']);
        assert(full.drop_last() =~= none);
        assert(split(none, '/') == seq![none]);
        assert(seq![none].push(none) =~= seq![none] + seq![none]);
    } else {
        lemma_split_front(s.drop_last());
        assert(full.drop_last() =~= seq!['/'] + s.drop_last());
        let before = split(s.drop_last(), '/');
        lemma_split_has_pieces(s.drop_last());
        let long = seq![none] + before;
        if s.last() == '/' {
            assert(long.push(none) =~= seq![none] + before.push(none));
        } else {
            assert(long.drop_last() =~= seq![none] + before.drop_last());
            assert(long.drop_last().push(long.last().push(s.last())) =~= seq![none]
                + before.drop_last().push(before.last().push(s.last())));
        }
    }
}

proof fn lemma_split_has_pieces(s: Seq<char>)
    ensures
        split(s, '/').len() > 0,
    decreases s.len(),
{
    if s.len() > 0 {
        lemma_split_has_pieces(s.drop_last());
    }
}

proof fn lemma_filled_front(names: Seq<Seq<char>>)
    requires
        all_names(names),
    ensures
        filled(seq![Seq::<char>::empty()] + names) == names,
    decreases names.len(),
{
    let none = Seq::<char>::empty();
    let all = seq![none] + names;
    if names.len() == 0 {
        reveal_with_fuel(filled, 2);
        assert(all =~= seq![none]);
        assert(all.drop_last() =~= seq![]);
        assert(names =~= seq![]);
    } else {
        let front = names.drop_last();
        assert forall|i: int| 0 <= i < front.len() implies (#[trigger] front[i]).len() > 0
            && !front[i].contains('/') by {
            assert(front[i] == names[i]);
        }
        lemma_filled_front(front);
        assert(all.drop_last() =~= seq![none] + front);
        assert(names[names.len() - 1].len() > 0);
        assert(front.push(names.last()) =~= names);
    }
}

/// Up to six values are all shown. Of more, the first three and the last two are, with dots
/// in place of the others.
pub proof fn law_long_timelines_are_cut(values: Seq<Seq<char>>)
    ensures
        values.len() <= 6 ==> compact(values) == join(values, " | "@),
        values.len() > 6 ==> compact(values) == join(
            seq![
                values[0],
                values[1],
                values[2],
                "..."@,
                values[values.len() - 2],
                values[values.len() - 1],
            ],
            " | "@,
        ),
{
    if values.len() > 6 {
        let n = values.len();
        assert(values.take(3).push("..."@) + values.skip(n - 2) =~= seq![
            values[0],
            values[1],
            values[2],
            "..."@,
            values[n - 2],
            values[n - 1],
        ]);
    }
}

/// A text that is too wide stands still at its start, moves by one character at each tick
/// until its end is in sight, stands still there as long, moves back in the same way and
/// then starts again.
pub proof fn law_marquee_goes_back_and_forth(content: nat, viewport: nat, tick: nat)
    requires
        0 < viewport < content,
        content - viewport <= u16::MAX,
    ensures
        ({
            let overflow = (content - viewport) as nat;
            let pause = MARQUEE_PAUSE as nat;
            let turn = 2 * (overflow + pause);
            &&& tick <= pause ==> marquee(content, viewport, tick) == 0
            &&& pause <= tick <= pause + overflow ==> marquee(content, viewport, tick) == tick
                - pause
            &&& pause + overflow <= tick <= 2 * pause + overflow ==> marquee(
                content,
                viewport,
                tick,
            ) == overflow
            &&& 2 * pause + overflow <= tick <= turn ==> marquee(content, viewport, tick) == turn
                - tick
            &&& marquee(content, viewport, tick + turn) == marquee(content, viewport, tick)
        }),
{
    let overflow = (content - viewport) as nat;
    let pause = MARQUEE_PAUSE as nat;
    let turn = (2 * (pause + overflow)) as int;
    vstd::arithmetic::div_mod::lemma_mod_add_multiples_vanish(tick as int, turn);
    assert((tick + turn) % turn == tick as int % turn);
    if tick < turn {
        vstd::arithmetic::div_mod::lemma_small_mod(tick, turn as nat);
    } else if tick == turn {
        vstd::arithmetic::div_mod::lemma_mod_self_0(turn);
    }
}

/// Growth and shrinking, of sizes and of shares, are shown in one color each, and no change
/// in none.
pub proof fn law_colors_of_changes(delta: i64, other: i64, share: Double)
    ensures
        delta > 0 && other > 0 ==> delta_color(delta) == delta_color(other),
        delta < 0 && other < 0 ==> delta_color(delta) == delta_color(other),
        delta > 0 && other < 0 ==> delta_color(delta) != delta_color(other),
        delta != 0 ==> delta_color(delta) != delta_color(0),
        share.significand > 0 && !share.negative && delta > 0 ==> share_color(share)
            == delta_color(delta),
        share.significand > 0 && share.negative && delta < 0 ==> share_color(share) == delta_color(
            delta,
        ),
        share_color(zero()) == delta_color(0),
{
}

/// Different changes have different colors and signs, different kinds of entries different
/// letters and names, and different orders different names.
pub proof fn law_signs_tell_apart(
    a: ChangeKind,
    b: ChangeKind,
    c: EntryKind,
    d: EntryKind,
    e: SortMode,
    f: SortMode,
)
    ensures
        a != b ==> change_color(a) != change_color(b) && change_sign(a) != change_sign(b),
        c != d ==> kind_letter(c) != kind_letter(d) && kind_label(c) != kind_label(d),
        e != f ==> sort_label(e) != sort_label(f),
{
    lemma_signs();
}

/// The column under a title shows what the title says.
pub proof fn law_columns_show_what_their_titles_say(row: RowView, marked: bool, i: int)
    requires
        0 <= i < column_titles().len(),
    ensures
        row_cells(row, marked).len() == column_titles().len(),
        column_titles()[i] == "M"@ ==> (marked <==> shown(row_cells(row, marked)[i]).len() > 0),
        column_titles()[i] == "Type"@ ==> shown(row_cells(row, marked)[i]) == kind_letter(row.kind),
        column_titles()[i] == "Change"@ ==> shown(row_cells(row, marked)[i]) == change_sign(
            row.change_kind,
        ),
        column_titles()[i] == "Name"@ ==> row.name.is_prefix_of(shown(row_cells(row, marked)[i])),
        column_titles()[i] == "Latest"@ ==> shown(row_cells(row, marked)[i]) == size_text(
            row.latest_size,
        ),
        column_titles()[i] == "Delta"@ ==> shown(row_cells(row, marked)[i]) == signed_size(
            row.delta,
        ),
        column_titles()[i] == "Share"@ ==> shown(row_cells(row, marked)[i]) == percent(
            row.latest_local_share,
        ),
        column_titles()[i] == "ShareD"@ ==> shown(row_cells(row, marked)[i]) == share_change(
            row.local_share_delta,
        ),
{
    lemma_titles_differ();
    reveal_strlit("*");
    reveal_strlit("");
    let cell = row_cells(row, marked)[i];
    if i != 3 {
        assert(cell.len() == 1);
        lemma_shown_one(cell[0]);
        assert(cell =~= seq![cell[0]]);
    } else {
        law_entry_names_are_shown_in_full(row.name, row.kind);
        assert(row.name.is_prefix_of(row.name + seq!['/'])) by {
            assert((row.name + seq!['/']).take(row.name.len() as int) =~= row.name);
        }
        assert(row.name.take(row.name.len() as int) =~= row.name);
    }
}

proof fn lemma_signs()
    ensures
        forall|a: ChangeKind, b: ChangeKind|
            a != b ==> #[trigger] change_sign(a) != #[trigger] change_sign(b),
        forall|a: EntryKind, b: EntryKind|
            a != b ==> #[trigger] kind_letter(a) != #[trigger] kind_letter(b),
        forall|a: EntryKind, b: EntryKind|
            a != b ==> #[trigger] kind_label(a) != #[trigger] kind_label(b),
        forall|a: SortMode, b: SortMode|
            a != b ==> #[trigger] sort_label(a) != #[trigger] sort_label(b),
{
    reveal_strlit("+");
    reveal_strlit("-");
    reveal_strlit("~");
    reveal_strlit("=");
    reveal_strlit("D");
    reveal_strlit("F");
    reveal_strlit("M");
    reveal_strlit("dir");
    reveal_strlit("file");
    reveal_strlit("mixed");
    reveal_strlit("latest size");
    reveal_strlit("delta");
    reveal_strlit("share delta");
    reveal_strlit("name");
    assert("+"@[0] != "-"@[0]);
    assert("+"@[0] != "~"@[0]);
    assert("+"@[0] != "="@[0]);
    assert("-"@[0] != "~"@[0]);
    assert("-"@[0] != "="@[0]);
    assert("~"@[0] != "="@[0]);
    assert("D"@[0] != "F"@[0]);
    assert("D"@[0] != "M"@[0]);
    assert("F"@[0] != "M"@[0]);
    assert("dir"@.len() != "file"@.len());
    assert("dir"@.len() != "mixed"@.len());
    assert("file"@.len() != "mixed"@.len());
    assert("latest size"@.len() != "delta"@.len());
    assert("latest size"@[0] != "share delta"@[0]);
    assert("latest size"@.len() != "name"@.len());
    assert("delta"@.len() != "share delta"@.len());
    assert("delta"@.len() != "name"@.len());
    assert("share delta"@.len() != "name"@.len());
}

proof fn lemma_titles_differ()
    ensures
        forall|i: int, j: int|
            0 <= i < j < column_titles().len() ==> #[trigger] column_titles()[i]
                != #[trigger] column_titles()[j],
        column_titles().len() == 8,
{
    reveal_strlit("M");
    reveal_strlit("Type");
    reveal_strlit("Change");
    reveal_strlit("Name");
    reveal_strlit("Latest");
    reveal_strlit("Delta");
    reveal_strlit("Share");
    reveal_strlit("ShareD");
    assert("M"@.len() != "Type"@.len());
    assert("M"@.len() != "Change"@.len());
    assert("M"@.len() != "Name"@.len());
    assert("M"@.len() != "Latest"@.len());
    assert("M"@.len() != "Delta"@.len());
    assert("M"@.len() != "Share"@.len());
    assert("M"@.len() != "ShareD"@.len());
    assert("Type"@.len() != "Change"@.len());
    assert("Type"@[0] != "Name"@[0]);
    assert("Type"@.len() != "Latest"@.len());
    assert("Type"@.len() != "Delta"@.len());
    assert("Type"@.len() != "Share"@.len());
    assert("Type"@.len() != "ShareD"@.len());
    assert("Change"@.len() != "Name"@.len());
    assert("Change"@[0] != "Latest"@[0]);
    assert("Change"@.len() != "Delta"@.len());
    assert("Change"@.len() != "Share"@.len());
    assert("Change"@[0] != "ShareD"@[0]);
    assert("Name"@.len() != "Latest"@.len());
    assert("Name"@.len() != "Delta"@.len());
    assert("Name"@.len() != "Share"@.len());
    assert("Name"@.len() != "ShareD"@.len());
    assert("Latest"@.len() != "Delta"@.len());
    assert("Latest"@.len() != "Share"@.len());
    assert("Latest"@[0] != "ShareD"@[0]);
    assert("Delta"@[0] != "Share"@[0]);
    assert("Delta"@.len() != "ShareD"@.len());
    assert("Share"@.len() != "ShareD"@.len());
}

/// The line shows a label, and the value behind it.
pub open spec fn shows(line: Seq<SpanView>, label: Seq<char>, value: Seq<char>) -> bool {
    exists|n: nat| shown(line) == label + #[trigger] spaces(n) + value
}

proof fn lemma_filled_up(label: Seq<char>, width: nat) -> (n: nat)
    ensures
        filled_up(label, width) == label + spaces(n),
{
    if label.len() >= width {
        assert(label + spaces(0) =~= label);
        0
    } else {
        (width - label.len()) as nat
    }
}

proof fn lemma_value_line(label: Seq<char>, value: Seq<char>, style: TextStyle)
    ensures
        shows(value_line(label, value, style), label, value),
{
    let line = value_line(label, value, style);
    assert(line =~= seq![line[0], line[1]]);
    lemma_shown_two(line[0], line[1]);
    let n = lemma_filled_up(label, DETAIL_LABEL_WIDTH as nat);
    assert(shown(line) == label + spaces(n) + value);
}

/// Two shares with an arrow between them, and the change.
pub open spec fn shares_text(baseline: Double, latest: Double, delta: Double) -> Seq<char> {
    percent(baseline) + " -> "@ + percent(latest) + "  "@ + share_change(delta)
}

proof fn lemma_shares_line(label: Seq<char>, baseline: Double, latest: Double, delta: Double)
    ensures
        shows(
            shares_line(label, baseline, latest, delta),
            label,
            shares_text(baseline, latest, delta),
        ),
{
    let line = shares_line(label, baseline, latest, delta);
    let a = line[0];
    let b = line[1];
    let c = line[2];
    lemma_shown_two(a, b);
    assert(line.drop_last() =~= seq![a, b]);
    let n = lemma_filled_up(label, SHARE_LABEL_WIDTH as nat);
    assert(shown(line) =~= label + spaces(n) + shares_text(baseline, latest, delta));
}

/// The details of a row show under each label what the label says: the sizes and shares in
/// the first and the last snapshot, the changes between them, and what lies in between.
pub proof fn law_details_show_the_row(all: Seq<IndexView>, row: RowView)
    requires
        row.timeline.len() > 0,
    ensures
        ({
            let detail = detail_of(all, row);
            &&& shows(detail.sizes[0], "Baseline"@, size_text(row.baseline_size))
            &&& shows(detail.sizes[1], "Latest"@, size_text(row.latest_size))
            &&& shows(detail.sizes[2], "Delta"@, signed_size(row.delta))
            &&& shows(
                detail.shares[0],
                "Parent"@,
                shares_text(
                    row.baseline_local_share,
                    row.latest_local_share,
                    row.local_share_delta,
                ),
            )
            &&& shows(
                detail.shares[1],
                "Root"@,
                shares_text(
                    row.timeline[0].root_share,
                    row.timeline.last().root_share,
                    root_delta(row),
                ),
            )
            &&& shows(
                detail.timeline[0],
                "Labels"@,
                compact(Seq::new(row.timeline.len(), |i: int| row.timeline[i].label)),
            )
            &&& shows(
                detail.timeline[1],
                "Sizes"@,
                compact(Seq::new(row.timeline.len(), |i: int| size_text(row.timeline[i].size))),
            )
            &&& shows(
                detail.timeline[2],
                "Parent"@,
                compact(Seq::new(row.timeline.len(), |i: int| percent(row.timeline[i].local_share))),
            )
            &&& shown(detail.kind) == kind_label(row.kind)
            &&& shown(detail.change) == change_sign(row.change_kind)
            &&& row.name.is_prefix_of(shown(detail.name))
        }),
{
    let detail = detail_of(all, row);
    lemma_value_line("Baseline"@, size_text(row.baseline_size), thin(Color::DarkGray));
    lemma_value_line("Latest"@, size_text(row.latest_size), bold(Color::Cyan));
    lemma_value_line("Delta"@, signed_size(row.delta), bold(delta_color(row.delta)));
    lemma_shares_line(
        "Parent"@,
        row.baseline_local_share,
        row.latest_local_share,
        row.local_share_delta,
    );
    lemma_shares_line("Root"@, baseline_root(row), latest_root(row), root_delta(row));
    let n = row.timeline.len();
    let labels = Seq::new(n, |i: int| row.timeline[i].label);
    let sizes = Seq::new(n, |i: int| size_text(row.timeline[i].size));
    let parts = Seq::new(n, |i: int| percent(row.timeline[i].local_share));
    assert(label_texts(row) =~= labels);
    assert(size_texts(row) =~= sizes);
    assert(share_texts(row) =~= parts);
    lemma_value_line("Labels"@, compact(labels), thin(Color::DarkGray));
    lemma_value_line("Sizes"@, compact(sizes), thin(Color::Cyan));
    lemma_value_line("Parent"@, compact(parts), thin(Color::Yellow));
    lemma_shown_one(detail.kind[0]);
    lemma_shown_one(detail.change[0]);
    law_entry_names_are_shown_in_full(row.name, row.kind);
    assert((row.name + seq!['/']).take(row.name.len() as int) =~= row.name);
    assert(row.name.take(row.name.len() as int) =~= row.name);
}

/// The lines on the marked rows show under each label what the label says.
pub proof fn law_marked_lines_show_the_summary(summary: MarkedSummary)
    ensures
        ({
            let lines = marked_lines(Some(summary));
            &&& shows(lines[0], "Items"@, decimal(summary.count as nat))
            &&& shows(lines[2], "Baseline"@, size_text(summary.baseline_size))
            &&& shows(lines[3], "Latest"@, size_text(summary.latest_size))
            &&& shows(lines[4], "Delta"@, signed_size(summary.delta))
            &&& shows(
                lines[5],
                "Parent"@,
                shares_text(
                    summary.baseline_local_share,
                    summary.latest_local_share,
                    sum_of(
                        summary.latest_local_share,
                        negation(summary.baseline_local_share),
                    ),
                ),
            )
            &&& shows(
                lines[6],
                "Root"@,
                shares_text(
                    summary.baseline_root_share,
                    summary.latest_root_share,
                    sum_of(summary.latest_root_share, negation(summary.baseline_root_share)),
                ),
            )
        }),
{
    lemma_value_line("Items"@, decimal(summary.count as nat), bold(Color::White));
    lemma_value_line("Baseline"@, size_text(summary.baseline_size), thin(Color::DarkGray));
    lemma_value_line("Latest"@, size_text(summary.latest_size), bold(Color::Cyan));
    lemma_value_line("Delta"@, signed_size(summary.delta), bold(delta_color(summary.delta)));
    lemma_shares_line(
        "Parent"@,
        summary.baseline_local_share,
        summary.latest_local_share,
        sum_of(summary.latest_local_share, negation(summary.baseline_local_share)),
    );
    lemma_shares_line(
        "Root"@,
        summary.baseline_root_share,
        summary.latest_root_share,
        sum_of(summary.latest_root_share, negation(summary.baseline_root_share)),
    );
}

/// The line of the counts shows each count behind the sign of its kind of change.
pub proof fn law_counts_are_shown_by_their_signs(counts: ChangeCounts)
    ensures
        shows(
            counts_line(counts),
            "Counts"@,
            change_sign(ChangeKind::Added) + decimal(counts.added as nat) + "  "@ + change_sign(
                ChangeKind::Removed,
            ) + decimal(counts.removed as nat) + "  "@ + change_sign(ChangeKind::Changed) + decimal(
                counts.changed as nat,
            ) + "  "@ + change_sign(ChangeKind::Unchanged) + decimal(counts.unchanged as nat),
        ),
{
    let line = counts_line(counts);
    assert(line.len() == 5);
    lemma_shown_two(line[0], line[1]);
    let two = seq![line[0], line[1]];
    let three = two.push(line[2]);
    let four = three.push(line[3]);
    assert(three.drop_last() =~= two);
    assert(four.drop_last() =~= three);
    assert(line.drop_last() =~= four);
    assert(shown(three) == shown(two) + line[2].text);
    assert(shown(four) == shown(three) + line[3].text);
    assert(shown(line) == shown(four) + line[4].text);
    let n = lemma_filled_up("Counts"@, DETAIL_LABEL_WIDTH as nat);
    assert(shown(line) =~= "Counts"@ + spaces(n) + (change_sign(ChangeKind::Added) + decimal(
        counts.added as nat,
    ) + "  "@ + change_sign(ChangeKind::Removed) + decimal(counts.removed as nat) + "  "@
        + change_sign(ChangeKind::Changed) + decimal(counts.changed as nat) + "  "@ + change_sign(
        ChangeKind::Unchanged,
    ) + decimal(counts.unchanged as nat)));
}

/// The line on the current directory shows its sizes, the change between them, its share of
/// its parent unless it is the root, and its share of the root.
pub proof fn law_current_directory_is_summed_up(row: RowView)
    requires
        row.timeline.len() > 0,
    ensures
        ({
            let sizes = "Current "@ + size_text(row.baseline_size) + " -> "@ + size_text(
                row.latest_size,
            ) + "  "@ + signed_size(row.delta);
            let parent = "  P "@ + percent(row.baseline_local_share) + " -> "@ + percent(
                row.latest_local_share,
            ) + " "@ + share_change(row.local_share_delta);
            let root = "  R "@ + percent(row.timeline[0].root_share) + " -> "@ + percent(
                row.timeline.last().root_share,
            ) + " "@ + share_change(root_delta(row));
            shown(summary_line(row)) == (if row.path.len() == 0 {
                sizes + root
            } else {
                sizes + parent + root
            })
        }),
{
    reveal_strlit("  ");
    reveal_strlit("P ");
    reveal_strlit("R ");
    reveal_strlit("  P ");
    reveal_strlit("  R ");
    assert("  "@ + "P "@ =~= "  P "@);
    assert("  "@ + "R "@ =~= "  R "@);
    let line = summary_line(row);
    let a = line.take(6);
    reveal_with_fuel(shown, 7);
    assert(a.drop_last() =~= line.take(5));
    assert(line.take(5).drop_last() =~= line.take(4));
    assert(line.take(4).drop_last() =~= line.take(3));
    assert(line.take(3).drop_last() =~= line.take(2));
    assert(line.take(2).drop_last() =~= line.take(1));
    assert(line.take(1).drop_last() =~= line.take(0));
    assert(shown(a) =~= "Current "@ + size_text(row.baseline_size) + " -> "@ + size_text(
        row.latest_size,
    ) + "  "@ + signed_size(row.delta));
    lemma_group("P "@, row.baseline_local_share, row.latest_local_share, row.local_share_delta);
    lemma_group("R "@, baseline_root(row), latest_root(row), root_delta(row));
    let p = group("P "@, row.baseline_local_share, row.latest_local_share, row.local_share_delta);
    let r = group("R "@, baseline_root(row), latest_root(row), root_delta(row));
    if row.path.len() == 0 {
        assert(line =~= a + r);
        lemma_shown_sum(a, r);
    } else {
        assert(line =~= a + p + r);
        lemma_shown_sum(a, p);
        lemma_shown_sum(a + p, r);
    }
}

spec fn group(label: Seq<char>, baseline: Double, latest: Double, delta: Double) -> Seq<SpanView> {
    seq![raw("  "@), span(label, thin(Color::DarkGray))] + shares(baseline, latest, delta, " "@)
}

proof fn lemma_group(label: Seq<char>, baseline: Double, latest: Double, delta: Double)
    ensures
        shown(group(label, baseline, latest, delta)) == "  "@ + label + percent(baseline) + " -> "@
            + percent(latest) + " "@ + share_change(delta),
{
    let line = group(label, baseline, latest, delta);
    let front = seq![line[0], line[1]];
    let back = seq![line[2], line[3]];
    assert(line =~= front + back);
    lemma_shown_two(line[0], line[1]);
    lemma_shown_two(line[2], line[3]);
    lemma_shown_sum(front, back);
    assert(shown(line) =~= "  "@ + label + percent(baseline) + " -> "@ + percent(latest) + " "@
        + share_change(delta));
}

/// A hidden file is shown in one piece and in a color of its own. Any other file is shown in
/// the color of files, but for its extension, and files with the same extension have it in
/// the same color.
pub proof fn law_colors_of_files(stem: Seq<char>, other: Seq<char>, ext: Seq<char>)
    requires
        stem.len() > 0,
        other.len() > 0,
        stem[0] != '.',
        other[0] != '.',
        ext.len() > 0,
        !ext.contains('.'),
        ext != "zst"@,
    ensures
        ({
            let a = file_spans(stem + seq!['.'] + ext);
            let b = file_spans(other + seq!['.'] + ext);
            let hidden = file_spans(seq!['.'] + stem);
            &&& a.len() == 2 && b.len() == 2
            &&& a[0].text == stem && b[0].text == other
            &&& a[1].text == seq!['.'] + ext
            &&& a[0].style == b[0].style
            &&& a[1].style == b[1].style
            &&& hidden.len() == 1
            &&& hidden[0].style != a[0].style
        }),
{
    reveal_strlit(".");
    assert("."@ =~= seq!['.']);
    lemma_parts_of_name(stem, ext);
    lemma_parts_of_name(other, ext);
    let hidden = seq!['.'] + stem;
    assert(hidden[0] == '.');
    assert((stem + seq!['.'] + ext)[0] == stem[0]);
    assert((other + seq!['.'] + ext)[0] == other[0]);
}

proof fn lemma_parts_of_name(stem: Seq<char>, ext: Seq<char>)
    requires
        stem.len() > 0,
        ext.len() > 0,
        !ext.contains('.'),
    ensures
        name_parts(stem + seq!['.'] + ext) == Some((stem, ext)),
{
    let name = stem + seq!['.'] + ext;
    let n = stem.len() as int;
    lemma_last_place(name, '.');
    let p = last_place(name, '.');
    assert(name[n] == '.');
    if p > n {
        assert(ext[p - n - 1] == '.');
    }
    assert(name.take(n) =~= stem);
    assert(name.skip(n + 1) =~= ext);
}

/// An empty list is called empty in either case; only where files are left out there is a
/// further line, on how to show them.
pub proof fn law_empty_lists()
    ensures
        empty_lines(false).len() == empty_lines(true).len() + 1,
        empty_lines(false)[0] == empty_lines(true)[0],
{
}

} // verus!
