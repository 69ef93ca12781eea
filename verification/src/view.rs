//! What is shown: pieces of text with a style, put together to lines.

use crate::analysis::{ChangeKind, EntryKind, RowData, RowView, baseline_root, latest_root, opens, root_delta, row_sound};
use crate::double::Double;
use crate::format::{format_share_delta, format_signed_size, format_size, percent, percent_text, share_change, showable, signed_size, size_text};
use crate::path::{piece_views, split, split_text};
use crate::text::{chars_of, copied, decimal, decimal_text, find_last, join, join_texts, joined_pair, last_place, same_text, text_between, text_of, views};
use vstd::prelude::*;
use vstd::string::StringExecFns;

verus! {

/// The color of a piece of text.
#[derive(Clone, Copy, Debug, PartialEq, Eq, Structural)]
pub enum Color {
    Plain,
    White,
    DarkGray,
    Cyan,
    Yellow,
    Magenta,
    Red,
    Green,
    Rgb(u8, u8, u8),
}

/// The style of a piece of text.
#[derive(Clone, Copy, Debug, PartialEq, Eq, Structural)]
pub struct TextStyle {
    pub color: Color,
    pub bold: bool,
}

/// A style that is not bold.
pub open spec fn thin(color: Color) -> TextStyle {
    TextStyle { color, bold: false }
}

/// A style that is bold.
pub open spec fn bold(color: Color) -> TextStyle {
    TextStyle { color, bold: true }
}

impl TextStyle {
    /// A style that is not bold.
    pub fn thin(color: Color) -> (r: TextStyle)
        ensures
            r == thin(color),
    {
        TextStyle { color, bold: false }
    }

    /// A style that is bold.
    pub fn bold(color: Color) -> (r: TextStyle)
        ensures
            r == bold(color),
    {
        TextStyle { color, bold: true }
    }
}

/// A piece of text with its style.
pub struct SpanView {
    pub text: Seq<char>,
    pub style: TextStyle,
}

/// A piece of text with its style.
#[derive(Clone, Debug)]
pub struct Span {
    pub text: String,
    pub style: TextStyle,
}

impl Span {
    /// The text and the style.
    pub open spec fn view(&self) -> SpanView {
        SpanView { text: self.text@, style: self.style }
    }

    /// A piece of the given text.
    pub fn new(text: &str, style: TextStyle) -> (r: Span)
        ensures
            r@ == span(text@, style),
    {
        Span { text: copied(text), style }
    }

    /// A piece made of a text.
    pub fn of(text: String, style: TextStyle) -> (r: Span)
        ensures
            r@ == span(text@, style),
    {
        Span { text, style }
    }
}

/// A piece of text with a style.
pub open spec fn span(text: Seq<char>, style: TextStyle) -> SpanView {
    SpanView { text, style }
}

/// A piece of text without a style.
pub open spec fn raw(text: Seq<char>) -> SpanView {
    SpanView { text, style: thin(Color::Plain) }
}

/// The views of some pieces.
pub open spec fn line_view(spans: Seq<Span>) -> Seq<SpanView> {
    Seq::new(spans.len(), |i: int| spans[i]@)
}

/// The views of some lines.
pub open spec fn lines_view(lines: Seq<Vec<Span>>) -> Seq<Seq<SpanView>> {
    Seq::new(lines.len(), |i: int| line_view(lines[i]@))
}

fn push_all(line: &mut Vec<Span>, more: Vec<Span>)
    ensures
        line_view(final(line)@) == line_view(old(line)@) + line_view(more@),
{
    let ghost before = line_view(line@);
    let ghost added = more@;
    assert(line_view(line@) =~= before + line_view(added.take(0)));
    for piece in iter: more
        invariant
            iter.seq() == added,
            line_view(line@) == before + line_view(added.take(iter.index() as int)),
    {
        let ghost now = line_view(line@);
        let ghost n = iter.index() as int;
        assert(piece == added[n]);
        line.push(piece);
        proof {
            assert(line_view(line@) =~= now.push(added[n]@));
            assert(line_view(added.take(n + 1)) =~= line_view(added.take(n)).push(added[n]@));
            assert(line_view(line@) =~= before + line_view(added.take(n + 1)));
        }
    }
    assert(added.take(added.len() as int) =~= added);
}

/// The gray of less important text.
pub open spec fn pale() -> Color {
    Color::Rgb(170, 170, 170)
}

/// The color of a change of size: red where it grew and green where it shrank.
pub open spec fn delta_color(delta: i64) -> Color {
    if delta > 0 {
        Color::Red
    } else if delta < 0 {
        Color::Green
    } else {
        Color::Plain
    }
}

/// The color of a change of size.
pub fn delta_style(delta: i64) -> (r: TextStyle)
    ensures
        r == thin(delta_color(delta)),
{
    if delta > 0 {
        TextStyle::thin(Color::Red)
    } else if delta < 0 {
        TextStyle::thin(Color::Green)
    } else {
        TextStyle::thin(Color::Plain)
    }
}

/// The color of a change of share.
pub open spec fn share_color(delta: Double) -> Color {
    if delta.significand == 0 {
        Color::Plain
    } else if delta.negative {
        Color::Green
    } else {
        Color::Red
    }
}

/// The color of a change of share.
pub fn share_style(delta: Double) -> (r: TextStyle)
    ensures
        r == thin(share_color(delta)),
{
    if delta.significand == 0 {
        TextStyle::thin(Color::Plain)
    } else if delta.negative {
        TextStyle::thin(Color::Green)
    } else {
        TextStyle::thin(Color::Red)
    }
}

/// The color of a kind of change.
pub open spec fn change_color(kind: ChangeKind) -> Color {
    match kind {
        ChangeKind::Added => Color::Green,
        ChangeKind::Removed => Color::Red,
        ChangeKind::Changed => Color::Yellow,
        ChangeKind::Unchanged => Color::DarkGray,
    }
}

/// The color of a kind of change.
pub fn change_kind_style(kind: ChangeKind) -> (r: TextStyle)
    ensures
        r == thin(change_color(kind)),
{
    match kind {
        ChangeKind::Added => TextStyle::thin(Color::Green),
        ChangeKind::Removed => TextStyle::thin(Color::Red),
        ChangeKind::Changed => TextStyle::thin(Color::Yellow),
        ChangeKind::Unchanged => TextStyle::thin(Color::DarkGray),
    }
}

/// The style in bold.
pub open spec fn in_bold(style: TextStyle) -> TextStyle {
    TextStyle { bold: true, ..style }
}

impl TextStyle {
    /// The style in bold.
    pub fn in_bold(self) -> (r: TextStyle)
        ensures
            r == in_bold(self),
    {
        TextStyle { color: self.color, bold: true }
    }
}

/// The color of directories.
pub open spec fn directory_color() -> Color {
    Color::Rgb(36, 148, 255)
}

/// The color of hidden files.
pub open spec fn hidden_color() -> Color {
    Color::Rgb(198, 198, 198)
}

/// The color of files.
pub open spec fn file_color() -> Color {
    Color::Rgb(235, 235, 235)
}

/// The color of separators.
pub open spec fn separator_color() -> Color {
    Color::Rgb(214, 214, 214)
}

/// The style of directories.
pub fn directory_style() -> (r: TextStyle)
    ensures
        r == thin(directory_color()),
{
    TextStyle::thin(Color::Rgb(36, 148, 255))
}

/// The style of hidden files.
pub fn hidden_style() -> (r: TextStyle)
    ensures
        r == thin(hidden_color()),
{
    TextStyle::thin(Color::Rgb(198, 198, 198))
}

/// The style of files.
pub fn regular_file_style() -> (r: TextStyle)
    ensures
        r == thin(file_color()),
{
    TextStyle::thin(Color::Rgb(235, 235, 235))
}

/// The style of separators.
pub fn separator_style() -> (r: TextStyle)
    ensures
        r == thin(separator_color()),
{
    TextStyle::thin(Color::Rgb(214, 214, 214))
}

/// The color of snapshots and other data.
pub open spec fn json_color() -> Color {
    Color::Rgb(215, 0, 255)
}

/// The color of an extension.
pub open spec fn extension_color(extension: Seq<char>) -> Color {
    if extension == "json"@ || extension == "jsonl"@ || extension == "json5"@ {
        json_color()
    } else if extension == "toml"@ || extension == "yaml"@ || extension == "yml"@ {
        Color::Rgb(255, 176, 0)
    } else if extension == "rs"@ || extension == "go"@ || extension == "py"@ || extension == "sh"@
        || extension == "bash"@ || extension == "zsh"@ {
        Color::Rgb(107, 214, 114)
    } else if extension == "md"@ || extension == "txt"@ {
        Color::Rgb(224, 224, 224)
    } else {
        file_color()
    }
}

/// The style of an extension.
pub fn extension_style(extension: &str) -> (r: TextStyle)
    ensures
        r == thin(extension_color(extension@)),
{
    if same_text(extension, "json") || same_text(extension, "jsonl") || same_text(
        extension,
        "json5",
    ) {
        TextStyle::thin(Color::Rgb(215, 0, 255))
    } else if same_text(extension, "toml") || same_text(extension, "yaml") || same_text(
        extension,
        "yml",
    ) {
        TextStyle::thin(Color::Rgb(255, 176, 0))
    } else if same_text(extension, "rs") || same_text(extension, "go") || same_text(
        extension,
        "py",
    ) || same_text(extension, "sh") || same_text(extension, "bash") || same_text(
        extension,
        "zsh",
    ) {
        TextStyle::thin(Color::Rgb(107, 214, 114))
    } else if same_text(extension, "md") || same_text(extension, "txt") {
        TextStyle::thin(Color::Rgb(224, 224, 224))
    } else {
        regular_file_style()
    }
}

/// The name and the extension of a file, where both are there.
pub open spec fn name_parts(name: Seq<char>) -> Option<(Seq<char>, Seq<char>)> {
    let dot = last_place(name, '.');
    if 0 < dot < name.len() - 1 {
        Some((name.take(dot), name.skip(dot + 1)))
    } else {
        None
    }
}

/// How the name of a file is shown: a hidden file in one piece, any other with its
/// extension in the color of that; a compressed snapshot has both of its extensions.
pub open spec fn file_spans(name: Seq<char>) -> Seq<SpanView> {
    if name.len() > 0 && name[0] == '.' {
        seq![span(name, bold(hidden_color()))]
    } else {
        match name_parts(name) {
            Some((stem, extension)) => match name_parts(stem) {
                Some((inner, second)) if extension == "zst"@ && second == "json"@ => seq![
                    span(inner, bold(file_color())),
                    span(".json.zst"@, bold(json_color())),
                ],
                _ => seq![
                    span(stem, bold(file_color())),
                    span("."@ + extension, bold(extension_color(extension))),
                ],
            },
            None => seq![span(name, bold(file_color()))],
        }
    }
}

fn split_name(name: &str) -> (r: Option<(String, String)>)
    ensures
        match r {
            Some((stem, extension)) => name_parts(name@) == Some((stem@, extension@)),
            None => name_parts(name@) is None,
        },
{
    let chars = chars_of(name);
    let count: usize = chars.len();
    match find_last(&chars, '.') {
        Some(dot) => {
            if 0 < dot && dot < count - 1 {
                let stem = text_between(&chars, 0, dot);
                let extension = text_between(&chars, dot + 1, count);
                assert(stem@ =~= name@.take(dot as int));
                assert(extension@ =~= name@.skip(dot + 1));
                Some((stem, extension))
            } else {
                None
            }
        },
        None => None,
    }
}

/// How the name of a file is shown.
pub fn styled_file_name_spans(name: &str) -> (r: Vec<Span>)
    ensures
        line_view(r@) == file_spans(name@),
{
    let chars = chars_of(name);
    let mut line: Vec<Span> = Vec::new();
    if chars.len() > 0 && chars[0] == '.' {
        line.push(Span::new(name, hidden_style().in_bold()));
        assert(line_view(line@) =~= file_spans(name@));
        return line;
    }
    match split_name(name) {
        Some((stem, extension)) => {
            if same_text(extension.as_str(), "zst") {
                match split_name(stem.as_str()) {
                    Some((inner, second)) => {
                        if same_text(second.as_str(), "json") {
                            line.push(Span::of(inner, regular_file_style().in_bold()));
                            line.push(Span::new(".json.zst", extension_style("json").in_bold()));
                            assert(line_view(line@) =~= file_spans(name@));
                            return line;
                        }
                    },
                    None => {},
                }
            }
            let style = extension_style(extension.as_str());
            line.push(Span::of(stem, regular_file_style().in_bold()));
            line.push(Span::of(joined_pair(".", extension.as_str()), style.in_bold()));
            assert(line_view(line@) =~= file_spans(name@));
        },
        None => {
            line.push(Span::new(name, regular_file_style().in_bold()));
            assert(line_view(line@) =~= file_spans(name@));
        },
    }
    line
}

/// How the name of an entry is shown: a directory has a separator behind it.
pub open spec fn entry_spans(name: Seq<char>, kind: EntryKind) -> Seq<SpanView> {
    if opens(kind) {
        seq![span(name, bold(directory_color())), span("/"@, thin(separator_color()))]
    } else {
        file_spans(name)
    }
}

/// How the name of an entry is shown.
pub fn styled_entry_name_spans(name: &str, kind: EntryKind) -> (r: Vec<Span>)
    ensures
        line_view(r@) == entry_spans(name@, kind),
{
    match kind {
        EntryKind::Dir | EntryKind::Mixed => {
            let mut line: Vec<Span> = Vec::new();
            line.push(Span::new(name, directory_style().in_bold()));
            line.push(Span::new("/", separator_style()));
            assert(line_view(line@) =~= entry_spans(name@, kind));
            line
        },
        EntryKind::File => styled_file_name_spans(name),
    }
}

/// The pieces of a path that are not empty.
pub open spec fn filled(pieces: Seq<Seq<char>>) -> Seq<Seq<char>>
    decreases pieces.len(),
{
    if pieces.len() == 0 {
        seq![]
    } else if pieces.last().len() == 0 {
        filled(pieces.drop_last())
    } else {
        filled(pieces.drop_last()).push(pieces.last())
    }
}

/// How the first `n` names of a path are shown: all but the last one are directories.
pub open spec fn names_spans(names: Seq<Seq<char>>, n: nat, kind: EntryKind) -> Seq<SpanView>
    decreases n,
{
    if n == 0 {
        seq![]
    } else {
        let before = names_spans(names, (n - 1) as nat, kind);
        if n == names.len() {
            before + entry_spans(names[n - 1], kind)
        } else {
            before + seq![
                span(names[n - 1], bold(directory_color())),
                span("/"@, thin(separator_color())),
            ]
        }
    }
}

/// How a path is shown.
pub open spec fn path_spans(path: Seq<char>, kind: EntryKind) -> Seq<SpanView> {
    let names = filled(split(path, '/'));
    let start = if path.len() > 0 && path[0] == '/' {
        seq![span("/"@, thin(separator_color()))]
    } else {
        seq![]
    };
    start + names_spans(names, names.len(), kind)
}

/// How a path is shown.
pub fn styled_path_spans(path: &str, final_kind: EntryKind) -> (r: Vec<Span>)
    ensures
        line_view(r@) == path_spans(path@, final_kind),
{
    let pieces = split_text(path, '/');
    let ghost all = split(path@, '/');
    let mut names: Vec<String> = Vec::new();
    let mut i: usize = 0;
    proof {
        assert(all.take(0) =~= seq![]);
        assert(views(names@) =~= seq![]);
    }
    while i < pieces.len()
        invariant
            all == piece_views(pieces@),
            i <= pieces@.len(),
            views(names@) == filled(all.take(i as int)),
        decreases pieces@.len() - i,
    {
        let ghost before = views(names@);
        proof {
            assert(all.take(i + 1).drop_last() =~= all.take(i as int));
            assert(all.take(i + 1).last() == pieces@[i as int]@);
        }
        if pieces[i].len() > 0 {
            let name = text_of(&pieces[i]);
            names.push(name);
            assert(views(names@) =~= before.push(pieces@[i as int]@));
        }
        i = i + 1;
    }
    assert(all.take(i as int) =~= all);
    let ghost list = views(names@);
    let chars = chars_of(path);
    let mut line: Vec<Span> = Vec::new();
    let ghost mut start: Seq<SpanView> = seq![];
    if chars.len() > 0 && chars[0] == '/' {
        line.push(Span::new("/", separator_style()));
        proof {
            start = seq![span("/"@, thin(separator_color()))];
        }
    }
    assert(line_view(line@) =~= start + names_spans(list, 0, final_kind));
    let mut k: usize = 0;
    while k < names.len()
        invariant
            list == views(names@),
            k <= names@.len(),
            line_view(line@) == start + names_spans(list, k as nat, final_kind),
        decreases names@.len() - k,
    {
        let ghost before = line_view(line@);
        let name = names[k].as_str();
        assert(list[k as int] == name@);
        if k + 1 == names.len() {
            push_all(&mut line, styled_entry_name_spans(name, final_kind));
            assert(line_view(line@) =~= start + names_spans(list, (k + 1) as nat, final_kind));
        } else {
            line.push(Span::new(name, directory_style().in_bold()));
            line.push(Span::new("/", separator_style()));
            assert(line_view(line@) =~= before + seq![
                span(name@, bold(directory_color())),
                span("/"@, thin(separator_color())),
            ]);
            assert(line_view(line@) =~= start + names_spans(list, (k + 1) as nat, final_kind));
        }
        k = k + 1;
    }
    line
}

/// Spaces.
pub open spec fn spaces(n: nat) -> Seq<char> {
    Seq::new(n, |i: int| ' ')
}

/// A text with spaces behind it up to a width.
pub open spec fn filled_up(text: Seq<char>, width: nat) -> Seq<char> {
    if text.len() >= width {
        text
    } else {
        text + spaces((width - text.len()) as nat)
    }
}

/// A text with spaces behind it up to a width.
pub fn fill_up(text: &str, width: usize) -> (r: String)
    ensures
        r@ == filled_up(text@, width as nat),
{
    let mut count: usize = chars_of(text).len();
    let mut out = copied(text);
    assert(out@ =~= text@ + spaces(0));
    while count < width
        invariant
            text@.len() <= count,
            count <= width || count == text@.len(),
            out@ == text@ + spaces((count - text@.len()) as nat),
        decreases width - count,
    {
        out.push(' ');
        count = count + 1;
        assert(out@ =~= text@ + spaces((count - text@.len()) as nat));
    }
    assert(spaces(0) =~= seq![]);
    assert(out@ =~= filled_up(text@, width as nat));
    out
}

/// How wide the labels of the details are.
pub const DETAIL_LABEL_WIDTH: u16 = 10;

/// How wide the labels of shares are.
pub const SHARE_LABEL_WIDTH: u16 = 8;

/// A label in front of some pieces.
pub open spec fn labelled_line(label: Seq<char>, value: Seq<SpanView>) -> Seq<SpanView> {
    seq![span(filled_up(label, DETAIL_LABEL_WIDTH as nat), thin(Color::DarkGray))] + value
}

/// A label in front of a text.
pub open spec fn value_line(label: Seq<char>, value: Seq<char>, style: TextStyle) -> Seq<
    SpanView,
> {
    labelled_line(label, seq![span(value, style)])
}

/// A label in front of some pieces.
pub fn stat_line_spans(label: &str, value: Vec<Span>) -> (r: Vec<Span>)
    ensures
        line_view(r@) == labelled_line(label@, line_view(value@)),
{
    let mut line: Vec<Span> = Vec::new();
    line.push(
        Span::of(
            fill_up(label, DETAIL_LABEL_WIDTH as usize),
            TextStyle::thin(Color::DarkGray),
        ),
    );
    let ghost front = line_view(line@);
    assert(front =~= seq![
        span(filled_up(label@, DETAIL_LABEL_WIDTH as nat), thin(Color::DarkGray)),
    ]);
    push_all(&mut line, value);
    line
}

/// A label in front of a text.
pub fn stat_line(label: &str, value: String, style: TextStyle) -> (r: Vec<Span>)
    ensures
        line_view(r@) == value_line(label@, value@, style),
{
    let ghost text = value@;
    let mut spans: Vec<Span> = Vec::new();
    spans.push(Span::of(value, style));
    assert(line_view(spans@) =~= seq![span(text, style)]);
    stat_line_spans(label, spans)
}

/// Two shares and the change between them.
pub open spec fn shares(baseline: Double, latest: Double, delta: Double, gap: Seq<char>) -> Seq<
    SpanView,
> {
    seq![
        span(percent(baseline) + " -> "@ + percent(latest) + gap, thin(Color::White)),
        span(share_change(delta), bold(share_color(delta))),
    ]
}

fn share_spans(baseline: Double, latest: Double, delta: Double, gap: &str) -> (r: Vec<Span>)
    requires
        showable(baseline),
        showable(latest),
        showable(delta),
    ensures
        line_view(r@) == shares(baseline, latest, delta, gap@),
{
    let mut range = percent_text(baseline);
    range.append(" -> ");
    range.append(percent_text(latest).as_str());
    range.append(gap);
    let mut line: Vec<Span> = Vec::new();
    line.push(Span::of(range, TextStyle::thin(Color::White)));
    line.push(Span::of(format_share_delta(delta), share_style(delta).in_bold()));
    assert(line_view(line@) =~= shares(baseline, latest, delta, gap@));
    line
}

/// A label in front of two shares and the change between them.
pub open spec fn shares_line(label: Seq<char>, baseline: Double, latest: Double, delta: Double) -> Seq<
    SpanView,
> {
    seq![span(filled_up(label, SHARE_LABEL_WIDTH as nat), thin(Color::DarkGray))] + shares(
        baseline,
        latest,
        delta,
        "  "@,
    )
}

/// A label in front of two shares and the change between them.
pub fn share_line(label: &str, baseline: Double, latest: Double, delta: Double) -> (r: Vec<Span>)
    requires
        showable(baseline),
        showable(latest),
        showable(delta),
    ensures
        line_view(r@) == shares_line(label@, baseline, latest, delta),
{
    let mut line: Vec<Span> = Vec::new();
    line.push(
        Span::of(fill_up(label, SHARE_LABEL_WIDTH as usize), TextStyle::thin(Color::DarkGray)),
    );
    let ghost front = line_view(line@);
    assert(front =~= seq![
        span(filled_up(label@, SHARE_LABEL_WIDTH as nat), thin(Color::DarkGray)),
    ]);
    push_all(&mut line, share_spans(baseline, latest, delta, "  "));
    line
}

/// How many of some entries changed in which way.
#[derive(Clone, Copy, Debug, PartialEq, Eq, Structural)]
pub struct ChangeCounts {
    pub added: usize,
    pub removed: usize,
    pub changed: usize,
    pub unchanged: usize,
}

/// The line of the counts.
pub open spec fn counts_line(counts: ChangeCounts) -> Seq<SpanView> {
    labelled_line(
        "Counts"@,
        seq![
            span("+"@ + decimal(counts.added as nat) + "  "@, bold(Color::Green)),
            span("-"@ + decimal(counts.removed as nat) + "  "@, bold(Color::Red)),
            span("~"@ + decimal(counts.changed as nat) + "  "@, bold(Color::Yellow)),
            span("="@ + decimal(counts.unchanged as nat), bold(Color::DarkGray)),
        ],
    )
}

fn count_text(sign: &str, count: usize, gap: &str) -> (r: String)
    ensures
        r@ == sign@ + decimal(count as nat) + gap@,
{
    let mut out = copied(sign);
    out.append(decimal_text(count as u128).as_str());
    out.append(gap);
    out
}

/// The line of the counts.
pub fn marked_counts_line(counts: ChangeCounts) -> (r: Vec<Span>)
    ensures
        line_view(r@) == counts_line(counts),
{
    let mut value: Vec<Span> = Vec::new();
    value.push(
        Span::of(
            count_text("+", counts.added, "  "),
            change_kind_style(ChangeKind::Added).in_bold(),
        ),
    );
    value.push(
        Span::of(
            count_text("-", counts.removed, "  "),
            change_kind_style(ChangeKind::Removed).in_bold(),
        ),
    );
    value.push(
        Span::of(
            count_text("~", counts.changed, "  "),
            change_kind_style(ChangeKind::Changed).in_bold(),
        ),
    );
    value.push(
        Span::of(
            count_text("=", counts.unchanged, ""),
            change_kind_style(ChangeKind::Unchanged).in_bold(),
        ),
    );
    proof {
        reveal_strlit("");
        let last = "="@ + decimal(counts.unchanged as nat);
        assert(last + ""@ =~= last);
        assert(line_view(value@) =~= seq![
            span("+"@ + decimal(counts.added as nat) + "  "@, bold(Color::Green)),
            span("-"@ + decimal(counts.removed as nat) + "  "@, bold(Color::Red)),
            span("~"@ + decimal(counts.changed as nat) + "  "@, bold(Color::Yellow)),
            span(last, bold(Color::DarkGray)),
        ]);
    }
    stat_line_spans("Counts", value)
}

/// The change of the current directory: its sizes, its share of its parent unless it is
/// the root, and its share of the root.
pub open spec fn summary_line(row: RowView) -> Seq<SpanView> {
    let sizes = seq![
        span("Current "@, thin(Color::DarkGray)),
        span(size_text(row.baseline_size), thin(Color::Rgb(174, 174, 174))),
        span(" -> "@, thin(Color::DarkGray)),
        span(size_text(row.latest_size), bold(Color::Cyan)),
        raw("  "@),
        span(signed_size(row.delta), bold(delta_color(row.delta))),
    ];
    let parent = if row.path.len() == 0 {
        seq![]
    } else {
        seq![raw("  "@), span("P "@, thin(Color::DarkGray))] + shares(
            row.baseline_local_share,
            row.latest_local_share,
            row.local_share_delta,
            " "@,
        )
    };
    let root = seq![raw("  "@), span("R "@, thin(Color::DarkGray))] + shares(
        baseline_root(row),
        latest_root(row),
        root_delta(row),
        " "@,
    );
    sizes + parent + root
}

fn push_group(line: &mut Vec<Span>, label: &str, value: Vec<Span>)
    ensures
        line_view(final(line)@) == line_view(old(line)@) + (seq![
            raw("  "@),
            span(label@, thin(Color::DarkGray)),
        ] + line_view(value@)),
{
    let ghost before = line_view(line@);
    line.push(Span::new("  ", TextStyle::thin(Color::Plain)));
    line.push(Span::new(label, TextStyle::thin(Color::DarkGray)));
    assert(line_view(line@) =~= before + seq![raw("  "@), span(label@, thin(Color::DarkGray))]);
    let ghost added = line_view(value@);
    push_all(line, value);
    assert(line_view(line@) =~= before + (seq![raw("  "@), span(label@, thin(Color::DarkGray))]
        + added));
}

/// The change of the current directory.
pub fn current_dir_summary_line(row: &RowData) -> (r: Vec<Span>)
    requires
        row_sound(row@),
    ensures
        line_view(r@) == summary_line(row@),
{
    let mut line: Vec<Span> = Vec::new();
    line.push(Span::new("Current ", TextStyle::thin(Color::DarkGray)));
    line.push(
        Span::of(format_size(row.baseline_size), TextStyle::thin(Color::Rgb(174, 174, 174))),
    );
    line.push(Span::new(" -> ", TextStyle::thin(Color::DarkGray)));
    line.push(Span::of(format_size(row.latest_size), TextStyle::bold(Color::Cyan)));
    line.push(Span::new("  ", TextStyle::thin(Color::Plain)));
    line.push(Span::of(format_signed_size(row.delta), delta_style(row.delta).in_bold()));
    let ghost sizes = line_view(line@);
    assert(sizes =~= seq![
        span("Current "@, thin(Color::DarkGray)),
        span(size_text(row.baseline_size), thin(Color::Rgb(174, 174, 174))),
        span(" -> "@, thin(Color::DarkGray)),
        span(size_text(row.latest_size), bold(Color::Cyan)),
        raw("  "@),
        span(signed_size(row.delta), bold(delta_color(row.delta))),
    ]);
    if !row.path.as_str().is_empty() {
        push_group(
            &mut line,
            "P ",
            share_spans(
                row.baseline_local_share,
                row.latest_local_share,
                row.local_share_delta,
                " ",
            ),
        );
    } else {
        assert(line_view(line@) =~= sizes + seq![]);
    }
    assert(row@.timeline[0] == row.timeline@[0]@);
    assert(row@.timeline.last() == row.timeline@.last()@);
    push_group(
        &mut line,
        "R ",
        share_spans(
            row.baseline_root_share(),
            row.latest_root_share(),
            row.root_share_delta(),
            " ",
        ),
    );
    line
}

/// What a message to the user is about.
#[derive(Clone, Copy, Debug, PartialEq, Eq, Structural)]
pub enum StatusKind {
    Info,
    Error,
}

/// The style of a message.
pub open spec fn status_style(kind: StatusKind) -> TextStyle {
    match kind {
        StatusKind::Info => thin(pale()),
        StatusKind::Error => bold(Color::Red),
    }
}

impl StatusKind {
    /// The style of a message.
    pub fn style(&self) -> (r: TextStyle)
        ensures
            r == status_style(*self),
    {
        match self {
            StatusKind::Info => TextStyle::thin(Color::Rgb(170, 170, 170)),
            StatusKind::Error => TextStyle::bold(Color::Red),
        }
    }
}

/// A message to the user.
pub struct StatusView {
    pub text: Seq<char>,
    pub kind: StatusKind,
}

/// A message to the user.
#[derive(Clone, Debug)]
pub struct StatusMessage {
    pub text: String,
    pub kind: StatusKind,
}

impl StatusMessage {
    /// The text and what it is about.
    pub open spec fn view(&self) -> StatusView {
        StatusView { text: self.text@, kind: self.kind }
    }
}

/// The view of a message, if there is one.
pub open spec fn view_status(status: Option<StatusMessage>) -> Option<StatusView> {
    match status {
        Some(message) => Some(message@),
        None => None,
    }
}

/// The line of the message to the user.
pub open spec fn message_line(status: Option<StatusView>) -> Seq<SpanView> {
    let label = span("Status  "@, thin(Color::DarkGray));
    match status {
        Some(message) => seq![label, span(message.text, status_style(message.kind))],
        None => seq![label, span("Ready"@, thin(pale()))],
    }
}

/// The line of the message to the user.
pub fn status_line(status: &Option<StatusMessage>) -> (r: Vec<Span>)
    ensures
        line_view(r@) == message_line(view_status(*status)),
{
    let mut line: Vec<Span> = Vec::new();
    line.push(Span::new("Status  ", TextStyle::thin(Color::DarkGray)));
    match status {
        Some(message) => {
            line.push(Span::new(message.text.as_str(), message.kind.style()));
        },
        None => {
            line.push(Span::new("Ready", TextStyle::thin(Color::Rgb(170, 170, 170))));
        },
    }
    assert(line_view(line@) =~= message_line(view_status(*status)));
    line
}

/// What is shown in place of an empty list.
pub open spec fn empty_lines(include_files: bool) -> Seq<Seq<SpanView>> {
    let first = seq![span("This directory is empty."@, thin(Color::DarkGray))];
    if include_files {
        seq![first]
    } else {
        seq![
            first,
            seq![span("If it only contains files, press f to show them."@, thin(pale()))],
        ]
    }
}

fn single(text: &str, style: TextStyle) -> (r: Vec<Span>)
    ensures
        line_view(r@) == seq![span(text@, style)],
{
    let mut line: Vec<Span> = Vec::new();
    line.push(Span::new(text, style));
    assert(line_view(line@) =~= seq![span(text@, style)]);
    line
}

/// What is shown in place of an empty list.
pub fn children_empty_lines(include_files: bool) -> (r: Vec<Vec<Span>>)
    ensures
        lines_view(r@) == empty_lines(include_files),
{
    let mut lines: Vec<Vec<Span>> = Vec::new();
    lines.push(single("This directory is empty.", TextStyle::thin(Color::DarkGray)));
    if !include_files {
        lines.push(
            single(
                "If it only contains files, press f to show them.",
                TextStyle::thin(Color::Rgb(170, 170, 170)),
            ),
        );
    }
    assert(lines_view(lines@) =~= empty_lines(include_files));
    lines
}

/// Values one after the other; of many, the first three and the last two.
pub open spec fn compact(values: Seq<Seq<char>>) -> Seq<char> {
    if values.len() <= 6 {
        join(values, " | "@)
    } else {
        join(values.take(3).push("..."@) + values.skip(values.len() - 2), " | "@)
    }
}

/// Values one after the other; of many, the first three and the last two.
pub fn compact_timeline(values: &Vec<String>) -> (r: String)
    ensures
        r@ == compact(views(values@)),
{
    let n: usize = values.len();
    if n <= 6 {
        return join_texts(values, " | ");
    }
    let mut shown: Vec<String> = Vec::new();
    shown.push(copied(values[0].as_str()));
    shown.push(copied(values[1].as_str()));
    shown.push(copied(values[2].as_str()));
    shown.push(copied("..."));
    shown.push(copied(values[n - 2].as_str()));
    shown.push(copied(values[n - 1].as_str()));
    proof {
        let all = views(values@);
        assert(views(shown@) =~= all.take(3).push("..."@) + all.skip(all.len() - 2));
    }
    join_texts(&shown, " | ")
}

/// How many characters some pieces have.
pub open spec fn width_of(spans: Seq<SpanView>) -> nat
    decreases spans.len(),
{
    if spans.len() == 0 {
        0
    } else {
        width_of(spans.drop_last()) + spans.last().text.len()
    }
}

/// How many characters some pieces have, as far as they can be counted.
pub fn spans_width(spans: &Vec<Span>) -> (r: usize)
    ensures
        r == (if width_of(line_view(spans@)) > usize::MAX {
            usize::MAX as nat
        } else {
            width_of(line_view(spans@))
        }),
{
    let ghost all = line_view(spans@);
    let mut width: usize = 0;
    let mut i: usize = 0;
    assert(all.take(0) =~= seq![]);
    while i < spans.len()
        invariant
            all == line_view(spans@),
            i <= spans@.len(),
            width == (if width_of(all.take(i as int)) > usize::MAX {
                usize::MAX as nat
            } else {
                width_of(all.take(i as int))
            }),
        decreases spans@.len() - i,
    {
        proof {
            assert(all.take(i + 1).drop_last() =~= all.take(i as int));
            assert(all.take(i + 1).last() == spans@[i as int]@);
        }
        let more: usize = chars_of(spans[i].text.as_str()).len();
        width = if width > usize::MAX - more {
            usize::MAX
        } else {
            width + more
        };
        i = i + 1;
    }
    assert(all.take(i as int) =~= all);
    width
}

/// How wide the value beside a label is.
pub fn value_area_width(area_width: u16, label_width: u16) -> (r: usize)
    ensures
        r == (if area_width < label_width {
            0
        } else {
            area_width - label_width
        }),
{
    if area_width < label_width {
        0
    } else {
        (area_width - label_width) as usize
    }
}

/// How long a text that moves stands still at either end.
pub const MARQUEE_PAUSE: usize = 4;

/// How far a text that is too wide has moved: it stands still, moves to its end, stands
/// still and moves back.
pub open spec fn marquee(content: nat, viewport: nat, tick: nat) -> nat {
    if viewport == 0 || content <= viewport {
        0
    } else {
        let overflow = (content - viewport) as nat;
        let pause = MARQUEE_PAUSE as nat;
        let t = tick % (2 * (pause + overflow));
        let offset = if t < pause {
            0
        } else if t < pause + overflow {
            (t - pause) as nat
        } else if t < pause + overflow + pause {
            overflow
        } else {
            (overflow - (t - pause - overflow - pause)) as nat
        };
        if offset > u16::MAX {
            u16::MAX as nat
        } else {
            offset
        }
    }
}

/// How far a text that is too wide has moved at a tick.
pub fn marquee_offset(content_width: usize, viewport_width: usize, tick: usize) -> (r: u16)
    ensures
        r == marquee(content_width as nat, viewport_width as nat, tick as nat),
{
    if viewport_width == 0 || content_width <= viewport_width {
        return 0;
    }
    let overflow: u128 = (content_width - viewport_width) as u128;
    let pause: u128 = MARQUEE_PAUSE as u128;
    let t: u128 = tick as u128 % (2 * (pause + overflow));
    let offset: u128 = if t < pause {
        0
    } else if t < pause + overflow {
        t - pause
    } else if t < pause + overflow + pause {
        overflow
    } else {
        overflow - (t - pause - overflow - pause)
    };
    if offset > u16::MAX as u128 {
        u16::MAX
    } else {
        offset as u16
    }
}

/// A text that moves never moves beyond its end.
pub proof fn law_marquee_stays_in_sight(content: nat, viewport: nat, tick: nat)
    ensures
        content <= viewport ==> marquee(content, viewport, tick) == 0,
        content > viewport ==> marquee(content, viewport, tick) <= content - viewport,
        marquee(content, viewport, tick) <= u16::MAX,
{
    if viewport != 0 && content > viewport {
        let overflow = (content - viewport) as nat;
        assert(tick % (2 * (MARQUEE_PAUSE as nat + overflow)) < 2 * (MARQUEE_PAUSE as nat + overflow))
            by (nonlinear_arith);
    }
}

/// How many rows a page of the list has.
pub fn children_page_step(area_height: u16) -> (r: usize)
    ensures
        r == (if area_height <= 4 {
            1
        } else {
            area_height - 3
        }),
{
    if area_height <= 4 {
        1
    } else {
        (area_height - 3) as usize
    }
}

/// How high the overview is.
pub const OVERVIEW_HEIGHT: u16 = 6;

/// How high the list is at least.
pub const LIST_HEIGHT: u16 = 6;

/// How high the details are.
pub const DETAIL_HEIGHT: u16 = 12;

/// How high the line of the keys is.
pub const KEYS_HEIGHT: u16 = 3;

/// How wide the columns of the list are together, with what is around them.
pub const LIST_WIDTH: u16 = 85;

/// Whether there is room for the details below the list.
pub fn shows_details(area_width: u16, area_height: u16) -> (r: bool)
    ensures
        r == (area_width >= LIST_WIDTH && area_height >= OVERVIEW_HEIGHT + LIST_HEIGHT
            + DETAIL_HEIGHT + KEYS_HEIGHT),
{
    area_width >= LIST_WIDTH && area_height >= OVERVIEW_HEIGHT + LIST_HEIGHT + DETAIL_HEIGHT
        + KEYS_HEIGHT
}

} // verus!
