//! The comparison of snapshots: what each path holds in each of them, and the rows
//! that show the change.

use crate::double::{Double, LEAST_SIGNIFICAND, lemma_integers_in_order, lemma_ratio_at_most_one, lemma_ratio_of_equals, lemma_whole_is_normal, less, magnitude_less, moderate, negation, quotient_of, sum_of};
use crate::gdu::{GduNode, NodeView, SnapshotTree, lemma_dir_view};
use crate::index::{AnalysisError, AnalysisErrorView, IndexView, NoProgress, ProgressSink, ProgressView, SizeMetric, SnapshotIndex, TreeView, child_path, copy_node, in_unit, index_of, join_path, one, size_value, replace_contents, snapshot_reports, whole, with_contents, zero};
use crate::sort::{Ranked, arranged, arranged_view, is_arrangement, lemma_orders_arranges, orders, precedes, sorted_places};
use crate::text::{Rank, chars_of, copied, find_last, last_place, lemma_last_place, lemma_text_less_irreflexive, lemma_text_less_total, lemma_text_less_transitive, rank_texts, same_text, text_between, text_less, view_option};
use crate::text_map::{Keyed, TextMap, has_key, keys_in_order, lemma_ordered_pair, lemma_pairs_map_key, pairs_map};
use vstd::prelude::*;
use vstd::string::StringExecFns;

verus! {

/// By what rows are sorted.
#[derive(Clone, Copy, Debug, PartialEq, Eq, Structural)]
pub enum SortMode {
    LatestSize,
    Delta,
    ShareDelta,
    Name,
}

/// The name of a sort mode.
pub open spec fn sort_label(sort: SortMode) -> Seq<char> {
    match sort {
        SortMode::LatestSize => "latest size"@,
        SortMode::Delta => "delta"@,
        SortMode::ShareDelta => "share delta"@,
        SortMode::Name => "name"@,
    }
}

impl SortMode {
    /// The name of the sort mode.
    pub fn label(self) -> (r: &'static str)
        ensures
            r@ == sort_label(self),
    {
        match self {
            SortMode::LatestSize => "latest size",
            SortMode::Delta => "delta",
            SortMode::ShareDelta => "share delta",
            SortMode::Name => "name",
        }
    }
}

/// How an entry changed from the first snapshot to the last.
#[derive(Clone, Copy, Debug, PartialEq, Eq, Structural)]
pub enum ChangeKind {
    Added,
    Removed,
    Changed,
    Unchanged,
}

/// The sign of a change.
pub open spec fn change_sign(kind: ChangeKind) -> Seq<char> {
    match kind {
        ChangeKind::Added => "+"@,
        ChangeKind::Removed => "-"@,
        ChangeKind::Changed => "~"@,
        ChangeKind::Unchanged => "="@,
    }
}

impl ChangeKind {
    /// The sign of the change.
    pub fn label(self) -> (r: &'static str)
        ensures
            r@ == change_sign(self),
    {
        self.short()
    }

    /// The sign of the change.
    pub fn short(self) -> (r: &'static str)
        ensures
            r@ == change_sign(self),
    {
        match self {
            ChangeKind::Added => "+",
            ChangeKind::Removed => "-",
            ChangeKind::Changed => "~",
            ChangeKind::Unchanged => "=",
        }
    }
}

/// What an entry is: a directory, a file, or one in some snapshots and the other in
/// others.
#[derive(Clone, Copy, Debug, PartialEq, Eq, Structural)]
pub enum EntryKind {
    Dir,
    File,
    Mixed,
}

/// The name of a kind.
pub open spec fn kind_label(kind: EntryKind) -> Seq<char> {
    match kind {
        EntryKind::Dir => "dir"@,
        EntryKind::File => "file"@,
        EntryKind::Mixed => "mixed"@,
    }
}

/// The letter of a kind.
pub open spec fn kind_letter(kind: EntryKind) -> Seq<char> {
    match kind {
        EntryKind::Dir => "D"@,
        EntryKind::File => "F"@,
        EntryKind::Mixed => "M"@,
    }
}

impl EntryKind {
    /// The name of the kind.
    pub fn label(self) -> (r: &'static str)
        ensures
            r@ == kind_label(self),
    {
        match self {
            EntryKind::Dir => "dir",
            EntryKind::File => "file",
            EntryKind::Mixed => "mixed",
        }
    }

    /// The letter of the kind.
    pub fn short(self) -> (r: &'static str)
        ensures
            r@ == kind_letter(self),
    {
        match self {
            EntryKind::Dir => "D",
            EntryKind::File => "F",
            EntryKind::Mixed => "M",
        }
    }
}

/// What a path holds in one snapshot.
pub struct PointView {
    pub label: Seq<char>,
    pub size: u64,
    pub local_share: Double,
    pub root_share: Double,
}

/// What a path holds in one snapshot.
#[derive(Clone, Debug)]
pub struct TimelinePoint {
    pub label: String,
    pub size: u64,
    pub local_share: Double,
    pub root_share: Double,
}

impl TimelinePoint {
    /// What the path holds.
    pub open spec fn view(&self) -> PointView {
        PointView {
            label: self.label@,
            size: self.size,
            local_share: self.local_share,
            root_share: self.root_share,
        }
    }
}

/// The views of some points.
pub open spec fn point_views(points: Seq<TimelinePoint>) -> Seq<PointView> {
    Seq::new(points.len(), |i: int| points[i]@)
}

/// The change of a path over the snapshots.
#[verifier::ext_equal]
pub struct RowView {
    pub name: Seq<char>,
    pub path: Seq<char>,
    pub kind: EntryKind,
    pub change_kind: ChangeKind,
    pub latest_size: u64,
    pub baseline_size: u64,
    pub delta: i64,
    pub latest_local_share: Double,
    pub baseline_local_share: Double,
    pub local_share_delta: Double,
    pub timeline: Seq<PointView>,
}

/// The change of a path over the snapshots.
#[derive(Clone, Debug)]
pub struct RowData {
    pub name: String,
    pub path: String,
    pub kind: EntryKind,
    pub change_kind: ChangeKind,
    pub latest_size: u64,
    pub baseline_size: u64,
    pub delta: i64,
    pub latest_local_share: Double,
    pub baseline_local_share: Double,
    pub local_share_delta: Double,
    pub timeline: Vec<TimelinePoint>,
}

/// Something is in the entry in some snapshot.
pub open spec fn opens(kind: EntryKind) -> bool {
    kind is Dir || kind is Mixed
}

/// The share of the root in the last snapshot.
pub open spec fn latest_root(row: RowView) -> Double {
    if row.timeline.len() == 0 {
        zero()
    } else {
        row.timeline.last().root_share
    }
}

/// The share of the root in the first snapshot.
pub open spec fn baseline_root(row: RowView) -> Double {
    if row.timeline.len() == 0 {
        zero()
    } else {
        row.timeline[0].root_share
    }
}

/// The change of the share of the root.
pub open spec fn root_delta(row: RowView) -> Double {
    sum_of(latest_root(row), negation(baseline_root(row)))
}

/// The range in which every quotient of two sizes lies.
pub open spec fn share_sized(x: Double) -> bool {
    x.wf() && -200 <= x.exponent <= 20
}

/// The range in which every difference of two shares lies.
pub open spec fn difference_sized(x: Double) -> bool {
    x.wf() && -300 <= x.exponent <= 30
}

impl RowData {
    /// The change that the row shows.
    pub open spec fn view(&self) -> RowView {
        RowView {
            name: self.name@,
            path: self.path@,
            kind: self.kind,
            change_kind: self.change_kind,
            latest_size: self.latest_size,
            baseline_size: self.baseline_size,
            delta: self.delta,
            latest_local_share: self.latest_local_share,
            baseline_local_share: self.baseline_local_share,
            local_share_delta: self.local_share_delta,
            timeline: point_views(self.timeline@),
        }
    }

    /// The share of the root in the last snapshot.
    pub fn latest_root_share(&self) -> (r: Double)
        ensures
            r == latest_root(self@),
    {
        let n: usize = self.timeline.len();
        if n == 0 {
            Double::zero()
        } else {
            self.timeline[n - 1].root_share
        }
    }

    /// The share of the root in the first snapshot.
    pub fn baseline_root_share(&self) -> (r: Double)
        ensures
            r == baseline_root(self@),
    {
        if self.timeline.len() == 0 {
            Double::zero()
        } else {
            self.timeline[0].root_share
        }
    }

    /// The change of the share of the root.
    pub fn root_share_delta(&self) -> (r: Double)
        requires
            share_sized(latest_root(self@)),
            share_sized(baseline_root(self@)),
        ensures
            r == root_delta(self@),
            difference_sized(r),
    {
        self.latest_root_share().minus(self.baseline_root_share())
    }

    /// Whether something is in the entry in some snapshot.
    pub fn has_children(&self) -> (r: bool)
        ensures
            r == opens(self.kind),
    {
        match self.kind {
            EntryKind::Dir | EntryKind::Mixed => true,
            EntryKind::File => false,
        }
    }
}

/// The views of some rows.
pub open spec fn row_views(rows: Seq<RowData>) -> Seq<RowView> {
    Seq::new(rows.len(), |i: int| rows[i]@)
}

/// The part that one size is of another, as the nearest number.
pub open spec fn share_of(part: u64, total: u64) -> Double {
    if total == 0 {
        zero()
    } else {
        quotient_of(whole(part as nat), whole(total as nat))
    }
}

/// The part that one size is of another.
pub fn share(part: u64, total: u64) -> (r: Double)
    ensures
        r == share_of(part, total),
        !r.negative,
        share_sized(r),
        r.exponent <= 13,
{
    if total == 0 {
        Double::zero()
    } else {
        Double::from_u64(part).divided_by(Double::from_u64(total))
    }
}

/// The path of the directory that an entry is in; the root is in none.
pub open spec fn parent_of(path: Seq<char>) -> Option<Seq<char>> {
    if path.len() == 0 {
        None
    } else if last_place(path, '/') < 0 {
        Some(seq![])
    } else {
        Some(path.take(last_place(path, '/')))
    }
}

/// The size of a path in a snapshot, nothing where it is not there.
pub open spec fn size_at(index: IndexView, path: Seq<char>, metric: SizeMetric) -> u64 {
    if index.entries.contains_key(path) {
        size_value(index.entries[path].sizes, metric)
    } else {
        0
    }
}

/// What a path holds in a snapshot.
pub open spec fn point_at(index: IndexView, path: Seq<char>, metric: SizeMetric) -> PointView {
    let size = size_at(index, path, metric);
    let parent_size = match parent_of(path) {
        Some(parent) => size_at(index, parent, metric),
        None => 0,
    };
    PointView {
        label: index.label,
        size,
        local_share: share_of(size, parent_size),
        root_share: share_of(size, size_at(index, seq![], metric)),
    }
}

/// What a path holds in each snapshot.
pub open spec fn timeline_of(all: Seq<IndexView>, path: Seq<char>, metric: SizeMetric) -> Seq<
    PointView,
> {
    Seq::new(all.len(), |i: int| point_at(all[i], path, metric))
}

/// The name of the entry in the first snapshot that has it.
pub open spec fn name_at(all: Seq<IndexView>, path: Seq<char>) -> Option<Seq<char>>
    decreases all.len(),
{
    if all.len() == 0 {
        None
    } else if name_at(all.drop_last(), path) is Some {
        name_at(all.drop_last(), path)
    } else if all.last().entries.contains_key(path) {
        Some(all.last().entries[path].name)
    } else {
        None
    }
}

/// The path is a directory, or a file, in some snapshot.
pub open spec fn seen_as(all: Seq<IndexView>, path: Seq<char>, is_dir: bool) -> bool {
    exists|i: int|
        0 <= i < all.len() && (#[trigger] all[i]).entries.contains_key(path)
            && all[i].entries[path].is_dir == is_dir
}

/// What the path is over all snapshots.
pub open spec fn kind_at(all: Seq<IndexView>, path: Seq<char>) -> EntryKind {
    if !seen_as(all, path, true) {
        EntryKind::File
    } else if !seen_as(all, path, false) {
        EntryKind::Dir
    } else {
        EntryKind::Mixed
    }
}

/// A number of 64 bits with a sign, which starts again from the least after the greatest.
pub open spec fn wrapped(n: int) -> i64 {
    ((n + 0x8000_0000_0000_0000) % 0x1_0000_0000_0000_0000 - 0x8000_0000_0000_0000) as i64
}

/// The difference of two sizes.
pub fn size_change(latest: u64, baseline: u64) -> (r: i64)
    ensures
        r == wrapped(latest - baseline),
        latest - baseline <= i64::MAX && baseline - latest <= i64::MAX ==> r == latest - baseline,
{
    let difference: u64 = latest.wrapping_sub(baseline);
    proof {
        assert(difference < 0x8000_0000_0000_0000u64 ==> (difference as i64) == difference)
            by (bit_vector);
        assert(difference >= 0x8000_0000_0000_0000u64 ==> (difference as i64) == difference
            - 0x1_0000_0000_0000_0000) by (bit_vector);
    }
    difference as i64
}

/// The least difference of shares that counts as a change: the distance from one to the
/// next greater number.
pub open spec fn epsilon() -> Double {
    Double { negative: false, significand: LEAST_SIGNIFICAND, exponent: -104i32 }
}

/// How an entry changed.
pub open spec fn change_of(
    first_present: bool,
    last_present: bool,
    delta: i64,
    baseline_local_share: Double,
    latest_local_share: Double,
) -> ChangeKind {
    if !first_present && last_present {
        ChangeKind::Added
    } else if first_present && !last_present {
        ChangeKind::Removed
    } else if delta != 0 || magnitude_less(
        epsilon(),
        sum_of(baseline_local_share, negation(latest_local_share)),
    ) {
        ChangeKind::Changed
    } else {
        ChangeKind::Unchanged
    }
}

/// How an entry changed.
pub fn change_kind_from_presence_and_delta(
    first_present: bool,
    last_present: bool,
    delta: i64,
    baseline_local_share: Double,
    latest_local_share: Double,
) -> (r: ChangeKind)
    requires
        baseline_local_share.wf(),
        latest_local_share.wf(),
        moderate(baseline_local_share),
        moderate(latest_local_share),
    ensures
        r == change_of(
            first_present,
            last_present,
            delta,
            baseline_local_share,
            latest_local_share,
        ),
{
    if !first_present && last_present {
        return ChangeKind::Added;
    }
    if first_present && !last_present {
        return ChangeKind::Removed;
    }
    let least = Double { negative: false, significand: LEAST_SIGNIFICAND, exponent: -104 };
    if delta != 0 || least.magnitude_less_than(baseline_local_share.minus(latest_local_share)) {
        return ChangeKind::Changed;
    }
    ChangeKind::Unchanged
}

/// The row of a path, if some snapshot has the path.
pub open spec fn row_at(all: Seq<IndexView>, path: Seq<char>, metric: SizeMetric) -> Option<
    RowView,
> {
    let timeline = timeline_of(all, path, metric);
    let first = timeline[0];
    let last = timeline.last();
    let delta = wrapped(last.size - first.size);
    match name_at(all, path) {
        Some(name) => Some(
            RowView {
                name,
                path,
                kind: kind_at(all, path),
                change_kind: change_of(
                    all[0].entries.contains_key(path),
                    all.last().entries.contains_key(path),
                    delta,
                    first.local_share,
                    last.local_share,
                ),
                latest_size: last.size,
                baseline_size: first.size,
                delta,
                latest_local_share: last.local_share,
                baseline_local_share: first.local_share,
                local_share_delta: sum_of(last.local_share, negation(first.local_share)),
                timeline,
            },
        ),
        None => None,
    }
}

/// What the root holds in each snapshot.
pub open spec fn root_timeline(all: Seq<IndexView>, metric: SizeMetric) -> Seq<PointView> {
    Seq::new(
        all.len(),
        |i: int|
            PointView {
                label: all[i].label,
                size: size_at(all[i], seq![], metric),
                local_share: one(),
                root_share: one(),
            },
    )
}

/// The row of the root.
pub open spec fn root_row_of(all: Seq<IndexView>, metric: SizeMetric) -> RowView {
    let timeline = root_timeline(all, metric);
    let latest_size = timeline.last().size;
    let baseline_size = timeline[0].size;
    let delta = wrapped(latest_size - baseline_size);
    RowView {
        name: all.last().root_name,
        path: seq![],
        kind: EntryKind::Dir,
        change_kind: if delta == 0 {
            ChangeKind::Unchanged
        } else {
            ChangeKind::Changed
        },
        latest_size,
        baseline_size,
        delta,
        latest_local_share: one(),
        baseline_local_share: one(),
        local_share_delta: zero(),
        timeline,
    }
}

/// What `str::to_lowercase` makes of a text.
pub uninterp spec fn lowercase(text: Seq<char>) -> Seq<char>;

/// `str::to_lowercase` of the standard library gives the lower-case form of a text,
/// which depends on the text alone.
#[verifier::external_body]
fn lowercase_text(text: &str) -> (r: String)
    ensures
        r@ == lowercase(text@),
{
    text.to_lowercase()
}

/// Directories come before files, and then the lower-case names count.
pub open spec fn by_kind_and_name(
    a: RowView,
    a_lowered: Seq<char>,
    b: RowView,
    b_lowered: Seq<char>,
) -> bool {
    if opens(a.kind) != opens(b.kind) {
        opens(a.kind)
    } else {
        text_less(a_lowered, b_lowered)
    }
}

/// A row comes before another in a sort mode, given their names in lower case.
pub open spec fn row_before(
    sort: SortMode,
    a: RowView,
    a_lowered: Seq<char>,
    b: RowView,
    b_lowered: Seq<char>,
) -> bool {
    match sort {
        SortMode::LatestSize => if a.latest_size != b.latest_size {
            a.latest_size > b.latest_size
        } else {
            by_kind_and_name(a, a_lowered, b, b_lowered)
        },
        SortMode::Delta => if a.delta != b.delta {
            a.delta > b.delta
        } else {
            by_kind_and_name(a, a_lowered, b, b_lowered)
        },
        SortMode::ShareDelta => if less(a.local_share_delta, b.local_share_delta) || less(
            b.local_share_delta,
            a.local_share_delta,
        ) {
            less(b.local_share_delta, a.local_share_delta)
        } else {
            by_kind_and_name(a, a_lowered, b, b_lowered)
        },
        SortMode::Name => by_kind_and_name(a, a_lowered, b, b_lowered),
    }
}

/// What counts when rows are sorted.
struct RowKey {
    number: i128,
    share: Double,
    opens: bool,
    lowered: String,
}

impl Ranked for RowKey {
    closed spec fn before(self, other: Self) -> bool {
        if self.number != other.number {
            self.number > other.number
        } else if less(self.share, other.share) || less(other.share, self.share) {
            less(other.share, self.share)
        } else if self.opens != other.opens {
            self.opens
        } else {
            text_less(self.lowered@, other.lowered@)
        }
    }

    proof fn irreflexive(a: Self) {
        lemma_text_less_irreflexive(a.lowered@);
    }

    proof fn transitive(a: Self, b: Self, c: Self) {
        if text_less(a.lowered@, b.lowered@) && text_less(b.lowered@, c.lowered@) {
            lemma_text_less_transitive(a.lowered@, b.lowered@, c.lowered@);
        }
    }

    proof fn separating(a: Self, b: Self, c: Self) {
        lemma_text_less_total(a.lowered@, b.lowered@);
        if text_less(b.lowered@, a.lowered@) && text_less(a.lowered@, c.lowered@) {
            lemma_text_less_transitive(b.lowered@, a.lowered@, c.lowered@);
        }
    }

    fn comes_before(&self, other: &Self) -> (r: bool) {
        if self.number != other.number {
            self.number > other.number
        } else if self.share.less_than(other.share) || other.share.less_than(self.share) {
            other.share.less_than(self.share)
        } else if self.opens != other.opens {
            self.opens
        } else {
            match rank_texts(self.lowered.as_str(), other.lowered.as_str()) {
                Rank::Before => true,
                _ => {
                    proof {
                        lemma_text_less_irreflexive(self.lowered@);
                    }
                    false
                },
            }
        }
    }
}

/// The place of a row in the sorted rows comes before that of another.
pub open spec fn row_precedes(
    sort: SortMode,
    rows: Seq<RowView>,
    lowered: Seq<Seq<char>>,
    i: int,
    j: int,
) -> bool {
    row_before(sort, rows[i], lowered[i], rows[j], lowered[j]) || (!row_before(
        sort,
        rows[j],
        lowered[j],
        rows[i],
        lowered[i],
    ) && i < j)
}

/// The places of all rows, each once, in a sort mode; equal rows keep their order.
pub open spec fn sorts(
    sort: SortMode,
    rows: Seq<RowView>,
    lowered: Seq<Seq<char>>,
    places: Seq<usize>,
) -> bool {
    &&& is_arrangement(places, rows.len())
    &&& forall|k: int| 0 <= k < rows.len() ==> #[trigger] places.contains(k as usize)
    &&& forall|i: int, j: int|
        0 <= i < j < places.len() ==> row_precedes(
            sort,
            rows,
            lowered,
            #[trigger] places[i] as int,
            #[trigger] places[j] as int,
        )
}

/// The texts of a list.
pub open spec fn texts(list: Seq<String>) -> Seq<Seq<char>> {
    Seq::new(list.len(), |i: int| list[i]@)
}

/// Sorts rows of which the names in lower case are given.
pub fn sort_rows_by(rows: Vec<RowData>, lowered: Vec<String>, sort: SortMode) -> (r: Vec<RowData>)
    requires
        lowered@.len() == rows@.len(),
    ensures
        exists|places: Seq<usize>|
            #![trigger arranged_view(rows@, places)]
            sorts(sort, row_views(rows@), texts(lowered@), places) && r@ == arranged_view(
                rows@,
                places,
            ),
{
    let ghost names = texts(lowered@);
    let ghost views = row_views(rows@);
    let mut keys: Vec<RowKey> = Vec::new();
    for name in iter: lowered
        invariant
            iter.seq() == lowered@,
            lowered@.len() == rows@.len(),
            names == texts(lowered@),
            views == row_views(rows@),
            keys@.len() == iter.index(),
            forall|i: int|
                #![trigger keys@[i]]
                0 <= i < keys@.len() ==> {
                    &&& keys@[i].lowered@ == names[i]
                    &&& keys@[i].opens == opens(views[i].kind)
                    &&& keys@[i].number == (match sort {
                        SortMode::LatestSize => views[i].latest_size as int,
                        SortMode::Delta => views[i].delta as int,
                        _ => 0,
                    })
                    &&& keys@[i].share == (if sort is ShareDelta {
                        views[i].local_share_delta
                    } else {
                        zero()
                    })
                },
    {
        let row = &rows[keys.len()];
        assert(views[keys@.len() as int] == row@);
        let number: i128 = match sort {
            SortMode::LatestSize => row.latest_size as i128,
            SortMode::Delta => row.delta as i128,
            SortMode::ShareDelta => 0,
            SortMode::Name => 0,
        };
        let share = match sort {
            SortMode::ShareDelta => row.local_share_delta,
            _ => Double::zero(),
        };
        keys.push(RowKey { number, share, opens: row.has_children(), lowered: name });
    }
    let places = sorted_places(&keys);
    proof {
        lemma_orders_arranges(keys@, places@);
        assert(keys@.len() == views.len());
        assert forall|i: int, j: int| 0 <= i < j < places@.len() implies row_precedes(
            sort,
            views,
            names,
            #[trigger] places@[i] as int,
            #[trigger] places@[j] as int,
        ) by {
            let a = places@[i] as int;
            let b = places@[j] as int;
            assert(precedes(keys@, a, b));
            assert(keys@[a].before(keys@[b]) == row_before(
                sort,
                views[a],
                names[a],
                views[b],
                names[b],
            ));
            assert(keys@[b].before(keys@[a]) == row_before(
                sort,
                views[b],
                names[b],
                views[a],
                names[a],
            ));
        }
        assert(sorts(sort, views, names, places@));
    }
    arranged(rows, &places)
}

/// The names of rows in lower case.
pub open spec fn lowered_names(rows: Seq<RowView>) -> Seq<Seq<char>> {
    Seq::new(rows.len(), |i: int| lowercase(rows[i].name))
}

/// Sorts rows.
pub fn sort_rows(rows: Vec<RowData>, sort: SortMode) -> (r: Vec<RowData>)
    ensures
        exists|places: Seq<usize>|
            #![trigger arranged_view(rows@, places)]
            sorts(sort, row_views(rows@), lowered_names(row_views(rows@)), places) && r@
                == arranged_view(rows@, places),
{
    let mut lowered: Vec<String> = Vec::new();
    let mut i: usize = 0;
    while i < rows.len()
        invariant
            i <= rows@.len(),
            lowered@.len() == i,
            forall|k: int| 0 <= k < i ==> (#[trigger] lowered@[k])@ == lowercase(rows@[k].name@),
        decreases rows@.len() - i,
    {
        lowered.push(lowercase_text(rows[i].name.as_str()));
        i = i + 1;
    }
    assert(texts(lowered@) =~= lowered_names(row_views(rows@)));
    sort_rows_by(rows, lowered, sort)
}

/// The sort key of a snapshot: when it was exported, or the end of time.
pub open spec fn stamp_of(tree: TreeView) -> u64 {
    match tree.exported_at {
        Some(at) => at,
        None => u64::MAX,
    }
}

impl Ranked for u64 {
    open spec fn before(self, other: Self) -> bool {
        self < other
    }

    proof fn irreflexive(a: Self) {
    }

    proof fn transitive(a: Self, b: Self, c: Self) {
    }

    proof fn separating(a: Self, b: Self, c: Self) {
    }

    fn comes_before(&self, other: &Self) -> (r: bool) {
        *self < *other
    }
}

/// The views of some snapshots.
pub open spec fn tree_views(trees: Seq<SnapshotTree>) -> Seq<TreeView> {
    Seq::new(trees.len(), |i: int| trees[i]@)
}

/// The stamps of some snapshots.
pub open spec fn stamps(trees: Seq<TreeView>) -> Seq<u64> {
    Seq::new(trees.len(), |i: int| stamp_of(trees[i]))
}

/// The indexes of some snapshots.
pub open spec fn indexes(trees: Seq<TreeView>) -> Seq<IndexView> {
    Seq::new(trees.len(), |i: int| index_of(trees[i]))
}

/// What is reported while the first `n` of some snapshots are indexed.
pub open spec fn reports_up_to(trees: Seq<TreeView>, n: nat) -> Seq<ProgressView>
    decreases n,
{
    if n == 0 {
        seq![]
    } else {
        reports_up_to(trees, (n - 1) as nat) + snapshot_reports(
            trees[n - 1],
            n as usize,
            trees.len() as usize,
        )
    }
}

/// The first snapshot after the first whose root differs from that of the first.
pub open spec fn is_first_mismatch(trees: Seq<TreeView>, i: int) -> bool {
    &&& 0 < i < trees.len()
    &&& trees[i].root.name() != trees[0].root.name()
    &&& forall|j: int| 0 <= j < i ==> (#[trigger] trees[j]).root.name() == trees[0].root.name()
}

/// All snapshots have the same root.
pub open spec fn roots_match(trees: Seq<TreeView>) -> bool {
    forall|i: int| 0 <= i < trees.len() ==> (#[trigger] trees[i]).root.name()
        == trees[0].root.name()
}

/// The error for a snapshot whose root differs from that of the first.
pub open spec fn mismatch(trees: Seq<TreeView>, i: int) -> AnalysisErrorView {
    AnalysisErrorView::DifferentRoots {
        first_label: trees[0].label,
        first_root: trees[0].root.name(),
        label: trees[i].label,
        root: trees[i].root.name(),
    }
}

/// Finds a snapshot whose root differs from that of the first.
pub fn ensure_matching_roots(snapshots: &Vec<SnapshotTree>) -> (r: Result<(), AnalysisError>)
    ensures
        match r {
            Ok(()) => roots_match(tree_views(snapshots@)),
            Err(error) => exists|i: int| #[trigger]
                is_first_mismatch(tree_views(snapshots@), i) && error@ == mismatch(
                    tree_views(snapshots@),
                    i,
                ),
        },
{
    if snapshots.len() == 0 {
        return Ok(());
    }
    let ghost trees = tree_views(snapshots@);
    assert(trees[0] == snapshots@[0]@);
    let mut i: usize = 1;
    while i < snapshots.len()
        invariant
            1 <= i <= snapshots@.len(),
            trees == tree_views(snapshots@),
            trees[0] == snapshots@[0]@,
            forall|j: int|
                0 <= j < i ==> (#[trigger] trees[j]).root.name() == trees[0].root.name(),
        decreases snapshots@.len() - i,
    {
        assert(trees[i as int] == snapshots@[i as int]@);
        if !same_text(snapshots[i].root.name(), snapshots[0].root.name()) {
            let error = AnalysisError::DifferentRoots {
                first_label: copied(snapshots[0].label.as_str()),
                first_root: copied(snapshots[0].root.name()),
                label: copied(snapshots[i].label.as_str()),
                root: copied(snapshots[i].root.name()),
            };
            assert(is_first_mismatch(trees, i as int));
            return Err(error);
        }
        i = i + 1;
    }
    Ok(())
}

/// The stamps of some snapshots.
fn stamps_of(snapshots: &Vec<SnapshotTree>) -> (r: Vec<u64>)
    ensures
        r@ == stamps(tree_views(snapshots@)),
{
    let mut keys: Vec<u64> = Vec::new();
    while keys.len() < snapshots.len()
        invariant
            keys@.len() <= snapshots@.len(),
            forall|k: int|
                0 <= k < keys@.len() ==> keys@[k] == stamp_of(#[trigger] snapshots@[k]@),
        decreases snapshots@.len() - keys@.len(),
    {
        let k: usize = keys.len();
        let key: u64 = match snapshots[k].exported_at {
            Some(at) => at,
            None => u64::MAX,
        };
        assert(key == stamp_of(snapshots@[k as int]@));
        keys.push(key);
    }
    assert(keys@ =~= stamps(tree_views(snapshots@)));
    keys
}

/// Indexes snapshots one after the other.
fn index_all<S: ProgressSink>(snapshots: &Vec<SnapshotTree>, sink: &mut S) -> (r: Vec<SnapshotIndex>)
    ensures
        index_views(r@) == indexes(tree_views(snapshots@)),
        final(sink).seen() == old(sink).seen() + reports_up_to(
            tree_views(snapshots@),
            snapshots@.len(),
        ),
{
    let ghost trees = tree_views(snapshots@);
    let ghost seen_before = sink.seen();
    let total: usize = snapshots.len();
    let mut list: Vec<SnapshotIndex> = Vec::new();
    assert(sink.seen() =~= seen_before + reports_up_to(trees, 0));
    while list.len() < total
        invariant
            snapshots@.len() == total,
            trees == tree_views(snapshots@),
            list@.len() <= total,
            forall|k: int| 0 <= k < list@.len() ==> (#[trigger] list@[k])@ == index_of(trees[k]),
            sink.seen() == seen_before + reports_up_to(trees, list@.len()),
        decreases total - list@.len(),
    {
        let k: usize = list.len();
        assert(snapshots@[k as int]@ == trees[k as int]);
        let index = SnapshotIndex::from_snapshot(&snapshots[k], k + 1, total, sink);
        list.push(index);
        assert(sink.seen() =~= seen_before + reports_up_to(trees, list@.len()));
    }
    assert(index_views(list@) =~= indexes(trees));
    list
}

/// Snapshots to compare, in the order of their export.
pub struct Analysis {
    snapshots: Vec<SnapshotIndex>,
    latest: GduNode,
}

/// What is compared: the indexes of the snapshots, and the tree of the last one.
pub struct AnalysisView {
    pub all: Seq<IndexView>,
    pub latest: NodeView,
}

/// The views of some indexes.
pub open spec fn index_views(list: Seq<SnapshotIndex>) -> Seq<IndexView> {
    Seq::new(list.len(), |i: int| list[i]@)
}

/// The indexes of snapshots in the order of their export, those without a time last.
pub open spec fn indexed_in(
    trees: Seq<TreeView>,
    all: Seq<IndexView>,
    places: Seq<usize>,
) -> bool {
    orders(stamps(trees), places) && all == indexes(arranged_view(trees, places))
}

/// The last index is that of the tree.
pub open spec fn holds_latest(all: Seq<IndexView>, latest: NodeView) -> bool {
    all.last() == index_of(
        TreeView { label: all.last().label, exported_at: None, root: latest },
    )
}

/// The snapshots are indexed in the order of their export, and the reports on them
/// follow those made before.
pub open spec fn analysed(
    trees: Seq<TreeView>,
    all: Seq<IndexView>,
    before: Seq<ProgressView>,
    after: Seq<ProgressView>,
) -> bool {
    exists|places: Seq<usize>| #[trigger]
        indexed_in(trees, all, places) && after == before + reports_up_to(
            arranged_view(trees, places),
            trees.len(),
        )
}

impl Analysis {
    #[verifier::type_invariant]
    spec fn comparable(self) -> bool {
        self.snapshots@.len() >= 2
    }

    /// What is compared.
    pub closed spec fn view(&self) -> AnalysisView {
        AnalysisView { all: index_views(self.snapshots@), latest: self.latest@ }
    }

    /// Indexes snapshots.
    pub fn new(snapshots: Vec<SnapshotTree>) -> (r: Result<Analysis, AnalysisError>)
        ensures
            r is Ok <==> snapshots@.len() >= 2 && roots_match(tree_views(snapshots@)),
            r matches Ok(analysis) ==> exists|places: Seq<usize>| #[trigger]
                indexed_in(tree_views(snapshots@), analysis@.all, places),
            r matches Ok(analysis) ==> holds_latest(analysis@.all, analysis@.latest),
            r matches Err(error) ==> if snapshots@.len() < 2 {
                error@ == AnalysisErrorView::TooFewSnapshots
            } else {
                exists|i: int| #[trigger]
                    is_first_mismatch(tree_views(snapshots@), i) && error@ == mismatch(
                        tree_views(snapshots@),
                        i,
                    )
            },
    {
        let mut sink = NoProgress::new();
        Analysis::new_with_progress(snapshots, &mut sink)
    }

    /// Indexes snapshots and reports the progress.
    pub fn new_with_progress<S: ProgressSink>(snapshots: Vec<SnapshotTree>, sink: &mut S) -> (r:
        Result<Analysis, AnalysisError>)
        ensures
            r is Ok <==> snapshots@.len() >= 2 && roots_match(tree_views(snapshots@)),
            r matches Ok(analysis) ==> analysed(
                tree_views(snapshots@),
                analysis@.all,
                old(sink).seen(),
                final(sink).seen(),
            ),
            r matches Ok(analysis) ==> holds_latest(analysis@.all, analysis@.latest),
            r is Err ==> final(sink).seen() == old(sink).seen(),
            r matches Err(error) ==> if snapshots@.len() < 2 {
                error@ == AnalysisErrorView::TooFewSnapshots
            } else {
                exists|i: int| #[trigger]
                    is_first_mismatch(tree_views(snapshots@), i) && error@ == mismatch(
                        tree_views(snapshots@),
                        i,
                    )
            },
    {
        let ghost trees = tree_views(snapshots@);
        let ghost seen_before = sink.seen();
        if snapshots.len() < 2 {
            return Err(AnalysisError::TooFewSnapshots);
        }
        match ensure_matching_roots(&snapshots) {
            Ok(()) => {},
            Err(error) => {
                return Err(error);
            },
        }
        let places = sorted_places(&stamps_of(&snapshots));
        proof {
            lemma_orders_arranges(stamps(trees), places@);
        }
        let mut ordered = arranged(snapshots, &places);
        assert(tree_views(ordered@) =~= arranged_view(trees, places@));
        let list = index_all(&ordered, sink);
        let ghost in_order = tree_views(ordered@);
        let latest = match ordered.pop() {
            Some(last) => last.root,
            None => {
                return Err(AnalysisError::TooFewSnapshots);
            },
        };
        assert(latest@ == in_order.last().root);
        assert(index_views(list@).len() == places@.len());
        let analysis = Analysis { snapshots: list, latest };
        proof {
            assert(indexed_in(trees, analysis@.all, places@));
            assert(analysed(trees, analysis@.all, seen_before, sink.seen()));
        }
        Ok(analysis)
    }

    /// Replaces what is in a directory of the last snapshot by what was found in it since.
    pub fn replace_latest(&mut self, path: &str, found: &SnapshotTree)
        ensures
            final(self)@.latest == rescanned(old(self)@.latest, path@, found@.root),
            final(self)@.all == old(self)@.all.update(
                old(self)@.all.len() - 1,
                index_of(
                    TreeView {
                        label: old(self)@.all.last().label,
                        exported_at: None,
                        root: rescanned(old(self)@.latest, path@, found@.root),
                    },
                ),
            ),
    {
        proof {
            use_type_invariant(&*self);
        }
        let n: usize = self.snapshots.len();
        let ghost old_view = self@.all;
        assert(old_view.last() == self.snapshots@[n - 1]@);
        let root = match &found.root {
            GduNode::Dir(dir) => {
                proof {
                    lemma_dir_view(*dir);
                }
                replace_contents(&self.latest, "", path, &dir.children)
            },
            GduNode::File(_) => copy_node(&self.latest),
        };
        proof {
            reveal_strlit("");
            assert(""@ =~= seq![]);
        }
        let tree = SnapshotTree {
            label: copied(self.snapshots[n - 1].label.as_str()),
            exported_at: None,
            root,
        };
        let mut sink = NoProgress::new();
        let index = SnapshotIndex::from_snapshot(&tree, n, n, &mut sink);
        let ghost new_index = index@;
        self.snapshots[n - 1] = index;
        self.latest = tree.root;
        assert(self@.all =~= old_view.update(n - 1, new_index));
    }

    /// The name of the root in the last snapshot.
    pub fn current_root_name(&self) -> (r: &str)
        ensures
            r@ == self@.all.last().root_name,
            self@.all.len() >= 2,
    {
        proof {
            use_type_invariant(self);
        }
        let n: usize = self.snapshots.len();
        assert(self@.all.last() == self.snapshots@[n - 1]@);
        self.snapshots[n - 1].root_name.as_str()
    }

    /// The label of the last snapshot.
    pub fn latest_label(&self) -> (r: &str)
        ensures
            r@ == self@.all.last().label,
    {
        proof {
            use_type_invariant(self);
        }
        let n: usize = self.snapshots.len();
        assert(self@.all.last() == self.snapshots@[n - 1]@);
        self.snapshots[n - 1].label.as_str()
    }

    /// How many snapshots are compared.
    pub fn snapshot_count(&self) -> (r: usize)
        ensures
            r == self@.all.len(),
            r >= 2,
    {
        proof {
            use_type_invariant(self);
        }
        self.snapshots.len()
    }

    /// The labels of the first and the last snapshot.
    pub fn snapshot_range_label(&self) -> (r: String)
        ensures
            r@ == range_label(self@.all),
    {
        proof {
            use_type_invariant(self);
        }
        let n: usize = self.snapshots.len();
        let first = self.snapshots[0].label.as_str();
        let last = self.snapshots[n - 1].label.as_str();
        assert(self@.all.last() == self.snapshots@[n - 1]@);
        assert(self@.all[0] == self.snapshots@[0]@);
        if same_text(first, last) {
            copied(first)
        } else {
            let mut label = copied(first);
            label.append(" -> ");
            label.append(last);
            label
        }
    }

    /// The path of the directory that an entry is in.
    pub fn parent_path(path: &str) -> (r: Option<String>)
        ensures
            view_option(r) == parent_of(path@),
    {
        if path.is_empty() {
            return None;
        }
        let chars = chars_of(path);
        match find_last(&chars, '/') {
            Some(place) => {
                let above = text_between(&chars, 0, place);
                assert(above@ =~= path@.take(place as int));
                Some(above)
            },
            None => {
                let above = String::new();
                assert(above@ =~= seq![]);
                Some(above)
            },
        }
    }

    /// The path as it is shown, with the name of the root before it.
    pub fn display_path(&self, path: &str) -> (r: String)
        ensures
            r@ == full_path(self@.all, path@),
    {
        let root = self.current_root_name();
        if path.is_empty() {
            copied(root)
        } else {
            let mut full = copied(root);
            full.append("/");
            full.append(path);
            full
        }
    }

    /// The row of a path, if some snapshot has it.
    fn build_row(&self, path: &str, metric: SizeMetric) -> (r: Option<RowData>)
        ensures
            match r {
                Some(row) => row_at(self@.all, path@, metric) == Some(row@) && row_sound(row@),
                None => row_at(self@.all, path@, metric) is None,
            },
    {
        proof {
            use_type_invariant(self);
        }
        let ghost all = self@.all;
        let mut name: Option<String> = None;
        let mut saw_dir = false;
        let mut saw_file = false;
        let mut first_present = false;
        let mut last_present = false;
        let mut timeline: Vec<TimelinePoint> = Vec::new();
        let parent = Analysis::parent_path(path);
        let mut i: usize = 0;
        while i < self.snapshots.len()
            invariant
                self.comparable(),
                all == self@.all,
                i <= self.snapshots@.len(),
                view_option(parent) == parent_of(path@),
                timeline@.len() == i,
                forall|k: int|
                    0 <= k < i ==> (#[trigger] timeline@[k])@ == point_at(all[k], path@, metric)
                        && share_sized(timeline@[k].local_share) && share_sized(
                        timeline@[k].root_share,
                    ) && timeline@[k].local_share.exponent <= 13
                        && timeline@[k].root_share.exponent <= 13
                        && !timeline@[k].local_share.negative && !timeline@[k].root_share.negative,
                view_option(name) == name_at(all.take(i as int), path@),
                saw_dir == seen_as(all.take(i as int), path@, true),
                saw_file == seen_as(all.take(i as int), path@, false),
                i > 0 ==> first_present == all[0].entries.contains_key(path@),
                i == self.snapshots@.len() ==> last_present == all.last().entries.contains_key(path@),
            decreases self.snapshots@.len() - i,
        {
            let snapshot = &self.snapshots[i];
            let ghost index = all[i as int];
            proof {
                assert(index == snapshot@);
                lemma_seen_as_step(all, path@, true, i as int);
                lemma_seen_as_step(all, path@, false, i as int);
                assert(all.take(i + 1).drop_last() =~= all.take(i as int));
                assert(all.take(i + 1).last() == index);
            }
            let entry = snapshot.entries.get(path);
            let size: u64 = match entry {
                Some(entry) => {
                    if name.is_none() {
                        name = Some(copied(entry.name.as_str()));
                    }
                    if entry.is_dir {
                        saw_dir = true;
                    } else {
                        saw_file = true;
                    }
                    entry.sizes.value(metric)
                },
                None => 0,
            };
            if i == 0 {
                first_present = entry.is_some();
            }
            if i + 1 == self.snapshots.len() {
                last_present = entry.is_some();
            }
            let parent_size: u64 = match &parent {
                Some(above) => match snapshot.entries.get(above.as_str()) {
                    Some(entry) => entry.sizes.value(metric),
                    None => 0,
                },
                None => 0,
            };
            let root_size: u64 = match snapshot.root_sizes() {
                Ok(sizes) => sizes.value(metric),
                Err(_) => 0,
            };
            timeline.push(
                TimelinePoint {
                    label: copied(snapshot.label.as_str()),
                    size,
                    local_share: share(size, parent_size),
                    root_share: share(size, root_size),
                },
            );
            i = i + 1;
        }
        proof {
            assert(all.take(i as int) =~= all);
            assert(point_views(timeline@) =~= timeline_of(all, path@, metric));
            lemma_named_is_seen(all, path@);
        }
        let name = match name {
            Some(name) => name,
            None => {
                return None;
            },
        };
        let kind = if !saw_dir {
            EntryKind::File
        } else if !saw_file {
            EntryKind::Dir
        } else {
            EntryKind::Mixed
        };
        let n: usize = timeline.len();
        let baseline_size: u64 = timeline[0].size;
        let latest_size: u64 = timeline[n - 1].size;
        let baseline_local_share = timeline[0].local_share;
        let latest_local_share = timeline[n - 1].local_share;
        let delta: i64 = size_change(latest_size, baseline_size);
        let change_kind = change_kind_from_presence_and_delta(
            first_present,
            last_present,
            delta,
            baseline_local_share,
            latest_local_share,
        );
        let row = RowData {
            name,
            path: copied(path),
            kind,
            change_kind,
            latest_size,
            baseline_size,
            delta,
            latest_local_share,
            baseline_local_share,
            local_share_delta: latest_local_share.minus(baseline_local_share),
            timeline,
        };
        Some(row)
    }

    /// The row of the root.
    fn root_row(&self, metric: SizeMetric) -> (r: RowData)
        ensures
            r@ == root_row_of(self@.all, metric),
            row_sound(r@),
    {
        proof {
            use_type_invariant(self);
        }
        let ghost all = self@.all;
        let mut timeline: Vec<TimelinePoint> = Vec::new();
        let mut i: usize = 0;
        while i < self.snapshots.len()
            invariant
                self.comparable(),
                all == self@.all,
                i <= self.snapshots@.len(),
                timeline@.len() == i,
                forall|k: int|
                    0 <= k < i ==> (#[trigger] timeline@[k])@ == root_timeline(all, metric)[k],
            decreases self.snapshots@.len() - i,
        {
            let snapshot = &self.snapshots[i];
            assert(all[i as int] == snapshot@);
            let size: u64 = match snapshot.root_sizes() {
                Ok(sizes) => sizes.value(metric),
                Err(_) => 0,
            };
            timeline.push(
                TimelinePoint {
                    label: copied(snapshot.label.as_str()),
                    size,
                    local_share: Double::one(),
                    root_share: Double::one(),
                },
            );
            i = i + 1;
        }
        assert(point_views(timeline@) =~= root_timeline(all, metric));
        let n: usize = timeline.len();
        let baseline_size: u64 = timeline[0].size;
        let latest_size: u64 = timeline[n - 1].size;
        let delta: i64 = size_change(latest_size, baseline_size);
        let path = String::new();
        assert(path@ =~= seq![]);
        RowData {
            name: copied(self.current_root_name()),
            path,
            kind: EntryKind::Dir,
            change_kind: if delta == 0 {
                ChangeKind::Unchanged
            } else {
                ChangeKind::Changed
            },
            latest_size,
            baseline_size,
            delta,
            latest_local_share: Double::one(),
            baseline_local_share: Double::one(),
            local_share_delta: Double::zero(),
            timeline,
        }
    }

    /// The row of a path.
    pub fn row_for_path(&self, path: &str, metric: SizeMetric) -> (r: Result<
        RowData,
        AnalysisError,
    >)
        ensures
            match r {
                Ok(row) => row_for(self@.all, path@, metric) == Some(row@) && row_sound(row@),
                Err(error) => row_for(self@.all, path@, metric) is None && error@
                    == (AnalysisErrorView::UnknownPath { path: path@ }),
            },
    {
        if path.is_empty() {
            return Ok(self.root_row(metric));
        }
        match self.build_row(path, metric) {
            Some(row) => Ok(row),
            None => Err(AnalysisError::UnknownPath { path: copied(path) }),
        }
    }
}

/// A tree in which what is in a directory is replaced by what another tree holds.
pub open spec fn rescanned(latest: NodeView, path: Seq<char>, found: NodeView) -> NodeView {
    match found {
        NodeView::Dir { children, .. } => with_contents(latest, seq![], path, children),
        NodeView::File { .. } => latest,
    }
}

/// The labels of the first and the last snapshot, once where they are the same.
pub open spec fn range_label(all: Seq<IndexView>) -> Seq<char> {
    if all[0].label == all.last().label {
        all[0].label
    } else {
        all[0].label + " -> "@ + all.last().label
    }
}

/// A path with the name of the root before it.
pub open spec fn full_path(all: Seq<IndexView>, path: Seq<char>) -> Seq<char> {
    if path.len() == 0 {
        all.last().root_name
    } else {
        all.last().root_name + "/"@ + path
    }
}

/// The row of a path, if there is one.
pub open spec fn row_for(all: Seq<IndexView>, path: Seq<char>, metric: SizeMetric) -> Option<
    RowView,
> {
    if path.len() == 0 {
        Some(root_row_of(all, metric))
    } else {
        row_at(all, path, metric)
    }
}

/// The shares of a row lie in their ranges.
pub open spec fn row_sound(row: RowView) -> bool {
    &&& row.timeline.len() > 0
    &&& share_sized(row.latest_local_share)
    &&& row.latest_local_share.exponent <= 13
    &&& !row.latest_local_share.negative
    &&& share_sized(row.baseline_local_share)
    &&& row.baseline_local_share.exponent <= 13
    &&& !row.baseline_local_share.negative
    &&& difference_sized(row.local_share_delta)
    &&& forall|i: int|
        0 <= i < row.timeline.len() ==> {
            &&& share_sized((#[trigger] row.timeline[i]).local_share)
            &&& row.timeline[i].local_share.exponent <= 13
            &&& !row.timeline[i].local_share.negative
            &&& share_sized(row.timeline[i].root_share)
            &&& row.timeline[i].root_share.exponent <= 13
            &&& !row.timeline[i].root_share.negative
        }
}

proof fn lemma_seen_as_step(all: Seq<IndexView>, path: Seq<char>, is_dir: bool, i: int)
    requires
        0 <= i < all.len(),
    ensures
        seen_as(all.take(i + 1), path, is_dir) == (seen_as(all.take(i), path, is_dir) || (
        all[i].entries.contains_key(path) && all[i].entries[path].is_dir == is_dir)),
{
    let more = all.take(i + 1);
    let less = all.take(i);
    if seen_as(less, path, is_dir) {
        let k = choose|k: int|
            0 <= k < less.len() && (#[trigger] less[k]).entries.contains_key(path)
                && less[k].entries[path].is_dir == is_dir;
        assert(more[k] == less[k]);
    }
    if seen_as(more, path, is_dir) {
        let k = choose|k: int|
            0 <= k < more.len() && (#[trigger] more[k]).entries.contains_key(path)
                && more[k].entries[path].is_dir == is_dir;
        if k < i {
            assert(less[k] == more[k]);
        }
    }
    assert(more[i] == all[i]);
}

/// A path with a name is a directory or a file in some snapshot.
proof fn lemma_named_is_seen(all: Seq<IndexView>, path: Seq<char>)
    ensures
        name_at(all, path) is Some ==> seen_as(all, path, true) || seen_as(all, path, false),
    decreases all.len(),
{
    if all.len() > 0 {
        lemma_named_is_seen(all.drop_last(), path);
        assert(all.take(all.len() - 1) =~= all.drop_last());
        assert(all.take(all.len() as int) =~= all);
        lemma_seen_as_step(all, path, true, all.len() - 1);
        lemma_seen_as_step(all, path, false, all.len() - 1);
    }
}

/// Some snapshot has an entry with the name in the directory.
pub open spec fn is_child(all: Seq<IndexView>, parent: Seq<char>, name: Seq<char>) -> bool {
    exists|i: int, path: Seq<char>|
        0 <= i < all.len() && #[trigger] all[i].entries.contains_key(path)
            && all[i].entries[path].parent == Some(parent) && all[i].entries[path].name == name
}

/// The row is that of an entry in the directory, and is to be shown.
pub open spec fn is_child_row(
    all: Seq<IndexView>,
    parent: Seq<char>,
    include_files: bool,
    metric: SizeMetric,
    row: RowView,
) -> bool {
    exists|name: Seq<char>| #[trigger]
        is_child(all, parent, name) && row_at(all, child_path(parent, name), metric) == Some(row)
            && (include_files || opens(row.kind))
}

/// A row comes before another in a sort mode; where nothing else tells them apart, their
/// paths do.
pub open spec fn row_comes_first(sort: SortMode, a: RowView, b: RowView) -> bool {
    row_before(sort, a, lowercase(a.name), b, lowercase(b.name)) || (!row_before(
        sort,
        b,
        lowercase(b.name),
        a,
        lowercase(a.name),
    ) && text_less(a.path, b.path))
}

/// The rows of all entries in a directory that are to be shown, in a sort mode.
#[verifier::opaque]
pub open spec fn lists_children(
    all: Seq<IndexView>,
    parent: Seq<char>,
    include_files: bool,
    metric: SizeMetric,
    sort: SortMode,
    rows: Seq<RowView>,
) -> bool {
    &&& forall|i: int|
        0 <= i < rows.len() ==> is_child_row(
            all,
            parent,
            include_files,
            metric,
            #[trigger] rows[i],
        )
    &&& forall|row: RowView| #[trigger]
        is_child_row(all, parent, include_files, metric, row) ==> rows.contains(row)
    &&& forall|i: int, j: int|
        0 <= i < j < rows.len() ==> row_comes_first(sort, #[trigger] rows[i], #[trigger] rows[j])
}

/// What stands before two texts does not change their order.
proof fn lemma_common_prefix(prefix: Seq<char>, a: Seq<char>, b: Seq<char>)
    ensures
        text_less(prefix + a, prefix + b) == text_less(a, b),
    decreases prefix.len(),
{
    if prefix.len() == 0 {
        assert(prefix + a =~= a);
        assert(prefix + b =~= b);
    } else {
        lemma_common_prefix(prefix.drop_first(), a, b);
        assert((prefix + a).drop_first() =~= prefix.drop_first() + a);
        assert((prefix + b).drop_first() =~= prefix.drop_first() + b);
    }
}

/// The paths in a directory are in the order of the names.
proof fn lemma_child_paths_in_order(parent: Seq<char>, a: Seq<char>, b: Seq<char>)
    ensures
        text_less(child_path(parent, a), child_path(parent, b)) == text_less(a, b),
{
    if parent.len() > 0 {
        lemma_common_prefix(parent + "/"@, a, b);
    }
}

impl Analysis {
    /// The names of the entries in a directory over all snapshots.
    fn child_names(&self, parent_path: &str) -> (r: TextMap<()>)
        ensures
            forall|name: Seq<char>| #[trigger]
                r@.contains_key(name) <==> is_child(self@.all, parent_path@, name),
    {
        let ghost all = self@.all;
        let mut log: Vec<Keyed<()>> = Vec::new();
        let mut i: usize = 0;
        while i < self.snapshots.len()
            invariant
                all == self@.all,
                i <= self.snapshots@.len(),
                forall|k: int|
                    0 <= k < log@.len() ==> is_child(all, parent_path@, (#[trigger] log@[k]).key@),
                forall|k: int, path: Seq<char>|
                    0 <= k < i && #[trigger] all[k].entries.contains_key(path)
                        && all[k].entries[path].parent == Some(parent_path@) ==> has_key(
                        log@,
                        all[k].entries[path].name,
                    ),
            decreases self.snapshots@.len() - i,
        {
            let snapshot = &self.snapshots[i];
            assert(all[i as int] == snapshot@);
            let pairs = snapshot.entries.pairs();
            let mut j: usize = 0;
            while j < pairs.len()
                invariant
                    all == self@.all,
                    i < self.snapshots@.len(),
                    all[i as int] == snapshot@,
                    keys_in_order(pairs@),
                    pairs_map(pairs@) == snapshot.entries@,
                    j <= pairs@.len(),
                    forall|k: int|
                        0 <= k < log@.len() ==> is_child(
                            all,
                            parent_path@,
                            (#[trigger] log@[k]).key@,
                        ),
                    forall|k: int, path: Seq<char>|
                        0 <= k < i && #[trigger] all[k].entries.contains_key(path)
                            && all[k].entries[path].parent == Some(parent_path@) ==> has_key(
                            log@,
                            all[k].entries[path].name,
                        ),
                    forall|k: int|
                        0 <= k < j && (#[trigger] pairs@[k]).value@.parent == Some(parent_path@)
                            ==> has_key(log@, pairs@[k].value@.name),
                decreases pairs@.len() - j,
            {
                let entry = &pairs[j].value;
                proof {
                    lemma_ordered_pair(pairs@, j as int);
                }
                let here = match &entry.parent {
                    Some(parent) => same_text(parent.as_str(), parent_path),
                    None => false,
                };
                if here {
                    let ghost logged = log@;
                    let ghost key = pairs@[j as int].key@;
                    log.push(Keyed { key: copied(entry.name.as_str()), value: () });
                    proof {
                        assert(all[i as int].entries.contains_key(key));
                        assert(is_child(all, parent_path@, entry.name@));
                        assert(log@[logged.len() as int].key@ == entry.name@);
                        assert forall|name: Seq<char>| has_key(logged, name) implies #[trigger] has_key(
                            log@,
                            name,
                        ) by {
                            let k = choose|k: int|
                                0 <= k < logged.len() && (#[trigger] logged[k]).key@ == name;
                            assert(log@[k].key@ == name);
                        }
                    }
                }
                j = j + 1;
            }
            proof {
                assert forall|k: int, path: Seq<char>|
                    0 <= k < i + 1 && #[trigger] all[k].entries.contains_key(path)
                        && all[k].entries[path].parent == Some(parent_path@) implies has_key(
                    log@,
                    all[k].entries[path].name,
                ) by {
                    if k == i {
                        let p = lemma_pairs_map_key(pairs@, path);
                        assert(pairs@[p].value@ == all[k].entries[path]);
                    }
                }
            }
            i = i + 1;
        }
        proof {
            assert forall|name: Seq<char>| #[trigger]
                pairs_map(log@).contains_key(name) <==> is_child(all, parent_path@, name) by {
                if pairs_map(log@).contains_key(name) {
                    let k = lemma_pairs_map_key(log@, name);
                    assert(is_child(all, parent_path@, log@[k].key@));
                }
                if is_child(all, parent_path@, name) {
                    let (k, path) = choose|k: int, path: Seq<char>|
                        0 <= k < all.len() && #[trigger] all[k].entries.contains_key(path)
                            && all[k].entries[path].parent == Some(parent_path@)
                            && all[k].entries[path].name == name;
                    assert(has_key(log@, name));
                    if !pairs_map(log@).contains_key(name) {
                        let p = choose|p: int|
                            0 <= p < log@.len() && (#[trigger] log@[p]).key@ == name;
                        lemma_has_key(log@, p);
                    }
                }
            }
        }
        TextMap::from_pairs(log)
    }

    /// The rows of the entries in a directory, in a sort mode.
    #[verifier::rlimit(60)]
    #[verifier::spinoff_prover]
    pub fn children_of(
        &self,
        parent_path: &str,
        include_files: bool,
        metric: SizeMetric,
        sort: SortMode,
    ) -> (r: Result<Vec<RowData>, AnalysisError>)
        ensures
            r matches Ok(rows) && lists_children(
                self@.all,
                parent_path@,
                include_files,
                metric,
                sort,
                row_views(rows@),
            ) && forall|i: int| 0 <= i < rows@.len() ==> row_sound((#[trigger] rows@[i])@),
    {
        let ghost all = self@.all;
        let names = self.child_names(parent_path);
        let pairs = names.pairs();
        let mut rows: Vec<RowData> = Vec::new();
        let mut i: usize = 0;
        while i < pairs.len()
            invariant
                all == self@.all,
                keys_in_order(pairs@),
                pairs_map(pairs@) == names@,
                forall|name: Seq<char>| #[trigger]
                    names@.contains_key(name) <==> is_child(all, parent_path@, name),
                i <= pairs@.len(),
                forall|k: int|
                    0 <= k < rows@.len() ==> row_sound((#[trigger] rows@[k])@) && is_child_row(
                        all,
                        parent_path@,
                        include_files,
                        metric,
                        rows@[k]@,
                    ),
                forall|k: int|
                    0 <= k < i ==> child_row_kept(
                        all,
                        parent_path@,
                        include_files,
                        metric,
                        (#[trigger] pairs@[k]).key@,
                        row_views(rows@),
                    ),
                forall|j: int, k: int|
                    0 <= j < k < rows@.len() ==> text_less(
                        (#[trigger] rows@[j])@.path,
                        (#[trigger] rows@[k])@.path,
                    ),
                forall|k: int|
                    0 <= k < rows@.len() && i < pairs@.len() ==> text_less(
                        (#[trigger] rows@[k])@.path,
                        child_path(parent_path@, pairs@[i as int].key@),
                    ),
            decreases pairs@.len() - i,
        {
            let name = pairs[i].key.as_str();
            let ghost kept = row_views(rows@);
            proof {
                lemma_ordered_pair(pairs@, i as int);
                assert(is_child(all, parent_path@, name@));
            }
            let path = join_path(parent_path, name);
            match self.build_row(path.as_str(), metric) {
                Some(row) => {
                    if include_files || row.has_children() {
                        let ghost added = row@;
                        assert(is_child_row(all, parent_path@, include_files, metric, added));
                        rows.push(row);
                        assert(row_views(rows@) =~= kept.push(added));
                        assert(row_views(rows@)[kept.len() as int] == added);
                    }
                },
                None => {},
            }
            proof {
                assert forall|k: int| 0 <= k < i + 1 implies child_row_kept(
                    all,
                    parent_path@,
                    include_files,
                    metric,
                    (#[trigger] pairs@[k]).key@,
                    row_views(rows@),
                ) by {
                    if k < i {
                        assert(child_row_kept(
                            all,
                            parent_path@,
                            include_files,
                            metric,
                            pairs@[k].key@,
                            kept,
                        ));
                        lemma_kept_longer(
                            all,
                            parent_path@,
                            include_files,
                            metric,
                            pairs@[k].key@,
                            kept,
                            row_views(rows@),
                        );
                    }
                }
                if i + 1 < pairs@.len() {
                    let here = child_path(parent_path@, name@);
                    let next = child_path(parent_path@, pairs@[i + 1].key@);
                    lemma_child_paths_in_order(parent_path@, name@, pairs@[i + 1].key@);
                    assert forall|k: int| 0 <= k < rows@.len() implies text_less(
                        (#[trigger] rows@[k])@.path,
                        next,
                    ) by {
                        if rows@[k]@.path != here {
                            lemma_text_less_transitive(rows@[k]@.path, here, next);
                        }
                    }
                }
            }
            i = i + 1;
        }
        let ghost base = rows@;
        proof {
            assert(base.len() == rows.len());
            assert forall|row: RowView| #[trigger]
                is_child_row(all, parent_path@, include_files, metric, row) implies row_views(
                base,
            ).contains(row) by {
                let name = choose|name: Seq<char>| #[trigger]
                    is_child(all, parent_path@, name) && row_at(
                        all,
                        child_path(parent_path@, name),
                        metric,
                    ) == Some(row) && (include_files || opens(row.kind));
                assert(names@.contains_key(name));
                let k = lemma_pairs_map_key(pairs@, name);
                assert(child_row_kept(
                    all,
                    parent_path@,
                    include_files,
                    metric,
                    pairs@[k].key@,
                    row_views(base),
                ));
            }
        }
        let sorted = sort_rows(rows, sort);
        proof {
            let places = choose|places: Seq<usize>|
                #![trigger arranged_view(base, places)]
                sorts(sort, row_views(base), lowered_names(row_views(base)), places) && sorted@
                    == arranged_view(base, places);
            lemma_sorted_children(
                all,
                parent_path@,
                include_files,
                metric,
                sort,
                base,
                places,
                sorted@,
            );
        }
        Ok(sorted)
    }
}

/// The row of the entry with the name is among the rows if it is to be shown.
spec fn child_row_kept(
    all: Seq<IndexView>,
    parent: Seq<char>,
    include_files: bool,
    metric: SizeMetric,
    name: Seq<char>,
    rows: Seq<RowView>,
) -> bool {
    match row_at(all, child_path(parent, name), metric) {
        Some(row) => (include_files || opens(row.kind)) ==> rows.contains(row),
        None => true,
    }
}

proof fn lemma_kept_longer(
    all: Seq<IndexView>,
    parent: Seq<char>,
    include_files: bool,
    metric: SizeMetric,
    name: Seq<char>,
    rows: Seq<RowView>,
    more: Seq<RowView>,
)
    requires
        child_row_kept(all, parent, include_files, metric, name, rows),
        rows.is_prefix_of(more),
    ensures
        child_row_kept(all, parent, include_files, metric, name, more),
{
    match row_at(all, child_path(parent, name), metric) {
        Some(row) => {
            if include_files || opens(row.kind) {
                let k = choose|k: int| 0 <= k < rows.len() && rows[k] == row;
                assert(more[k] == row);
            }
        },
        None => {},
    }
}

/// A pair's key is in the map.
proof fn lemma_has_key<V>(pairs: Seq<Keyed<V>>, i: int)
    requires
        0 <= i < pairs.len(),
    ensures
        pairs_map(pairs).contains_key(pairs[i].key@),
    decreases pairs.len(),
{
    if i < pairs.len() - 1 {
        lemma_has_key(pairs.drop_last(), i);
    }
}

/// Rows in the order of their paths list the entries once they are sorted.
proof fn lemma_sorted_children(
    all: Seq<IndexView>,
    parent: Seq<char>,
    include_files: bool,
    metric: SizeMetric,
    sort: SortMode,
    base: Seq<RowData>,
    places: Seq<usize>,
    sorted: Seq<RowData>,
)
    requires
        forall|k: int|
            0 <= k < base.len() ==> row_sound((#[trigger] base[k])@) && is_child_row(
                all,
                parent,
                include_files,
                metric,
                base[k]@,
            ),
        forall|row: RowView| #[trigger]
            is_child_row(all, parent, include_files, metric, row) ==> row_views(base).contains(row),
        forall|j: int, k: int|
            0 <= j < k < base.len() ==> text_less(
                (#[trigger] base[j])@.path,
                (#[trigger] base[k])@.path,
            ),
        sorts(sort, row_views(base), lowered_names(row_views(base)), places),
        sorted == arranged_view(base, places),
        base.len() <= usize::MAX,
    ensures
        lists_children(all, parent, include_files, metric, sort, row_views(sorted)),
        forall|i: int| 0 <= i < sorted.len() ==> row_sound((#[trigger] sorted[i])@),
{
    reveal(lists_children);
    let rows = row_views(sorted);
    let views = row_views(base);
    assert forall|row: RowView| #[trigger]
        is_child_row(all, parent, include_files, metric, row) implies rows.contains(row) by {
        assert(views.contains(row));
        let k = choose|k: int| 0 <= k < views.len() && views[k] == row;
        assert(places.contains(k as usize));
        let x = choose|x: int| 0 <= x < places.len() && places[x] == k as usize;
        assert(rows[x] == row);
    }
    assert forall|i: int, j: int| 0 <= i < j < rows.len() implies row_comes_first(
        sort,
        #[trigger] rows[i],
        #[trigger] rows[j],
    ) by {
        let a = places[i] as int;
        let b = places[j] as int;
        assert(row_precedes(sort, views, lowered_names(views), a, b));
        assert(rows[i] == views[a]);
        assert(rows[j] == views[b]);
        if a < b {
            assert(text_less(base[a]@.path, base[b]@.path));
        }
    }
}

/// No two rows come before each other.
pub proof fn lemma_row_order_asymmetric(sort: SortMode, a: RowView, b: RowView)
    requires
        row_comes_first(sort, a, b),
    ensures
        !row_comes_first(sort, b, a),
{
    let x = lowercase(a.name);
    let y = lowercase(b.name);
    if text_less(x, y) && text_less(y, x) {
        lemma_text_less_transitive(x, y, x);
    }
    lemma_text_less_irreflexive(x);
    if text_less(a.path, b.path) && text_less(b.path, a.path) {
        lemma_text_less_transitive(a.path, b.path, a.path);
    }
    lemma_text_less_irreflexive(a.path);
}

/// There is one way to list the entries in a directory.
pub proof fn law_children_are_determined(
    all: Seq<IndexView>,
    parent: Seq<char>,
    include_files: bool,
    metric: SizeMetric,
    sort: SortMode,
    a: Seq<RowView>,
    b: Seq<RowView>,
)
    requires
        lists_children(all, parent, include_files, metric, sort, a),
        lists_children(all, parent, include_files, metric, sort, b),
    ensures
        a == b,
{
    lemma_same_front(all, parent, include_files, metric, sort, a, b, a.len());
    lemma_same_front(all, parent, include_files, metric, sort, b, a, b.len());
    assert(a =~= b);
}

proof fn lemma_same_front(
    all: Seq<IndexView>,
    parent: Seq<char>,
    include_files: bool,
    metric: SizeMetric,
    sort: SortMode,
    a: Seq<RowView>,
    b: Seq<RowView>,
    n: nat,
)
    requires
        lists_children(all, parent, include_files, metric, sort, a),
        lists_children(all, parent, include_files, metric, sort, b),
        n <= a.len(),
    ensures
        n <= b.len(),
        forall|i: int| 0 <= i < n ==> a[i] == b[i],
    decreases n,
{
    reveal(lists_children);
    if n > 0 {
        lemma_same_front(all, parent, include_files, metric, sort, a, b, (n - 1) as nat);
        let m = n - 1;
        let row = a[m];
        assert(is_child_row(all, parent, include_files, metric, row));
        let k = choose|k: int| 0 <= k < b.len() && b[k] == row;
        if k < m {
            assert(a[k] == row);
            assert(row_comes_first(sort, a[k], a[m]));
            lemma_row_order_asymmetric(sort, a[k], a[m]);
        }
        let other = b[m];
        assert(is_child_row(all, parent, include_files, metric, other));
        let j = choose|j: int| 0 <= j < a.len() && a[j] == other;
        if j < m {
            assert(b[j] == other);
            assert(row_comes_first(sort, b[j], b[m]));
            lemma_row_order_asymmetric(sort, b[j], b[m]);
        }
        if k > m && j > m {
            assert(row_comes_first(sort, b[m], b[k]));
            assert(row_comes_first(sort, a[m], a[j]));
            lemma_row_order_asymmetric(sort, a[m], a[j]);
        }
    }
}

/// Going up from an entry of a directory leads back to the directory.
pub proof fn law_parent_of_child(parent: Seq<char>, name: Seq<char>)
    requires
        name.len() > 0,
        !name.contains('/'),
    ensures
        parent_of(child_path(parent, name)) == Some(parent),
{
    reveal_strlit("/");
    let path = child_path(parent, name);
    lemma_last_place(path, '/');
    let p = last_place(path, '/');
    if parent.len() == 0 {
        if p >= 0 {
            assert(name.contains(name[p]));
        }
        assert(parent =~= seq![]);
    } else {
        assert(path[parent.len() as int] == '/');
        if p > parent.len() {
            assert(path[p] == name[p - parent.len() - 1]);
            assert(name.contains('/'));
        }
        assert(path.take(p) =~= parent);
    }
}

/// A path that is missing from the first snapshot and there in the last is added, one
/// that is there in the first and missing from the last is removed, and one whose size
/// differs between them is never shown as unchanged.
pub proof fn law_change_kinds(all: Seq<IndexView>, path: Seq<char>, metric: SizeMetric)
    requires
        all.len() > 0,
        row_at(all, path, metric) is Some,
    ensures
        ({
            let row = row_at(all, path, metric)->Some_0;
            let first = all[0].entries.contains_key(path);
            let last = all.last().entries.contains_key(path);
            &&& row.change_kind is Added <==> !first && last
            &&& row.change_kind is Removed <==> first && !last
            &&& row.change_kind is Unchanged ==> row.latest_size == row.baseline_size
            &&& row.change_kind is Unchanged ==> row.delta == 0
        }),
{
}

/// The share of a part of the whole lies between zero and one, and that of the whole is
/// one.
pub proof fn law_share_of_a_part(part: u64, total: u64)
    requires
        part <= total,
    ensures
        in_unit(share_of(part, total)),
        total > 0 ==> share_of(total, total) == one(),
{
    if total > 0 {
        let a = whole(part as nat);
        let b = whole(total as nat);
        lemma_integers_in_order(part, total);
        lemma_whole_is_normal(part);
        lemma_whole_is_normal(total);
        lemma_ratio_at_most_one(a, b);
        lemma_ratio_of_equals(b);
    }
}

} // verus!
