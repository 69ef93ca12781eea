//! The index of a snapshot: every path with its entry, and the progress of making it.

use crate::double::{Double, double_of, lemma_exact_integer, lemma_integers_in_order, lemma_normal_form, lemma_ratio_at_most_one, lemma_ratio_of_equals, lemma_ratios_in_order, lemma_steps_in_order, lemma_steps_of_integer, lemma_successor, lemma_sum_is_normal, lemma_sums_in_order, lemma_whole_is_normal, lemma_whole_one, less, limited, negation, product_of, quotient_of, steps, sum_of};
use crate::gdu::{GduDir, GduFile, GduNode, NodeView, SnapshotTree, lemma_dir_view, node_views};
use crate::text::{copied, joined_pair, same_text, view_option};
use vstd::string::StringExecFns;
use crate::text_map::{Keyed, TextMap, pairs_map};
use vstd::arithmetic::power2::pow2;
use vstd::prelude::*;

verus! {

/// Which of the two sizes of an entry counts.
#[derive(Clone, Copy, Debug, PartialEq, Eq, Structural)]
pub enum SizeMetric {
    Disk,
    Apparent,
}

/// The name of a metric.
pub open spec fn metric_label(metric: SizeMetric) -> Seq<char> {
    match metric {
        SizeMetric::Disk => "disk"@,
        SizeMetric::Apparent => "apparent"@,
    }
}

impl SizeMetric {
    /// The name of the metric.
    pub fn label(self) -> (r: &'static str)
        ensures
            r@ == metric_label(self),
    {
        match self {
            SizeMetric::Disk => "disk",
            SizeMetric::Apparent => "apparent",
        }
    }
}

/// The two sizes of an entry.
#[derive(Clone, Copy, Debug, Default, PartialEq, Eq, Structural)]
pub struct SizePair {
    pub disk: u64,
    pub apparent: u64,
}

/// The size that a metric picks.
pub open spec fn size_value(sizes: SizePair, metric: SizeMetric) -> u64 {
    match metric {
        SizeMetric::Disk => sizes.disk,
        SizeMetric::Apparent => sizes.apparent,
    }
}

impl SizePair {
    /// The size that a metric picks.
    pub fn value(self, metric: SizeMetric) -> (r: u64)
        ensures
            r == size_value(self, metric),
    {
        match metric {
            SizeMetric::Disk => self.disk,
            SizeMetric::Apparent => self.apparent,
        }
    }
}

/// The sum of two sizes, or the greatest size where the sum is greater.
pub open spec fn capped_sum(a: u64, b: u64) -> u64 {
    if a + b > u64::MAX {
        u64::MAX
    } else {
        (a + b) as u64
    }
}

/// Both sizes added.
pub open spec fn pair_sum(a: SizePair, b: SizePair) -> SizePair {
    SizePair { disk: capped_sum(a.disk, b.disk), apparent: capped_sum(a.apparent, b.apparent) }
}

/// The sizes of a file, or of all that is in a directory.
pub open spec fn sizes_of(node: NodeView) -> SizePair
    decreases node,
{
    match node {
        NodeView::File { apparent_size, disk_size, .. } => SizePair {
            disk: disk_size,
            apparent: apparent_size,
        },
        NodeView::Dir { children, .. } => total_sizes(children),
    }
}

/// The sizes of some nodes together.
pub open spec fn total_sizes(nodes: Seq<NodeView>) -> SizePair
    decreases nodes,
{
    if nodes.len() == 0 {
        SizePair { disk: 0, apparent: 0 }
    } else {
        pair_sum(total_sizes(nodes.drop_last()), sizes_of(nodes.last()))
    }
}

/// The path of an entry in a directory.
pub open spec fn child_path(parent: Seq<char>, name: Seq<char>) -> Seq<char> {
    if parent.len() == 0 {
        name
    } else {
        parent + "/"@ + name
    }
}

/// The path of an entry in a directory.
pub fn join_path(parent: &str, name: &str) -> (r: String)
    ensures
        r@ == child_path(parent@, name@),
{
    if parent.is_empty() {
        copied(name)
    } else {
        joined_pair(joined_pair(parent, "/").as_str(), name)
    }
}

/// What is known of an entry.
pub struct EntryView {
    pub name: Seq<char>,
    pub parent: Option<Seq<char>>,
    pub is_dir: bool,
    pub sizes: SizePair,
}

/// An entry of a snapshot, under its path.
#[derive(Clone, Debug)]
pub struct IndexedEntry {
    pub name: String,
    pub parent: Option<String>,
    pub is_dir: bool,
    pub sizes: SizePair,
}

impl IndexedEntry {
    /// What is known of the entry.
    pub open spec fn view(&self) -> EntryView {
        EntryView {
            name: self.name@,
            parent: view_option(self.parent),
            is_dir: self.is_dir,
            sizes: self.sizes,
        }
    }
}

/// The entries of a node under a path, in the order in which they are found: what is
/// in a directory comes before the directory.
pub open spec fn entries_of(
    node: NodeView,
    path: Seq<char>,
    parent: Option<Seq<char>>,
) -> Seq<(Seq<char>, EntryView)>
    decreases node,
{
    let entry = EntryView {
        name: node.name(),
        parent,
        is_dir: node is Dir,
        sizes: sizes_of(node),
    };
    match node {
        NodeView::File { .. } => seq![(path, entry)],
        NodeView::Dir { children, .. } => entries_in(children, path).push((path, entry)),
    }
}

/// The entries of the nodes in a directory.
pub open spec fn entries_in(children: Seq<NodeView>, path: Seq<char>) -> Seq<
    (Seq<char>, EntryView),
>
    decreases children,
{
    if children.len() == 0 {
        seq![]
    } else {
        entries_in(children.drop_last(), path) + entries_of(
            children.last(),
            child_path(path, children.last().name()),
            Some(path),
        )
    }
}

/// The map of entries found one after the other.
pub open spec fn entry_map(found: Seq<(Seq<char>, EntryView)>) -> Map<Seq<char>, EntryView>
    decreases found.len(),
{
    if found.len() == 0 {
        Map::empty()
    } else {
        entry_map(found.drop_last()).insert(found.last().0, found.last().1)
    }
}

/// What a snapshot holds.
pub struct TreeView {
    pub label: Seq<char>,
    pub exported_at: Option<u64>,
    pub root: NodeView,
}

impl SnapshotTree {
    /// What the snapshot holds.
    pub open spec fn view(&self) -> TreeView {
        TreeView { label: self.label@, exported_at: self.exported_at, root: self.root@ }
    }
}

/// What the index of a snapshot holds.
#[verifier::ext_equal]
pub struct IndexView {
    pub label: Seq<char>,
    pub root_name: Seq<char>,
    pub entries: Map<Seq<char>, EntryView>,
}

impl IndexView {
    /// The entry with a path, if there is one.
    pub open spec fn entry_at(self, path: Seq<char>) -> Option<EntryView> {
        if self.entries.contains_key(path) {
            Some(self.entries[path])
        } else {
            None
        }
    }
}

/// The index of a snapshot.
pub open spec fn index_of(tree: TreeView) -> IndexView {
    IndexView {
        label: tree.label,
        root_name: tree.root.name(),
        entries: entry_map(entries_of(tree.root, seq![], None)),
    }
}

/// The entries of a map, as views.
pub open spec fn entry_views(map: Map<Seq<char>, IndexedEntry>) -> Map<Seq<char>, EntryView> {
    map.map_values(|entry: IndexedEntry| entry@)
}

/// Every path of a snapshot with its entry.
#[derive(Debug)]
pub struct SnapshotIndex {
    pub label: String,
    pub root_name: String,
    pub entries: TextMap<IndexedEntry>,
}

/// The root of a snapshot is indexed under the empty path.
pub proof fn law_root_is_indexed(tree: TreeView)
    ensures
        index_of(tree).entries.contains_key(seq![]),
        index_of(tree).entries[seq![]] == (EntryView {
            name: tree.root.name(),
            parent: None,
            is_dir: tree.root is Dir,
            sizes: sizes_of(tree.root),
        }),
{
    let found = entries_of(tree.root, seq![], None);
    assert(found.last().0 == Seq::<char>::empty());
}

/// What is reported of the progress.
pub struct ProgressView {
    pub snapshot_index: usize,
    pub snapshot_total: usize,
    pub snapshot_label: Seq<char>,
    pub snapshot_progress: Double,
    pub current_path: Seq<char>,
}

/// How far the indexing of the snapshots has come.
#[derive(Clone, Debug)]
pub struct IndexProgress<'a> {
    pub snapshot_index: usize,
    pub snapshot_total: usize,
    pub snapshot_label: &'a str,
    pub snapshot_progress: Double,
    pub current_path: String,
}

/// The share of the snapshots that has been indexed.
pub open spec fn overall(progress: ProgressView) -> Double {
    let done = if progress.snapshot_index == 0 { 0 } else { progress.snapshot_index - 1 };
    let total = if progress.snapshot_total == 0 { 1nat } else { progress.snapshot_total as nat };
    quotient_of(sum_of(whole(done as nat), progress.snapshot_progress), whole(total))
}

/// The number nearest to an integer.
pub open spec fn whole(n: nat) -> Double {
    double_of(false, n, 1, 0)
}

impl<'a> IndexProgress<'a> {
    /// What is reported.
    pub open spec fn view(&self) -> ProgressView {
        ProgressView {
            snapshot_index: self.snapshot_index,
            snapshot_total: self.snapshot_total,
            snapshot_label: self.snapshot_label@,
            snapshot_progress: self.snapshot_progress,
            current_path: self.current_path@,
        }
    }

    /// The share of the snapshots that has been indexed.
    pub fn overall_progress(&self) -> (r: Double)
        requires
            self.snapshot_progress.wf(),
            -2000 <= self.snapshot_progress.exponent <= 2000,
        ensures
            r == overall(self@),
            r.wf(),
    {
        let done: usize = if self.snapshot_index == 0 {
            0
        } else {
            self.snapshot_index - 1
        };
        let total: usize = if self.snapshot_total == 0 {
            1
        } else {
            self.snapshot_total
        };
        let sum = Double::from_u64(done as u64).plus(self.snapshot_progress);
        sum.divided_by(Double::from_u64(total as u64))
    }
}

/// Where progress is reported.
pub trait ProgressSink: Sized {
    /// What has been reported.
    open spec fn seen(&self) -> Seq<ProgressView> {
        arbitrary()
    }

    /// Takes a report.
    fn report(&mut self, progress: IndexProgress<'_>)
        requires
            is_share(progress.snapshot_progress),
        ensures
            final(self).seen() == old(self).seen().push(progress@),
    ;
}

/// Takes reports and does nothing with them.
pub struct NoProgress {
    reports: Ghost<Seq<ProgressView>>,
}

impl NoProgress {
    /// Nothing has been reported.
    pub fn new() -> (r: NoProgress)
        ensures
            r.seen().len() == 0,
    {
        NoProgress { reports: Ghost(Seq::empty()) }
    }
}

impl ProgressSink for NoProgress {
    closed spec fn seen(&self) -> Seq<ProgressView> {
        self.reports@
    }

    fn report(&mut self, progress: IndexProgress<'_>) {
        self.reports = Ghost(self.reports@.push(progress@));
    }
}

/// How many of the nodes are directories.
pub open spec fn dir_count(nodes: Seq<NodeView>) -> nat
    decreases nodes.len(),
{
    if nodes.len() == 0 {
        0
    } else {
        dir_count(nodes.drop_last()) + if nodes.last() is Dir {
            1nat
        } else {
            0
        }
    }
}

/// How deep the progress of a directory is split among those in it.
pub const SPLIT_DEPTH: u8 = 3;

/// The depth of what is in a directory.
pub open spec fn next_depth(depth: u8) -> u8 {
    if depth < SPLIT_DEPTH {
        (depth + 1) as u8
    } else {
        depth
    }
}

/// The stretch of the progress that belongs to one of the directories in a directory.
pub open spec fn child_stretch(
    depth: u8,
    start: Double,
    end: Double,
    count: nat,
    index: nat,
) -> (Double, Double) {
    if depth < SPLIT_DEPTH {
        let span = quotient_of(sum_of(end, negation(start)), whole(count));
        let child_start = sum_of(start, product_of(span, whole(index)));
        (child_start, sum_of(child_start, span))
    } else {
        (start, end)
    }
}

/// The number one.
pub open spec fn one() -> Double {
    Double { negative: false, significand: 0x10_0000_0000_0000, exponent: -52i32 }
}

/// The number zero.
pub open spec fn zero() -> Double {
    Double { negative: false, significand: 0, exponent: 0 }
}

/// A number brought between zero and one.
pub open spec fn between_zero_and_one(x: Double) -> Double {
    if less(x, zero()) {
        zero()
    } else if less(one(), x) {
        one()
    } else {
        x
    }
}

/// A number from zero to one.
pub open spec fn in_unit(x: Double) -> bool {
    !less(x, zero()) && !less(one(), x)
}

/// A number from zero to one that any arithmetic can go on with.
pub open spec fn is_share(x: Double) -> bool {
    x.wf() && -2000 <= x.exponent <= 0 && in_unit(x)
}

/// Where the progress stands once each directory is done.
pub open spec fn finish_points(
    node: NodeView,
    path: Seq<char>,
    depth: u8,
    start: Double,
    end: Double,
) -> Seq<(Seq<char>, Double)>
    decreases node,
{
    match node {
        NodeView::File { .. } => seq![],
        NodeView::Dir { children, .. } => finish_points_in(
            children,
            path,
            depth,
            start,
            end,
            dir_count(children),
        ).push((path, between_zero_and_one(end))),
    }
}

/// Where the progress stands once each directory in a directory is done.
pub open spec fn finish_points_in(
    children: Seq<NodeView>,
    path: Seq<char>,
    depth: u8,
    start: Double,
    end: Double,
    count: nat,
) -> Seq<(Seq<char>, Double)>
    decreases children,
{
    if children.len() == 0 {
        seq![]
    } else {
        let stretch = child_stretch(depth, start, end, count, dir_count(children.drop_last()));
        finish_points_in(children.drop_last(), path, depth, start, end, count) + finish_points(
            children.last(),
            child_path(path, children.last().name()),
            next_depth(depth),
            stretch.0,
            stretch.1,
        )
    }
}

/// The map of points put in one after the other.
pub open spec fn point_map(points: Seq<(Seq<char>, Double)>) -> Map<Seq<char>, Double>
    decreases points.len(),
{
    if points.len() == 0 {
        Map::empty()
    } else {
        point_map(points.drop_last()).insert(points.last().0, points.last().1)
    }
}

/// Where the progress stands once the directory with the path is done.
pub open spec fn finish_point(points: Map<Seq<char>, Double>, path: Seq<char>) -> Double {
    if points.contains_key(path) {
        points[path]
    } else {
        one()
    }
}

/// The path that is shown for a directory.
pub open spec fn shown_path(path: Seq<char>, name: Seq<char>) -> Seq<char> {
    if path.len() == 0 {
        name
    } else {
        path
    }
}

/// What is reported while a node is indexed: each directory, once it is done.
pub open spec fn reports_of(
    node: NodeView,
    path: Seq<char>,
    points: Map<Seq<char>, Double>,
) -> Seq<(Double, Seq<char>)>
    decreases node,
{
    match node {
        NodeView::File { .. } => seq![],
        NodeView::Dir { name, children } => reports_in(children, path, points).push(
            (finish_point(points, path), shown_path(path, name)),
        ),
    }
}

/// What is reported while the nodes in a directory are indexed.
pub open spec fn reports_in(
    children: Seq<NodeView>,
    path: Seq<char>,
    points: Map<Seq<char>, Double>,
) -> Seq<(Double, Seq<char>)>
    decreases children,
{
    if children.len() == 0 {
        seq![]
    } else {
        reports_in(children.drop_last(), path, points) + reports_of(
            children.last(),
            child_path(path, children.last().name()),
            points,
        )
    }
}

/// Reports about one of the snapshots.
pub open spec fn labelled(
    reports: Seq<(Double, Seq<char>)>,
    index: usize,
    total: usize,
    label: Seq<char>,
) -> Seq<ProgressView> {
    Seq::new(
        reports.len(),
        |i: int|
            ProgressView {
                snapshot_index: index,
                snapshot_total: total,
                snapshot_label: label,
                snapshot_progress: reports[i].0,
                current_path: reports[i].1,
            },
    )
}

/// What is reported while a snapshot is indexed.
pub open spec fn snapshot_reports(tree: TreeView, index: usize, total: usize) -> Seq<
    ProgressView,
> {
    let points = point_map(finish_points(tree.root, seq![], 0, zero(), one()));
    labelled(
        reports_of(tree.root, seq![], points).push((one(), tree.root.name())),
        index,
        total,
        tree.label,
    )
}

/// The sum of two sizes, or the greatest size where the sum is greater.
fn add_sizes(a: u64, b: u64) -> (r: u64)
    ensures
        r == capped_sum(a, b),
{
    if a > u64::MAX - b {
        u64::MAX
    } else {
        a + b
    }
}

/// How many of the nodes are directories.
fn count_dirs(nodes: &Vec<GduNode>) -> (r: u64)
    ensures
        r == dir_count(node_views(nodes@)),
{
    let ghost all = node_views(nodes@);
    let mut count: u64 = 0;
    let mut i: usize = 0;
    assert(all.take(0) =~= seq![]);
    while i < nodes.len()
        invariant
            all == node_views(nodes@),
            i <= nodes@.len(),
            count <= i,
            count == dir_count(all.take(i as int)),
        decreases nodes@.len() - i,
    {
        proof {
            assert(all.take(i + 1).drop_last() =~= all.take(i as int));
            assert(all.take(i + 1).last() == nodes@[i as int]@);
        }
        if nodes[i].is_dir() {
            count = count + 1;
        }
        i = i + 1;
    }
    assert(all.take(i as int) =~= all);
    count
}

/// A number that any splitting down to a depth can give.
spec fn tame(x: Double, depth: u8) -> bool {
    &&& x.wf()
    &&& -60 - 300 * depth <= x.exponent <= 60 + 300 * depth
}

/// The points of a log, as views.
spec fn point_log(log: Seq<Keyed<Double>>) -> Seq<(Seq<char>, Double)> {
    log.map_values(|point: Keyed<Double>| (point.key@, point.value))
}

/// Every point of a log is a share.
spec fn shares(log: Seq<Keyed<Double>>) -> bool {
    forall|i: int| 0 <= i < log.len() ==> is_share((#[trigger] log[i]).value)
}

/// Every point of a map is a share.
spec fn share_map(points: Map<Seq<char>, Double>) -> bool {
    forall|path: Seq<char>| points.contains_key(path) ==> is_share(#[trigger] points[path])
}

proof fn lemma_share_map(log: Seq<Keyed<Double>>)
    requires
        shares(log),
    ensures
        share_map(pairs_map(log)),
    decreases log.len(),
{
    if log.len() > 0 {
        assert(is_share(log.last().value));
        assert forall|i: int| 0 <= i < log.drop_last().len() implies is_share(
            (#[trigger] log.drop_last()[i]).value,
        ) by {
            assert(log.drop_last()[i] == log[i]);
        }
        lemma_share_map(log.drop_last());
    }
}

proof fn lemma_point_log(log: Seq<Keyed<Double>>)
    ensures
        pairs_map(log) == point_map(point_log(log)),
    decreases log.len(),
{
    if log.len() > 0 {
        lemma_point_log(log.drop_last());
        assert(point_log(log).drop_last() =~= point_log(log.drop_last()));
    }
}

/// The number brought between zero and one.
fn clamp_to_unit(x: Double) -> (r: Double)
    requires
        x.wf(),
        -2000 <= x.exponent,
    ensures
        r == between_zero_and_one(x),
        is_share(r),
{
    if x.less_than(Double::zero()) {
        Double::zero()
    } else if Double::one().less_than(x) {
        Double::one()
    } else {
        x
    }
}

/// The stretch of the progress that belongs to one of the directories in a directory.
fn split_stretch(depth: u8, start: Double, end: Double, count: u64, index: u64) -> (r: (
    Double,
    Double,
))
    requires
        depth <= SPLIT_DEPTH,
        tame(start, depth),
        tame(end, depth),
        count > 0,
    ensures
        r == child_stretch(depth, start, end, count as nat, index as nat),
        tame(r.0, next_depth(depth)),
        tame(r.1, next_depth(depth)),
{
    if depth < SPLIT_DEPTH {
        let span = end.minus(start).divided_by(Double::from_u64(count));
        let child_start = start.plus(span.times(Double::from_u64(index)));
        let child_end = child_start.plus(span);
        (child_start, child_end)
    } else {
        (start, end)
    }
}

/// Finds where the progress stands once each directory is done.
fn assign_finish_points(
    node: &GduNode,
    path: String,
    depth: u8,
    start: Double,
    end: Double,
    log: &mut Vec<Keyed<Double>>,
)
    requires
        depth <= SPLIT_DEPTH,
        tame(start, depth),
        tame(end, depth),
        shares(old(log)@),
    ensures
        shares(final(log)@),
        point_log(final(log)@) == point_log(old(log)@) + finish_points(
            node@,
            path@,
            depth,
            start,
            end,
        ),
    decreases node,
{
    let ghost before = point_log(log@);
    match node {
        GduNode::File(_) => {
            assert(point_log(log@) =~= before + finish_points(node@, path@, depth, start, end));
        },
        GduNode::Dir(dir) => {
            proof {
                lemma_dir_view(*dir);
            }
            let ghost all = node_views(dir.children@);
            let count: u64 = count_dirs(&dir.children);
            let mut index: u64 = 0;
            let mut i: usize = 0;
            proof {
                assert(all.take(0) =~= seq![]);
                assert(point_log(log@) =~= before + finish_points_in(
                    all.take(0),
                    path@,
                    depth,
                    start,
                    end,
                    count as nat,
                ));
            }
            while i < dir.children.len()
                invariant
                    *node == GduNode::Dir(*dir),
                    all == node_views(dir.children@),
                    count == dir_count(all),
                    index == dir_count(all.take(i as int)),
                    index <= i <= dir.children@.len(),
                    depth <= SPLIT_DEPTH,
                    tame(start, depth),
                    tame(end, depth),
                    shares(log@),
                    point_log(log@) == before + finish_points_in(
                        all.take(i as int),
                        path@,
                        depth,
                        start,
                        end,
                        count as nat,
                    ),
                decreases dir.children@.len() - i,
            {
                let child = &dir.children[i];
                proof {
                    assert(all.take(i + 1).drop_last() =~= all.take(i as int));
                    assert(all.take(i + 1).last() == child@);
                    assert(decreases_to!(*node => node->Dir_0.children@[i as int]));
                }
                let ghost so_far = finish_points_in(
                    all.take(i as int),
                    path@,
                    depth,
                    start,
                    end,
                    count as nat,
                );
                let ghost stretch_of_child = child_stretch(
                    depth,
                    start,
                    end,
                    count as nat,
                    index as nat,
                );
                let ghost added = finish_points(
                    child@,
                    child_path(path@, child@.name()),
                    next_depth(depth),
                    stretch_of_child.0,
                    stretch_of_child.1,
                );
                assert(finish_points_in(all.take(i + 1), path@, depth, start, end, count as nat)
                    == so_far + added);
                if child.is_dir() {
                    proof {
                        lemma_dir_count_grows(all, i + 1);
                    }
                    let stretch = split_stretch(depth, start, end, count, index);
                    let below = join_path(path.as_str(), child.name());
                    assign_finish_points(
                        child,
                        below,
                        if depth < SPLIT_DEPTH {
                            depth + 1
                        } else {
                            depth
                        },
                        stretch.0,
                        stretch.1,
                        log,
                    );
                    index = index + 1;
                }
                i = i + 1;
                assert(point_log(log@) =~= before + (so_far + added));
            }
            assert(all.take(i as int) =~= all);
            let ghost logged = log@;
            let point = clamp_to_unit(end);
            let ghost key = path@;
            log.push(Keyed { key: path, value: point });
            proof {
                assert(point_log(log@) =~= point_log(logged).push((key, point)));
                assert(point_log(log@) =~= before + finish_points(node@, key, depth, start, end));
            }
        },
    }
}

proof fn lemma_dir_count_grows(nodes: Seq<NodeView>, i: int)
    requires
        0 <= i <= nodes.len(),
    ensures
        dir_count(nodes.take(i)) <= dir_count(nodes),
    decreases nodes.len() - i,
{
    if i < nodes.len() {
        assert(nodes.take(i + 1).drop_last() =~= nodes.take(i));
        lemma_dir_count_grows(nodes, i + 1);
    } else {
        assert(nodes.take(i) =~= nodes);
    }
}

/// Where the progress stands once each directory is done.
struct ProgressTracker {
    finish_points: TextMap<Double>,
}

impl ProgressTracker {
    /// The points for a tree.
    fn new(root: &GduNode) -> (r: ProgressTracker)
        ensures
            r.finish_points@ == point_map(finish_points(root@, seq![], 0, zero(), one())),
            share_map(r.finish_points@),
    {
        let mut log: Vec<Keyed<Double>> = Vec::new();
        assign_finish_points(root, String::new(), 0, Double::zero(), Double::one(), &mut log);
        proof {
            assert(Seq::<char>::empty() =~= seq![]);
            assert(point_log(log@) =~= finish_points(root@, seq![], 0, zero(), one()));
            lemma_point_log(log@);
            lemma_share_map(log@);
        }
        ProgressTracker { finish_points: TextMap::from_pairs(log) }
    }

    /// Where the progress stands once the directory with the path is done.
    fn finish_progress(&self, path: &str) -> (r: Double)
        requires
            share_map(self.finish_points@),
        ensures
            is_share(r),
            r == finish_point(self.finish_points@, path@),
    {
        match self.finish_points.get(path) {
            Some(point) => *point,
            None => Double::one(),
        }
    }
}

/// The path that is shown for a directory.
fn display_progress_path(path: &str, fallback: &str) -> (r: String)
    ensures
        r@ == shown_path(path@, fallback@),
{
    if path.is_empty() {
        copied(fallback)
    } else {
        copied(path)
    }
}

/// The entries of a log, as views.
spec fn entry_log(log: Seq<Keyed<IndexedEntry>>) -> Seq<(Seq<char>, EntryView)> {
    log.map_values(|entry: Keyed<IndexedEntry>| (entry.key@, entry.value@))
}

proof fn lemma_entry_log(log: Seq<Keyed<IndexedEntry>>)
    ensures
        entry_views(pairs_map(log)) == entry_map(entry_log(log)),
    decreases log.len(),
{
    if log.len() > 0 {
        lemma_entry_log(log.drop_last());
        assert(entry_log(log).drop_last() =~= entry_log(log.drop_last()));
        assert(entry_views(pairs_map(log)) =~= entry_views(pairs_map(log.drop_last())).insert(
            log.last().key@,
            log.last().value@,
        ));
    } else {
        assert(entry_views(pairs_map(log)) =~= Map::empty());
    }
}

/// Which of the snapshots is being indexed.
struct Place<'a> {
    index: usize,
    total: usize,
    label: &'a str,
}

/// Finds the entries of a node and the total of its sizes, and reports each
/// directory once it is done.
fn flatten_node<S: ProgressSink>(
    node: &GduNode,
    path: String,
    parent: Option<String>,
    log: &mut Vec<Keyed<IndexedEntry>>,
    tracker: &ProgressTracker,
    place: &Place<'_>,
    sink: &mut S,
) -> (r: SizePair)
    requires
        share_map(tracker.finish_points@),
    ensures
        r == sizes_of(node@),
        entry_log(final(log)@) == entry_log(old(log)@) + entries_of(
            node@,
            path@,
            view_option(parent),
        ),
        final(sink).seen() == old(sink).seen() + labelled(
            reports_of(node@, path@, tracker.finish_points@),
            place.index,
            place.total,
            place.label@,
        ),
    decreases node,
{
    let ghost before = entry_log(log@);
    let ghost seen_before = sink.seen();
    let ghost points = tracker.finish_points@;
    let ghost above = view_option(parent);
    match node {
        GduNode::File(file) => {
            let sizes = SizePair { disk: file.disk_size, apparent: file.apparent_size };
            let ghost logged = log@;
            let ghost key = path@;
            let entry = IndexedEntry { name: copied(file.name.as_str()), parent, is_dir: false, sizes };
            let ghost shown = entry@;
            log.push(Keyed { key: path, value: entry });
            proof {
                assert(entry_log(log@) =~= entry_log(logged).push((key, shown)));
                assert(entry_log(log@) =~= before + entries_of(node@, key, above));
                assert(sink.seen() =~= seen_before + labelled(
                    reports_of(node@, key, points),
                    place.index,
                    place.total,
                    place.label@,
                ));
            }
            sizes
        },
        GduNode::Dir(dir) => {
            proof {
                lemma_dir_view(*dir);
            }
            let ghost all = node_views(dir.children@);
            let mut total = SizePair { disk: 0, apparent: 0 };
            let mut i: usize = 0;
            proof {
                assert(all.take(0) =~= seq![]);
                assert(entry_log(log@) =~= before + entries_in(all.take(0), path@));
                assert(sink.seen() =~= seen_before + labelled(
                    reports_in(all.take(0), path@, points),
                    place.index,
                    place.total,
                    place.label@,
                ));
            }
            while i < dir.children.len()
                invariant
                    *node == GduNode::Dir(*dir),
                    all == node_views(dir.children@),
                    points == tracker.finish_points@,
                    share_map(points),
                    i <= dir.children@.len(),
                    total == total_sizes(all.take(i as int)),
                    entry_log(log@) == before + entries_in(all.take(i as int), path@),
                    sink.seen() == seen_before + labelled(
                        reports_in(all.take(i as int), path@, points),
                        place.index,
                        place.total,
                        place.label@,
                    ),
                decreases dir.children@.len() - i,
            {
                let child = &dir.children[i];
                proof {
                    assert(all.take(i + 1).drop_last() =~= all.take(i as int));
                    assert(all.take(i + 1).last() == child@);
                    assert(decreases_to!(*node => node->Dir_0.children@[i as int]));
                }
                let below = join_path(path.as_str(), child.name());
                let sizes = flatten_node(
                    child,
                    below,
                    Some(copied(path.as_str())),
                    log,
                    tracker,
                    place,
                    sink,
                );
                total =
                SizePair {
                    disk: add_sizes(total.disk, sizes.disk),
                    apparent: add_sizes(total.apparent, sizes.apparent),
                };
                i = i + 1;
                proof {
                    assert(entry_log(log@) =~= before + entries_in(all.take(i as int), path@));
                    assert(sink.seen() =~= seen_before + labelled(
                        reports_in(all.take(i as int), path@, points),
                        place.index,
                        place.total,
                        place.label@,
                    ));
                }
            }
            assert(all.take(i as int) =~= all);
            let ghost logged = log@;
            let ghost key = path@;
            let progress = tracker.finish_progress(path.as_str());
            let current_path = display_progress_path(path.as_str(), dir.name.as_str());
            let entry = IndexedEntry {
                name: copied(dir.name.as_str()),
                parent,
                is_dir: true,
                sizes: total,
            };
            let ghost shown = entry@;
            log.push(Keyed { key: path, value: entry });
            sink.report(
                IndexProgress {
                    snapshot_index: place.index,
                    snapshot_total: place.total,
                    snapshot_label: place.label,
                    snapshot_progress: progress,
                    current_path,
                },
            );
            proof {
                assert(entry_log(log@) =~= entry_log(logged).push((key, shown)));
                assert(entry_log(log@) =~= before + entries_of(node@, key, above));
                assert(sink.seen() =~= seen_before + labelled(
                    reports_of(node@, key, points),
                    place.index,
                    place.total,
                    place.label@,
                ));
            }
            total
        },
    }
}

/// What is wrong with a set of snapshots, or with a question about it.
#[derive(Debug)]
pub enum AnalysisError {
    TooFewSnapshots,
    DifferentRoots {
        first_label: String,
        first_root: String,
        label: String,
        root: String,
    },
    MissingRoot { label: String },
    UnknownPath { path: String },
}

/// What is wrong, as views.
pub enum AnalysisErrorView {
    TooFewSnapshots,
    DifferentRoots {
        first_label: Seq<char>,
        first_root: Seq<char>,
        label: Seq<char>,
        root: Seq<char>,
    },
    MissingRoot { label: Seq<char> },
    UnknownPath { path: Seq<char> },
}

/// The message for an error.
pub open spec fn analysis_message(error: AnalysisErrorView) -> Seq<char> {
    match error {
        AnalysisErrorView::TooFewSnapshots => "please provide at least two gdu export files"@,
        AnalysisErrorView::DifferentRoots { first_label, first_root, label, root } =>
            "cannot compare snapshots with different roots: "@ + first_label + " is "@ + first_root
                + ", but "@ + label + " is "@ + root,
        AnalysisErrorView::MissingRoot { label } => "snapshot "@ + label
            + " does not have a root node"@,
        AnalysisErrorView::UnknownPath { path } => "path "@ + path
            + " does not exist in the snapshot set"@,
    }
}

impl AnalysisError {
    /// What is wrong.
    pub open spec fn view(&self) -> AnalysisErrorView {
        match *self {
            AnalysisError::TooFewSnapshots => AnalysisErrorView::TooFewSnapshots,
            AnalysisError::DifferentRoots { first_label, first_root, label, root } =>
                AnalysisErrorView::DifferentRoots {
                    first_label: first_label@,
                    first_root: first_root@,
                    label: label@,
                    root: root@,
                },
            AnalysisError::MissingRoot { label } => AnalysisErrorView::MissingRoot { label: label@ },
            AnalysisError::UnknownPath { path } => AnalysisErrorView::UnknownPath { path: path@ },
        }
    }

    /// The message for the user.
    pub fn message(&self) -> (r: String)
        ensures
            r@ == analysis_message(self@),
    {
        match self {
            AnalysisError::TooFewSnapshots => copied("please provide at least two gdu export files"),
            AnalysisError::DifferentRoots { first_label, first_root, label, root } => {
                let mut text = copied("cannot compare snapshots with different roots: ");
                text.append(first_label.as_str());
                text.append(" is ");
                text.append(first_root.as_str());
                text.append(", but ");
                text.append(label.as_str());
                text.append(" is ");
                text.append(root.as_str());
                text
            },
            AnalysisError::MissingRoot { label } => {
                let mut text = copied("snapshot ");
                text.append(label.as_str());
                text.append(" does not have a root node");
                text
            },
            AnalysisError::UnknownPath { path } => {
                let mut text = copied("path ");
                text.append(path.as_str());
                text.append(" does not exist in the snapshot set");
                text
            },
        }
    }
}

impl SnapshotIndex {
    /// What the index holds.
    pub open spec fn view(&self) -> IndexView {
        IndexView {
            label: self.label@,
            root_name: self.root_name@,
            entries: entry_views(self.entries@),
        }
    }

    /// The sizes of the root.
    pub fn root_sizes(&self) -> (r: Result<SizePair, AnalysisError>)
        ensures
            match r {
                Ok(sizes) => self@.entries.contains_key(seq![]) && sizes
                    == self@.entries[seq![]].sizes,
                Err(error) => !self@.entries.contains_key(seq![]) && error@
                    == (AnalysisErrorView::MissingRoot { label: self.label@ }),
            },
    {
        proof {
            reveal_strlit("");
            assert(""@ =~= seq![]);
        }
        match self.entries.get("") {
            Some(entry) => Ok(entry.sizes),
            None => Err(AnalysisError::MissingRoot { label: copied(self.label.as_str()) }),
        }
    }

    /// The index of the snapshot that is number `index` of `total`.
    pub fn from_snapshot<S: ProgressSink>(
        snapshot: &SnapshotTree,
        index: usize,
        total: usize,
        sink: &mut S,
    ) -> (r: SnapshotIndex)
        ensures
            r@ == index_of(snapshot@),
            final(sink).seen() == old(sink).seen() + snapshot_reports(snapshot@, index, total),
            forall|i: int|
                0 <= i < snapshot_reports(snapshot@, index, total).len() ==> is_share(
                    (#[trigger] snapshot_reports(snapshot@, index, total)[i]).snapshot_progress,
                ),
    {
        let ghost tree = snapshot@;
        let ghost seen_before = sink.seen();
        let tracker = ProgressTracker::new(&snapshot.root);
        let mut log: Vec<Keyed<IndexedEntry>> = Vec::new();
        let place = Place { index, total, label: snapshot.label.as_str() };
        let _ = flatten_node(
            &snapshot.root,
            String::new(),
            None,
            &mut log,
            &tracker,
            &place,
            sink,
        );
        sink.report(
            IndexProgress {
                snapshot_index: index,
                snapshot_total: total,
                snapshot_label: snapshot.label.as_str(),
                snapshot_progress: Double::one(),
                current_path: copied(snapshot.root.name()),
            },
        );
        proof {
            assert(Seq::<char>::empty() =~= seq![]);
            assert(entry_log(log@) =~= entries_of(tree.root, seq![], None));
            lemma_entry_log(log@);
            assert(sink.seen() =~= seen_before + snapshot_reports(tree, index, total));
            let points = tracker.finish_points@;
            lemma_reports_are_points(tree.root, seq![], points, |x: Double| is_share(x));
            let inner = reports_of(tree.root, seq![], points);
            let all = snapshot_reports(tree, index, total);
            assert forall|i: int| 0 <= i < all.len() implies is_share(
                (#[trigger] all[i]).snapshot_progress,
            ) by {
                if i < inner.len() {
                    assert(all[i].snapshot_progress == inner[i].0);
                }
            }
        }
        let root_name = copied(snapshot.root.name());
        SnapshotIndex {
            label: copied(snapshot.label.as_str()),
            root_name,
            entries: TextMap::from_pairs(log),
        }
    }
}

/// A tree in which what is in the directory with a path is replaced.
pub open spec fn with_contents(
    node: NodeView,
    here: Seq<char>,
    path: Seq<char>,
    contents: Seq<NodeView>,
) -> NodeView
    decreases node,
{
    match node {
        NodeView::File { .. } => node,
        NodeView::Dir { name, children } => if here == path {
            NodeView::Dir { name, children: contents }
        } else {
            NodeView::Dir { name, children: with_contents_in(children, here, path, contents) }
        },
    }
}

/// The nodes in a directory, with what is in the directory with a path replaced.
pub open spec fn with_contents_in(
    children: Seq<NodeView>,
    here: Seq<char>,
    path: Seq<char>,
    contents: Seq<NodeView>,
) -> Seq<NodeView>
    decreases children,
{
    if children.len() == 0 {
        seq![]
    } else {
        with_contents_in(children.drop_last(), here, path, contents).push(
            with_contents(
                children.last(),
                child_path(here, children.last().name()),
                path,
                contents,
            ),
        )
    }
}

/// A copy of some nodes.
pub fn copy_nodes(nodes: &Vec<GduNode>) -> (r: Vec<GduNode>)
    ensures
        node_views(r@) == node_views(nodes@),
    decreases nodes,
{
    let mut out: Vec<GduNode> = Vec::new();
    while out.len() < nodes.len()
        invariant
            out@.len() <= nodes@.len(),
            forall|k: int| 0 <= k < out@.len() ==> (#[trigger] out@[k])@ == nodes@[k]@,
        decreases nodes@.len() - out@.len(),
    {
        let i: usize = out.len();
        proof {
            assert(decreases_to!(*nodes => nodes@[i as int]));
        }
        let node = match &nodes[i] {
            GduNode::File(file) => GduNode::File(
                GduFile {
                    name: copied(file.name.as_str()),
                    apparent_size: file.apparent_size,
                    disk_size: file.disk_size,
                },
            ),
            GduNode::Dir(dir) => {
                proof {
                    assert(decreases_to!(*nodes => nodes@[i as int]->Dir_0.children));
                }
                let children = copy_nodes(&dir.children);
                let copy = GduDir { name: copied(dir.name.as_str()), children };
                proof {
                    lemma_dir_view(*dir);
                    lemma_dir_view(copy);
                }
                GduNode::Dir(copy)
            },
        };
        assert(node@ == nodes@[i as int]@);
        out.push(node);
    }
    assert(node_views(out@) =~= node_views(nodes@));
    out
}

/// A copy of a node.
pub fn copy_node(node: &GduNode) -> (r: GduNode)
    ensures
        r@ == node@,
{
    match node {
        GduNode::File(file) => GduNode::File(
            GduFile {
                name: copied(file.name.as_str()),
                apparent_size: file.apparent_size,
                disk_size: file.disk_size,
            },
        ),
        GduNode::Dir(dir) => {
            let copy = GduDir {
                name: copied(dir.name.as_str()),
                children: copy_nodes(&dir.children),
            };
            proof {
                lemma_dir_view(*dir);
                lemma_dir_view(copy);
            }
            GduNode::Dir(copy)
        },
    }
}

/// A copy of a tree in which what is in the directory with a path is replaced.
pub fn replace_contents(node: &GduNode, here: &str, path: &str, contents: &Vec<GduNode>) -> (r: GduNode)
    ensures
        r@ == with_contents(node@, here@, path@, node_views(contents@)),
    decreases node,
{
    match node {
        GduNode::File(file) => GduNode::File(
            GduFile {
                name: copied(file.name.as_str()),
                apparent_size: file.apparent_size,
                disk_size: file.disk_size,
            },
        ),
        GduNode::Dir(dir) => {
            proof {
                lemma_dir_view(*dir);
            }
            let ghost all = node_views(dir.children@);
            let ghost new = node_views(contents@);
            let children = if same_text(here, path) {
                copy_nodes(contents)
            } else {
                let mut out: Vec<GduNode> = Vec::new();
                proof {
                    assert(all.take(0) =~= seq![]);
                    assert(node_views(out@) =~= seq![]);
                }
                while out.len() < dir.children.len()
                    invariant
                        *node == GduNode::Dir(*dir),
                        all == node_views(dir.children@),
                        new == node_views(contents@),
                        out@.len() <= dir.children@.len(),
                        node_views(out@) == with_contents_in(
                            all.take(out@.len() as int),
                            here@,
                            path@,
                            new,
                        ),
                    decreases dir.children@.len() - out@.len(),
                {
                    let i: usize = out.len();
                    let ghost before = node_views(out@);
                    let child = &dir.children[i];
                    proof {
                        assert(all.take(i + 1).drop_last() =~= all.take(i as int));
                        assert(all.take(i + 1).last() == child@);
                        assert(decreases_to!(*node => node->Dir_0.children@[i as int]));
                    }
                    let below = join_path(here, child.name());
                    let replaced = replace_contents(child, below.as_str(), path, contents);
                    let ghost view = replaced@;
                    out.push(replaced);
                    assert(node_views(out@) =~= before.push(view));
                }
                assert(all.take(all.len() as int) =~= all);
                out
            };
            let copy = GduDir { name: copied(dir.name.as_str()), children };
            proof {
                lemma_dir_view(copy);
            }
            GduNode::Dir(copy)
        },
    }
}

/// The sum of the sizes of all files of a node, however great.
pub open spec fn exact_size(node: NodeView, metric: SizeMetric) -> nat
    decreases node,
{
    match node {
        NodeView::File { apparent_size, disk_size, .. } => match metric {
            SizeMetric::Disk => disk_size as nat,
            SizeMetric::Apparent => apparent_size as nat,
        },
        NodeView::Dir { children, .. } => exact_total(children, metric),
    }
}

/// The sum of the sizes of all files of some nodes, however great.
pub open spec fn exact_total(nodes: Seq<NodeView>, metric: SizeMetric) -> nat
    decreases nodes,
{
    if nodes.len() == 0 {
        0
    } else {
        exact_total(nodes.drop_last(), metric) + exact_size(nodes.last(), metric)
    }
}

/// The size, or the greatest size where it is greater.
pub open spec fn capped(size: nat) -> u64 {
    if size > u64::MAX {
        u64::MAX
    } else {
        size as u64
    }
}

/// The sizes of a directory are the sums of the sizes of all files in it, up to the
/// greatest size.
pub proof fn law_sizes_are_sums(node: NodeView, metric: SizeMetric)
    ensures
        size_value(sizes_of(node), metric) == capped(exact_size(node, metric)),
    decreases node,
{
    match node {
        NodeView::File { .. } => {},
        NodeView::Dir { children, .. } => {
            lemma_totals_are_sums(children, metric);
        },
    }
}

proof fn lemma_totals_are_sums(nodes: Seq<NodeView>, metric: SizeMetric)
    ensures
        size_value(total_sizes(nodes), metric) == capped(exact_total(nodes, metric)),
    decreases nodes,
{
    if nodes.len() > 0 {
        lemma_totals_are_sums(nodes.drop_last(), metric);
        law_sizes_are_sums(nodes.last(), metric);
    }
}

/// A key of the map is that of some entry that was found.
pub proof fn lemma_entry_map_key(found: Seq<(Seq<char>, EntryView)>, key: Seq<char>) -> (i: int)
    requires
        entry_map(found).contains_key(key),
    ensures
        0 <= i < found.len(),
        found[i] == (key, entry_map(found)[key]),
    decreases found.len(),
{
    if found.last().0 == key {
        found.len() - 1
    } else {
        lemma_entry_map_key(found.drop_last(), key)
    }
}

/// What was found is in the map.
proof fn lemma_entry_map_has(found: Seq<(Seq<char>, EntryView)>, i: int)
    requires
        0 <= i < found.len(),
    ensures
        entry_map(found).contains_key(found[i].0),
    decreases found.len(),
{
    if i < found.len() - 1 {
        lemma_entry_map_has(found.drop_last(), i);
    }
}

/// The entry stands under the path of its parent with its name.
spec fn under_parent(path: Seq<char>, entry: EntryView) -> bool {
    entry.parent matches Some(parent) ==> path == child_path(parent, entry.name)
}

/// A path is among those found.
spec fn is_found(found: Seq<(Seq<char>, EntryView)>, path: Seq<char>) -> bool {
    exists|i: int| 0 <= i < found.len() && (#[trigger] found[i]).0 == path
}

proof fn lemma_entries_of(node: NodeView, path: Seq<char>, parent: Option<Seq<char>>)
    requires
        parent matches Some(above) ==> path == child_path(above, node.name()),
    ensures
        forall|i: int|
            0 <= i < entries_of(node, path, parent).len() ==> under_parent(
                (#[trigger] entries_of(node, path, parent)[i]).0,
                entries_of(node, path, parent)[i].1,
            ),
        forall|i: int|
            0 <= i < entries_of(node, path, parent).len() ==> match (#[trigger] entries_of(
                node,
                path,
                parent,
            )[i]).1.parent {
                Some(above) => parent == Some(above) || is_found(
                    entries_of(node, path, parent),
                    above,
                ),
                None => parent is None && entries_of(node, path, parent)[i].0 == path,
            },
        is_found(entries_of(node, path, parent), path),
    decreases node,
{
    let found = entries_of(node, path, parent);
    assert(found.last().0 == path);
    assert(found[found.len() - 1].0 == path);
    match node {
        NodeView::File { .. } => {},
        NodeView::Dir { children, .. } => {
            lemma_entries_in(children, path);
            let inner = entries_in(children, path);
            assert forall|i: int| 0 <= i < found.len() implies under_parent(
                (#[trigger] found[i]).0,
                found[i].1,
            ) by {
                if i < inner.len() {
                    assert(found[i] == inner[i]);
                }
            }
            assert forall|i: int| 0 <= i < found.len() implies match (#[trigger] found[i]).1.parent {
                Some(above) => parent == Some(above) || is_found(found, above),
                None => parent is None && found[i].0 == path,
            } by {
                if i < inner.len() {
                    assert(found[i] == inner[i]);
                    let above = found[i].1.parent->Some_0;
                    if above != path {
                        let j = choose|j: int|
                            0 <= j < inner.len() && (#[trigger] inner[j]).0 == above;
                        assert(found[j].0 == above);
                    }
                }
            }
        },
    }
}

proof fn lemma_entries_in(children: Seq<NodeView>, path: Seq<char>)
    ensures
        forall|i: int|
            0 <= i < entries_in(children, path).len() ==> under_parent(
                (#[trigger] entries_in(children, path)[i]).0,
                entries_in(children, path)[i].1,
            ),
        forall|i: int|
            0 <= i < entries_in(children, path).len() ==> {
                let parent = (#[trigger] entries_in(children, path)[i]).1.parent;
                parent is Some && (parent == Some(path) || is_found(
                    entries_in(children, path),
                    parent->Some_0,
                ))
            },
    decreases children,
{
    if children.len() > 0 {
        let found = entries_in(children, path);
        let front = entries_in(children.drop_last(), path);
        let below = child_path(path, children.last().name());
        let back = entries_of(children.last(), below, Some(path));
        lemma_entries_in(children.drop_last(), path);
        lemma_entries_of(children.last(), below, Some(path));
        assert forall|i: int| 0 <= i < found.len() implies under_parent(
            (#[trigger] found[i]).0,
            found[i].1,
        ) by {
            if i < front.len() {
                assert(found[i] == front[i]);
            } else {
                assert(found[i] == back[i - front.len()]);
            }
        }
        assert forall|i: int| 0 <= i < found.len() implies {
            let parent = (#[trigger] found[i]).1.parent;
            parent is Some && (parent == Some(path) || is_found(found, parent->Some_0))
        } by {
            if i < front.len() {
                assert(found[i] == front[i]);
                let above = found[i].1.parent->Some_0;
                if above != path {
                    let j = choose|j: int| 0 <= j < front.len() && (#[trigger] front[j]).0 == above;
                    assert(found[j].0 == above);
                }
            } else {
                assert(found[i] == back[i - front.len()]);
                let above = found[i].1.parent->Some_0;
                if above != path {
                    let j = choose|j: int| 0 <= j < back.len() && (#[trigger] back[j]).0 == above;
                    assert(found[front.len() + j].0 == above);
                }
            }
        }
    }
}

/// Every entry of an index but the root stands under the path of its parent with its
/// name, and the parent is in the index too.
pub proof fn law_entries_are_under_their_parents(tree: TreeView, path: Seq<char>)
    requires
        index_of(tree).entries.contains_key(path),
    ensures
        match index_of(tree).entries[path].parent {
            Some(parent) => path == child_path(parent, index_of(tree).entries[path].name)
                && index_of(tree).entries.contains_key(parent),
            None => path.len() == 0,
        },
{
    let found = entries_of(tree.root, seq![], None);
    lemma_entries_of(tree.root, seq![], None);
    let i = lemma_entry_map_key(found, path);
    assert(under_parent(found[i].0, found[i].1));
    match found[i].1.parent {
        Some(parent) => {
            let j = choose|j: int| 0 <= j < found.len() && (#[trigger] found[j]).0 == parent;
            lemma_entry_map_has(found, j);
        },
        None => {},
    }
}

/// The entry that was found last under a path.
pub open spec fn found_at(found: Seq<(Seq<char>, EntryView)>, path: Seq<char>) -> Option<EntryView> {
    if entry_map(found).contains_key(path) {
        Some(entry_map(found)[path])
    } else {
        None
    }
}

/// What is found later counts.
pub proof fn lemma_found_later(
    first: Seq<(Seq<char>, EntryView)>,
    then: Seq<(Seq<char>, EntryView)>,
    path: Seq<char>,
)
    ensures
        found_at(first + then, path) == match found_at(then, path) {
            Some(entry) => Some(entry),
            None => found_at(first, path),
        },
    decreases then.len(),
{
    if then.len() == 0 {
        assert(first + then =~= first);
    } else {
        lemma_found_later(first, then.drop_last(), path);
        assert((first + then).drop_last() =~= first + then.drop_last());
        assert((first + then).last() == then.last());
    }
}

/// A path is that of a directory, or of something in it; everything is in the root.
pub open spec fn is_within(directory: Seq<char>, path: Seq<char>) -> bool {
    directory.len() == 0 || path == directory || (directory + seq!['/']).is_prefix_of(path)
}

pub proof fn lemma_within_child(directory: Seq<char>, name: Seq<char>, path: Seq<char>)
    requires
        is_within(child_path(directory, name), path),
    ensures
        is_within(directory, path),
        directory.len() > 0 || name.len() > 0 ==> path.len() >= child_path(directory, name).len(),
{
    reveal_strlit("/");
    let child = child_path(directory, name);
    if directory.len() > 0 {
        assert(child =~= directory + seq!['/'] + name);
        assert(path.len() >= child.len());
        assert(path.take(directory.len() as int + 1) =~= directory + seq!['/']) by {
            if path != child {
                let longer = child + seq!['/'];
                assert forall|i: int| 0 <= i < directory.len() + 1 implies path[i] == (directory
                    + seq!['/'])[i] by {
                    assert(path[i] == path.subrange(0, longer.len() as int)[i]);
                }
            }
        }
        assert((directory + seq!['/']).is_prefix_of(path));
    }
}

/// Two entries agree, but for the sizes where those may differ.
pub open spec fn same_entry(
    before: Option<EntryView>,
    after: Option<EntryView>,
    other_sizes: bool,
) -> bool {
    match (before, after) {
        (Some(a), Some(b)) => a.name == b.name && a.parent == b.parent && a.is_dir == b.is_dir && (
        other_sizes || a.sizes == b.sizes),
        (None, None) => true,
        _ => false,
    }
}

proof fn lemma_found_within(
    node: NodeView,
    here: Seq<char>,
    parent: Option<Seq<char>>,
    path: Seq<char>,
)
    requires
        found_at(entries_of(node, here, parent), path) is Some,
    ensures
        is_within(here, path),
    decreases node,
{
    match node {
        NodeView::File { .. } => {
            let found = entries_of(node, here, parent);
            assert(entry_map(found.drop_last()) =~= Map::empty());
            assert(found.last().0 == here);
        },
        NodeView::Dir { children, .. } => {
            let inner = entries_in(children, here);
            assert(entries_of(node, here, parent).drop_last() =~= inner);
            if path != here {
                lemma_found_in_within(children, here, path);
            }
        },
    }
}

proof fn lemma_found_in_within(children: Seq<NodeView>, here: Seq<char>, path: Seq<char>)
    requires
        found_at(entries_in(children, here), path) is Some,
    ensures
        is_within(here, path),
    decreases children,
{
    if children.len() > 0 {
        let name = children.last().name();
        let front = entries_in(children.drop_last(), here);
        let back = entries_of(children.last(), child_path(here, name), Some(here));
        lemma_found_later(front, back, path);
        if found_at(back, path) is Some {
            lemma_found_within(children.last(), child_path(here, name), Some(here), path);
            lemma_within_child(here, name, path);
        } else {
            lemma_found_in_within(children.drop_last(), here, path);
        }
    }
}

/// Where the directory is not, nothing is replaced.
proof fn lemma_nothing_replaced(
    node: NodeView,
    here: Seq<char>,
    path: Seq<char>,
    contents: Seq<NodeView>,
)
    requires
        !is_within(here, path),
    ensures
        with_contents(node, here, path, contents) == node,
    decreases node,
{
    match node {
        NodeView::File { .. } => {},
        NodeView::Dir { children, .. } => {
            lemma_nothing_replaced_in(children, here, path, contents);
        },
    }
}

proof fn lemma_nothing_replaced_in(
    children: Seq<NodeView>,
    here: Seq<char>,
    path: Seq<char>,
    contents: Seq<NodeView>,
)
    requires
        !is_within(here, path),
    ensures
        with_contents_in(children, here, path, contents) == children,
    decreases children,
{
    if children.len() > 0 {
        let name = children.last().name();
        if is_within(child_path(here, name), path) {
            lemma_within_child(here, name, path);
        }
        lemma_nothing_replaced_in(children.drop_last(), here, path, contents);
        lemma_nothing_replaced(children.last(), child_path(here, name), path, contents);
        assert(children.drop_last().push(children.last()) =~= children);
    } else {
        assert(children =~= seq![]);
    }
}

proof fn lemma_rest_stays(
    node: NodeView,
    here: Seq<char>,
    parent: Option<Seq<char>>,
    path: Seq<char>,
    contents: Seq<NodeView>,
    other: Seq<char>,
)
    requires
        !is_within(path, other),
    ensures
        same_entry(
            found_at(entries_of(node, here, parent), other),
            found_at(entries_of(with_contents(node, here, path, contents), here, parent), other),
            is_within(other, path),
        ),
    decreases node,
{
    match node {
        NodeView::File { .. } => {},
        NodeView::Dir { children, .. } => {
            let new = with_contents(node, here, path, contents);
            let before = entries_of(node, here, parent);
            let after = entries_of(new, here, parent);
            if here == path {
                if found_at(before, other) is Some {
                    lemma_found_within(node, here, parent, other);
                }
                if found_at(after, other) is Some {
                    lemma_found_within(new, here, parent, other);
                }
            } else {
                lemma_rest_stays_in(children, here, path, contents, other);
                let changed = with_contents_in(children, here, path, contents);
                assert(before.drop_last() =~= entries_in(children, here));
                assert(after.drop_last() =~= entries_in(changed, here));
                if other == here && !is_within(other, path) {
                    lemma_nothing_replaced(node, here, path, contents);
                }
            }
        },
    }
}

proof fn lemma_rest_stays_in(
    children: Seq<NodeView>,
    here: Seq<char>,
    path: Seq<char>,
    contents: Seq<NodeView>,
    other: Seq<char>,
)
    requires
        !is_within(path, other),
    ensures
        same_entry(
            found_at(entries_in(children, here), other),
            found_at(entries_in(with_contents_in(children, here, path, contents), here), other),
            is_within(other, path),
        ),
    decreases children,
{
    if children.len() > 0 {
        let last = children.last();
        let below = child_path(here, last.name());
        let changed = with_contents_in(children, here, path, contents);
        let new = with_contents(last, below, path, contents);
        lemma_rest_stays_in(children.drop_last(), here, path, contents, other);
        lemma_rest_stays(last, below, Some(here), path, contents, other);
        assert(changed.drop_last() =~= with_contents_in(
            children.drop_last(),
            here,
            path,
            contents,
        ));
        assert(changed.last() == new);
        assert(new.name() == last.name());
        lemma_found_later(
            entries_in(children.drop_last(), here),
            entries_of(last, below, Some(here)),
            other,
        );
        lemma_found_later(
            entries_in(changed.drop_last(), here),
            entries_of(new, below, Some(here)),
            other,
        );
    }
}

/// Replacing what is in a directory leaves every path outside of it as it was; only the
/// directories that it is in get other sizes.
pub proof fn law_replacing_keeps_the_rest(
    tree: TreeView,
    path: Seq<char>,
    contents: Seq<NodeView>,
    other: Seq<char>,
)
    requires
        !is_within(path, other),
    ensures
        ({
            let replaced = TreeView {
                root: with_contents(tree.root, seq![], path, contents),
                ..tree
            };
            let before = index_of(tree);
            let after = index_of(replaced);
            &&& after.label == before.label
            &&& after.root_name == before.root_name
            &&& same_entry(
                before.entry_at(other),
                after.entry_at(other),
                is_within(other, path),
            )
        }),
{
    lemma_rest_stays(tree.root, seq![], None, path, contents, other);
}

proof fn lemma_points_in_unit(node: NodeView, path: Seq<char>, depth: u8, start: Double, end: Double)
    ensures
        forall|i: int|
            0 <= i < finish_points(node, path, depth, start, end).len() ==> in_unit(
                (#[trigger] finish_points(node, path, depth, start, end)[i]).1,
            ),
    decreases node,
{
    match node {
        NodeView::File { .. } => {},
        NodeView::Dir { children, .. } => {
            let count = dir_count(children);
            lemma_points_in_in_unit(children, path, depth, start, end, count);
            let inner = finish_points_in(children, path, depth, start, end, count);
            let all = finish_points(node, path, depth, start, end);
            assert forall|i: int| 0 <= i < all.len() implies in_unit((#[trigger] all[i]).1) by {
                if i < inner.len() {
                    assert(all[i] == inner[i]);
                }
            }
        },
    }
}

proof fn lemma_points_in_in_unit(
    children: Seq<NodeView>,
    path: Seq<char>,
    depth: u8,
    start: Double,
    end: Double,
    count: nat,
)
    ensures
        forall|i: int|
            0 <= i < finish_points_in(children, path, depth, start, end, count).len() ==> in_unit(
                (#[trigger] finish_points_in(children, path, depth, start, end, count)[i]).1,
            ),
    decreases children,
{
    if children.len() > 0 {
        let stretch = child_stretch(depth, start, end, count, dir_count(children.drop_last()));
        let front = finish_points_in(children.drop_last(), path, depth, start, end, count);
        let below = child_path(path, children.last().name());
        lemma_points_in_in_unit(children.drop_last(), path, depth, start, end, count);
        lemma_points_in_unit(children.last(), below, next_depth(depth), stretch.0, stretch.1);
        let back = finish_points(
            children.last(),
            below,
            next_depth(depth),
            stretch.0,
            stretch.1,
        );
        let all = finish_points_in(children, path, depth, start, end, count);
        assert forall|i: int| 0 <= i < all.len() implies in_unit((#[trigger] all[i]).1) by {
            if i < front.len() {
                assert(all[i] == front[i]);
            } else {
                assert(all[i] == back[i - front.len()]);
            }
        }
    }
}

proof fn lemma_point_map_in_unit(points: Seq<(Seq<char>, Double)>)
    requires
        forall|i: int| 0 <= i < points.len() ==> in_unit((#[trigger] points[i]).1),
    ensures
        forall|path: Seq<char>|
            point_map(points).contains_key(path) ==> in_unit(#[trigger] point_map(points)[path]),
    decreases points.len(),
{
    if points.len() > 0 {
        assert(in_unit(points[points.len() - 1].1));
        assert forall|i: int| 0 <= i < points.drop_last().len() implies in_unit(
            (#[trigger] points.drop_last()[i]).1,
        ) by {
            assert(points.drop_last()[i] == points[i]);
        }
        lemma_point_map_in_unit(points.drop_last());
        let front = point_map(points.drop_last());
        assert forall|path: Seq<char>| point_map(points).contains_key(path) implies in_unit(
            #[trigger] point_map(points)[path],
        ) by {
            if path != points.last().0 {
                assert(in_unit(front[path]));
            }
        }
    }
}

/// What holds of one and of every point holds of every report.
proof fn lemma_reports_are_points(
    node: NodeView,
    path: Seq<char>,
    points: Map<Seq<char>, Double>,
    ok: spec_fn(Double) -> bool,
)
    requires
        ok(one()),
        forall|at: Seq<char>| points.contains_key(at) ==> ok(#[trigger] points[at]),
    ensures
        forall|i: int|
            0 <= i < reports_of(node, path, points).len() ==> ok(
                (#[trigger] reports_of(node, path, points)[i]).0,
            ),
    decreases node,
{
    match node {
        NodeView::File { .. } => {},
        NodeView::Dir { children, .. } => {
            lemma_reports_in_are_points(children, path, points, ok);
            let inner = reports_in(children, path, points);
            let all = reports_of(node, path, points);
            assert forall|i: int| 0 <= i < all.len() implies ok((#[trigger] all[i]).0) by {
                if i < inner.len() {
                    assert(all[i] == inner[i]);
                }
            }
        },
    }
}

proof fn lemma_reports_in_are_points(
    children: Seq<NodeView>,
    path: Seq<char>,
    points: Map<Seq<char>, Double>,
    ok: spec_fn(Double) -> bool,
)
    requires
        ok(one()),
        forall|at: Seq<char>| points.contains_key(at) ==> ok(#[trigger] points[at]),
    ensures
        forall|i: int|
            0 <= i < reports_in(children, path, points).len() ==> ok(
                (#[trigger] reports_in(children, path, points)[i]).0,
            ),
    decreases children,
{
    if children.len() > 0 {
        let front = reports_in(children.drop_last(), path, points);
        let below = child_path(path, children.last().name());
        let back = reports_of(children.last(), below, points);
        lemma_reports_in_are_points(children.drop_last(), path, points, ok);
        lemma_reports_are_points(children.last(), below, points, ok);
        let all = reports_in(children, path, points);
        assert forall|i: int| 0 <= i < all.len() implies ok((#[trigger] all[i]).0) by {
            if i < front.len() {
                assert(all[i] == front[i]);
            } else {
                assert(all[i] == back[i - front.len()]);
            }
        }
    }
}

/// The progress of a snapshot stays between zero and one, and the last report says
/// that it is done.
pub proof fn law_progress_finishes(tree: TreeView, index: usize, total: usize)
    ensures
        snapshot_reports(tree, index, total).len() > 0,
        snapshot_reports(tree, index, total).last().snapshot_progress == one(),
        forall|i: int|
            0 <= i < snapshot_reports(tree, index, total).len() ==> in_unit(
                (#[trigger] snapshot_reports(tree, index, total)[i]).snapshot_progress,
            ),
{
    let points = finish_points(tree.root, seq![], 0, zero(), one());
    lemma_points_in_unit(tree.root, seq![], 0, zero(), one());
    lemma_point_map_in_unit(points);
    lemma_reports_are_points(tree.root, seq![], point_map(points), |x: Double| in_unit(x));
    let inner = reports_of(tree.root, seq![], point_map(points));
    let all = snapshot_reports(tree, index, total);
    assert forall|i: int| 0 <= i < all.len() implies in_unit((#[trigger] all[i]).snapshot_progress) by {
        if i < inner.len() {
            assert(all[i].snapshot_progress == inner[i].0);
        }
    }
}

proof fn lemma_done_so_far(report: ProgressView)
    requires
        is_share(report.snapshot_progress),
        0 < report.snapshot_index <= report.snapshot_total < 0x20_0000_0000_0000,
    ensures
        limited(whole((report.snapshot_index - 1) as nat)),
        steps(whole((report.snapshot_index - 1) as nat)) == (report.snapshot_index - 1) * pow2(2000),
        limited(report.snapshot_progress),
        limited(one()),
        steps(report.snapshot_progress) <= steps(one()),
        steps(one()) == pow2(2000),
        limited(whole(report.snapshot_total as nat)),
        whole(report.snapshot_total as nat).significand > 0,
{
    lemma_steps_of_integer((report.snapshot_index - 1) as nat);
    lemma_steps_of_integer(report.snapshot_total as nat);
    lemma_whole_is_normal(report.snapshot_total as u64);
    lemma_steps_in_order(report.snapshot_progress, one());
    lemma_whole_one();
    lemma_steps_of_integer(1);
}

/// The overall progress stays between zero and one.
pub proof fn law_overall_progress_in_unit(report: ProgressView)
    requires
        is_share(report.snapshot_progress),
        0 < report.snapshot_index <= report.snapshot_total < 0x20_0000_0000_0000,
    ensures
        in_unit(overall(report)),
{
    let done = whole((report.snapshot_index - 1) as nat);
    let sum = sum_of(done, report.snapshot_progress);
    let total = whole(report.snapshot_total as nat);
    lemma_done_so_far(report);
    lemma_sum_is_normal(done, report.snapshot_progress);
    lemma_sums_in_order(done, report.snapshot_progress, done, one());
    lemma_successor(report.snapshot_index as nat);
    lemma_integers_in_order(report.snapshot_index as u64, report.snapshot_total as u64);
    lemma_whole_is_normal(report.snapshot_index as u64);
    lemma_ratio_at_most_one(sum, total);
}

/// The overall progress does not fall back: neither while the progress of a snapshot
/// grows, nor from one snapshot to a later one.
pub proof fn law_overall_progress_in_order(first: ProgressView, second: ProgressView)
    requires
        is_share(first.snapshot_progress),
        is_share(second.snapshot_progress),
        first.snapshot_total == second.snapshot_total,
        0 < first.snapshot_index <= second.snapshot_index <= first.snapshot_total
            < 0x20_0000_0000_0000,
        first.snapshot_index == second.snapshot_index ==> !less(
            second.snapshot_progress,
            first.snapshot_progress,
        ),
    ensures
        !less(overall(second), overall(first)),
{
    let before = whole((first.snapshot_index - 1) as nat);
    let after = whole((second.snapshot_index - 1) as nat);
    lemma_done_so_far(first);
    lemma_done_so_far(second);
    if first.snapshot_index == second.snapshot_index {
        lemma_steps_in_order(first.snapshot_progress, second.snapshot_progress);
    } else {
        let p = pow2(2000) as int;
        assert((first.snapshot_index - 1) * p + p <= (second.snapshot_index - 1) * p)
            by (nonlinear_arith)
            requires
                first.snapshot_index < second.snapshot_index,
                p >= 0,
        ;
    }
    lemma_sums_in_order(before, first.snapshot_progress, after, second.snapshot_progress);
    lemma_sum_is_normal(before, first.snapshot_progress);
    lemma_sum_is_normal(after, second.snapshot_progress);
    lemma_ratios_in_order(
        sum_of(before, first.snapshot_progress),
        sum_of(after, second.snapshot_progress),
        whole(first.snapshot_total as nat),
    );
}

/// Once the last snapshot is indexed, all of them are.
pub proof fn law_overall_progress_finishes(report: ProgressView)
    requires
        report.snapshot_progress == one(),
        report.snapshot_index == report.snapshot_total,
        0 < report.snapshot_total < 0x20_0000_0000_0000,
    ensures
        overall(report) == one(),
{
    let n = report.snapshot_total as nat;
    lemma_successor(n);
    let k = lemma_normal_form(n);
    lemma_exact_integer(n, k);
    lemma_ratio_of_equals(whole(n));
}

} // verus!
