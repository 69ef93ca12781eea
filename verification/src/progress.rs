//! What is reported while snapshots are indexed.

use crate::analysis::reports_up_to;
use crate::browsing::is_rounded_sum;
use crate::double::{Double, LEAST_SIGNIFICAND, SIGNIFICAND_LIMIT, distance, exact_sum, is_nearest, law_adding_to_nothing, law_integer_is_nearest, law_multiple_is_nearest, law_nearest_to_a_fraction, law_quotient_is_nearest, law_sum_is_nearest, lemma_exact_integer, lemma_normal_form, lemma_steps_of_integer, lemma_whole_one, limited, negation, product_of, quotient_of, steps, sum_of};
use crate::gdu::NodeView;
use crate::index::{ProgressView, SPLIT_DEPTH, TreeView, between_zero_and_one, child_path, child_stretch, dir_count, finish_point, finish_points, finish_points_in, is_share, is_within, lemma_within_child, next_depth, one, overall, point_map, reports_in, reports_of, shown_path, snapshot_reports, whole, zero};
use crate::totals::{all_plain, lemma_plain_child, lemma_siblings_apart, node_at, node_in, plainly_named};
use vstd::arithmetic::power2::{lemma2_to64, lemma_pow2_adds, lemma_pow2_pos, lemma_pow2_strictly_increases, lemma_pow2_unfold, pow2};
use vstd::prelude::*;

verus! {

/// How many directories there are, the node itself among them.
pub open spec fn directories(node: NodeView) -> nat
    decreases node,
{
    match node {
        NodeView::File { .. } => 0,
        NodeView::Dir { children, .. } => directories_in(children) + 1,
    }
}

/// How many directories there are in a directory, at any depth.
pub open spec fn directories_in(children: Seq<NodeView>) -> nat
    decreases children,
{
    if children.len() == 0 {
        0
    } else {
        directories_in(children.drop_last()) + directories(children.last())
    }
}

proof fn lemma_report_count(node: NodeView, path: Seq<char>, points: Map<Seq<char>, Double>)
    ensures
        reports_of(node, path, points).len() == directories(node),
    decreases node,
{
    match node {
        NodeView::File { .. } => {},
        NodeView::Dir { children, .. } => {
            lemma_report_count_in(children, path, points);
        },
    }
}

proof fn lemma_report_count_in(
    children: Seq<NodeView>,
    path: Seq<char>,
    points: Map<Seq<char>, Double>,
)
    ensures
        reports_in(children, path, points).len() == directories_in(children),
    decreases children,
{
    if children.len() > 0 {
        lemma_report_count_in(children.drop_last(), path, points);
        lemma_report_count(
            children.last(),
            child_path(path, children.last().name()),
            points,
        );
    }
}

/// Each directory of a snapshot is reported once, and the snapshot as a whole after all of
/// them. Every report says which of how many snapshots it is about.
pub proof fn law_each_directory_is_reported_once(tree: TreeView, index: usize, total: usize)
    ensures
        ({
            let reports = snapshot_reports(tree, index, total);
            &&& reports.len() == directories(tree.root) + 1
            &&& reports.last().snapshot_progress == one()
            &&& reports.last().current_path == tree.root.name()
            &&& forall|i: int|
                0 <= i < reports.len() ==> (#[trigger] reports[i]).snapshot_index == index
                    && reports[i].snapshot_total == total && reports[i].snapshot_label
                    == tree.label
        }),
{
    let points = point_map(
        finish_points(tree.root, seq![], 0, zero(), one()),
    );
    lemma_report_count(tree.root, seq![], points);
}

proof fn lemma_reported(
    node: NodeView,
    here: Seq<char>,
    points: Map<Seq<char>, Double>,
    path: Seq<char>,
) -> (i: int)
    requires
        node_at(node, here, path) matches Some(found) && found is Dir,
    ensures
        0 <= i < reports_of(node, here, points).len(),
        reports_of(node, here, points)[i] == (
            finish_point(points, path),
            shown_path(path, node_at(node, here, path)->Some_0.name()),
        ),
    decreases node,
{
    let children = node->children;
    if path == here {
        reports_in(children, here, points).len() as int
    } else {
        lemma_reported_in(children, here, points, path)
    }
}

proof fn lemma_reported_in(
    children: Seq<NodeView>,
    here: Seq<char>,
    points: Map<Seq<char>, Double>,
    path: Seq<char>,
) -> (i: int)
    requires
        node_in(children, here, path) matches Some(found) && found is Dir,
    ensures
        0 <= i < reports_in(children, here, points).len(),
        reports_in(children, here, points)[i] == (
            finish_point(points, path),
            shown_path(path, node_in(children, here, path)->Some_0.name()),
        ),
    decreases children,
{
    let last = children.last();
    let below = child_path(here, last.name());
    let before = reports_in(children.drop_last(), here, points);
    if node_at(last, below, path) is Some {
        let i = lemma_reported(last, below, points, path);
        before.len() + i
    } else {
        lemma_reported_in(children.drop_last(), here, points, path)
    }
}

/// Every directory of a snapshot is reported under its path, the root under its name.
pub proof fn law_every_directory_is_reported(
    tree: TreeView,
    index: usize,
    total: usize,
    path: Seq<char>,
)
    requires
        node_at(tree.root, seq![], path) matches Some(found) && found is Dir,
    ensures
        exists|i: int|
            0 <= i < snapshot_reports(tree, index, total).len() - 1 && (#[trigger] snapshot_reports(
                tree,
                index,
                total,
            )[i]).current_path == (if path.len() == 0 {
                tree.root.name()
            } else {
                path
            }),
{
    let points = point_map(
        finish_points(tree.root, seq![], 0, zero(), one()),
    );
    let i = lemma_reported(tree.root, seq![], points, path);
    if path.len() == 0 {
        assert(path =~= seq![]);
    }
    let reports = snapshot_reports(tree, index, total);
    assert(reports[i].current_path == shown_path(
        path,
        node_at(tree.root, seq![], path)->Some_0.name(),
    ));
}

/// Adding nothing to a number leaves it as it is.
proof fn lemma_adding_nothing(x: Double)
    requires
        limited(x),
    ensures
        sum_of(x, zero()) == x,
{
    law_adding_to_nothing(x);
    let m = if x.exponent <= 0 {
        x.exponent as int
    } else {
        0
    };
    assert(0 * pow2((0 - m) as nat) == 0);
    assert(exact_sum(x, zero()) == exact_sum(zero(), x));
}

/// The stretch of the progress of a directory is split among the directories in it: the
/// first one starts where the directory does. Far down nothing is split, and each takes the
/// whole of it.
pub proof fn law_stretches_start_with_the_directory(
    depth: u8,
    start: Double,
    end: Double,
    count: nat,
    index: nat,
)
    requires
        limited(start),
    ensures
        child_stretch(depth, start, end, count, 0).0 == start,
        depth >= SPLIT_DEPTH ==> child_stretch(depth, start, end, count, index) == (start, end),
{
    lemma_adding_nothing(start);
    let span = quotient_of(sum_of(end, negation(start)), whole(count));
    assert(whole(0).significand == 0);
    assert(span.significand * 0 == 0);
    assert(product_of(span, whole(0)) == zero());
}

/// The snapshots are gone through one after the other: the reports on the first come first,
/// those on the last come last, and each says the number of its snapshot, counted from one.
pub proof fn law_reports_go_through_the_snapshots(trees: Seq<TreeView>, n: nat, i: int)
    requires
        n <= trees.len() <= usize::MAX,
        0 <= i < reports_up_to(trees, n).len(),
    ensures
        ({
            let reports = reports_up_to(trees, n);
            let number = reports[i].snapshot_index;
            &&& 1 <= number <= n
            &&& reports[i].snapshot_total == trees.len()
            &&& reports[i].snapshot_label == trees[number - 1].label
            &&& reports[0].snapshot_index == 1
            &&& reports.last().snapshot_index == n
            &&& i + 1 < reports.len() ==> number <= reports[i + 1].snapshot_index <= number + 1
        }),
    decreases n,
{
    let reports = reports_up_to(trees, n);
    if n > 0 {
        let before = reports_up_to(trees, (n - 1) as nat);
        let last = snapshot_reports(trees[n - 1], n as usize, trees.len() as usize);
        law_each_directory_is_reported_once(trees[n - 1], n as usize, trees.len() as usize);
        assert(reports == before + last);
        if before.len() > 0 {
            law_reports_go_through_the_snapshots(trees, (n - 1) as nat, 0);
            law_reports_go_through_the_snapshots(trees, (n - 1) as nat, before.len() - 1);
        } else if n > 1 {
            lemma_some_reports(trees, (n - 1) as nat);
        }
        if i < before.len() {
            law_reports_go_through_the_snapshots(trees, (n - 1) as nat, i);
            if i + 1 == before.len() {
                assert(reports[i + 1] == last[0]);
            }
        }
    }
}

proof fn lemma_some_reports(trees: Seq<TreeView>, n: nat)
    requires
        0 < n <= trees.len() <= usize::MAX,
    ensures
        reports_up_to(trees, n).len() > 0,
{
    law_each_directory_is_reported_once(trees[n - 1], n as usize, trees.len() as usize);
}

/// The progress over all snapshots is the number of those that are done and the progress of
/// the one at work, divided by the number of all, with each step rounded to the nearest
/// number.
pub proof fn law_overall_progress_is_nearest(progress: ProgressView, y: Double)
    requires
        is_share(progress.snapshot_progress),
        progress.snapshot_progress.exponent >= -800,
        0 < progress.snapshot_index <= progress.snapshot_total < SIGNIFICAND_LIMIT,
        y == sum_of(whole((progress.snapshot_index - 1) as nat), progress.snapshot_progress),
    ensures
        is_rounded_sum(
            y,
            whole((progress.snapshot_index - 1) as nat),
            progress.snapshot_progress,
        ),
        y.significand == 0 ==> overall(progress) == zero(),
        y.significand > 0 ==> is_nearest(
            overall(progress),
            steps(y),
            steps(whole(progress.snapshot_total as nat)),
        ),
{
    let a = whole((progress.snapshot_index - 1) as nat);
    let p = progress.snapshot_progress;
    let b = whole(progress.snapshot_total as nat);
    law_integer_is_nearest((progress.snapshot_index - 1) as u64);
    law_integer_is_nearest(progress.snapshot_total as u64);
    lemma_share_is_limited(p);
    law_sum_is_nearest(a, p);
    if y.significand > 0 {
        lemma_sum_range(a, p);
        law_quotient_is_nearest(y, b);
    }
}

proof fn lemma_share_is_limited(p: Double)
    requires
        is_share(p),
    ensures
        limited(p),
{
}

/// How great a number is whose exponent is known.
proof fn lemma_steps_range(x: Double)
    requires
        x.wf(),
        x.significand > 0,
        x.exponent >= -2000,
    ensures
        pow2((x.exponent + 2052) as nat) <= steps(x) < pow2((x.exponent + 2053) as nat),
{
    let j = (x.exponent + 2000) as nat;
    let p = pow2(j) as int;
    lemma_pow2_pos(j);
    lemma2_to64();
    lemma_pow2_adds(32, 20);
    lemma_pow2_unfold(53);
    lemma_pow2_adds(52, j);
    lemma_pow2_adds(53, j);
    assert(LEAST_SIGNIFICAND * p <= x.significand * p < SIGNIFICAND_LIMIT * p) by (nonlinear_arith)
        requires
            LEAST_SIGNIFICAND <= x.significand < SIGNIFICAND_LIMIT,
            p > 0,
    ;
}

proof fn lemma_sum_range(a: Double, p: Double)
    requires
        limited(a),
        limited(p),
        a.exponent >= -800,
        p.exponent >= -800,
        a.exponent <= 12,
        p.exponent <= 0,
        sum_of(a, p).significand > 0,
    ensures
        limited(sum_of(a, p)),
        -810 <= sum_of(a, p).exponent <= 14,
{
    law_sum_is_nearest(a, p);
    let x = sum_of(a, p);
    lemma_steps_range(x);
    let e = x.exponent;
    let n = steps(a) + steps(p);
    lemma_pow2_unfold((e + 2052) as nat);
    lemma_pow2_unfold((e + 2053) as nat);
    lemma_pow2_unfold((e + 2054) as nat);
    lemma_pow2_strictly_increases((e + 2000) as nat, (e + 2051) as nat);
    assert(pow2((e + 2051) as nat) <= n <= pow2((e + 2054) as nat));
    if e > 14 {
        assert(steps(a) < pow2(2065)) by {
            if a.significand > 0 {
                lemma_steps_range(a);
                if a.exponent < 12 {
                    lemma_pow2_strictly_increases((a.exponent + 2053) as nat, 2065);
                }
            } else {
                assert(0 * pow2((a.exponent + 2000) as nat) == 0);
                lemma_pow2_pos(2065);
            }
        }
        assert(steps(p) < pow2(2065)) by {
            if p.significand > 0 {
                lemma_steps_range(p);
                lemma_pow2_strictly_increases((p.exponent + 2053) as nat, 2065);
            } else {
                assert(0 * pow2((p.exponent + 2000) as nat) == 0);
                lemma_pow2_pos(2065);
            }
        }
        lemma_pow2_unfold(2066);
        if e > 15 {
            lemma_pow2_strictly_increases(2066, (e + 2051) as nat);
        }
    }
    if e < -810 {
        lemma_pow2_strictly_increases((e + 2054) as nat, 1252);
        if a.significand > 0 {
            lemma_steps_range(a);
            if a.exponent > -800 {
                lemma_pow2_strictly_increases(1252, (a.exponent + 2052) as nat);
            }
        } else {
            assert(0 * pow2((a.exponent + 2000) as nat) == 0);
            if p.significand > 0 {
                lemma_steps_range(p);
                if p.exponent > -800 {
                    lemma_pow2_strictly_increases(1252, (p.exponent + 2052) as nat);
                }
            } else {
                assert(0 * pow2((p.exponent + 2000) as nat) == 0);
            }
        }
    }
}

proof fn lemma_product_range(span: Double, n: nat)
    requires
        limited(span),
        span.significand > 0,
        -120 <= span.exponent <= -40,
        0 < n < SIGNIFICAND_LIMIT,
    ensures
        limited(product_of(span, whole(n))),
        -200 <= product_of(span, whole(n)).exponent <= 20,
{
    law_multiple_is_nearest(span, n);
    let x = product_of(span, whole(n));
    lemma_steps_range(x);
    lemma_steps_range(span);
    let e = x.exponent;
    let m = n * steps(span);
    lemma_pow2_unfold((e + 2052) as nat);
    lemma_pow2_unfold((e + 2053) as nat);
    lemma_pow2_unfold((e + 2054) as nat);
    lemma_pow2_strictly_increases((e + 2000) as nat, (e + 2051) as nat);
    assert(pow2((e + 2051) as nat) <= m <= pow2((e + 2054) as nat));
    lemma2_to64();
    lemma_pow2_adds(32, 20);
    lemma_pow2_unfold(53);
    let q = steps(span) as int;
    if e > 20 {
        lemma_pow2_strictly_increases((span.exponent + 2053) as nat, 2014);
        lemma_pow2_adds(53, 2014);
        lemma_pow2_strictly_increases(2067, (e + 2051) as nat);
        assert(n * q <= pow2(53) * pow2(2014)) by (nonlinear_arith)
            requires
                0 <= n < pow2(53),
                0 <= q < pow2(2014),
        ;
    }
    if e < -200 {
        lemma_pow2_strictly_increases((e + 2054) as nat, (span.exponent + 2052) as nat);
        assert(n * q >= q) by (nonlinear_arith)
            requires
                n >= 1,
                q >= 0,
        ;
    }
}

/// The progress of a snapshot is shared out evenly among the directories directly in its
/// root: the part of each is the number nearest to one by their number, the part of each
/// starts after so many parts as there are directories before it, and it is one part long,
/// with each step rounded to the nearest number.
pub proof fn law_top_directories_share_the_progress(count: nat, index: nat)
    requires
        0 < index < count < SIGNIFICAND_LIMIT,
    ensures
        exists|span: Double|
            #![trigger steps(span)]
            is_nearest(span, 1, count) && ({
                let (start, end) = child_stretch(0, zero(), one(), count, index);
                &&& 2 * distance(steps(start) as int, (index * steps(span)) as int) <= pow2(
                    (start.exponent + 2000) as nat,
                )
                &&& is_rounded_sum(end, start, span)
            }),
{
    let n = whole(count);
    lemma_whole_one();
    lemma_adding_nothing(one());
    assert(negation(zero()) == zero());
    assert(sum_of(one(), negation(zero())) == one());
    let span = quotient_of(one(), n);
    law_integer_is_nearest(count as u64);
    lemma_steps_of_integer(1);
    lemma_steps_of_integer(count);
    lemma_pow2_pos(2000);
    law_quotient_is_nearest(one(), n);
    assert(steps(one()) == 1 * pow2(2000));
    law_nearest_to_a_fraction(span, 1, count, pow2(2000));
    assert(n.exponent <= 0) by {
        let k = lemma_normal_form(count);
        lemma_exact_integer(count, k);
    }
    lemma_product_range(span, index);
    law_multiple_is_nearest(span, index);
    let offset = product_of(span, whole(index));
    law_adding_to_nothing(offset);
    let (start, end) = child_stretch(0, zero(), one(), count, index);
    assert(start == offset);
    law_sum_is_nearest(start, span);
    assert(is_rounded_sum(end, start, span));
    assert(steps(span) == steps(span));
}

/// Every point is that of a path in the directory.
spec fn points_within(points: Seq<(Seq<char>, Double)>, here: Seq<char>) -> bool {
    forall|i: int| 0 <= i < points.len() ==> is_within(here, (#[trigger] points[i]).0)
}

proof fn lemma_points_within(
    node: NodeView,
    here: Seq<char>,
    depth: u8,
    start: Double,
    end: Double,
)
    ensures
        points_within(finish_points(node, here, depth, start, end), here),
    decreases node,
{
    match node {
        NodeView::File { .. } => {},
        NodeView::Dir { children, .. } => {
            lemma_points_within_in(children, here, depth, start, end, dir_count(children));
        },
    }
}

proof fn lemma_points_within_in(
    children: Seq<NodeView>,
    here: Seq<char>,
    depth: u8,
    start: Double,
    end: Double,
    count: nat,
)
    ensures
        points_within(finish_points_in(children, here, depth, start, end, count), here),
    decreases children,
{
    if children.len() > 0 {
        let name = children.last().name();
        let front = finish_points_in(children.drop_last(), here, depth, start, end, count);
        let stretch = child_stretch(depth, start, end, count, dir_count(children.drop_last()));
        let path = child_path(here, name);
        let more = finish_points(children.last(), path, next_depth(depth), stretch.0, stretch.1);
        lemma_points_within_in(children.drop_last(), here, depth, start, end, count);
        lemma_points_within(children.last(), path, next_depth(depth), stretch.0, stretch.1);
        let all = front + more;
        assert forall|i: int| 0 <= i < all.len() implies is_within(here, (#[trigger] all[i]).0) by {
            if i < front.len() {
                assert(all[i] == front[i]);
            } else {
                assert(all[i] == more[i - front.len()]);
                lemma_within_child(here, name, all[i].0);
            }
        }
    }
}

proof fn lemma_other_points(
    points: Seq<(Seq<char>, Double)>,
    more: Seq<(Seq<char>, Double)>,
    path: Seq<char>,
)
    requires
        forall|i: int| 0 <= i < more.len() ==> (#[trigger] more[i]).0 != path,
    ensures
        point_map(points + more).contains_key(path) == point_map(points).contains_key(path),
        point_map(points).contains_key(path) ==> point_map(points + more)[path] == point_map(
            points,
        )[path],
    decreases more.len(),
{
    if more.len() == 0 {
        assert(points + more =~= points);
    } else {
        let front = more.drop_last();
        assert forall|i: int| 0 <= i < front.len() implies (#[trigger] front[i]).0 != path by {
            assert(front[i] == more[i]);
        }
        lemma_other_points(points, front, path);
        assert((points + more).drop_last() =~= points + front);
        assert((points + more).last() == more.last());
        assert(more[more.len() - 1].0 != path);
    }
}

proof fn lemma_finish_in(
    children: Seq<NodeView>,
    here: Seq<char>,
    depth: u8,
    start: Double,
    end: Double,
    count: nat,
    i: int,
)
    requires
        all_plain(children),
        0 <= i < children.len(),
        children[i] is Dir,
    ensures
        ({
            let points = point_map(
                finish_points_in(children, here, depth, start, end, count),
            );
            let path = child_path(here, children[i].name());
            &&& points.contains_key(path)
            &&& points[path] == between_zero_and_one(
                child_stretch(depth, start, end, count, dir_count(children.take(i))).1,
            )
        }),
    decreases children.len(),
{
    let rest = children.drop_last();
    let last = children.last();
    let path = child_path(here, children[i].name());
    let front = finish_points_in(rest, here, depth, start, end, count);
    let stretch = child_stretch(depth, start, end, count, dir_count(rest));
    let below = child_path(here, last.name());
    let more = finish_points(last, below, next_depth(depth), stretch.0, stretch.1);
    if i == children.len() - 1 {
        assert(children.take(i) =~= rest);
        assert((front + more).last() == more.last());
    } else {
        lemma_finish_in(rest, here, depth, start, end, count, i);
        assert(rest.take(i) =~= children.take(i));
        lemma_points_within(last, below, next_depth(depth), stretch.0, stretch.1);
        lemma_plain_child(children, i);
        lemma_plain_child(children, children.len() - 1);
        assert forall|j: int| 0 <= j < more.len() implies (#[trigger] more[j]).0 != path by {
            if more[j].0 == path {
                lemma_siblings_apart(here, children[i].name(), last.name(), path);
            }
        }
        lemma_other_points(front, more, path);
    }
}

/// A directory directly in the root is done, as far as the progress is concerned, at the end
/// of its part, and the directories before it in the tree have their parts before it.
pub proof fn law_top_directories_finish_in_turn(tree: TreeView, i: int)
    requires
        plainly_named(tree.root),
        tree.root is Dir,
        0 <= i < tree.root->children.len(),
        tree.root->children[i] is Dir,
    ensures
        ({
            let children = tree.root->children;
            let points = point_map(finish_points(tree.root, seq![], 0, zero(), one()));
            finish_point(points, children[i].name()) == between_zero_and_one(
                child_stretch(
                    0,
                    zero(),
                    one(),
                    dir_count(children),
                    dir_count(children.take(i)),
                ).1,
            )
        }),
{
    let children = tree.root->children;
    let count = dir_count(children);
    let name = children[i].name();
    lemma_plain_child(children, i);
    lemma_finish_in(children, seq![], 0, zero(), one(), count, i);
    let front = finish_points_in(children, seq![], 0, zero(), one(), count);
    let end = seq![(Seq::<char>::empty(), between_zero_and_one(one()))];
    assert(front.push(end[0]) =~= front + end);
    assert(end[0].0 != name);
    lemma_other_points(front, end, name);
}

/// Only directories are counted where the progress is shared out.
pub proof fn law_directories_are_counted(nodes: Seq<NodeView>)
    ensures
        dir_count(nodes) == nodes.filter(|node: NodeView| node is Dir).len(),
    decreases nodes.len(),
{
    reveal(Seq::filter);
    if nodes.len() > 0 {
        law_directories_are_counted(nodes.drop_last());
    }
}

} // verus!
