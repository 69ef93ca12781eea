//! What the rows of a comparison say of the snapshots that are compared.

use crate::analysis::{RowView, SortMode, epsilon, full_path, indexed_in, indexes, is_child, is_child_row, is_first_mismatch, law_parent_of_child, law_share_of_a_part, lemma_row_order_asymmetric, lists_children, lowercase, mismatch, name_at, opens, parent_of, range_label, rescanned, root_delta, roots_match, row_at, row_comes_first, row_for, row_precedes, seen_as, share_of, size_at, sorts, stamp_of, stamps};
use crate::double::{Double, SIGNIFICAND_LIMIT, distance, exact_sum, is_nearest, law_difference_is_nearest, law_integer_is_nearest, law_less_compares_values, law_nearest_to_a_fraction, law_quotient_is_nearest, less, limited, negation, signed_steps, steps, sum_of};
use crate::gdu::NodeView;
use crate::index::{AnalysisErrorView, IndexView, SizeMetric, TreeView, child_path, index_of, one, size_value, sizes_of, whole, with_contents, with_contents_in, zero};
use crate::sort::{lemma_orders_arranges, precedes};
use crate::text::{last_place, lemma_last_place, lemma_text_less_irreflexive, lemma_text_less_transitive, text_less};
use crate::totals::{entry_of, is_dir_if_there, is_plain_name, law_index_mirrors_the_tree, lemma_children_are_found, lemma_name_in_some, lemma_parent_of_node, lemma_rows_add_up_in, node_at, node_in, plainly_named, row_paths, sum_at, tidy};
use vstd::arithmetic::power2::{lemma2_to64, lemma_pow2_adds, lemma_pow2_pos, pow2};
use vstd::prelude::*;

verus! {

/// The number is the part that one size is of another: nothing of nothing, one where both
/// are the same, and else the number nearest to the quotient. Sizes that do not fit in a
/// significand are rounded before they are divided.
pub open spec fn is_part(x: Double, part: u64, total: u64) -> bool {
    &&& total == 0 ==> x == zero()
    &&& part == 0 ==> x == zero()
    &&& part == total && total > 0 ==> x == one()
    &&& x.wf() && !x.negative && -120 <= x.exponent <= 13
    &&& part > 0 && total > 0 ==> x.significand > 0 && is_nearest(
        x,
        steps(whole(part as nat)),
        steps(whole(total as nat)),
    )
    &&& 0 < part < SIGNIFICAND_LIMIT && 0 < total < SIGNIFICAND_LIMIT ==> is_nearest(
        x,
        part as nat,
        total as nat,
    )
}

/// A share is the number nearest to the quotient of the sizes.
pub proof fn law_share_is_nearest(part: u64, total: u64)
    ensures
        is_part(share_of(part, total), part, total),
{
    let a = whole(part as nat);
    let b = whole(total as nat);
    law_integer_is_nearest(part);
    law_integer_is_nearest(total);
    if total > 0 {
        law_share_of_a_part(total, total);
    }
    if part > 0 && total > 0 {
        law_quotient_is_nearest(a, b);
        lemma_pow2_pos(2000);
        law_nearest_to_a_fraction(share_of(part, total), part as nat, total as nat, pow2(2000));
    }
}

/// The size of what a tree holds under a path, nothing where nothing is there.
pub open spec fn size_in(tree: TreeView, path: Seq<char>, metric: SizeMetric) -> u64 {
    match node_at(tree.root, seq![], path) {
        Some(node) => size_value(sizes_of(node), metric),
        None => 0,
    }
}

/// All names in the trees are plain.
pub open spec fn plain_trees(trees: Seq<TreeView>) -> bool {
    trees.len() > 0 && forall|i: int|
        0 <= i < trees.len() ==> plainly_named((#[trigger] trees[i]).root)
}

proof fn lemma_size_in(tree: TreeView, path: Seq<char>, metric: SizeMetric)
    requires
        plainly_named(tree.root),
    ensures
        size_at(index_of(tree), path, metric) == size_in(tree, path, metric),
{
    law_index_mirrors_the_tree(tree, path);
    assert(index_of(tree).entry_at(path) == index_of(tree).entry_at(path));
}

/// A row has one point for each snapshot, in their order, with the label of the snapshot
/// and the size that the path has in it.
pub proof fn law_timeline_shows_the_trees(
    trees: Seq<TreeView>,
    path: Seq<char>,
    metric: SizeMetric,
    row: RowView,
    k: int,
)
    requires
        plain_trees(trees),
        row_for(indexes(trees), path, metric) == Some(row),
        0 <= k < trees.len(),
    ensures
        row.path == path,
        row.timeline.len() == trees.len(),
        row.timeline[k].label == trees[k].label,
        row.timeline[k].size == size_in(trees[k], path, metric),
{
    assert(indexes(trees)[k] == index_of(trees[k]));
    lemma_size_in(trees[k], path, metric);
    if path.len() == 0 {
        assert(path =~= seq![]);
    }
}

/// In every snapshot the local share of a path is its part of what stands in front of its
/// last separator, and of the root where there is none. The root share is its part of the
/// root. This holds of any index, whatever its names are.
pub proof fn law_shares_of_paths(
    all: Seq<IndexView>,
    parent: Seq<char>,
    rest: Seq<char>,
    metric: SizeMetric,
    row: RowView,
    k: int,
)
    requires
        !rest.contains('/'),
        0 <= k < all.len(),
    ensures
        rest.len() > 0 && row_for(all, rest, metric) == Some(row) ==> {
            let size = size_at(all[k], rest, metric);
            let root = size_at(all[k], seq![], metric);
            row.timeline[k].size == size && is_part(row.timeline[k].local_share, size, root)
                && is_part(row.timeline[k].root_share, size, root)
        },
        row_for(all, parent + seq!['/'] + rest, metric) == Some(row) ==> {
            let size = size_at(all[k], parent + seq!['/'] + rest, metric);
            let root = size_at(all[k], seq![], metric);
            let above = size_at(all[k], parent, metric);
            row.timeline[k].size == size && is_part(row.timeline[k].local_share, size, above)
                && is_part(row.timeline[k].root_share, size, root)
        },
{
    let root = size_at(all[k], seq![], metric);
    let above = size_at(all[k], parent, metric);
    let path = parent + seq!['/'] + rest;
    lemma_last_place(rest, '/');
    if last_place(rest, '/') >= 0 {
        assert(rest.contains(rest[last_place(rest, '/')]));
    }
    lemma_last_place(path, '/');
    let p = last_place(path, '/');
    assert(path[parent.len() as int] == '/');
    if p > parent.len() {
        assert(path[p] == rest[p - parent.len() - 1]);
        assert(rest.contains(rest[p - parent.len() - 1]));
    }
    assert(path.take(p) =~= parent);
    law_share_is_nearest(size_at(all[k], rest, metric), root);
    law_share_is_nearest(size_at(all[k], path, metric), above);
    law_share_is_nearest(size_at(all[k], path, metric), root);
}

/// In every snapshot the local share of an entry is its part of the directory that it is
/// in, at any depth: nothing where the directory is empty or missing, one where the entry
/// makes up the whole directory.
pub proof fn law_local_share(
    trees: Seq<TreeView>,
    parent: Seq<char>,
    name: Seq<char>,
    metric: SizeMetric,
    row: RowView,
    k: int,
)
    requires
        plain_trees(trees),
        is_plain_name(name),
        row_for(indexes(trees), child_path(parent, name), metric) == Some(row),
        0 <= k < trees.len(),
    ensures
        is_part(
            row.timeline[k].local_share,
            size_in(trees[k], child_path(parent, name), metric),
            size_in(trees[k], parent, metric),
        ),
{
    let path = child_path(parent, name);
    assert(indexes(trees)[k] == index_of(trees[k]));
    lemma_size_in(trees[k], path, metric);
    lemma_size_in(trees[k], parent, metric);
    law_parent_of_child(parent, name);
    assert(path.len() > 0);
    law_share_is_nearest(size_in(trees[k], path, metric), size_in(trees[k], parent, metric));
}

/// In every snapshot the root share of an entry is its part of the root.
pub proof fn law_root_share(
    trees: Seq<TreeView>,
    path: Seq<char>,
    metric: SizeMetric,
    row: RowView,
    k: int,
)
    requires
        plain_trees(trees),
        path.len() > 0,
        row_for(indexes(trees), path, metric) == Some(row),
        0 <= k < trees.len(),
    ensures
        is_part(
            row.timeline[k].root_share,
            size_in(trees[k], path, metric),
            size_in(trees[k], seq![], metric),
        ),
{
    assert(indexes(trees)[k] == index_of(trees[k]));
    lemma_size_in(trees[k], path, metric);
    lemma_size_in(trees[k], seq![], metric);
    law_share_is_nearest(size_in(trees[k], path, metric), size_in(trees[k], seq![], metric));
}

/// What is directly in the root has the same local and root share.
pub proof fn law_shares_agree_at_the_top(
    all: Seq<IndexView>,
    name: Seq<char>,
    metric: SizeMetric,
    row: RowView,
    k: int,
)
    requires
        is_plain_name(name),
        row_for(all, name, metric) == Some(row),
        0 <= k < all.len(),
    ensures
        row.timeline[k].local_share == row.timeline[k].root_share,
{
    law_parent_of_child(seq![], name);
}

/// The number is the difference of two shares, rounded: the exact difference is off by at
/// most half of the last bit, and the sign is that of the exact difference.
pub open spec fn is_change(x: Double, latest: Double, baseline: Double) -> bool {
    &&& latest == baseline ==> x == zero()
    &&& x == zero() <==> steps(latest) == steps(baseline)
    &&& x.negative <==> steps(latest) < steps(baseline)
    &&& x.significand > 0 ==> 2 * distance(signed_steps(x), steps(latest) - steps(baseline))
        <= pow2((x.exponent + 2000) as nat)
}

/// Every local share of the row is a number from nothing up, and every root share.
proof fn lemma_share_range(part: u64, total: u64)
    ensures
        limited(share_of(part, total)),
        share_of(part, total).exponent >= -120,
{
    law_share_is_nearest(part, total);
}

/// The sizes and local shares that a row gives for the first and the last snapshot are
/// those of the first and the last point of its timeline. Its changes are the differences
/// of these two, whatever lies in between.
pub proof fn law_rows_compare_first_and_last(
    all: Seq<IndexView>,
    path: Seq<char>,
    metric: SizeMetric,
    row: RowView,
)
    requires
        all.len() > 0,
        row_for(all, path, metric) == Some(row),
    ensures
        row.path == path,
        row.timeline.len() == all.len(),
        row.baseline_size == row.timeline[0].size,
        row.latest_size == row.timeline.last().size,
        row.baseline_local_share == row.timeline[0].local_share,
        row.latest_local_share == row.timeline.last().local_share,
        is_change(row.local_share_delta, row.latest_local_share, row.baseline_local_share),
        (row.delta - (row.latest_size - row.baseline_size)) % 0x1_0000_0000_0000_0000 == 0,
        -0x8000_0000_0000_0000 <= row.latest_size - row.baseline_size < 0x8000_0000_0000_0000
            ==> row.delta == row.latest_size - row.baseline_size,
{
    let a = row.latest_local_share;
    let b = row.baseline_local_share;
    if path.len() == 0 {
        assert(path =~= seq![]);
    } else {
        let n = all.len() - 1;
        let up = parent_of(path)->Some_0;
        lemma_share_range(size_at(all[0], path, metric), size_at(all[0], up, metric));
        lemma_share_range(size_at(all[n], path, metric), size_at(all[n], up, metric));
        law_difference_is_nearest(a, b);
    }
}

/// Two comparisons with the same first and the same last snapshot show the same sizes,
/// shares and changes in the rows of a path: a snapshot in between changes none of them.
pub proof fn law_snapshots_between_do_not_count(
    all: Seq<IndexView>,
    other: Seq<IndexView>,
    path: Seq<char>,
    metric: SizeMetric,
    row: RowView,
    other_row: RowView,
)
    requires
        all.len() > 0,
        other.len() > 0,
        all[0] == other[0],
        all.last() == other.last(),
        row_for(all, path, metric) == Some(row),
        row_for(other, path, metric) == Some(other_row),
    ensures
        row.change_kind == other_row.change_kind,
        row.baseline_size == other_row.baseline_size,
        row.latest_size == other_row.latest_size,
        row.delta == other_row.delta,
        row.baseline_local_share == other_row.baseline_local_share,
        row.latest_local_share == other_row.latest_local_share,
        row.local_share_delta == other_row.local_share_delta,
        row.timeline[0] == other_row.timeline[0],
        row.timeline.last() == other_row.timeline.last(),
{
}

/// The sum of the sizes of some rows in one of the snapshots.
pub open spec fn point_total(rows: Seq<RowView>, k: int) -> nat
    decreases rows.len(),
{
    if rows.len() == 0 {
        0
    } else {
        point_total(rows.drop_last(), k) + rows.last().timeline[k].size as nat
    }
}

proof fn lemma_point_total(all: Seq<IndexView>, rows: Seq<RowView>, k: int, metric: SizeMetric)
    requires
        forall|i: int|
            0 <= i < rows.len() ==> (#[trigger] rows[i]).timeline[k].size == size_at(
                all[k],
                rows[i].path,
                metric,
            ),
    ensures
        point_total(rows, k) == sum_at(all[k], row_paths(rows), metric),
    decreases rows.len(),
{
    if rows.len() > 0 {
        lemma_point_total(all, rows.drop_last(), k, metric);
        assert(row_paths(rows).drop_last() =~= row_paths(rows.drop_last()));
    }
}

/// In every snapshot the sizes of the entries of a directory add up to the size of the
/// directory, so that their exact local shares add up to one where it is not empty.
pub proof fn law_local_shares_add_up(
    trees: Seq<TreeView>,
    parent: Seq<char>,
    metric: SizeMetric,
    sort: SortMode,
    rows: Seq<RowView>,
    k: int,
)
    requires
        trees.len() > 0,
        forall|i: int| 0 <= i < trees.len() ==> tidy(#[trigger] trees[i], metric),
        is_dir_if_there(trees[k], parent),
        lists_children(indexes(trees), parent, true, metric, sort, rows),
        0 <= k < trees.len(),
    ensures
        point_total(rows, k) == size_in(trees[k], parent, metric),
        forall|i: int|
            0 <= i < rows.len() ==> is_part(
                (#[trigger] rows[i]).timeline[k].local_share,
                rows[i].timeline[k].size,
                size_in(trees[k], parent, metric),
            ),
{
    let all = indexes(trees);
    assert(tidy(trees[k], metric));
    lemma_rows_add_up_in(trees, k, parent, metric, sort, rows);
    lemma_size_in(trees[k], parent, metric);
    assert forall|i: int| 0 <= i < trees.len() implies plainly_named((#[trigger] trees[i]).root) by {
        assert(tidy(trees[i], metric));
    }
    assert forall|i: int| 0 <= i < rows.len() implies (#[trigger] rows[i]).timeline[k].size
        == size_at(all[k], rows[i].path, metric) && is_part(
        rows[i].timeline[k].local_share,
        rows[i].timeline[k].size,
        size_in(trees[k], parent, metric),
    ) by {
        law_listed_rows_are_entries(trees, parent, true, metric, sort, rows, i);
        law_local_share(trees, parent, rows[i].name, metric, rows[i], k);
        law_timeline_shows_the_trees(trees, rows[i].path, metric, rows[i], k);
        lemma_size_in(trees[k], rows[i].path, metric);
    }
    lemma_point_total(all, rows, k, metric);
}

proof fn lemma_name_is_somewhere(all: Seq<IndexView>, path: Seq<char>) -> (i: int)
    requires
        name_at(all, path) is Some,
    ensures
        0 <= i < all.len(),
        all[i].entries.contains_key(path),
        name_at(all, path) == Some(all[i].entries[path].name),
        forall|j: int| 0 <= j < i ==> !(#[trigger] all[j]).entries.contains_key(path),
    decreases all.len(),
{
    if name_at(all.drop_last(), path) is Some {
        let i = lemma_name_is_somewhere(all.drop_last(), path);
        assert forall|j: int| 0 <= j < i implies !(#[trigger] all[j]).entries.contains_key(
            path,
        ) by {
            assert(all.drop_last()[j] == all[j]);
        }
        i
    } else {
        assert forall|j: int| 0 <= j < all.len() - 1 implies !(
        #[trigger] all[j]).entries.contains_key(path) by {
            if all[j].entries.contains_key(path) {
                assert(all.drop_last()[j] == all[j]);
                lemma_name_in_some(all.drop_last(), path, j);
            }
        }
        all.len() - 1
    }
}

/// The path ends with the name, in the directory.
proof fn lemma_same_name(parent: Seq<char>, a: Seq<char>, b: Seq<char>)
    requires
        child_path(parent, a) == child_path(parent, b),
    ensures
        a == b,
{
    reveal_strlit("/");
    if parent.len() > 0 {
        let n = parent.len() + 1;
        let x = child_path(parent, a);
        assert(x.skip(n as int) =~= a);
        assert(child_path(parent, b).skip(n as int) =~= b);
    }
}

/// A row of a directory is named after an entry of the directory in some snapshot, and
/// is the row of its path.
pub proof fn law_listed_rows_are_entries(
    trees: Seq<TreeView>,
    parent: Seq<char>,
    include_files: bool,
    metric: SizeMetric,
    sort: SortMode,
    rows: Seq<RowView>,
    i: int,
)
    requires
        plain_trees(trees),
        lists_children(indexes(trees), parent, include_files, metric, sort, rows),
        0 <= i < rows.len(),
    ensures
        is_plain_name(rows[i].name),
        rows[i].path == child_path(parent, rows[i].name),
        row_for(indexes(trees), rows[i].path, metric) == Some(rows[i]),
        include_files || opens(rows[i].kind),
        exists|k: int|
            0 <= k < trees.len() && node_at(
                (#[trigger] trees[k]).root,
                seq![],
                rows[i].path,
            ) is Some,
        forall|j: int| 0 <= j < rows.len() && j != i ==> (#[trigger] rows[j]).path != rows[i].path,
{
    reveal(lists_children);
    let all = indexes(trees);
    let row = rows[i];
    assert(is_child_row(all, parent, include_files, metric, row));
    let name = choose|name: Seq<char>| #[trigger]
        is_child(all, parent, name) && row_at(all, child_path(parent, name), metric) == Some(row)
            && (include_files || opens(row.kind));
    let (m, path) = choose|m: int, path: Seq<char>|
        0 <= m < all.len() && #[trigger] all[m].entries.contains_key(path)
            && all[m].entries[path].parent == Some(parent) && all[m].entries[path].name == name;
    assert(all[m] == index_of(trees[m]));
    law_index_mirrors_the_tree(trees[m], path);
    if path.len() == 0 {
        assert(path =~= seq![]);
    }
    let place = lemma_parent_of_node(trees[m].root, seq![], path);
    lemma_children_are_found(trees[m].root, seq![], parent, place);
    let full = child_path(parent, name);
    let k = lemma_name_is_somewhere(all, full);
    assert(all[k] == index_of(trees[k]));
    law_index_mirrors_the_tree(trees[k], full);
    let other = lemma_parent_of_node(trees[k].root, seq![], full);
    law_parent_of_child(parent, name);
    lemma_same_name(parent, name, node_at(trees[k].root, seq![], full)->Some_0.name());
    assert(node_at(trees[k].root, seq![], row.path) is Some);
    assert forall|j: int| 0 <= j < rows.len() && j != i implies (#[trigger] rows[j]).path
        != row.path by {
        assert(is_child_row(all, parent, include_files, metric, rows[j]));
        if rows[j].path == row.path {
            assert(row_at(all, rows[j].path, metric) == Some(rows[j]));
            if i < j {
                assert(row_comes_first(sort, rows[i], rows[j]));
                lemma_row_order_asymmetric(sort, rows[i], rows[j]);
            } else {
                assert(row_comes_first(sort, rows[j], rows[i]));
                lemma_row_order_asymmetric(sort, rows[j], rows[i]);
            }
        }
    }
}

/// What a path is in the snapshots decides the kind of its row: a directory where it is
/// only ever a directory, a file where it is only ever a file, else both.
pub proof fn law_row_kinds(
    trees: Seq<TreeView>,
    path: Seq<char>,
    metric: SizeMetric,
    row: RowView,
)
    requires
        plain_trees(trees),
        path.len() > 0,
        row_for(indexes(trees), path, metric) == Some(row),
    ensures
        row.kind is File <==> forall|k: int|
            0 <= k < trees.len() ==> !(node_at(
                (#[trigger] trees[k]).root,
                seq![],
                path,
            ) matches Some(node) && node is Dir),
        row.kind is Dir <==> forall|k: int|
            0 <= k < trees.len() ==> !(node_at(
                (#[trigger] trees[k]).root,
                seq![],
                path,
            ) matches Some(node) && node is File),
        exists|k: int|
            0 <= k < trees.len() && node_at((#[trigger] trees[k]).root, seq![], path) is Some,
{
    let all = indexes(trees);
    assert forall|k: int| 0 <= k < trees.len() implies (match node_at(
        (#[trigger] trees[k]).root,
        seq![],
        path,
    ) {
        Some(node) => all[k].entries.contains_key(path) && all[k].entries[path].is_dir == (
        node is Dir),
        None => !all[k].entries.contains_key(path),
    }) by {
        law_index_mirrors_the_tree(trees[k], path);
        assert(index_of(trees[k]).entry_at(path) == all[k].entry_at(path));
    }
    let m = lemma_name_is_somewhere(all, path);
    assert(node_at(trees[m].root, seq![], path) is Some);
    assert(all[m].entries.contains_key(path));
    if exists|k: int|
        0 <= k < trees.len() && (node_at(
            (#[trigger] trees[k]).root,
            seq![],
            path,
        ) matches Some(node) && node is Dir) {
        let k = choose|k: int|
            0 <= k < trees.len() && (node_at(
                (#[trigger] trees[k]).root,
                seq![],
                path,
            ) matches Some(node) && node is Dir);
        assert(all[k].entries.contains_key(path));
        assert(seen_as(all, path, true));
    }
    if exists|k: int|
        0 <= k < trees.len() && (node_at(
            (#[trigger] trees[k]).root,
            seq![],
            path,
        ) matches Some(node) && node is File) {
        let k = choose|k: int|
            0 <= k < trees.len() && (node_at(
                (#[trigger] trees[k]).root,
                seq![],
                path,
            ) matches Some(node) && node is File);
        assert(all[k].entries.contains_key(path));
        assert(seen_as(all, path, false));
    }
    if seen_as(all, path, true) {
        let k = choose|k: int|
            0 <= k < all.len() && (#[trigger] all[k]).entries.contains_key(path)
                && all[k].entries[path].is_dir == true;
        assert(node_at(trees[k].root, seq![], path) is Some);
    }
    if seen_as(all, path, false) {
        let k = choose|k: int|
            0 <= k < all.len() && (#[trigger] all[k]).entries.contains_key(path)
                && all[k].entries[path].is_dir == false;
        assert(node_at(trees[k].root, seq![], path) is Some);
    }
}

/// Every entry that a directory has in some snapshot is listed, but for files where
/// files are left out.
pub proof fn law_every_entry_is_listed(
    trees: Seq<TreeView>,
    parent: Seq<char>,
    include_files: bool,
    metric: SizeMetric,
    sort: SortMode,
    rows: Seq<RowView>,
    k: int,
    i: int,
)
    requires
        plain_trees(trees),
        lists_children(indexes(trees), parent, include_files, metric, sort, rows),
        0 <= k < trees.len(),
        node_at(trees[k].root, seq![], parent) is Some,
        node_at(trees[k].root, seq![], parent)->Some_0 is Dir,
        0 <= i < node_at(trees[k].root, seq![], parent)->Some_0->children.len(),
        include_files || node_at(trees[k].root, seq![], parent)->Some_0->children[i] is Dir,
    ensures
        exists|j: int|
            0 <= j < rows.len() && (#[trigger] rows[j]).name == node_at(
                trees[k].root,
                seq![],
                parent,
            )->Some_0->children[i].name(),
{
    reveal(lists_children);
    let all = indexes(trees);
    let child = node_at(trees[k].root, seq![], parent)->Some_0->children[i];
    let name = child.name();
    let path = child_path(parent, name);
    lemma_children_are_found(trees[k].root, seq![], parent, i);
    law_index_mirrors_the_tree(trees[k], path);
    law_parent_of_child(parent, name);
    assert(all[k] == index_of(trees[k]));
    assert(all[k].entries.contains_key(path));
    assert(is_child(all, parent, name));
    lemma_name_in_some(all, path, k);
    let row = row_at(all, path, metric)->Some_0;
    assert(path.len() > 0);
    if child is Dir {
        assert(seen_as(all, path, true));
    }
    assert(is_child_row(all, parent, include_files, metric, row));
    let j = choose|j: int| 0 <= j < rows.len() && rows[j] == row;
    law_listed_rows_are_entries(trees, parent, include_files, metric, sort, rows, j);
    lemma_same_name(parent, name, rows[j].name);
}

/// Where files are left out, the rows are those of the full list that can be opened, in
/// the same order.
pub proof fn law_leaving_files_out(
    all: Seq<IndexView>,
    parent: Seq<char>,
    metric: SizeMetric,
    sort: SortMode,
    full: Seq<RowView>,
    rows: Seq<RowView>,
)
    requires
        lists_children(all, parent, true, metric, sort, full),
        lists_children(all, parent, false, metric, sort, rows),
    ensures
        forall|row: RowView| #[trigger]
            rows.contains(row) <==> full.contains(row) && opens(row.kind),
        forall|i: int, j: int, a: int, b: int|
            0 <= i < rows.len() && 0 <= j < rows.len() && 0 <= a < full.len() && 0 <= b
                < full.len() && #[trigger] rows[i] == #[trigger] full[a] && #[trigger] rows[j]
                == #[trigger] full[b] && i < j ==> a < b,
{
    reveal(lists_children);
    assert forall|row: RowView| #[trigger] rows.contains(row) implies full.contains(row)
        && opens(row.kind) by {
        let i = choose|i: int| 0 <= i < rows.len() && rows[i] == row;
        assert(is_child_row(all, parent, false, metric, rows[i]));
        let name = choose|name: Seq<char>| #[trigger]
            is_child(all, parent, name) && row_at(all, child_path(parent, name), metric) == Some(
                row,
            ) && (false || opens(row.kind));
        assert(is_child(all, parent, name));
        assert(is_child_row(all, parent, true, metric, row));
    }
    assert forall|row: RowView| full.contains(row) && opens(row.kind) implies #[trigger] rows.contains(
        row,
    ) by {
        let i = choose|i: int| 0 <= i < full.len() && full[i] == row;
        assert(is_child_row(all, parent, true, metric, full[i]));
        let name = choose|name: Seq<char>| #[trigger]
            is_child(all, parent, name) && row_at(all, child_path(parent, name), metric) == Some(
                row,
            );
        assert(is_child(all, parent, name));
        assert(is_child_row(all, parent, false, metric, row));
    }
    assert forall|i: int, j: int, a: int, b: int|
        0 <= i < rows.len() && 0 <= j < rows.len() && 0 <= a < full.len() && 0 <= b < full.len()
            && #[trigger] rows[i] == #[trigger] full[a] && #[trigger] rows[j]
            == #[trigger] full[b] && i < j implies a < b by {
        assert(row_comes_first(sort, rows[i], rows[j]));
        lemma_row_order_asymmetric(sort, rows[i], rows[j]);
        if b < a {
            assert(row_comes_first(sort, full[b], full[a]));
        }
    }
}

/// Directories before files, and within each the names in lower case in their order.
pub open spec fn kinds_and_names_in_order(a: RowView, b: RowView) -> bool {
    &&& opens(b.kind) ==> opens(a.kind)
    &&& opens(a.kind) == opens(b.kind) ==> !text_less(lowercase(b.name), lowercase(a.name))
}

/// What the rows of a list show is in the order of the sort mode: sizes, changes of the
/// size and changes of the share from the greatest to the least. Where these are the same
/// directories come before files, and then the names and the paths count.
pub proof fn law_rows_are_in_order(
    all: Seq<IndexView>,
    parent: Seq<char>,
    include_files: bool,
    metric: SizeMetric,
    sort: SortMode,
    rows: Seq<RowView>,
    i: int,
    j: int,
)
    requires
        lists_children(all, parent, include_files, metric, sort, rows),
        0 <= i < j < rows.len(),
    ensures
        sort is LatestSize ==> rows[i].latest_size >= rows[j].latest_size,
        sort is LatestSize && rows[i].latest_size == rows[j].latest_size
            ==> kinds_and_names_in_order(rows[i], rows[j]),
        sort is Delta ==> rows[i].delta >= rows[j].delta,
        sort is Delta && rows[i].delta == rows[j].delta ==> kinds_and_names_in_order(
            rows[i],
            rows[j],
        ),
        sort is ShareDelta ==> !less(rows[i].local_share_delta, rows[j].local_share_delta),
        sort is ShareDelta && rows[i].local_share_delta == rows[j].local_share_delta
            ==> kinds_and_names_in_order(rows[i], rows[j]),
        sort is Name ==> kinds_and_names_in_order(rows[i], rows[j]),
        sort is Name && opens(rows[i].kind) == opens(rows[j].kind) && lowercase(rows[i].name)
            == lowercase(rows[j].name) ==> text_less(rows[i].path, rows[j].path),
{
    reveal(lists_children);
    let a = rows[i];
    let b = rows[j];
    assert(row_comes_first(sort, a, b));
    let x = lowercase(a.name);
    let y = lowercase(b.name);
    lemma_text_less_irreflexive(x);
    if text_less(x, y) && text_less(y, x) {
        lemma_text_less_transitive(x, y, x);
    }
    lemma_less_itself(a.local_share_delta);
    lemma_less_both_ways(a.local_share_delta, b.local_share_delta);
}

proof fn lemma_less_itself(x: Double)
    ensures
        !less(x, x),
{
}

proof fn lemma_less_both_ways(x: Double, y: Double)
    ensures
        !(less(x, y) && less(y, x)),
{
}

/// Sorting keeps every row, each once, and puts what the rows show in the order of the
/// sort mode; rows that nothing tells apart keep their order.
pub proof fn law_sorting_orders_what_rows_show(
    sort: SortMode,
    rows: Seq<RowView>,
    lowered: Seq<Seq<char>>,
    places: Seq<usize>,
    i: int,
    j: int,
)
    requires
        sorts(sort, rows, lowered, places),
        lowered.len() == rows.len(),
        0 <= i < j < rows.len(),
    ensures
        places.len() == rows.len(),
        places[i] < rows.len() && places[j] < rows.len(),
        places[i] != places[j],
        ({
            let a = rows[places[i] as int];
            let b = rows[places[j] as int];
            let x = lowered[places[i] as int];
            let y = lowered[places[j] as int];
            let tied = {
                &&& opens(b.kind) ==> opens(a.kind)
                &&& opens(a.kind) == opens(b.kind) ==> !text_less(y, x)
                &&& opens(a.kind) == opens(b.kind) && x == y ==> places[i] < places[j]
            };
            &&& sort is LatestSize ==> a.latest_size >= b.latest_size
            &&& sort is LatestSize && a.latest_size == b.latest_size ==> tied
            &&& sort is Delta ==> a.delta >= b.delta
            &&& sort is Delta && a.delta == b.delta ==> tied
            &&& sort is ShareDelta ==> !less(a.local_share_delta, b.local_share_delta)
            &&& sort is ShareDelta && a.local_share_delta == b.local_share_delta ==> tied
            &&& sort is Name ==> tied
        }),
{
    let a = rows[places[i] as int];
    let b = rows[places[j] as int];
    let x = lowered[places[i] as int];
    let y = lowered[places[j] as int];
    assert(row_precedes(sort, rows, lowered, places[i] as int, places[j] as int));
    lemma_text_less_irreflexive(x);
    if text_less(x, y) && text_less(y, x) {
        lemma_text_less_transitive(x, y, x);
    }
    lemma_less_itself(a.local_share_delta);
    lemma_less_both_ways(a.local_share_delta, b.local_share_delta);
}

/// Snapshots are compared in the order of their export. Those of which the time is not
/// known come last, and those exported at the same time keep their order.
pub proof fn law_snapshots_are_in_order(
    trees: Seq<TreeView>,
    all: Seq<IndexView>,
    places: Seq<usize>,
    i: int,
    j: int,
)
    requires
        indexed_in(trees, all, places),
        0 <= i < j < trees.len(),
    ensures
        all.len() == trees.len(),
        places[i] < trees.len() && places[j] < trees.len(),
        places[i] != places[j],
        all[i] == index_of(trees[places[i] as int]),
        all[j] == index_of(trees[places[j] as int]),
        all[i].label == trees[places[i] as int].label,
        trees[places[i] as int].exported_at matches Some(a) ==> trees[places[j] as int].exported_at
            matches Some(b) ==> a <= b,
        trees[places[i] as int].exported_at is None ==> (match trees[places[j] as int].exported_at {
            Some(b) => b == u64::MAX,
            None => true,
        }),
        trees[places[i] as int].exported_at == trees[places[j] as int].exported_at ==> places[i]
            < places[j],
{
    let marks = stamps(trees);
    lemma_orders_arranges(marks, places);
    assert(precedes(marks, places[i] as int, places[j] as int));
    assert(marks[places[i] as int] == stamp_of(trees[places[i] as int]));
    assert(marks[places[j] as int] == stamp_of(trees[places[j] as int]));
}

/// The row of the root is a directory that makes up all of itself in every snapshot; it
/// is shown as changed where its size differs.
pub proof fn law_root_row(trees: Seq<TreeView>, metric: SizeMetric, row: RowView, k: int)
    requires
        plain_trees(trees),
        row_for(indexes(trees), seq![], metric) == Some(row),
        0 <= k < trees.len(),
    ensures
        row.name == trees.last().root.name(),
        row.kind is Dir,
        row.timeline[k].size == size_value(sizes_of(trees[k].root), metric),
        row.timeline[k].local_share == one(),
        row.timeline[k].root_share == one(),
        row.latest_local_share == one(),
        row.baseline_local_share == one(),
        row.local_share_delta == zero(),
        row.change_kind is Unchanged <==> row.delta == 0,
        row.change_kind is Changed <==> row.delta != 0,
{
    assert(indexes(trees)[k] == index_of(trees[k]));
    law_index_mirrors_the_tree(trees[k], seq![]);
    assert(index_of(trees[k]).entry_at(seq![]) == Some(entry_of(trees[k].root, None)));
}

/// Taking the difference the other way round only turns the sign.
proof fn lemma_difference_turned(a: Double, b: Double)
    requires
        !a.negative,
        !b.negative,
    ensures
        sum_of(a, negation(b)).significand == sum_of(b, negation(a)).significand,
        sum_of(a, negation(b)).exponent == sum_of(b, negation(a)).exponent,
{
    let m = if a.exponent <= b.exponent {
        a.exponent as int
    } else {
        b.exponent as int
    };
    let x = a.significand * pow2((a.exponent - m) as nat);
    let y = b.significand * pow2((b.exponent - m) as nat);
    if a.significand == 0 {
        assert(0 * pow2((a.exponent - m) as nat) == 0);
    }
    if b.significand == 0 {
        assert(0 * pow2((b.exponent - m) as nat) == 0);
    }
    assert(exact_sum(a, negation(b)) == x - y);
    assert(exact_sum(b, negation(a)) == y - x);
}

/// A path that is there in the first and in the last snapshot is shown as changed where
/// its size differs between them, or where its local share differs by more than the
/// distance from one to the next number, two to the power of -52.
pub proof fn law_changed_rows(
    all: Seq<IndexView>,
    path: Seq<char>,
    metric: SizeMetric,
    row: RowView,
)
    requires
        all.len() > 0,
        path.len() > 0,
        row_for(all, path, metric) == Some(row),
    ensures
        ({
            let first = all[0].entries.contains_key(path);
            let last = all.last().entries.contains_key(path);
            &&& row.change_kind is Added <==> !first && last
            &&& row.change_kind is Removed <==> first && !last
            &&& row.change_kind is Changed <==> first == last && (row.latest_size
                != row.baseline_size || steps(row.local_share_delta) > pow2(1948))
            &&& row.change_kind is Unchanged ==> row.delta == 0
        }),
{
    let a = row.latest_local_share;
    let b = row.baseline_local_share;
    let n = all.len() - 1;
    let up = parent_of(path)->Some_0;
    lemma_share_range(size_at(all[0], path, metric), size_at(all[0], up, metric));
    lemma_share_range(size_at(all[n], path, metric), size_at(all[n], up, metric));
    law_difference_is_nearest(b, a);
    lemma_difference_turned(a, b);
    let x = sum_of(b, negation(a));
    law_less_compares_values(epsilon(), x);
    lemma2_to64();
    lemma_pow2_adds(32, 20);
    lemma_pow2_adds(52, 1896);
    assert(steps(epsilon()) == pow2(1948));
    assert(steps(x) == steps(row.local_share_delta));
    let d = row.latest_size - row.baseline_size;
    assert(row.delta == 0 <==> d == 0);
}

proof fn lemma_replaced(node: NodeView, here: Seq<char>, path: Seq<char>, contents: Seq<NodeView>)
    ensures
        with_contents(node, here, path, contents).name() == node.name(),
        node_at(with_contents(node, here, path, contents), here, path) == match node_at(
            node,
            here,
            path,
        ) {
            Some(NodeView::Dir { name, .. }) => Some(NodeView::Dir { name, children: contents }),
            other => other,
        },
    decreases node,
{
    match node {
        NodeView::File { .. } => {},
        NodeView::Dir { name, children } => {
            if here != path {
                lemma_replaced_in(children, here, path, contents);
            }
        },
    }
}

proof fn lemma_replaced_in(
    children: Seq<NodeView>,
    here: Seq<char>,
    path: Seq<char>,
    contents: Seq<NodeView>,
)
    ensures
        node_in(with_contents_in(children, here, path, contents), here, path) == match node_in(
            children,
            here,
            path,
        ) {
            Some(NodeView::Dir { name, .. }) => Some(NodeView::Dir { name, children: contents }),
            other => other,
        },
    decreases children,
{
    if children.len() > 0 {
        let after = with_contents_in(children, here, path, contents);
        lemma_replaced_in(children.drop_last(), here, path, contents);
        lemma_replaced(children.last(), child_path(here, children.last().name()), path, contents);
        assert(after.drop_last() =~= with_contents_in(
            children.drop_last(),
            here,
            path,
            contents,
        ));
    }
}

/// After a directory has been scanned again the last snapshot holds in it what was found,
/// under the name that the directory had; where a file was found nothing changes.
pub proof fn law_rescan_takes_what_was_found(
    latest: NodeView,
    path: Seq<char>,
    found: NodeView,
)
    ensures
        found is File ==> rescanned(latest, path, found) == latest,
        found is Dir ==> node_at(rescanned(latest, path, found), seq![], path) == match node_at(
            latest,
            seq![],
            path,
        ) {
            Some(NodeView::Dir { name, .. }) => Some(
                NodeView::Dir { name, children: found->children },
            ),
            other => other,
        },
        rescanned(latest, path, found).name() == latest.name(),
{
    if found is Dir {
        lemma_replaced(latest, seq![], path, found->children);
    }
}

/// There is a row for the root, and for every path that some snapshot holds, and for no
/// other.
pub proof fn law_rows_exist(trees: Seq<TreeView>, path: Seq<char>, metric: SizeMetric)
    requires
        plain_trees(trees),
    ensures
        row_for(indexes(trees), path, metric) is Some <==> path.len() == 0 || exists|k: int|
            0 <= k < trees.len() && node_at((#[trigger] trees[k]).root, seq![], path) is Some,
{
    let all = indexes(trees);
    if path.len() > 0 {
        if row_for(all, path, metric) is Some {
            let k = lemma_name_is_somewhere(all, path);
            law_index_mirrors_the_tree(trees[k], path);
            assert(node_at(trees[k].root, seq![], path) is Some);
        }
        if exists|k: int|
            0 <= k < trees.len() && node_at((#[trigger] trees[k]).root, seq![], path) is Some {
            let k = choose|k: int|
                0 <= k < trees.len() && node_at((#[trigger] trees[k]).root, seq![], path) is Some;
            law_index_mirrors_the_tree(trees[k], path);
            assert(all[k].entry_at(path) is Some);
            lemma_name_in_some(all, path, k);
        }
    }
}

/// The size of a file is the one of its two sizes that the metric asks for.
pub proof fn law_sizes_of_files(
    tree: TreeView,
    path: Seq<char>,
    name: Seq<char>,
    apparent: u64,
    disk: u64,
)
    requires
        node_at(tree.root, seq![], path) == Some(
            NodeView::File { name, apparent_size: apparent, disk_size: disk },
        ),
    ensures
        size_in(tree, path, SizeMetric::Apparent) == apparent,
        size_in(tree, path, SizeMetric::Disk) == disk,
{
}

/// The change of the root share is the difference of those in the first and in the last
/// snapshot.
pub proof fn law_root_shares_compare_first_and_last(
    all: Seq<IndexView>,
    path: Seq<char>,
    metric: SizeMetric,
    row: RowView,
)
    requires
        all.len() > 0,
        row_for(all, path, metric) == Some(row),
    ensures
        is_change(
            root_delta(row),
            row.timeline.last().root_share,
            row.timeline[0].root_share,
        ),
{
    let a = row.timeline.last().root_share;
    let b = row.timeline[0].root_share;
    let n = all.len() - 1;
    if path.len() > 0 {
        lemma_share_range(size_at(all[0], path, metric), size_at(all[0], seq![], metric));
        lemma_share_range(size_at(all[n], path, metric), size_at(all[n], seq![], metric));
    }
    law_difference_is_nearest(a, b);
}

/// The full path of an entry is that of its directory, a separator and its name.
pub proof fn law_full_paths(all: Seq<IndexView>, parent: Seq<char>, name: Seq<char>)
    requires
        is_plain_name(name),
    ensures
        full_path(all, child_path(parent, name)) == full_path(all, parent) + seq!['/'] + name,
        full_path(all, seq![]) == all.last().root_name,
{
    reveal_strlit("/");
    assert("/"@ =~= seq!['/']);
    assert(full_path(all, child_path(parent, name)) =~= full_path(all, parent) + seq!['/'] + name);
}

/// The range of the comparison starts with the label of the first snapshot and ends with
/// that of the last one.
pub proof fn law_range_names_first_and_last(all: Seq<IndexView>)
    requires
        all.len() > 0,
    ensures
        all[0].label.is_prefix_of(range_label(all)),
        all.last().label.is_suffix_of(range_label(all)),
{
    let text = range_label(all);
    let a = all[0].label;
    let b = all.last().label;
    if a == b {
        assert(text.take(a.len() as int) =~= a);
        assert(text.skip(0) =~= b);
    } else {
        assert(text.take(a.len() as int) =~= a);
        assert(text.skip(text.len() - b.len()) =~= b);
    }
}

/// What is said of snapshots that can not be compared names the first snapshot and the
/// first one after it that has another root, each with its own root.
pub proof fn law_mismatches_name_both_roots(trees: Seq<TreeView>, i: int)
    requires
        is_first_mismatch(trees, i),
    ensures
        !roots_match(trees),
        mismatch(trees, i) matches AnalysisErrorView::DifferentRoots {
            first_label,
            first_root,
            label,
            root,
        } && first_label == trees[0].label && label == trees[i].label && first_root
            == trees[0].root.name() && root == trees[i].root.name() && root != first_root,
{
    assert(trees[i].root.name() != trees[0].root.name());
}

/// A row is named after the entry in the first snapshot that has the path.
pub proof fn law_rows_are_named_by_the_first_snapshot(
    all: Seq<IndexView>,
    path: Seq<char>,
    metric: SizeMetric,
    row: RowView,
    k: int,
)
    requires
        path.len() > 0,
        row_for(all, path, metric) == Some(row),
        0 <= k < all.len(),
        all[k].entries.contains_key(path),
        forall|j: int| 0 <= j < k ==> !(#[trigger] all[j]).entries.contains_key(path),
    ensures
        row.name == all[k].entries[path].name,
{
    let i = lemma_name_is_somewhere(all, path);
    if i < k {
        assert(!all[i].entries.contains_key(path));
    } else if k < i {
        assert(!all[k].entries.contains_key(path));
    }
}

/// The kind of a row goes by what the path is in the snapshots that have it, whatever their
/// names are: never a file where it is a directory in one of them, never a directory alone
/// where it is a file in one of them, and one of these holds.
pub proof fn law_kinds_of_paths(
    all: Seq<IndexView>,
    path: Seq<char>,
    metric: SizeMetric,
    row: RowView,
    k: int,
)
    requires
        path.len() > 0,
        row_for(all, path, metric) == Some(row),
        0 <= k < all.len(),
        all[k].entries.contains_key(path),
    ensures
        all[k].entries[path].is_dir ==> opens(row.kind),
        !all[k].entries[path].is_dir ==> !(row.kind is Dir),
        row.kind is Mixed ==> exists|i: int, j: int|
            0 <= i < all.len() && 0 <= j < all.len() && (#[trigger] all[i]).entries.contains_key(
                path,
            ) && (#[trigger] all[j]).entries.contains_key(path) && all[i].entries[path].is_dir
                && !all[j].entries[path].is_dir,
{
    if all[k].entries[path].is_dir {
        assert(seen_as(all, path, true));
    } else {
        assert(seen_as(all, path, false));
    }
    if row.kind is Mixed {
        let i = choose|i: int|
            0 <= i < all.len() && (#[trigger] all[i]).entries.contains_key(path)
                && all[i].entries[path].is_dir == true;
        let j = choose|j: int|
            0 <= j < all.len() && (#[trigger] all[j]).entries.contains_key(path)
                && all[j].entries[path].is_dir == false;
        assert(all[i].entries.contains_key(path) && all[j].entries.contains_key(path));
    }
}

} // verus!
