//! What the index of a snapshot says of a tree with plain names, and what the sizes in a
//! directory add up to.

use crate::analysis::{RowView, SortMode, indexes, is_child, is_child_row, law_parent_of_child, lemma_row_order_asymmetric, lists_children, name_at, parent_of, row_at, row_comes_first, row_for, size_at};
use crate::gdu::NodeView;
use crate::index::{EntryView, IndexView, SizeMetric, TreeView, capped, child_path, entries_in, entries_of, entry_map, exact_size, exact_total, found_at, index_of, is_within, law_sizes_are_sums, lemma_entry_map_key, lemma_found_later, lemma_within_child, size_value, sizes_of, total_sizes};
use vstd::prelude::*;

verus! {

/// A name that is not empty and has no separator in it.
pub open spec fn is_plain_name(name: Seq<char>) -> bool {
    name.len() > 0 && !name.contains('/')
}

/// Everything in the node has a plain name, and nothing else in its directory has it.
pub open spec fn plainly_named(node: NodeView) -> bool
    decreases node,
{
    match node {
        NodeView::File { .. } => true,
        NodeView::Dir { children, .. } => all_plain(children),
    }
}

/// The nodes of a directory, and everything in them, have plain names, each its own in its
/// directory.
pub open spec fn all_plain(children: Seq<NodeView>) -> bool
    decreases children,
{
    children.len() > 0 ==> {
        &&& all_plain(children.drop_last())
        &&& plainly_named(children.last())
        &&& is_plain_name(children.last().name())
        &&& forall|i: int|
            0 <= i < children.len() - 1 ==> (#[trigger] children[i]).name()
                != children.last().name()
    }
}

/// How many files and directories there are, the node itself among them.
pub open spec fn node_count(node: NodeView) -> nat
    decreases node,
{
    match node {
        NodeView::File { .. } => 1,
        NodeView::Dir { children, .. } => count_in(children) + 1,
    }
}

/// How many files and directories there are in a directory, at any depth.
pub open spec fn count_in(children: Seq<NodeView>) -> nat
    decreases children,
{
    if children.len() == 0 {
        0
    } else {
        count_in(children.drop_last()) + node_count(children.last())
    }
}

/// The node with a path, where the given one has the path `here`.
pub open spec fn node_at(node: NodeView, here: Seq<char>, path: Seq<char>) -> Option<NodeView>
    decreases node,
{
    if path == here {
        Some(node)
    } else {
        match node {
            NodeView::File { .. } => None,
            NodeView::Dir { children, .. } => node_in(children, here, path),
        }
    }
}

/// The node with a path in a directory.
pub open spec fn node_in(children: Seq<NodeView>, here: Seq<char>, path: Seq<char>) -> Option<
    NodeView,
>
    decreases children,
{
    if children.len() == 0 {
        None
    } else {
        let last = children.last();
        match node_at(last, child_path(here, last.name()), path) {
            Some(node) => Some(node),
            None => node_in(children.drop_last(), here, path),
        }
    }
}

pub proof fn lemma_plain_child(children: Seq<NodeView>, i: int)
    requires
        all_plain(children),
        0 <= i < children.len(),
    ensures
        plainly_named(children[i]),
        is_plain_name(children[i].name()),
        forall|j: int|
            0 <= j < children.len() && j != i ==> (#[trigger] children[j]).name()
                != children[i].name(),
    decreases children.len(),
{
    if i < children.len() - 1 {
        lemma_plain_child(children.drop_last(), i);
        assert(children.drop_last()[i] == children[i]);
        assert forall|j: int| 0 <= j < children.len() && j != i implies (
        #[trigger] children[j]).name() != children[i].name() by {
            if j < children.len() - 1 {
                assert(children.drop_last()[j] == children[j]);
            }
        }
    }
}

/// No path is in two entries of a directory.
pub proof fn lemma_siblings_apart(here: Seq<char>, a: Seq<char>, b: Seq<char>, path: Seq<char>)
    requires
        is_plain_name(a),
        is_plain_name(b),
        is_within(child_path(here, a), path),
        is_within(child_path(here, b), path),
    ensures
        a == b,
    decreases a.len() + b.len(),
{
    if a.len() > b.len() {
        lemma_shorter_sibling(here, b, a, path);
    } else {
        lemma_shorter_sibling(here, a, b, path);
    }
}

proof fn lemma_shorter_sibling(here: Seq<char>, a: Seq<char>, b: Seq<char>, path: Seq<char>)
    requires
        is_plain_name(a),
        is_plain_name(b),
        a.len() <= b.len(),
        is_within(child_path(here, a), path),
        is_within(child_path(here, b), path),
    ensures
        a == b,
{
    reveal_strlit("/");
    let x = child_path(here, a);
    let y = child_path(here, b);
    let n = if here.len() == 0 {
        0
    } else {
        here.len() as int + 1
    };
    assert(x.len() == n + a.len());
    assert(y.len() == n + b.len());
    lemma_within_starts(x, path);
    lemma_within_starts(y, path);
    assert forall|i: int| 0 <= i < a.len() implies a[i] == b[i] by {
        assert(x[n + i] == a[i]);
        assert(y[n + i] == b[i]);
    }
    if a.len() < b.len() {
        assert(path[x.len() as int] == '/');
        assert(y[n + a.len()] == b[a.len() as int]);
        assert(b.contains('/'));
    }
    assert(a =~= b);
}

/// What is in a directory starts with its path, and goes on with a separator.
proof fn lemma_within_starts(directory: Seq<char>, path: Seq<char>)
    requires
        directory.len() > 0,
        is_within(directory, path),
    ensures
        path.len() >= directory.len(),
        forall|i: int| 0 <= i < directory.len() ==> path[i] == directory[i],
        path.len() > directory.len() ==> path[directory.len() as int] == '/',
{
    if path != directory {
        let longer = directory + seq!['/'];
        assert forall|i: int| 0 <= i < longer.len() implies path[i] == longer[i] by {
            assert(path.subrange(0, longer.len() as int)[i] == path[i]);
        }
        assert forall|i: int| 0 <= i < directory.len() implies path[i] == directory[i] by {
            assert(longer[i] == directory[i]);
        }
        assert(longer[directory.len() as int] == '/');
    }
}

proof fn lemma_node_within(node: NodeView, here: Seq<char>, path: Seq<char>)
    requires
        node_at(node, here, path) is Some,
    ensures
        is_within(here, path),
    decreases node,
{
    match node {
        NodeView::File { .. } => {},
        NodeView::Dir { children, .. } => {
            if path != here {
                let i = lemma_node_in_some(children, here, path);
                lemma_node_within(children[i], child_path(here, children[i].name()), path);
                lemma_within_child(here, children[i].name(), path);
            }
        },
    }
}

/// What is in a directory is in one of its entries.
proof fn lemma_node_in_some(children: Seq<NodeView>, here: Seq<char>, path: Seq<char>) -> (i: int)
    requires
        node_in(children, here, path) is Some,
    ensures
        0 <= i < children.len(),
        node_at(children[i], child_path(here, children[i].name()), path) == node_in(
            children,
            here,
            path,
        ),
    decreases children.len(),
{
    let last = children.last();
    if node_at(last, child_path(here, last.name()), path) is Some {
        children.len() - 1
    } else {
        let i = lemma_node_in_some(children.drop_last(), here, path);
        assert(children.drop_last()[i] == children[i]);
        i
    }
}

/// What is in an entry of a directory is looked for in that entry.
proof fn lemma_descend(children: Seq<NodeView>, here: Seq<char>, path: Seq<char>, i: int)
    requires
        all_plain(children),
        0 <= i < children.len(),
        is_within(child_path(here, children[i].name()), path),
    ensures
        node_in(children, here, path) == node_at(
            children[i],
            child_path(here, children[i].name()),
            path,
        ),
{
    if node_in(children, here, path) is Some {
        let j = lemma_node_in_some(children, here, path);
        lemma_node_within(children[j], child_path(here, children[j].name()), path);
        lemma_plain_child(children, i);
        lemma_plain_child(children, j);
        lemma_siblings_apart(here, children[i].name(), children[j].name(), path);
        assert(i == j);
    } else {
        lemma_found_means_found(children, here, path, i);
    }
}

proof fn lemma_found_means_found(children: Seq<NodeView>, here: Seq<char>, path: Seq<char>, i: int)
    requires
        0 <= i < children.len(),
        node_in(children, here, path) is None,
    ensures
        node_at(children[i], child_path(here, children[i].name()), path) is None,
    decreases children.len(),
{
    if i < children.len() - 1 {
        lemma_found_means_found(children.drop_last(), here, path, i);
        assert(children.drop_last()[i] == children[i]);
    }
}

/// What the index says of a node.
pub open spec fn entry_of(node: NodeView, parent: Option<Seq<char>>) -> EntryView {
    EntryView { name: node.name(), parent, is_dir: node is Dir, sizes: sizes_of(node) }
}

proof fn lemma_found_is_node(
    node: NodeView,
    here: Seq<char>,
    parent: Option<Seq<char>>,
    path: Seq<char>,
)
    requires
        plainly_named(node),
    ensures
        found_at(entries_of(node, here, parent), path) == match node_at(node, here, path) {
            Some(found) => Some(
                entry_of(
                    found,
                    if path == here {
                        parent
                    } else {
                        parent_of(path)
                    },
                ),
            ),
            None => None,
        },
    decreases node,
{
    let found = entries_of(node, here, parent);
    assert(found.last() == (here, entry_of(node, parent)));
    match node {
        NodeView::File { .. } => {
            assert(entry_map(found.drop_last()) =~= Map::empty());
        },
        NodeView::Dir { children, .. } => {
            assert(found.drop_last() =~= entries_in(children, here));
            lemma_found_in_is_node(children, here, path);
        },
    }
}

proof fn lemma_found_in_is_node(children: Seq<NodeView>, here: Seq<char>, path: Seq<char>)
    requires
        all_plain(children),
    ensures
        found_at(entries_in(children, here), path) == match node_in(children, here, path) {
            Some(found) => Some(entry_of(found, parent_of(path))),
            None => None,
        },
    decreases children,
{
    if children.len() > 0 {
        let last = children.last();
        let below = child_path(here, last.name());
        lemma_found_in_is_node(children.drop_last(), here, path);
        lemma_found_is_node(last, below, Some(here), path);
        law_parent_of_child(here, last.name());
        lemma_found_later(
            entries_in(children.drop_last(), here),
            entries_of(last, below, Some(here)),
            path,
        );
    }
}

/// What is not the node itself is in a directory, which has it among its nodes.
pub proof fn lemma_parent_of_node(node: NodeView, here: Seq<char>, path: Seq<char>) -> (i: int)
    requires
        plainly_named(node),
        path != here,
        node_at(node, here, path) is Some,
    ensures
        ({
            let parent = parent_of(path);
            &&& parent is Some
            &&& is_within(here, parent->Some_0)
            &&& node_at(node, here, parent->Some_0) is Some
            &&& node_at(node, here, parent->Some_0)->Some_0 is Dir
            &&& 0 <= i < node_at(node, here, parent->Some_0)->Some_0->children.len()
            &&& node_at(node, here, parent->Some_0)->Some_0->children[i] == node_at(
                node,
                here,
                path,
            )->Some_0
            &&& path == child_path(parent->Some_0, node_at(node, here, path)->Some_0.name())
        }),
    decreases node,
{
    let children = node->children;
    let k = lemma_node_in_some(children, here, path);
    let below = child_path(here, children[k].name());
    lemma_plain_child(children, k);
    if path == below {
        law_parent_of_child(here, children[k].name());
        k
    } else {
        let i = lemma_parent_of_node(children[k], below, path);
        let parent = parent_of(path)->Some_0;
        lemma_within_child(here, children[k].name(), parent);
        assert(parent != here) by {
            lemma_longer(here, children[k].name());
        }
        lemma_descend(children, here, parent, k);
        i
    }
}

proof fn lemma_longer(here: Seq<char>, name: Seq<char>)
    requires
        name.len() > 0,
    ensures
        child_path(here, name).len() > here.len(),
{
    reveal_strlit("/");
}

/// The nodes of a directory are found under its path.
pub proof fn lemma_children_are_found(
    node: NodeView,
    here: Seq<char>,
    path: Seq<char>,
    i: int,
)
    requires
        plainly_named(node),
        node_at(node, here, path) is Some,
        node_at(node, here, path)->Some_0 is Dir,
        0 <= i < node_at(node, here, path)->Some_0->children.len(),
    ensures
        ({
            let child = node_at(node, here, path)->Some_0->children[i];
            &&& node_at(node, here, child_path(path, child.name())) == Some(child)
            &&& is_plain_name(child.name())
        }),
    decreases node,
{
    let directory = node_at(node, here, path)->Some_0;
    let child = directory->children[i];
    let full = child_path(path, child.name());
    let children = node->children;
    if path == here {
        lemma_plain_child(children, i);
        lemma_longer(here, child.name());
        assert(is_within(full, full));
        lemma_descend(children, here, full, i);
    } else {
        let k = lemma_node_in_some(children, here, path);
        let below = child_path(here, children[k].name());
        lemma_plain_child(children, k);
        lemma_children_are_found(children[k], below, path, i);
        lemma_node_within(children[k], below, full);
        lemma_longer(here, children[k].name());
        lemma_within_child(here, children[k].name(), full);
        lemma_descend(children, here, full, k);
    }
}

/// The names in a directory that is found are plain.
proof fn lemma_found_is_plain(node: NodeView, here: Seq<char>, path: Seq<char>)
    requires
        plainly_named(node),
        node_at(node, here, path) is Some,
    ensures
        plainly_named(node_at(node, here, path)->Some_0),
    decreases node,
{
    if path != here {
        let children = node->children;
        let k = lemma_node_in_some(children, here, path);
        lemma_plain_child(children, k);
        lemma_found_is_plain(children[k], child_path(here, children[k].name()), path);
    }
}

/// No two of the entries have the same path.
spec fn paths_differ(found: Seq<(Seq<char>, EntryView)>) -> bool {
    forall|i: int, j: int|
        0 <= i < j < found.len() ==> (#[trigger] found[i]).0 != (#[trigger] found[j]).0
}

/// Every entry is in the directory.
spec fn all_within(found: Seq<(Seq<char>, EntryView)>, here: Seq<char>) -> bool {
    forall|i: int| 0 <= i < found.len() ==> is_within(here, (#[trigger] found[i]).0)
}

proof fn lemma_paths_of(node: NodeView, here: Seq<char>, parent: Option<Seq<char>>)
    requires
        plainly_named(node),
    ensures
        paths_differ(entries_of(node, here, parent)),
        all_within(entries_of(node, here, parent), here),
        entries_of(node, here, parent).len() == node_count(node),
    decreases node,
{
    match node {
        NodeView::File { .. } => {},
        NodeView::Dir { children, .. } => {
            lemma_paths_in(children, here);
            let inner = entries_in(children, here);
            let found = entries_of(node, here, parent);
            assert forall|i: int, j: int| 0 <= i < j < found.len() implies (#[trigger] found[i]).0
                != (#[trigger] found[j]).0 by {
                assert(found[i] == inner[i]);
                if j < inner.len() {
                    assert(found[j] == inner[j]);
                } else {
                    let k = choose|k: int|
                        0 <= k < children.len() && is_within(
                            child_path(here, (#[trigger] children[k]).name()),
                            inner[i].0,
                        );
                    lemma_plain_child(children, k);
                    lemma_longer(here, children[k].name());
                    lemma_within_child(here, children[k].name(), inner[i].0);
                }
            }
            assert forall|i: int| 0 <= i < found.len() implies is_within(
                here,
                (#[trigger] found[i]).0,
            ) by {
                if i < inner.len() {
                    assert(found[i] == inner[i]);
                    let k = choose|k: int|
                        0 <= k < children.len() && is_within(
                            child_path(here, (#[trigger] children[k]).name()),
                            inner[i].0,
                        );
                    lemma_within_child(here, children[k].name(), inner[i].0);
                }
            }
        },
    }
}

proof fn lemma_paths_in(children: Seq<NodeView>, here: Seq<char>)
    requires
        all_plain(children),
    ensures
        paths_differ(entries_in(children, here)),
        entries_in(children, here).len() == count_in(children),
        forall|i: int|
            0 <= i < entries_in(children, here).len() ==> exists|k: int|
                0 <= k < children.len() && is_within(
                    child_path(here, (#[trigger] children[k]).name()),
                    (#[trigger] entries_in(children, here)[i]).0,
                ),
    decreases children,
{
    if children.len() > 0 {
        let last = children.last();
        let n = children.len() - 1;
        let below = child_path(here, last.name());
        let front = entries_in(children.drop_last(), here);
        let back = entries_of(last, below, Some(here));
        let found = entries_in(children, here);
        lemma_paths_in(children.drop_last(), here);
        lemma_paths_of(last, below, Some(here));
        assert forall|i: int| 0 <= i < found.len() implies exists|k: int|
            0 <= k < children.len() && is_within(
                child_path(here, (#[trigger] children[k]).name()),
                (#[trigger] found[i]).0,
            ) by {
            if i < front.len() {
                assert(found[i] == front[i]);
                let k = choose|k: int|
                    0 <= k < n && is_within(
                        child_path(here, (#[trigger] children.drop_last()[k]).name()),
                        front[i].0,
                    );
                assert(children[k] == children.drop_last()[k]);
            } else {
                assert(found[i] == back[i - front.len()]);
                assert(is_within(child_path(here, children[n].name()), found[i].0));
            }
        }
        assert forall|i: int, j: int| 0 <= i < j < found.len() implies (#[trigger] found[i]).0 != (
        #[trigger] found[j]).0 by {
            if j < front.len() {
                assert(found[i] == front[i]);
                assert(found[j] == front[j]);
            } else if i >= front.len() {
                assert(found[i] == back[i - front.len()]);
                assert(found[j] == back[j - front.len()]);
            } else {
                assert(found[i] == front[i]);
                assert(found[j] == back[j - front.len()]);
                if found[i].0 == found[j].0 {
                    let k = choose|k: int|
                        0 <= k < n && is_within(
                            child_path(here, (#[trigger] children.drop_last()[k]).name()),
                            front[i].0,
                        );
                    assert(children[k] == children.drop_last()[k]);
                    lemma_plain_child(children, k);
                    lemma_plain_child(children, n);
                    lemma_siblings_apart(here, children[k].name(), last.name(), found[i].0);
                }
            }
        }
    }
}

proof fn lemma_one_key_each(found: Seq<(Seq<char>, EntryView)>)
    requires
        paths_differ(found),
    ensures
        entry_map(found).dom().finite(),
        entry_map(found).dom().len() == found.len(),
    decreases found.len(),
{
    if found.len() > 0 {
        let front = found.drop_last();
        lemma_one_key_each(front);
        let key = found.last().0;
        if entry_map(front).contains_key(key) {
            let i = lemma_entry_map_key(front, key);
            assert(found[i].0 == found[found.len() - 1].0);
        }
        assert(entry_map(found).dom() =~= entry_map(front).dom().insert(key));
    }
}

/// The index of a tree with plain names has one key for each file and directory. The empty
/// path is that of the root, which is in no directory. Every other entry is in the
/// directory that its path says, and that directory has an entry.
pub proof fn law_index_mirrors_the_tree(tree: TreeView, path: Seq<char>)
    requires
        plainly_named(tree.root),
    ensures
        index_of(tree).entries.dom().finite(),
        index_of(tree).entries.dom().len() == node_count(tree.root),
        index_of(tree).entry_at(path) == match node_at(tree.root, seq![], path) {
            Some(node) => Some(entry_of(node, parent_of(path))),
            None => None,
        },
        index_of(tree).entry_at(seq![]) == Some(entry_of(tree.root, None)),
        index_of(tree).entries.contains_key(path) && path.len() > 0 ==> {
            &&& parent_of(path) is Some
            &&& index_of(tree).entries.contains_key(parent_of(path)->Some_0)
            &&& index_of(tree).entries[parent_of(path)->Some_0].is_dir
        },
{
    let root = Seq::<char>::empty();
    lemma_paths_of(tree.root, root, None);
    lemma_one_key_each(entries_of(tree.root, root, None));
    lemma_found_is_node(tree.root, root, None, path);
    lemma_found_is_node(tree.root, root, None, root);
    if path.len() == 0 {
        assert(path =~= root);
    } else if index_of(tree).entries.contains_key(path) {
        let i = lemma_parent_of_node(tree.root, root, path);
        lemma_found_is_node(tree.root, root, None, parent_of(path)->Some_0);
    }
}

/// The sum of the sizes under some paths, nothing for those that are not there.
pub open spec fn sum_at(index: IndexView, paths: Seq<Seq<char>>, metric: SizeMetric) -> nat
    decreases paths.len(),
{
    if paths.len() == 0 {
        0
    } else {
        sum_at(index, paths.drop_last(), metric) + size_at(index, paths.last(), metric) as nat
    }
}

proof fn lemma_sum_without(index: IndexView, paths: Seq<Seq<char>>, metric: SizeMetric, i: int)
    requires
        0 <= i < paths.len(),
    ensures
        sum_at(index, paths, metric) == sum_at(index, paths.remove(i), metric) + size_at(
            index,
            paths[i],
            metric,
        ),
    decreases paths.len(),
{
    if i == paths.len() - 1 {
        assert(paths.remove(i) =~= paths.drop_last());
    } else {
        lemma_sum_without(index, paths.drop_last(), metric, i);
        assert(paths.remove(i).drop_last() =~= paths.drop_last().remove(i));
        assert(paths.remove(i).last() == paths.last());
    }
}

/// Paths that hold nothing do not count, nor does the order.
proof fn lemma_sums_agree(
    index: IndexView,
    more: Seq<Seq<char>>,
    fewer: Seq<Seq<char>>,
    metric: SizeMetric,
)
    requires
        more.no_duplicates(),
        fewer.no_duplicates(),
        forall|path: Seq<char>| #[trigger] fewer.contains(path) ==> more.contains(path),
        forall|path: Seq<char>| #[trigger]
            more.contains(path) && !fewer.contains(path) ==> size_at(index, path, metric) == 0,
    ensures
        sum_at(index, more, metric) == sum_at(index, fewer, metric),
    decreases more.len(),
{
    if more.len() == 0 {
        if fewer.len() > 0 {
            assert(fewer.contains(fewer[0]));
        }
    } else {
        let last = more.last();
        let front = more.drop_last();
        assert(more.contains(last));
        assert forall|path: Seq<char>| front.contains(path) implies more.contains(path) && path
            != last by {
            let k = choose|k: int| 0 <= k < front.len() && front[k] == path;
            assert(more[k] == path);
        }
        assert forall|path: Seq<char>| more.contains(path) && path != last implies front.contains(
            path,
        ) by {
            let k = choose|k: int| 0 <= k < more.len() && more[k] == path;
            assert(front[k] == path);
        }
        if fewer.contains(last) {
            let i = choose|i: int| 0 <= i < fewer.len() && fewer[i] == last;
            let rest = fewer.remove(i);
            lemma_sum_without(index, fewer, metric, i);
            assert forall|path: Seq<char>| #[trigger] rest.contains(path) implies fewer.contains(
                path,
            ) && path != last by {
                let k = choose|k: int| 0 <= k < rest.len() && rest[k] == path;
                if k < i {
                    assert(fewer[k] == path);
                } else {
                    assert(fewer[k + 1] == path);
                }
            }
            assert forall|path: Seq<char>| fewer.contains(path) && path != last implies
                rest.contains(path) by {
                let k = choose|k: int| 0 <= k < fewer.len() && fewer[k] == path;
                if k < i {
                    assert(rest[k] == path);
                } else {
                    assert(rest[k - 1] == path);
                }
            }
            assert(rest.no_duplicates()) by {
                assert forall|a: int, b: int|
                    0 <= a < rest.len() && 0 <= b < rest.len() && a != b implies rest[a]
                    != rest[b] by {
                    let x = if a < i {
                        a
                    } else {
                        a + 1
                    };
                    let y = if b < i {
                        b
                    } else {
                        b + 1
                    };
                    assert(rest[a] == fewer[x]);
                    assert(rest[b] == fewer[y]);
                }
            }
            lemma_sums_agree(index, front, rest, metric);
        } else {
            lemma_sums_agree(index, front, fewer, metric);
        }
    }
}

/// The paths of the nodes of a directory.
pub open spec fn paths_in(children: Seq<NodeView>, path: Seq<char>) -> Seq<Seq<char>> {
    Seq::new(children.len(), |i: int| child_path(path, children[i].name()))
}

/// The sum of the sizes of some nodes.
pub open spec fn sum_of_nodes(children: Seq<NodeView>, metric: SizeMetric) -> nat
    decreases children.len(),
{
    if children.len() == 0 {
        0
    } else {
        sum_of_nodes(children.drop_last(), metric) + size_value(
            sizes_of(children.last()),
            metric,
        ) as nat
    }
}

proof fn lemma_total_is_capped(children: Seq<NodeView>, metric: SizeMetric)
    ensures
        size_value(total_sizes(children), metric) == capped(sum_of_nodes(children, metric)),
    decreases children.len(),
{
    if children.len() > 0 {
        lemma_total_is_capped(children.drop_last(), metric);
    }
}

proof fn lemma_sum_of_paths(
    index: IndexView,
    children: Seq<NodeView>,
    path: Seq<char>,
    metric: SizeMetric,
)
    requires
        forall|i: int|
            0 <= i < children.len() ==> size_at(
                index,
                child_path(path, (#[trigger] children[i]).name()),
                metric,
            ) == size_value(sizes_of(children[i]), metric),
    ensures
        sum_at(index, paths_in(children, path), metric) == sum_of_nodes(children, metric),
    decreases children.len(),
{
    if children.len() > 0 {
        let front = children.drop_last();
        assert forall|i: int| 0 <= i < front.len() implies size_at(
            index,
            child_path(path, (#[trigger] front[i]).name()),
            metric,
        ) == size_value(sizes_of(front[i]), metric) by {
            assert(front[i] == children[i]);
        }
        lemma_sum_of_paths(index, front, path, metric);
        assert(paths_in(children, path).drop_last() =~= paths_in(front, path));
        assert(children[children.len() - 1] == children.last());
    }
}

proof fn lemma_paths_in_differ(children: Seq<NodeView>, path: Seq<char>)
    requires
        all_plain(children),
    ensures
        paths_in(children, path).no_duplicates(),
{
    let all = paths_in(children, path);
    assert forall|i: int, j: int| 0 <= i < all.len() && 0 <= j < all.len() && i != j implies all[i]
        != all[j] by {
        if all[i] == all[j] {
            lemma_plain_child(children, i);
            lemma_plain_child(children, j);
            lemma_siblings_apart(path, children[i].name(), children[j].name(), all[i]);
        }
    }
}

/// What the index holds in a directory: its nodes, with their sizes.
proof fn lemma_directory(tree: TreeView, path: Seq<char>, metric: SizeMetric)
    requires
        plainly_named(tree.root),
        index_of(tree).entries.contains_key(path),
        index_of(tree).entries[path].is_dir,
    ensures
        ({
            let node = node_at(tree.root, seq![], path);
            let children = node->Some_0->children;
            &&& node is Some
            &&& node->Some_0 is Dir
            &&& index_of(tree).entries[path].sizes == total_sizes(children)
            &&& paths_in(children, path).no_duplicates()
            &&& sum_at(index_of(tree), paths_in(children, path), metric) == sum_of_nodes(
                children,
                metric,
            )
            &&& forall|key: Seq<char>| #[trigger]
                paths_in(children, path).contains(key) <==> index_of(tree).entries.contains_key(key)
                    && index_of(tree).entries[key].parent == Some(path)
        }),
{
    let index = index_of(tree);
    let root = Seq::<char>::empty();
    law_index_mirrors_the_tree(tree, path);
    let node = node_at(tree.root, root, path)->Some_0;
    let children = node->children;
    lemma_found_is_plain(tree.root, root, path);
    lemma_paths_in_differ(children, path);
    let keys = paths_in(children, path);
    assert forall|i: int| 0 <= i < children.len() implies {
        let key = child_path(path, (#[trigger] children[i]).name());
        index.entry_at(key) == Some(entry_of(children[i], Some(path)))
    } by {
        let key = child_path(path, children[i].name());
        lemma_children_are_found(tree.root, root, path, i);
        law_index_mirrors_the_tree(tree, key);
        law_parent_of_child(path, children[i].name());
    }
    assert forall|i: int| 0 <= i < children.len() implies size_at(
        index,
        child_path(path, (#[trigger] children[i]).name()),
        metric,
    ) == size_value(sizes_of(children[i]), metric) by {
        let key = child_path(path, children[i].name());
        assert(index.entry_at(key) == Some(entry_of(children[i], Some(path))));
    }
    lemma_sum_of_paths(index, children, path, metric);
    assert forall|key: Seq<char>| #[trigger] keys.contains(key) implies index.entries.contains_key(
        key,
    ) && index.entries[key].parent == Some(path) by {
        let i = choose|i: int| 0 <= i < keys.len() && keys[i] == key;
        assert(key == child_path(path, children[i].name()));
        assert(index.entry_at(key) == Some(entry_of(children[i], Some(path))));
    }
    assert forall|key: Seq<char>|
        index.entries.contains_key(key) && index.entries[key].parent == Some(
            path,
        ) implies #[trigger] keys.contains(key) by {
        law_index_mirrors_the_tree(tree, key);
        if key.len() == 0 {
            assert(key =~= root);
        }
        let i = lemma_parent_of_node(tree.root, root, key);
        assert(keys[i] == key);
    }
}

/// In the index of a tree with plain names the sizes of a directory are the sums of the
/// sizes of the entries in it, up to the greatest size. The entries in it may be given in
/// any order.
pub proof fn law_directories_sum_their_entries(
    tree: TreeView,
    path: Seq<char>,
    keys: Seq<Seq<char>>,
    metric: SizeMetric,
)
    requires
        plainly_named(tree.root),
        index_of(tree).entries.contains_key(path),
        index_of(tree).entries[path].is_dir,
        keys.no_duplicates(),
        forall|key: Seq<char>| #[trigger]
            keys.contains(key) <==> index_of(tree).entries.contains_key(key)
                && index_of(tree).entries[key].parent == Some(path),
    ensures
        size_value(index_of(tree).entries[path].sizes, metric) == capped(
            sum_at(index_of(tree), keys, metric),
        ),
{
    lemma_directory(tree, path, metric);
    let children = node_at(tree.root, seq![], path)->Some_0->children;
    lemma_sums_agree(index_of(tree), keys, paths_in(children, path), metric);
    lemma_total_is_capped(children, metric);
}

proof fn lemma_part_is_smaller(
    node: NodeView,
    here: Seq<char>,
    path: Seq<char>,
    metric: SizeMetric,
)
    requires
        node_at(node, here, path) is Some,
    ensures
        exact_size(node_at(node, here, path)->Some_0, metric) <= exact_size(node, metric),
    decreases node,
{
    if path != here {
        let children = node->children;
        let k = lemma_node_in_some(children, here, path);
        lemma_part_is_smaller(children[k], child_path(here, children[k].name()), path, metric);
        lemma_one_of_total(children, k, metric);
    }
}

proof fn lemma_one_of_total(children: Seq<NodeView>, i: int, metric: SizeMetric)
    requires
        0 <= i < children.len(),
    ensures
        exact_size(children[i], metric) <= exact_total(children, metric),
    decreases children.len(),
{
    if i < children.len() - 1 {
        lemma_one_of_total(children.drop_last(), i, metric);
        assert(children.drop_last()[i] == children[i]);
    }
}

proof fn lemma_sum_is_exact(children: Seq<NodeView>, metric: SizeMetric)
    requires
        exact_total(children, metric) <= u64::MAX,
    ensures
        sum_of_nodes(children, metric) == exact_total(children, metric),
    decreases children.len(),
{
    if children.len() > 0 {
        lemma_sum_is_exact(children.drop_last(), metric);
        law_sizes_are_sums(children.last(), metric);
    }
}

/// No size in the index is greater than that of the tree.
proof fn lemma_sizes_are_small(tree: TreeView, path: Seq<char>, metric: SizeMetric)
    requires
        plainly_named(tree.root),
        exact_size(tree.root, metric) <= i64::MAX,
    ensures
        size_at(index_of(tree), path, metric) <= i64::MAX,
{
    law_index_mirrors_the_tree(tree, path);
    let node = node_at(tree.root, seq![], path);
    if node is Some {
        lemma_part_is_smaller(tree.root, seq![], path, metric);
        law_sizes_are_sums(node->Some_0, metric);
    }
}

/// The paths of some rows.
pub open spec fn row_paths(rows: Seq<RowView>) -> Seq<Seq<char>> {
    Seq::new(rows.len(), |i: int| rows[i].path)
}

/// The sum of the sizes of some rows in the last snapshot.
pub open spec fn latest_total(rows: Seq<RowView>) -> nat
    decreases rows.len(),
{
    if rows.len() == 0 {
        0
    } else {
        latest_total(rows.drop_last()) + rows.last().latest_size as nat
    }
}

/// The sum of the sizes of some rows in the first snapshot.
pub open spec fn baseline_total(rows: Seq<RowView>) -> nat
    decreases rows.len(),
{
    if rows.len() == 0 {
        0
    } else {
        baseline_total(rows.drop_last()) + rows.last().baseline_size as nat
    }
}

/// The sum of the changes of some rows.
pub open spec fn delta_total(rows: Seq<RowView>) -> int
    decreases rows.len(),
{
    if rows.len() == 0 {
        0
    } else {
        delta_total(rows.drop_last()) + rows.last().delta
    }
}

/// The row shows the sizes under its path in the first and the last snapshot.
spec fn shows_sizes(all: Seq<IndexView>, metric: SizeMetric, row: RowView) -> bool {
    &&& row.latest_size == size_at(all.last(), row.path, metric)
    &&& row.baseline_size == size_at(all[0], row.path, metric)
    &&& row.delta == row.latest_size - row.baseline_size
}

proof fn lemma_row_totals(all: Seq<IndexView>, metric: SizeMetric, rows: Seq<RowView>)
    requires
        forall|i: int| 0 <= i < rows.len() ==> shows_sizes(all, metric, #[trigger] rows[i]),
    ensures
        latest_total(rows) == sum_at(all.last(), row_paths(rows), metric),
        baseline_total(rows) == sum_at(all[0], row_paths(rows), metric),
        delta_total(rows) == latest_total(rows) - baseline_total(rows),
    decreases rows.len(),
{
    if rows.len() > 0 {
        let front = rows.drop_last();
        assert forall|i: int| 0 <= i < front.len() implies shows_sizes(
            all,
            metric,
            #[trigger] front[i],
        ) by {
            assert(front[i] == rows[i]);
        }
        lemma_row_totals(all, metric, front);
        assert(row_paths(rows).drop_last() =~= row_paths(front));
        assert(shows_sizes(all, metric, rows[rows.len() - 1]));
    }
}

/// The trees that can be compared row by row: plain names, and no sum beyond the greatest
/// number with a sign.
pub open spec fn tidy(tree: TreeView, metric: SizeMetric) -> bool {
    plainly_named(tree.root) && exact_size(tree.root, metric) <= i64::MAX
}

/// Where the path is there at all, it is a directory.
pub open spec fn is_dir_if_there(tree: TreeView, path: Seq<char>) -> bool {
    index_of(tree).entries.contains_key(path) ==> index_of(tree).entries[path].is_dir
}

pub proof fn lemma_name_in_some(all: Seq<IndexView>, path: Seq<char>, i: int)
    requires
        0 <= i < all.len(),
        all[i].entries.contains_key(path),
    ensures
        name_at(all, path) is Some,
    decreases all.len(),
{
    if i < all.len() - 1 {
        lemma_name_in_some(all.drop_last(), path, i);
        assert(all.drop_last()[i] == all[i]);
    }
}

/// The name in a row of the directory, and what it says of the path.
proof fn lemma_child_row(
    trees: Seq<TreeView>,
    parent: Seq<char>,
    metric: SizeMetric,
    row: RowView,
)
    requires
        trees.len() > 0,
        forall|i: int| 0 <= i < trees.len() ==> tidy(#[trigger] trees[i], metric),
        is_child_row(indexes(trees), parent, true, metric, row),
    ensures
        shows_sizes(indexes(trees), metric, row),
        parent_of(row.path) == Some(parent),
        row_at(indexes(trees), row.path, metric) == Some(row),
{
    let all = indexes(trees);
    let name = choose|name: Seq<char>| #[trigger]
        is_child(all, parent, name) && row_at(all, child_path(parent, name), metric) == Some(row);
    let (i, path) = choose|i: int, path: Seq<char>|
        0 <= i < all.len() && #[trigger] all[i].entries.contains_key(path)
            && all[i].entries[path].parent == Some(parent) && all[i].entries[path].name == name;
    let tree = trees[i];
    assert(tidy(tree, metric));
    law_index_mirrors_the_tree(tree, path);
    if path.len() == 0 {
        assert(path =~= seq![]);
    }
    let k = lemma_parent_of_node(tree.root, seq![], path);
    lemma_children_are_found(tree.root, seq![], parent, k);
    law_parent_of_child(parent, name);
    assert(row.path == child_path(parent, name));
    assert(tidy(trees[0], metric) && tidy(trees.last(), metric));
    lemma_sizes_are_small(trees[0], row.path, metric);
    lemma_sizes_are_small(trees.last(), row.path, metric);
}

/// The rows of a directory add up to its size in a snapshot.
pub proof fn lemma_rows_add_up_in(
    trees: Seq<TreeView>,
    k: int,
    parent: Seq<char>,
    metric: SizeMetric,
    sort: SortMode,
    rows: Seq<RowView>,
)
    requires
        trees.len() > 0,
        0 <= k < trees.len(),
        forall|i: int| 0 <= i < trees.len() ==> tidy(#[trigger] trees[i], metric),
        is_dir_if_there(trees[k], parent),
        lists_children(indexes(trees), parent, true, metric, sort, rows),
    ensures
        sum_at(index_of(trees[k]), row_paths(rows), metric) == size_at(
            index_of(trees[k]),
            parent,
            metric,
        ),
{
    reveal(lists_children);
    let all = indexes(trees);
    let tree = trees[k];
    let index = index_of(tree);
    let paths = row_paths(rows);
    assert(all[k] == index);
    assert(tidy(tree, metric));
    assert forall|i: int| 0 <= i < rows.len() implies parent_of((#[trigger] rows[i]).path) == Some(
        parent,
    ) && row_at(all, rows[i].path, metric) == Some(rows[i]) by {
        assert(is_child_row(all, parent, true, metric, rows[i]));
        lemma_child_row(trees, parent, metric, rows[i]);
    }
    assert(paths.no_duplicates()) by {
        assert forall|i: int, j: int|
            0 <= i < paths.len() && 0 <= j < paths.len() && i != j implies paths[i] != paths[j] by {
            if paths[i] == paths[j] {
                assert(rows[i] == rows[j]);
                let a = if i < j {
                    i
                } else {
                    j
                };
                let b = if i < j {
                    j
                } else {
                    i
                };
                assert(row_comes_first(sort, rows[a], rows[b]));
                lemma_row_order_asymmetric(sort, rows[a], rows[b]);
            }
        }
    }
    if index.entries.contains_key(parent) {
        lemma_directory(tree, parent, metric);
        let children = node_at(tree.root, seq![], parent)->Some_0->children;
        let keys = paths_in(children, parent);
        assert forall|key: Seq<char>| #[trigger] keys.contains(key) implies paths.contains(key) by {
            assert(all[k].entries.contains_key(key));
            let i = choose|i: int| 0 <= i < keys.len() && keys[i] == key;
            let name = children[i].name();
            lemma_children_are_found(tree.root, seq![], parent, i);
            law_index_mirrors_the_tree(tree, key);
            assert(is_child(all, parent, name));
            lemma_name_in_some(all, key, k);
            let row = row_at(all, key, metric)->Some_0;
            assert(is_child_row(all, parent, true, metric, row));
            assert(rows.contains(row));
            let j = choose|j: int| 0 <= j < rows.len() && rows[j] == row;
            assert(paths[j] == key);
        }
        assert forall|path: Seq<char>| #[trigger]
            paths.contains(path) && !keys.contains(path) implies size_at(index, path, metric)
            == 0 by {
            let i = choose|i: int| 0 <= i < paths.len() && paths[i] == path;
            assert(parent_of(rows[i].path) == Some(parent));
            if index.entries.contains_key(path) {
                law_index_mirrors_the_tree(tree, path);
                assert(keys.contains(path));
            }
        }
        lemma_sums_agree(index, paths, keys, metric);
        law_index_mirrors_the_tree(tree, parent);
        lemma_part_is_smaller(tree.root, seq![], parent, metric);
        lemma_sum_is_exact(children, metric);
        lemma_total_is_capped(children, metric);
    } else {
        let none = Seq::<Seq<char>>::empty();
        assert forall|path: Seq<char>| #[trigger]
            paths.contains(path) && !none.contains(path) implies size_at(index, path, metric)
            == 0 by {
            let i = choose|i: int| 0 <= i < paths.len() && paths[i] == path;
            assert(parent_of(rows[i].path) == Some(parent));
            law_index_mirrors_the_tree(tree, path);
        }
        lemma_sums_agree(index, paths, none, metric);
    }
}

/// The sizes and the changes of the rows of a directory add up to those of the row of the
/// directory itself.
pub proof fn law_rows_add_up(
    trees: Seq<TreeView>,
    parent: Seq<char>,
    metric: SizeMetric,
    sort: SortMode,
    rows: Seq<RowView>,
)
    requires
        trees.len() > 0,
        forall|i: int| 0 <= i < trees.len() ==> tidy(#[trigger] trees[i], metric),
        forall|i: int| 0 <= i < trees.len() ==> is_dir_if_there(#[trigger] trees[i], parent),
        exists|i: int|
            0 <= i < trees.len() && index_of(#[trigger] trees[i]).entries.contains_key(parent),
        lists_children(indexes(trees), parent, true, metric, sort, rows),
    ensures
        row_for(indexes(trees), parent, metric) matches Some(row) && latest_total(rows)
            == row.latest_size && baseline_total(rows) == row.baseline_size && delta_total(rows)
            == row.delta,
{
    let all = indexes(trees);
    let n = trees.len() - 1;
    assert(is_dir_if_there(trees[0], parent) && is_dir_if_there(trees[n], parent));
    assert(tidy(trees[0], metric) && tidy(trees[n], metric));
    lemma_rows_add_up_in(trees, 0, parent, metric, sort, rows);
    lemma_rows_add_up_in(trees, n, parent, metric, sort, rows);
    assert forall|i: int| 0 <= i < rows.len() implies shows_sizes(
        all,
        metric,
        #[trigger] rows[i],
    ) by {
        reveal(lists_children);
        assert(is_child_row(all, parent, true, metric, rows[i]));
        lemma_child_row(trees, parent, metric, rows[i]);
    }
    lemma_row_totals(all, metric, rows);
    lemma_sizes_are_small(trees[0], parent, metric);
    lemma_sizes_are_small(trees[n], parent, metric);
    let i = choose|i: int|
        0 <= i < trees.len() && index_of(#[trigger] trees[i]).entries.contains_key(parent);
    lemma_name_in_some(all, parent, i);
    if parent.len() == 0 {
        assert(parent =~= seq![]);
    }
}

} // verus!
