//! What comes out of snapshot files and their names, and how an export proceeds.

use crate::export::{ExportEventView, ExportState, ExportStepView, export_path, export_step, failure_detail, program_name};
use crate::gdu::{COMPRESSED_SNAPSHOT_EXTENSION, FaultView, NodeError, NodeView, PLAIN_SNAPSHOT_SUFFIX, SNAPSHOT_FILE_SUFFIX, SnapshotOutputKind, export_of, is_zstd_path, label_of_path, node_of, nodes_of, output_kind};
use crate::json::{JsonView, as_u64, member};
use crate::path::{file_name, file_stem, join_paths, lemma_file_name_of_join, trim_tail, with_extension};
use crate::text::{is_white, last_place, lemma_last_place, same_ignoring_ascii_case, trim, trim_end, trim_start};
use crate::texts::law_stem_and_extension;
use vstd::prelude::*;

verus! {

/// No key stands twice among the members.
pub open spec fn distinct_keys(members: Seq<(Seq<char>, JsonView)>) -> bool {
    forall|i: int, j: int|
        0 <= i < j < members.len() ==> (#[trigger] members[i]).0 != (#[trigger] members[j]).0
}

/// The size that the members of an object give for a file: nothing where there is none, or
/// where it is not a number of 64 bits.
pub open spec fn gives_size(
    members: Seq<(Seq<char>, JsonView)>,
    key: Seq<char>,
    size: u64,
) -> bool {
    ||| members.contains((key, JsonView::Number(Some(size))))
    ||| size == 0 && forall|i: int|
        0 <= i < members.len() && (#[trigger] members[i]).0 == key ==> !(members[i].1
            matches JsonView::Number(Some(_)))
}

/// The value describes the node: an object with a name and two sizes is a file, and an
/// array of an object with a name and of what is in it is a directory.
pub open spec fn describes(value: JsonView, node: NodeView) -> bool
    decreases node,
{
    match node {
        NodeView::File { name, apparent_size, disk_size } => value matches JsonView::Object(members)
            && distinct_keys(members) && members.contains(("name"@, JsonView::Text(name)))
            && gives_size(members, "asize"@, apparent_size) && gives_size(
            members,
            "dsize"@,
            disk_size,
        ),
        NodeView::Dir { name, children } => value matches JsonView::Array(items) && items.len() > 0
            && (items[0] matches JsonView::Object(head) && distinct_keys(head) && head.contains(
            ("name"@, JsonView::Text(name)),
        )) && describe_all(items.drop_first(), children),
    }
}

/// The values describe the nodes, one by one and in the same order.
pub open spec fn describe_all(items: Seq<JsonView>, nodes: Seq<NodeView>) -> bool
    decreases nodes,
{
    items.len() == nodes.len() && (nodes.len() > 0 ==> describe_all(
        items.drop_last(),
        nodes.drop_last(),
    ) && describes(items.last(), nodes.last()))
}

proof fn lemma_member(members: Seq<(Seq<char>, JsonView)>, key: Seq<char>)
    requires
        distinct_keys(members),
    ensures
        match member(members, key) {
            Some(value) => members.contains((key, value)),
            None => forall|i: int| 0 <= i < members.len() ==> (#[trigger] members[i]).0 != key,
        },
        forall|value: JsonView| #[trigger]
            members.contains((key, value)) ==> member(members, key) == Some(value),
    decreases members.len(),
{
    if members.len() > 0 {
        let rest = members.drop_first();
        assert forall|i: int, j: int| 0 <= i < j < rest.len() implies (#[trigger] rest[i]).0 != (
        #[trigger] rest[j]).0 by {
            assert(rest[i] == members[i + 1] && rest[j] == members[j + 1]);
        }
        lemma_member(rest, key);
        if members[0].0 == key {
            assert(members[0] == (key, members[0].1));
            assert(members.contains((key, members[0].1)));
            assert forall|value: JsonView| #[trigger] members.contains((key, value)) implies member(
                members,
                key,
            ) == Some(value) by {
                let i = choose|i: int| 0 <= i < members.len() && members[i] == (key, value);
                if i > 0 {
                    assert(members[0].0 != members[i].0);
                }
            }
        } else {
            if let Some(value) = member(rest, key) {
                let i = choose|i: int| 0 <= i < rest.len() && rest[i] == (key, value);
                assert(members[i + 1] == (key, value));
            } else {
                assert forall|i: int| 0 <= i < members.len() implies (#[trigger] members[i]).0
                    != key by {
                    if i > 0 {
                        assert(rest[i - 1] == members[i]);
                    }
                }
            }
            assert forall|value: JsonView| #[trigger] members.contains((key, value)) implies member(
                members,
                key,
            ) == Some(value) by {
                let i = choose|i: int| 0 <= i < members.len() && members[i] == (key, value);
                assert(rest[i - 1] == (key, value));
                assert(rest.contains((key, value)));
            }
        }
    }
}

proof fn lemma_size(members: Seq<(Seq<char>, JsonView)>, key: Seq<char>, size: u64)
    requires
        distinct_keys(members),
        gives_size(members, key, size),
    ensures
        as_u64(member(members, key)).unwrap_or(0) == size,
{
    lemma_member(members, key);
    if members.contains((key, JsonView::Number(Some(size)))) {
    } else if let Some(value) = member(members, key) {
        let i = choose|i: int| 0 <= i < members.len() && members[i] == (key, value);
        assert(members[i].0 == key);
    }
}

/// A tree that was written down comes back as it was: every file with its name, its
/// apparent size and its disk size, every directory with its name and with what is in it,
/// in the same order. The members of an object may stand in any order, and there may be
/// others among them.
pub proof fn law_trees_read_back(value: JsonView, node: NodeView)
    requires
        describes(value, node),
    ensures
        node_of(value) == Ok::<NodeView, NodeError>(node),
    decreases node,
{
    match node {
        NodeView::File { name, apparent_size, disk_size } => {
            let members = value->Object_0;
            lemma_member(members, "name"@);
            lemma_size(members, "asize"@, apparent_size);
            lemma_size(members, "dsize"@, disk_size);
        },
        NodeView::Dir { name, children } => {
            let items = value->Array_0;
            lemma_member(items[0]->Object_0, "name"@);
            lemma_all_read_back(items.drop_first(), children);
        },
    }
}

proof fn lemma_all_read_back(items: Seq<JsonView>, nodes: Seq<NodeView>)
    requires
        describe_all(items, nodes),
    ensures
        nodes_of(items) == Ok::<Seq<NodeView>, NodeError>(nodes),
    decreases nodes,
{
    if nodes.len() > 0 {
        lemma_all_read_back(items.drop_last(), nodes.drop_last());
        law_trees_read_back(items.last(), nodes.last());
        assert(nodes.drop_last().push(nodes.last()) =~= nodes);
    } else {
        assert(nodes =~= seq![]);
    }
}

/// An export holds the tree in its fourth place and the time in the object in its third;
/// what stands before them, and behind, does not count. A root that is a file is refused,
/// and so is a document that is too short or is no array.
pub proof fn law_exports_read_back(
    top: Seq<JsonView>,
    meta: Seq<(Seq<char>, JsonView)>,
    root: NodeView,
    time: u64,
)
    requires
        top.len() >= 4,
        top[2] == JsonView::Object(meta),
        distinct_keys(meta),
        describes(top[3], root),
    ensures
        root is Dir && meta.contains(("timestamp"@, JsonView::Number(Some(time)))) ==> export_of(
            JsonView::Array(top),
        ) == Ok::<(Option<u64>, NodeView), FaultView>((Some(time), root)),
        root is Dir && (forall|i: int|
            0 <= i < meta.len() ==> (#[trigger] meta[i]).0 != "timestamp"@) ==> export_of(
            JsonView::Array(top),
        ) == Ok::<(Option<u64>, NodeView), FaultView>((None, root)),
        root is File ==> export_of(JsonView::Array(top)) == Err::<
            (Option<u64>, NodeView),
            FaultView,
        >(FaultView::RootNotDirectory),
        forall|n: int|
            #![trigger top.take(n)]
            0 <= n < 4 ==> export_of(JsonView::Array(top.take(n))) == Err::<
                (Option<u64>, NodeView),
                FaultView,
            >(FaultView::TooShort),
        export_of(JsonView::Object(meta)) == Err::<(Option<u64>, NodeView), FaultView>(
            FaultView::NotArray,
        ),
{
    law_trees_read_back(top[3], root);
    lemma_member(meta, "timestamp"@);
    if let Some(value) = member(meta, "timestamp"@) {
        let i = choose|i: int| 0 <= i < meta.len() && meta[i] == ("timestamp"@, value);
        assert(meta[i].0 == "timestamp"@);
    }
}

/// The name of the file is not lost when it is put into a directory.
proof fn lemma_name_kept(base: Seq<char>, stem: Seq<char>, suffix: Seq<char>)
    requires
        stem.len() > 0,
        !stem.contains('/'),
        suffix.len() >= 2,
        !suffix.contains('/'),
    ensures
        file_name(join_paths(base, stem + suffix)) == Some(stem + suffix),
{
    let name = stem + suffix;
    if name.contains('/') {
        let i = choose|i: int| 0 <= i < name.len() && name[i] == '/';
        if i < stem.len() {
            assert(stem[i] == '/');
        } else {
            assert(suffix[i - stem.len()] == '/');
        }
    }
    lemma_file_name_of_join(base, name);
}

proof fn lemma_suffixes()
    ensures
        PLAIN_SNAPSHOT_SUFFIX@ == seq!['.', 'j', 's', 'o', 'n'],
        SNAPSHOT_FILE_SUFFIX@ == seq!['.', 'j', 's', 'o', 'n', '.', 'z', 's', 't'],
{
    reveal_strlit(".json");
    reveal_strlit(".json.zst");
    assert(PLAIN_SNAPSHOT_SUFFIX@ =~= seq!['.', 'j', 's', 'o', 'n']);
    assert(SNAPSHOT_FILE_SUFFIX@ =~= seq!['.', 'j', 's', 'o', 'n', '.', 'z', 's', 't']);
}

/// A snapshot is labelled with the name of its file, wherever that lies, without `.json`
/// or `.json.zst` at its end. The first is written as it is, the second compressed.
pub proof fn law_snapshot_names(base: Seq<char>, stem: Seq<char>)
    requires
        stem.len() > 0,
        !stem.contains('/'),
    ensures
        label_of_path(join_paths(base, stem + seq!['.', 'j', 's', 'o', 'n'])) == stem,
        label_of_path(
            join_paths(base, stem + seq!['.', 'j', 's', 'o', 'n', '.', 'z', 's', 't']),
        ) == stem,
        output_kind(join_paths(base, stem + seq!['.', 'j', 's', 'o', 'n'])) == Some(
            SnapshotOutputKind::PlainJson,
        ),
        output_kind(
            join_paths(base, stem + seq!['.', 'j', 's', 'o', 'n', '.', 'z', 's', 't']),
        ) == Some(SnapshotOutputKind::CompressedZstd),
{
    lemma_suffixes();
    let plain = PLAIN_SNAPSHOT_SUFFIX@;
    let packed = SNAPSHOT_FILE_SUFFIX@;
    lemma_name_kept(base, stem, plain);
    lemma_name_kept(base, stem, packed);
    let a = stem + plain;
    let b = stem + packed;
    if packed.is_suffix_of(a) {
        assert(a.last() == packed[8]);
        assert(a.last() == plain[4]);
    }
    assert(a.skip(a.len() - plain.len()) =~= plain);
    assert(b.skip(b.len() - packed.len()) =~= packed);
    assert(plain.is_suffix_of(a));
    assert(packed.is_suffix_of(b));
    assert(a.take(stem.len() as int) =~= stem);
    assert(b.take(stem.len() as int) =~= stem);
}

/// A file with another name is labelled with the whole of it, and no snapshot is written
/// to it.
pub proof fn law_other_names(base: Seq<char>, name: Seq<char>)
    requires
        name.len() > 2,
        !name.contains('/'),
        !seq!['.', 'j', 's', 'o', 'n'].is_suffix_of(name),
        !seq!['.', 'j', 's', 'o', 'n', '.', 'z', 's', 't'].is_suffix_of(name),
    ensures
        label_of_path(join_paths(base, name)) == name,
        output_kind(join_paths(base, name)) is None,
{
    lemma_suffixes();
    lemma_file_name_of_join(base, name);
}

/// Another extension takes the place of the one that a file has; its directory and the
/// rest of its name stay.
pub proof fn law_other_extension(
    base: Seq<char>,
    stem: Seq<char>,
    old_extension: Seq<char>,
    new_extension: Seq<char>,
)
    requires
        stem.len() > 0,
        stem[0] != '/',
        !stem.contains('/'),
        old_extension.len() > 0,
        !old_extension.contains('/'),
        !old_extension.contains('.'),
    ensures
        with_extension(
            join_paths(base, stem + seq!['.'] + old_extension),
            new_extension,
        ) == join_paths(base, stem + seq!['.'] + new_extension),
{
    let suffix = seq!['.'] + old_extension;
    let name = stem + suffix;
    assert(name =~= stem + seq!['.'] + old_extension);
    if suffix.contains('/') {
        let i = choose|i: int| 0 <= i < suffix.len() && suffix[i] == '/';
        if i > 0 {
            assert(old_extension[i - 1] == '/');
        }
    }
    lemma_name_kept(base, stem, suffix);
    let path = join_paths(base, name);
    let n = name.len() as int;
    let start = path.len() - n;
    lemma_last_place(name, '.');
    let d = last_place(name, '.');
    let k = stem.len() as int;
    assert(name[k] == '.');
    if d > k {
        assert(old_extension[d - k - 1] == '.');
    }
    assert(name.take(k) =~= stem);
    assert(file_stem(path) == Some(stem));
    assert(path.last() == name[n - 1]);
    assert(path[path.len() - 2] == name[n - 2]);
    assert(name[n - 1] == old_extension.last());
    assert(old_extension.contains(old_extension.last()));
    if old_extension.len() == 1 {
        assert(name[n - 2] == '.');
    } else {
        assert(name[n - 2] == old_extension[old_extension.len() - 2]);
        assert(old_extension.contains(old_extension[old_extension.len() - 2]));
    }
    assert(trim_tail(path) == path);
    lemma_last_place(path, '/');
    let p = last_place(path, '/');
    if p >= start {
        assert(path[p] == name[p - start]);
        if p - start < k {
            assert(stem[p - start] == '/');
        } else {
            assert(suffix[p - start - k] == '/');
        }
    }
    if start > 0 {
        assert(path[start - 1] == '/');
    }
    assert(p == start - 1);
    assert(path.take(start) + stem + seq!['.'] + new_extension =~= join_paths(
        base,
        stem + seq!['.'] + new_extension,
    ));
}

/// Every character is white space.
pub open spec fn all_white(s: Seq<char>) -> bool {
    forall|i: int| 0 <= i < s.len() ==> is_white(#[trigger] s[i])
}

proof fn lemma_trim_start(s: Seq<char>) -> (n: int)
    ensures
        0 <= n <= s.len(),
        all_white(s.take(n)),
        trim_start(s) == s.skip(n),
        n < s.len() ==> !is_white(s[n]),
    decreases s.len(),
{
    if s.len() > 0 && is_white(s[0]) {
        let m = lemma_trim_start(s.drop_first());
        let rest = s.drop_first();
        assert forall|i: int| 0 <= i < m + 1 implies is_white(#[trigger] s.take(m + 1)[i]) by {
            if i > 0 {
                assert(rest.take(m)[i - 1] == s[i]);
            }
        }
        assert(rest.skip(m) =~= s.skip(m + 1));
        m + 1
    } else {
        assert(s.skip(0) =~= s);
        0
    }
}

proof fn lemma_trim_end(s: Seq<char>) -> (n: int)
    ensures
        0 <= n <= s.len(),
        all_white(s.skip(n)),
        trim_end(s) == s.take(n),
        n > 0 ==> !is_white(s[n - 1]),
    decreases s.len(),
{
    if s.len() > 0 && is_white(s.last()) {
        let rest = s.drop_last();
        let n = lemma_trim_end(rest);
        assert forall|i: int| 0 <= i < s.len() - n implies is_white(#[trigger] s.skip(n)[i]) by {
            if i < rest.len() - n {
                assert(rest.skip(n)[i] == s[n + i]);
            }
        }
        assert(rest.take(n) =~= s.take(n));
        n
    } else {
        assert(s.take(s.len() as int) =~= s);
        s.len() as int
    }
}

/// Trimming takes away white space at both ends and nothing else: what is left neither
/// starts nor ends with white space, and nothing is left only of white space alone.
pub proof fn law_trimming(s: Seq<char>)
    ensures
        exists|from: int, to: int|
            0 <= from <= to <= s.len() && #[trigger] s.subrange(from, to) == trim(s) && all_white(
                s.take(from),
            ) && all_white(s.skip(to)),
        trim(s).len() > 0 ==> !is_white(trim(s)[0]) && !is_white(trim(s).last()),
        trim(s).len() == 0 <==> all_white(s),
{
    let a = lemma_trim_start(s);
    let rest = s.skip(a);
    let n = lemma_trim_end(rest);
    assert(s.subrange(a, a + n) =~= rest.take(n));
    assert(s.skip(a + n) =~= rest.skip(n));
    if n == 0 {
        assert forall|i: int| 0 <= i < s.len() implies is_white(#[trigger] s[i]) by {
            if i < a {
                assert(s.take(a)[i] == s[i]);
            } else {
                assert(rest.skip(0)[i - a] == s[i]);
            }
        }
    } else {
        if a < s.len() {
            assert(rest[0] == s[a]);
            assert(rest.take(n)[0] == s[a]);
            assert(rest.take(n).last() == rest[n - 1]);
            assert(rest[n - 1] == s[a + n - 1]);
        }
    }
}

/// The programs are tried one after the other, each once, for the same directory and the
/// same file; where none is there the export fails.
pub proof fn law_programs_are_tried_in_turn(state: ExportState)
    requires
        state.candidate == 0,
    ensures
        ({
            let (next, step) = export_step(state, ExportEventView::NotFound);
            &&& next.target == state.target
            &&& next.output == state.output
            &&& next.compressed == state.compressed
            &&& step == (ExportStepView::Run { program: program_name(next.candidate) })
            &&& program_name(next.candidate) != program_name(state.candidate)
            &&& export_step(next, ExportEventView::NotFound).1 is Fail
            &&& export_step(next, ExportEventView::NotFound).0 == next
        }),
{
    reveal_strlit("gdu-go");
    reveal_strlit("gdu");
    assert("gdu-go"@.len() != "gdu"@.len());
}

/// What the program writes is reported without the white space around it, and the last of
/// it is remembered; white space alone is passed over. The export goes on either way.
pub proof fn law_progress_is_remembered(state: ExportState, text: Seq<char>)
    ensures
        ({
            let (next, step) = export_step(state, ExportEventView::Progress { text });
            &&& all_white(text) ==> next == state && step is Wait
            &&& !all_white(text) ==> {
                &&& step matches ExportStepView::Report { text: shown } && next.last_progress
                    == Some(shown) && shown == trim(text)
                &&& next == (ExportState { last_progress: next.last_progress, ..state })
            }
        }),
{
    law_trimming(text);
}

/// An export ends well if and only if the program did. A compressed snapshot is then made
/// from what the program wrote, which lies beside it.
pub proof fn law_exports_end_as_the_program_did(
    state: ExportState,
    success: bool,
    status: Seq<char>,
    stdout: Seq<char>,
    stderr: Seq<char>,
)
    ensures
        ({
            let event = ExportEventView::Exited { success, status, stdout, stderr };
            let (next, step) = export_step(state, event);
            &&& next == state
            &&& step is Fail <==> !success
            &&& success && state.compressed ==> step == (ExportStepView::Compress {
                input: export_path(state),
                output: state.output,
            })
            &&& success && !state.compressed ==> step is Finish
            &&& success && !state.compressed ==> export_path(state) == state.output
        }),
{
}

/// What is said of a program that failed is the first that there is of this: what it wrote
/// to its error output, what it wrote to its output, its last progress, its exit status.
pub proof fn law_failures_tell_what_is_known(
    state: ExportState,
    status: Seq<char>,
    stdout: Seq<char>,
    stderr: Seq<char>,
)
    ensures
        ({
            let event = ExportEventView::Exited { success: false, status, stdout, stderr };
            let step = export_step(state, event).1;
            let message = step->message;
            &&& step is Fail
            &&& program_name(state.candidate).is_prefix_of(message)
            &&& !all_white(stderr) ==> trim(stderr).is_suffix_of(message)
            &&& all_white(stderr) && !all_white(stdout) ==> trim(stdout).is_suffix_of(message)
            &&& all_white(stderr) && all_white(stdout) && state.last_progress is Some
                ==> state.last_progress->Some_0.is_suffix_of(message)
            &&& all_white(stderr) && all_white(stdout) && state.last_progress is None
                ==> status.is_suffix_of(message)
        }),
{
    law_trimming(stderr);
    law_trimming(stdout);
    let event = ExportEventView::Exited { success: false, status, stdout, stderr };
    let message = export_step(state, event).1->message;
    let program = program_name(state.candidate);
    let detail = failure_detail(stderr, stdout, state.last_progress, status);
    let front = program + " failed to export "@ + state.target + ": "@;
    assert(message == front + detail);
    assert(message.skip(front.len() as int) =~= detail);
    assert(message.skip(message.len() - detail.len()) =~= detail);
    assert(message.take(program.len() as int) =~= program);
    if detail == "exit status "@ + status {
        assert(message.skip(message.len() - status.len()) =~= status);
    }
}

/// A file is read as a compressed snapshot where its extension is `zst`, in whatever case,
/// and only then.
pub proof fn law_compressed_files(base: Seq<char>, stem: Seq<char>, ext: Seq<char>)
    requires
        stem.len() > 0,
        ext.len() > 0,
        !stem.contains('/'),
        !ext.contains('/'),
        !ext.contains('.'),
    ensures
        is_zstd_path(join_paths(base, stem + seq!['.'] + ext)) <==> same_ignoring_ascii_case(
            ext,
            seq!['z', 's', 't'],
        ),
{
    reveal_strlit("zst");
    assert(COMPRESSED_SNAPSHOT_EXTENSION@ =~= seq!['z', 's', 't']);
    law_stem_and_extension(base, stem, ext);
}

/// What is neither an object nor an array is no node, nor is an empty array, an array that
/// does not start with an object, or an object without a name that is a text.
pub proof fn law_what_is_no_node(
    members: Seq<(Seq<char>, JsonView)>,
    rest: Seq<JsonView>,
    text: Seq<char>,
)
    requires
        distinct_keys(members),
        forall|name: Seq<char>| !#[trigger] members.contains(("name"@, JsonView::Text(name))),
        nodes_of(rest) is Ok,
    ensures
        node_of(JsonView::Null) == Err::<NodeView, NodeError>(NodeError::UnexpectedValue),
        node_of(JsonView::Text(text)) == Err::<NodeView, NodeError>(NodeError::UnexpectedValue),
        node_of(JsonView::Array(seq![])) == Err::<NodeView, NodeError>(NodeError::EmptyDirectory),
        node_of(JsonView::Array(seq![JsonView::Text(text)] + rest)) == Err::<NodeView, NodeError>(
            NodeError::HeadNotObject,
        ),
        node_of(JsonView::Object(members)) == Err::<NodeView, NodeError>(NodeError::MissingName),
        node_of(JsonView::Array(seq![JsonView::Object(members)] + rest)) == Err::<
            NodeView,
            NodeError,
        >(NodeError::MissingName),
{
    lemma_member(members, "name"@);
    let items = seq![JsonView::Object(members)] + rest;
    assert(items.drop_first() =~= rest);
    assert(items[0] == JsonView::Object(members));
    let others = seq![JsonView::Text(text)] + rest;
    assert(others[0] == JsonView::Text(text));
}

/// One bad node anywhere in a directory makes the whole of it bad, with the error of the
/// first one that is.
pub proof fn law_first_error_counts(items: Seq<JsonView>, i: int, error: NodeError)
    requires
        0 <= i < items.len(),
        nodes_of(items.take(i)) is Ok,
        node_of(items[i]) == Err::<NodeView, NodeError>(error),
    ensures
        nodes_of(items) == Err::<Seq<NodeView>, NodeError>(error),
    decreases items.len(),
{
    let front = items.drop_last();
    if i == items.len() - 1 {
        assert(items.take(i) =~= front);
    } else {
        assert(front.take(i) =~= items.take(i));
        law_first_error_counts(front, i, error);
    }
}

/// Of the characters of ASCII those from the tab to the carriage return and the space are
/// white space.
pub proof fn law_white_space_of_ascii(c: char)
    requires
        c as int <= 127,
    ensures
        is_white(c) <==> c == ' ' || '\t' <= c <= '\r',
{
}

} // verus!
