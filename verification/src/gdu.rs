//! Snapshots as exported by `gdu`: the tree of files and directories, read from JSON.

use vstd::prelude::*;
use crate::compression::{read_text, text_in, zstd_decoded};
use crate::json::{JsonValue, JsonView, as_u64, find_member, json_document, lemma_object_view, member, member_views, read_json};
use crate::path::{extension, extension_in_path, file_name, name_in_path, path_with_extension, with_extension};
use crate::text::{copied, ends_with, equal_ignoring_ascii_case, joined_pair, same_ignoring_ascii_case, strip_suffix, without_suffix};

verus! {

/// What a node of the tree is.
pub enum NodeView {
    File { name: Seq<char>, apparent_size: u64, disk_size: u64 },
    Dir { name: Seq<char>, children: Seq<NodeView> },
}

impl NodeView {
    /// The name of the file or directory.
    pub open spec fn name(self) -> Seq<char> {
        match self {
            NodeView::File { name, .. } => name,
            NodeView::Dir { name, .. } => name,
        }
    }
}

/// A file with its two sizes.
#[derive(Debug)]
pub struct GduFile {
    pub name: String,
    pub apparent_size: u64,
    pub disk_size: u64,
}

/// A directory with what is in it.
#[derive(Debug)]
pub struct GduDir {
    pub name: String,
    pub children: Vec<GduNode>,
}

/// A file or a directory.
#[derive(Debug)]
pub enum GduNode {
    File(GduFile),
    Dir(GduDir),
}

/// The views of some nodes.
pub open spec fn node_views(nodes: Seq<GduNode>) -> Seq<NodeView> {
    Seq::new(nodes.len(), |i: int| nodes[i]@)
}

impl GduNode {
    /// What the node is.
    pub open spec fn view(self) -> NodeView
        decreases self,
    {
        match self {
            GduNode::File(file) => NodeView::File {
                name: file.name@,
                apparent_size: file.apparent_size,
                disk_size: file.disk_size,
            },
            GduNode::Dir(dir) => NodeView::Dir {
                name: dir.name@,
                children: Seq::new(
                    dir.children@.len(),
                    |i: int|
                        if 0 <= i < dir.children@.len() {
                            dir.children@[i].view()
                        } else {
                            arbitrary()
                        },
                ),
            },
        }
    }

    /// The name of the file or directory.
    pub fn name(&self) -> (r: &str)
        ensures
            r@ == self@.name(),
    {
        match self {
            GduNode::File(file) => file.name.as_str(),
            GduNode::Dir(dir) => dir.name.as_str(),
        }
    }

    /// Whether this is a directory.
    pub fn is_dir(&self) -> (r: bool)
        ensures
            r == (self@ is Dir),
    {
        match self {
            GduNode::File(_) => false,
            GduNode::Dir(_) => true,
        }
    }
}

/// The view of a directory is made of the views of its children.
pub proof fn lemma_dir_view(dir: GduDir)
    ensures
        GduNode::Dir(dir)@ == (NodeView::Dir {
            name: dir.name@,
            children: node_views(dir.children@),
        }),
{
    assert(GduNode::Dir(dir)@->children =~= node_views(dir.children@));
}

/// What is wrong with a node of an export.
#[derive(Clone, Copy, Debug, PartialEq, Eq, Structural)]
pub enum NodeError {
    UnexpectedValue,
    EmptyDirectory,
    HeadNotObject,
    MissingName,
}

/// The name in an object.
pub open spec fn name_of(members: Seq<(Seq<char>, JsonView)>) -> Result<Seq<char>, NodeError> {
    match member(members, "name"@) {
        Some(JsonView::Text(name)) => Ok(name),
        _ => Err(NodeError::MissingName),
    }
}

/// The node that a JSON value stands for: an object is a file, and an array that
/// starts with an object is a directory with the rest of the array in it.
pub open spec fn node_of(value: JsonView) -> Result<NodeView, NodeError>
    decreases value,
{
    match value {
        JsonView::Object(members) => match name_of(members) {
            Ok(name) => Ok(
                NodeView::File {
                    name,
                    apparent_size: as_u64(member(members, "asize"@)).unwrap_or(0),
                    disk_size: as_u64(member(members, "dsize"@)).unwrap_or(0),
                },
            ),
            Err(error) => Err(error),
        },
        JsonView::Array(items) => if items.len() == 0 {
            Err(NodeError::EmptyDirectory)
        } else {
            match items[0] {
                JsonView::Object(head) => match nodes_of(items.drop_first()) {
                    Ok(children) => match name_of(head) {
                        Ok(name) => Ok(NodeView::Dir { name, children }),
                        Err(error) => Err(error),
                    },
                    Err(error) => Err(error),
                },
                _ => Err(NodeError::HeadNotObject),
            }
        },
        _ => Err(NodeError::UnexpectedValue),
    }
}

/// The nodes that JSON values stand for, or the first error among them.
pub open spec fn nodes_of(items: Seq<JsonView>) -> Result<Seq<NodeView>, NodeError>
    decreases items,
{
    if items.len() == 0 {
        Ok(seq![])
    } else {
        match nodes_of(items.drop_last()) {
            Ok(nodes) => match node_of(items.last()) {
                Ok(node) => Ok(nodes.push(node)),
                Err(error) => Err(error),
            },
            Err(error) => Err(error),
        }
    }
}

/// Once an error is found, more values do not remove it.
proof fn lemma_nodes_error_stays(items: Seq<JsonView>, i: int)
    requires
        0 <= i <= items.len(),
        nodes_of(items.take(i)) is Err,
    ensures
        nodes_of(items) == nodes_of(items.take(i)),
    decreases items.len() - i,
{
    if i < items.len() {
        assert(items.take(i + 1).drop_last() =~= items.take(i));
        lemma_nodes_error_stays(items, i + 1);
    } else {
        assert(items.take(i) =~= items);
    }
}

fn read_name(members: &Vec<(String, JsonValue)>) -> (r: Result<String, NodeError>)
    ensures
        match r {
            Ok(name) => name_of(member_views(members@)) == Ok::<Seq<char>, NodeError>(name@),
            Err(error) => name_of(member_views(members@)) == Err::<Seq<char>, NodeError>(error),
        },
{
    match find_member(members, "name") {
        Some(JsonValue::Text(name)) => Ok(name.clone()),
        _ => Err(NodeError::MissingName),
    }
}

fn read_size(members: &Vec<(String, JsonValue)>, key: &str) -> (r: u64)
    ensures
        r == as_u64(member(member_views(members@), key@)).unwrap_or(0),
{
    match find_member(members, key) {
        Some(JsonValue::Number(Some(n))) => *n,
        _ => 0,
    }
}

/// The node that a JSON value stands for.
pub fn parse_node(value: &JsonValue) -> (r: Result<GduNode, NodeError>)
    ensures
        match r {
            Ok(node) => node_of(value@) == Ok::<NodeView, NodeError>(node@),
            Err(error) => node_of(value@) == Err::<NodeView, NodeError>(error),
        },
    decreases value,
{
    match value {
        JsonValue::Object(members) => {
            proof {
                lemma_object_view(*members);
            }
            match read_name(members) {
                Ok(name) => Ok(
                    GduNode::File(
                        GduFile {
                            name,
                            apparent_size: read_size(members, "asize"),
                            disk_size: read_size(members, "dsize"),
                        },
                    ),
                ),
                Err(error) => Err(error),
            }
        },
        JsonValue::Array(items) => {
            if items.len() == 0 {
                return Err(NodeError::EmptyDirectory);
            }
            let ghost views = value@->Array_0;
            assert(views[0] == items@[0]@);
            match &items[0] {
                JsonValue::Object(head) => {
                    proof {
                        lemma_object_view(*head);
                    }
                    let ghost tail = views.drop_first();
                    let mut children: Vec<GduNode> = Vec::new();
                    let mut i: usize = 1;
                    assert(tail.take(0) =~= seq![]);
                    assert(node_views(children@) =~= seq![]);
                    while i < items.len()
                        invariant
                            1 <= i <= items@.len(),
                            value == JsonValue::Array(*items),
                            views == value@->Array_0,
                            views.len() == items@.len(),
                            forall|j: int| 0 <= j < items@.len() ==> views[j] == (#[trigger] items@[j])@,
                            tail == views.drop_first(),
                            value@ == JsonView::Array(views),
                            views[0] is Object,
                            nodes_of(tail.take(i - 1)) == Ok::<Seq<NodeView>, NodeError>(
                                node_views(children@),
                            ),
                        decreases items@.len() - i,
                    {
                        proof {
                            assert(tail.take(i as int).drop_last() =~= tail.take(i - 1));
                            assert(tail.take(i as int).last() == items@[i as int]@);
                        }
                        match parse_node(&items[i]) {
                            Ok(node) => {
                                let ghost before = node_views(children@);
                                children.push(node);
                                assert(node_views(children@) =~= before.push(node@));
                            },
                            Err(error) => {
                                proof {
                                    lemma_nodes_error_stays(tail, i as int);
                                }
                                return Err(error);
                            },
                        }
                        i = i + 1;
                    }
                    assert(tail.take(i - 1) =~= tail);
                    match read_name(head) {
                        Ok(name) => {
                            let dir = GduDir { name, children };
                            proof {
                                lemma_dir_view(dir);
                            }
                            Ok(GduNode::Dir(dir))
                        },
                        Err(error) => Err(error),
                    }
                },
                _ => Err(NodeError::HeadNotObject),
            }
        },
        _ => Err(NodeError::UnexpectedValue),
    }
}

/// The extension of a compressed snapshot.
pub const COMPRESSED_SNAPSHOT_EXTENSION: &'static str = "zst";

/// What the name of a compressed snapshot ends with.
pub const SNAPSHOT_FILE_SUFFIX: &'static str = ".json.zst";

/// What the name of a snapshot that is not compressed ends with.
pub const PLAIN_SNAPSHOT_SUFFIX: &'static str = ".json";

/// The extension of an export.
pub const GDU_EXPORT_EXTENSION: &'static str = "json";

/// What is wrong with an export, and what was the cause where something else failed.
#[derive(Debug)]
pub enum ExportFault {
    Unreadable { cause: String },
    InvalidJson { cause: String },
    NotArray,
    TooShort,
    RootNotDirectory,
    Node(NodeError),
}

/// What is wrong, as views.
pub enum FaultView {
    Unreadable { cause: Seq<char> },
    InvalidJson { cause: Seq<char> },
    NotArray,
    TooShort,
    RootNotDirectory,
    Node(NodeError),
}

impl ExportFault {
    /// What is wrong.
    pub open spec fn view(&self) -> FaultView {
        match *self {
            ExportFault::Unreadable { cause } => FaultView::Unreadable { cause: cause@ },
            ExportFault::InvalidJson { cause } => FaultView::InvalidJson { cause: cause@ },
            ExportFault::NotArray => FaultView::NotArray,
            ExportFault::TooShort => FaultView::TooShort,
            ExportFault::RootNotDirectory => FaultView::RootNotDirectory,
            ExportFault::Node(error) => FaultView::Node(error),
        }
    }
}

/// What is wrong with the export in a file.
#[derive(Debug)]
pub struct GduError {
    pub source: String,
    pub fault: ExportFault,
}

/// The message for a fault.
pub open spec fn fault_message(source: Seq<char>, fault: FaultView) -> Seq<char> {
    match fault {
        FaultView::Unreadable { .. } => "failed to read gdu export file "@ + source,
        FaultView::InvalidJson { .. } => "failed to parse JSON from "@ + source,
        FaultView::NotArray => source + " is not a valid gdu export array"@,
        FaultView::TooShort => source + " is too short to be a valid gdu export"@,
        FaultView::RootNotDirectory => source + " root node is not a directory"@,
        FaultView::Node(NodeError::UnexpectedValue) =>
            "encountered an unexpected gdu node value"@,
        FaultView::Node(NodeError::EmptyDirectory) =>
            "encountered an empty directory entry in gdu export"@,
        FaultView::Node(NodeError::HeadNotObject) =>
            "directory head is not an object in gdu export"@,
        FaultView::Node(NodeError::MissingName) => "gdu node is missing its name field"@,
    }
}

/// What was the cause of a fault, where something else failed.
pub open spec fn fault_cause(fault: FaultView) -> Option<Seq<char>> {
    match fault {
        FaultView::Unreadable { cause } => Some(cause),
        FaultView::InvalidJson { cause } => Some(cause),
        _ => None,
    }
}

impl GduError {
    /// The message for the user.
    pub fn message(&self) -> (r: String)
        ensures
            r@ == fault_message(self.source@, self.fault@),
    {
        let source = self.source.as_str();
        match &self.fault {
            ExportFault::Unreadable { .. } => joined_pair("failed to read gdu export file ", source),
            ExportFault::InvalidJson { .. } => joined_pair("failed to parse JSON from ", source),
            ExportFault::NotArray => joined_pair(source, " is not a valid gdu export array"),
            ExportFault::TooShort => joined_pair(source, " is too short to be a valid gdu export"),
            ExportFault::RootNotDirectory => joined_pair(source, " root node is not a directory"),
            ExportFault::Node(NodeError::UnexpectedValue) => copied(
                "encountered an unexpected gdu node value",
            ),
            ExportFault::Node(NodeError::EmptyDirectory) => copied(
                "encountered an empty directory entry in gdu export",
            ),
            ExportFault::Node(NodeError::HeadNotObject) => copied(
                "directory head is not an object in gdu export",
            ),
            ExportFault::Node(NodeError::MissingName) => copied(
                "gdu node is missing its name field",
            ),
        }
    }

    /// What was the cause, where something else failed.
    pub fn cause(&self) -> (r: Option<&str>)
        ensures
            match r {
                Some(cause) => fault_cause(self.fault@) == Some(cause@),
                None => fault_cause(self.fault@) is None,
            },
    {
        match &self.fault {
            ExportFault::Unreadable { cause } => Some(cause.as_str()),
            ExportFault::InvalidJson { cause } => Some(cause.as_str()),
            _ => None,
        }
    }
}

/// What an export holds: when it was made, and the tree.
pub open spec fn export_of(document: JsonView) -> Result<(Option<u64>, NodeView), FaultView> {
    match document {
        JsonView::Array(top) => if top.len() < 4 {
            Err(FaultView::TooShort)
        } else {
            let exported_at = match top[2] {
                JsonView::Object(meta) => as_u64(member(meta, "timestamp"@)),
                _ => None,
            };
            match node_of(top[3]) {
                Ok(root) => if root is Dir {
                    Ok((exported_at, root))
                } else {
                    Err(FaultView::RootNotDirectory)
                },
                Err(error) => Err(FaultView::Node(error)),
            }
        },
        _ => Err(FaultView::NotArray),
    }
}

/// What an export with the given text holds.
pub open spec fn export_in_text(content: Seq<char>) -> Result<
    (Option<u64>, NodeView),
    FaultView,
> {
    match json_document(content) {
        Ok(document) => export_of(document),
        Err(cause) => Err(FaultView::InvalidJson { cause }),
    }
}

/// What a snapshot file with the given bytes holds.
pub open spec fn export_in_file(path: Seq<char>, bytes: Seq<u8>) -> Result<
    (Option<u64>, NodeView),
    FaultView,
> {
    match text_in(bytes, is_zstd_path(path)) {
        Ok(content) => export_in_text(content),
        Err(cause) => Err(FaultView::Unreadable { cause }),
    }
}

/// A snapshot: its label, when it was exported, and the tree.
#[derive(Debug)]
pub struct SnapshotTree {
    pub label: String,
    pub exported_at: Option<u64>,
    pub root: GduNode,
}

/// The result of reading a snapshot holds what the export holds, or the fault.
pub open spec fn reads_as(
    r: Result<SnapshotTree, GduError>,
    label: Seq<char>,
    source: Seq<char>,
    export: Result<(Option<u64>, NodeView), FaultView>,
) -> bool {
    match r {
        Ok(tree) => tree.label@ == label && export == Ok::<(Option<u64>, NodeView), FaultView>(
            (tree.exported_at, tree.root@),
        ),
        Err(error) => error.source@ == source && export == Err::<
            (Option<u64>, NodeView),
            FaultView,
        >(error.fault@),
    }
}

impl SnapshotTree {
    /// The snapshot that a JSON document holds.
    pub fn from_json_value(label: String, source: String, value: &JsonValue) -> (r: Result<
        SnapshotTree,
        GduError,
    >)
        ensures
            reads_as(r, label@, source@, export_of(value@)),
    {
        let top = match value {
            JsonValue::Array(top) => top,
            _ => {
                return Err(GduError { source, fault: ExportFault::NotArray });
            },
        };
        if top.len() < 4 {
            return Err(GduError { source, fault: ExportFault::TooShort });
        }
        assert(value@->Array_0[2] == top@[2]@);
        assert(value@->Array_0[3] == top@[3]@);
        let exported_at: Option<u64> = match &top[2] {
            JsonValue::Object(meta) => {
                proof {
                    lemma_object_view(*meta);
                }
                match find_member(meta, "timestamp") {
                    Some(JsonValue::Number(n)) => *n,
                    _ => None,
                }
            },
            _ => None,
        };
        match parse_node(&top[3]) {
            Ok(root) => if root.is_dir() {
                Ok(SnapshotTree { label, exported_at, root })
            } else {
                Err(GduError { source, fault: ExportFault::RootNotDirectory })
            },
            Err(error) => Err(GduError { source, fault: ExportFault::Node(error) }),
        }
    }

    /// The snapshot in the text of an export.
    pub fn from_json_str(label: String, source: String, content: &str) -> (r: Result<
        SnapshotTree,
        GduError,
    >)
        ensures
            reads_as(r, label@, source@, export_in_text(content@)),
    {
        match read_json(content) {
            Ok(value) => SnapshotTree::from_json_value(label, source, &value),
            Err(cause) => Err(GduError { source, fault: ExportFault::InvalidJson { cause } }),
        }
    }

    /// The snapshot in the bytes of a file.
    pub fn from_file_bytes(label: String, path: String, bytes: Vec<u8>) -> (r: Result<
        SnapshotTree,
        GduError,
    >)
        ensures
            reads_as(r, label@, path@, export_in_file(path@, bytes@)),
    {
        let compressed = is_zstd_snapshot_path(path.as_str());
        match read_text(bytes, compressed) {
            Ok(content) => SnapshotTree::from_json_str(label, path, content.as_str()),
            Err(cause) => Err(GduError { source: path, fault: ExportFault::Unreadable { cause } }),
        }
    }
}

/// The path has the extension of a compressed snapshot, in upper or lower case.
pub open spec fn is_zstd_path(path: Seq<char>) -> bool {
    extension(path) matches Some(ext) && same_ignoring_ascii_case(
        ext,
        COMPRESSED_SNAPSHOT_EXTENSION@,
    )
}

/// Whether a path is that of a compressed snapshot.
pub fn is_zstd_snapshot_path(path: &str) -> (r: bool)
    ensures
        r == is_zstd_path(path@),
{
    match extension_in_path(path) {
        Some(ext) => equal_ignoring_ascii_case(ext.as_str(), COMPRESSED_SNAPSHOT_EXTENSION),
        None => false,
    }
}

/// A file name without what the names of snapshots end with.
pub open spec fn without_snapshot_suffix(name: Seq<char>) -> Seq<char> {
    match without_suffix(name, SNAPSHOT_FILE_SUFFIX@) {
        Some(stem) => stem,
        None => match without_suffix(name, PLAIN_SNAPSHOT_SUFFIX@) {
            Some(stem) => stem,
            None => name,
        },
    }
}

/// A file name without what the names of snapshots end with.
pub fn strip_snapshot_suffix(name: &str) -> (r: String)
    ensures
        r@ == without_snapshot_suffix(name@),
{
    match strip_suffix(name, SNAPSHOT_FILE_SUFFIX) {
        Some(stem) => stem,
        None => match strip_suffix(name, PLAIN_SNAPSHOT_SUFFIX) {
            Some(stem) => stem,
            None => copied(name),
        },
    }
}

/// The label of the snapshot in a file.
pub open spec fn label_of_path(path: Seq<char>) -> Seq<char> {
    match file_name(path) {
        Some(name) => without_snapshot_suffix(name),
        None => path,
    }
}

/// The label of the snapshot in a file: its name without the suffix.
pub fn snapshot_label(path: &str) -> (r: String)
    ensures
        r@ == label_of_path(path@),
{
    match name_in_path(path) {
        Some(name) => strip_snapshot_suffix(name.as_str()),
        None => copied(path),
    }
}

/// Whether a snapshot is written as it is or compressed.
#[derive(Clone, Copy, Debug, PartialEq, Eq, Structural)]
pub enum SnapshotOutputKind {
    PlainJson,
    CompressedZstd,
}

/// How the snapshot at a path is written, if its name is that of a snapshot.
pub open spec fn output_kind(path: Seq<char>) -> Option<SnapshotOutputKind> {
    let name = match file_name(path) {
        Some(name) => name,
        None => seq![],
    };
    if SNAPSHOT_FILE_SUFFIX@.is_suffix_of(name) {
        Some(SnapshotOutputKind::CompressedZstd)
    } else if PLAIN_SNAPSHOT_SUFFIX@.is_suffix_of(name) {
        Some(SnapshotOutputKind::PlainJson)
    } else {
        None
    }
}

/// How the snapshot at a path is written.
pub fn snapshot_output_kind(path: &str) -> (r: Option<SnapshotOutputKind>)
    ensures
        r == output_kind(path@),
{
    let name = match name_in_path(path) {
        Some(name) => name,
        None => String::new(),
    };
    if ends_with(name.as_str(), SNAPSHOT_FILE_SUFFIX) {
        Some(SnapshotOutputKind::CompressedZstd)
    } else if ends_with(name.as_str(), PLAIN_SNAPSHOT_SUFFIX) {
        Some(SnapshotOutputKind::PlainJson)
    } else {
        None
    }
}

/// Where the export of a snapshot goes before it is compressed.
pub fn raw_snapshot_temp_path(output: &str) -> (r: String)
    ensures
        r@ == with_extension(output@, GDU_EXPORT_EXTENSION@),
{
    path_with_extension(output, GDU_EXPORT_EXTENSION)
}

/// A snapshot that was compressed loads like the export that it was made of.
pub proof fn law_compressed_snapshot_loads_alike(
    compressed_path: Seq<char>,
    plain_path: Seq<char>,
    frame: Seq<u8>,
    bytes: Seq<u8>,
)
    requires
        is_zstd_path(compressed_path),
        !is_zstd_path(plain_path),
        zstd_decoded(frame) == Ok::<Seq<u8>, Seq<char>>(bytes),
    ensures
        export_in_file(compressed_path, frame) == export_in_file(plain_path, bytes),
{
}

} // verus!
