use gdu_diff::compression::{clamp_level, compress_snapshot, snapshot_compression_level};
use gdu_diff::gdu::{
    COMPRESSED_SNAPSHOT_EXTENSION, GDU_EXPORT_EXTENSION, GduNode, SNAPSHOT_FILE_SUFFIX,
    SnapshotOutputKind, SnapshotTree, is_zstd_snapshot_path, raw_snapshot_temp_path,
    snapshot_label, snapshot_output_kind, strip_snapshot_suffix,
};
use gdu_diff::json::read_json;
use gdu_diff::path::path_with_extension;

fn fault(content: &str) -> String {
    match SnapshotTree::from_json_str("label".to_string(), "sample.json".to_string(), content) {
        Ok(_) => panic!("the export should be refused"),
        Err(error) => error.message(),
    }
}

#[test]
fn parses_export_tree() {
    let snapshot = match SnapshotTree::from_json_str(
        "sample".to_string(),
        "sample.json".to_string(),
        r#"[1,2,{"progname":"gdu","progver":"v0","timestamp":42},[{"name":"/root","mtime":1},{"name":"a.bin","asize":10,"dsize":20,"mtime":1},[{"name":"dir","mtime":1},{"name":"b.bin","asize":30,"dsize":40,"mtime":1}]]]"#,
    ) {
        Ok(snapshot) => snapshot,
        Err(error) => panic!("{}", error.message()),
    };

    assert_eq!(snapshot.label, "sample");
    assert_eq!(snapshot.exported_at, Some(42));
    match snapshot.root {
        GduNode::Dir(root) => {
            assert_eq!(root.name, "/root");
            assert_eq!(root.children.len(), 2);
            match &root.children[0] {
                GduNode::File(file) => {
                    assert_eq!((file.apparent_size, file.disk_size), (10, 20));
                }
                GduNode::Dir(_) => panic!("a.bin must be a file"),
            }
            assert_eq!(root.children[1].name(), "dir");
        }
        GduNode::File(_) => panic!("root must be a directory"),
    }
}

#[test]
fn loads_zstd_snapshot() {
    let content = r#"[1,2,{"progname":"gdu","progver":"v0","timestamp":42},[{"name":"/root","mtime":1},{"name":"a.bin","asize":10,"dsize":20,"mtime":1}]]"#;
    let frame = compress_snapshot(content.as_bytes()).expect("compress");
    assert_ne!(frame, content.as_bytes().to_vec());
    let path = "/tmp/sample.json.zst".to_string();
    let snapshot =
        match SnapshotTree::from_file_bytes(snapshot_label(&path), path.clone(), frame.clone()) {
            Ok(snapshot) => snapshot,
            Err(error) => panic!("{}", error.message()),
        };
    assert_eq!(snapshot.label, "sample");
    assert_eq!(snapshot.exported_at, Some(42));

    let plain = SnapshotTree::from_file_bytes(
        "x".to_string(),
        "/tmp/sample.json".to_string(),
        content.as_bytes().to_vec(),
    );
    assert!(plain.is_ok());
    let mistaken =
        SnapshotTree::from_file_bytes("x".to_string(), "/tmp/sample.json".to_string(), frame);
    match mistaken {
        Ok(_) => panic!("a frame is not a text"),
        Err(error) => {
            assert_eq!(error.message(), "failed to read gdu export file /tmp/sample.json")
        }
    }
    let broken = SnapshotTree::from_file_bytes("x".to_string(), path, content.as_bytes().to_vec());
    match broken {
        Ok(_) => panic!("a text is not a frame"),
        Err(error) => {
            assert_eq!(error.message(), "failed to read gdu export file /tmp/sample.json.zst")
        }
    }
}

#[test]
fn detects_zstd_snapshot_path() {
    assert!(is_zstd_snapshot_path("a.json.zst"));
    assert!(!is_zstd_snapshot_path("a.json"));
    assert!(is_zstd_snapshot_path("a.JSON.ZST"));
    assert!(!is_zstd_snapshot_path(".zst"));
}

#[test]
fn compressed_snapshot_suffix_is_stable() {
    assert_eq!(
        path_with_extension(
            "/tmp/current.json",
            &format!("{GDU_EXPORT_EXTENSION}.{COMPRESSED_SNAPSHOT_EXTENSION}")
        ),
        "/tmp/current.json.zst"
    );
    assert_eq!(SNAPSHOT_FILE_SUFFIX, ".json.zst");
}

#[test]
fn exports_with_faults_are_refused() {
    assert_eq!(fault("{not json"), "failed to parse JSON from sample.json");
    match SnapshotTree::from_json_str("x".into(), "x.json".into(), "[1,\n {]") {
        Ok(_) => panic!("expected an error"),
        Err(error) => {
            assert_eq!(error.cause(), Some("key must be a string at line 2 column 3"))
        }
    }
    match SnapshotTree::from_json_str("x".into(), "x.json".into(), "{}") {
        Ok(_) => panic!("expected an error"),
        Err(error) => assert_eq!(error.cause(), None),
    }
    match SnapshotTree::from_file_bytes("x".into(), "x.json".into(), vec![0xff]) {
        Ok(_) => panic!("expected an error"),
        Err(error) => {
            assert_eq!(error.message(), "failed to read gdu export file x.json");
            assert_eq!(error.cause(), Some("stream did not contain valid UTF-8"));
        }
    }
    match SnapshotTree::from_file_bytes("x".into(), "x.json.zst".into(), vec![1, 2, 3, 4, 5]) {
        Ok(_) => panic!("expected an error"),
        Err(error) => assert_eq!(error.cause(), Some("Unknown frame descriptor")),
    }
    assert_eq!(fault("{}"), "sample.json is not a valid gdu export array");
    assert_eq!(fault("[1,2,{}]"), "sample.json is too short to be a valid gdu export");
    assert_eq!(fault(r#"[1,2,{},{"name":"f"}]"#), "sample.json root node is not a directory");
    assert_eq!(fault("[1,2,{},7]"), "encountered an unexpected gdu node value");
    assert_eq!(fault("[1,2,{},[]]"), "encountered an empty directory entry in gdu export");
    assert_eq!(fault("[1,2,{},[7]]"), "directory head is not an object in gdu export");
    assert_eq!(fault("[1,2,{},[{}]]"), "gdu node is missing its name field");
    assert_eq!(fault(r#"[1,2,{},[{"name":1}]]"#), "gdu node is missing its name field");
    assert_eq!(fault("[1,2,{},[{},7]]"), "encountered an unexpected gdu node value");
}

#[test]
fn missing_sizes_and_times_are_left_out() {
    let snapshot = match SnapshotTree::from_json_str(
        "s".to_string(),
        "s.json".to_string(),
        r#"[1,2,{"timestamp":-3},[{"name":"/r"},{"name":"f","asize":1.5,"dsize":"9"}],"extra"]"#,
    ) {
        Ok(snapshot) => snapshot,
        Err(error) => panic!("{}", error.message()),
    };
    assert_eq!(snapshot.exported_at, None);
    match snapshot.root {
        GduNode::Dir(dir) => match &dir.children[0] {
            GduNode::File(file) => assert_eq!((file.apparent_size, file.disk_size), (0, 0)),
            GduNode::Dir(_) => panic!("f must be a file"),
        },
        GduNode::File(_) => panic!("root must be a directory"),
    }
}

#[test]
fn a_document_can_be_given_as_a_value() {
    let value = read_json(r#"[0,0,{"timestamp":5},[{"name":"/r"}]]"#).expect("json");
    match SnapshotTree::from_json_value("v".to_string(), "v.json".to_string(), &value) {
        Ok(snapshot) => assert_eq!(snapshot.exported_at, Some(5)),
        Err(error) => panic!("{}", error.message()),
    }
    assert!(read_json("[1,").is_err());
}

#[test]
fn labels_are_file_names_without_suffix() {
    assert_eq!(strip_snapshot_suffix("shot-1.json.zst"), "shot-1");
    assert_eq!(strip_snapshot_suffix("shot-1.json"), "shot-1");
    assert_eq!(strip_snapshot_suffix("shot-1.zst"), "shot-1.zst");
    assert_eq!(snapshot_label("/a/b/shot-7.json.zst"), "shot-7");
    assert_eq!(snapshot_label("/a/.."), "/a/..");
}

#[test]
fn output_kinds_follow_the_name() {
    assert_eq!(snapshot_output_kind("/a/b.json"), Some(SnapshotOutputKind::PlainJson));
    assert_eq!(snapshot_output_kind("/a/b.json.zst"), Some(SnapshotOutputKind::CompressedZstd));
    assert_eq!(snapshot_output_kind("/a/b.zst"), None);
    assert_eq!(snapshot_output_kind("/"), None);
    assert_eq!(raw_snapshot_temp_path("/a/b.json.zst"), "/a/b.json.json");
}

#[test]
fn the_compression_level_is_in_range() {
    assert_eq!(snapshot_compression_level(), 9);
    assert_eq!(clamp_level(9, 10, 22), 10);
    assert_eq!(clamp_level(9, -7, 3), 3);
    assert_eq!(clamp_level(9, 1, 22), 9);
}
