use gdu_diff::compression::compress_snapshot;
use gdu_diff::gdu::{SnapshotTree, snapshot_label};
use gdu_diff::store::{
    MAX_BUCKET_NAME_LEN, MAX_SHOTS_PER_BUCKET, SnapshotStore, StoreError,
    compare_snapshot_path_order, encode_bucket_name, find_nth_latest_path,
    find_smallest_snapshot_path, hex, names_snapshot, ordered_snapshot_paths,
    pending_snapshot_path, plan_pruning, shot_stem, snapshot_candidate, snapshot_disk_usage,
    snapshot_name_sort_key, stable_hash_suffix,
};

fn found(path: &str) -> Option<Vec<u8>> {
    Some(path.as_bytes().to_vec())
}

fn texts(list: &[&str]) -> Vec<String> {
    list.iter().map(|text| text.to_string()).collect()
}

fn tree(label: &str, source: &str, content: &str) -> SnapshotTree {
    match SnapshotTree::from_json_str(label.to_string(), source.to_string(), content) {
        Ok(tree) => tree,
        Err(error) => panic!("{}", error.message()),
    }
}

/// The snapshots of a bucket with their contents, compressed.
fn bucket(sizes: &[(u32, u32)]) -> Vec<(String, Vec<u8>)> {
    sizes
        .iter()
        .map(|(timestamp, size)| {
            let content = format!(
                r#"[1,2,{{"progname":"gdu","progver":"v0","timestamp":{timestamp}}},[{{"name":"/root","mtime":1}},{{"name":"a","asize":{size},"dsize":{size},"mtime":1}}]]"#
            );
            (
                format!("/data/bucket/shot-{timestamp}.json.zst"),
                compress_snapshot(content.as_bytes()).expect("compress"),
            )
        })
        .collect()
}

fn load(files: &[(String, Vec<u8>)], path: &str) -> SnapshotTree {
    let bytes = files.iter().find(|(name, _)| name == path).expect("file").1.clone();
    match SnapshotTree::from_file_bytes(snapshot_label(path), path.to_string(), bytes) {
        Ok(tree) => tree,
        Err(error) => panic!("{}", error.message()),
    }
}

fn remaining_after_pruning(files: &[(String, Vec<u8>)]) -> Vec<u64> {
    let ordered = ordered_snapshot_paths(files.iter().map(|(path, _)| path.clone()).collect());
    let sizes: Vec<u64> =
        ordered.iter().map(|path| snapshot_disk_usage(&load(files, path).root)).collect();
    let removed = plan_pruning(&sizes);
    let mut remaining: Vec<u64> = ordered
        .iter()
        .enumerate()
        .filter(|(index, _)| !removed.contains(index))
        .map(|(_, path)| snapshot_name_sort_key(path).expect("key").0)
        .collect();
    remaining.sort_unstable();
    remaining
}

#[test]
fn bucket_name_is_filesystem_safe() {
    let encoded = encode_bucket_name("/Users/test/dir name");
    assert!(!encoded.contains('/'));
    assert!(encoded.contains("_2F"));
    assert!(encoded.contains("_20"));
    assert_eq!(encoded, "_2FUsers_2Ftest_2Fdir_20name");
}

#[test]
fn long_bucket_name_is_shortened_with_hash() {
    let long_path = format!("/{}", "very-long-segment/".repeat(40));
    let encoded = encode_bucket_name(&long_path);
    assert!(encoded.len() <= MAX_BUCKET_NAME_LEN);
    assert!(encoded.contains("__"));
    assert!(!encoded.contains('/'));
    assert!(encoded.ends_with(&stable_hash_suffix(long_path.as_bytes())));
}

#[test]
fn prefers_newer_snapshot_names() {
    let older = "/tmp/shot-10.json.zst";
    let newer = "/tmp/shot-20.json.zst";
    let duplicate = "/tmp/shot-20-1.json.zst";

    assert!(compare_snapshot_path_order(newer, older).is_lt());
    assert!(compare_snapshot_path_order(duplicate, newer).is_lt());
    assert!(compare_snapshot_path_order(older, newer).is_gt());
    assert!(compare_snapshot_path_order(older, older).is_eq());
}

#[test]
fn store_can_be_created() {
    let store = match SnapshotStore::new() {
        Ok(store) => store,
        Err(error) => panic!("{}", error.message()),
    };
    let data_dir = String::from_utf8_lossy(store.data_dir()).into_owned();
    assert!(std::path::Path::new(&data_dir).is_absolute());
    assert!(data_dir.ends_with("gdu-diff"));
}

#[test]
fn find_nth_latest_for_returns_shots_from_newest_to_oldest() {
    let files = bucket(&[(10, 1), (20, 1), (30, 1), (40, 1)]);
    let ordered = ordered_snapshot_paths(files.iter().map(|(path, _)| path.clone()).collect());
    let newest = find_nth_latest_path(&ordered, 1).expect("ordinal").expect("newest snapshot");
    let second =
        find_nth_latest_path(&ordered, 2).expect("ordinal").expect("second newest snapshot");
    assert_eq!(load(&files, &newest).exported_at, Some(40));
    assert_eq!(load(&files, &second).exported_at, Some(30));
    assert!(find_nth_latest_path(&ordered, 5).expect("ordinal").is_none());
    match find_nth_latest_path(&ordered, 0) {
        Ok(_) => panic!("expected an error"),
        Err(error) => assert_eq!(error.message(), "shot index must start at 1"),
    }
}

#[test]
fn find_nth_latest_for_only_loads_selected_snapshot() {
    let mut files = bucket(&[(20, 1)]);
    files.push(("/data/bucket/shot-10.json.zst".to_string(), b"{not valid json".to_vec()));
    let ordered = ordered_snapshot_paths(files.iter().map(|(path, _)| path.clone()).collect());
    let newest = find_nth_latest_path(&ordered, 1).expect("ordinal").expect("newest snapshot");
    let snapshot = load(&files, &newest);
    assert!(newest.ends_with("/shot-20.json.zst"));
    assert_eq!(snapshot.label, "shot-20");
    assert_eq!(snapshot.exported_at, Some(20));
}

#[test]
fn find_nth_latest_path_for_returns_path_without_parsing_snapshot() {
    let ordered = ordered_snapshot_paths(texts(&["/data/bucket/shot-10.json.zst"]));
    let resolved = find_nth_latest_path(&ordered, 1).expect("ordinal").expect("snapshot path");
    assert_eq!(resolved, "/data/bucket/shot-10.json.zst");
}

#[test]
fn prune_bucket_keeps_only_latest_three_shots() {
    let files = bucket(&[(10, 100), (20, 10), (30, 20), (40, 30)]);
    let remaining = remaining_after_pruning(&files);
    assert_eq!(remaining.len(), MAX_SHOTS_PER_BUCKET);
    assert_eq!(remaining, vec![20, 30, 40]);
}

#[test]
fn prune_bucket_keeps_smallest_snapshot_even_if_it_is_oldest() {
    let files = bucket(&[(10, 1), (20, 20), (30, 30), (40, 40)]);
    assert_eq!(remaining_after_pruning(&files), vec![10, 20, 30, 40]);
}

#[test]
fn finds_oldest_smallest_snapshot_when_sizes_tie() {
    let first = "/bucket/shot-10.json.zst".to_string();
    let second = "/bucket/shot-20.json.zst".to_string();
    let content = r#"[1,2,{"progname":"gdu","progver":"v0","timestamp":10},[{"name":"/root","mtime":1},{"name":"a","asize":5,"dsize":5,"mtime":1}]]"#;
    let files: Vec<(String, Vec<u8>)> = [&first, &second]
        .iter()
        .map(|path| {
            (path.to_string(), compress_snapshot(content.as_bytes()).expect("compress"))
        })
        .collect();
    let ordered = vec![second.clone(), first.clone()];
    let sizes: Vec<u64> =
        ordered.iter().map(|path| snapshot_disk_usage(&load(&files, path).root)).collect();
    assert_eq!(find_smallest_snapshot_path(&ordered, &sizes), Some(first));
    assert_eq!(find_smallest_snapshot_path(&ordered, &vec![4, 5]), Some(second));
    assert_eq!(find_smallest_snapshot_path(&Vec::new(), &Vec::new()), None);
}

#[test]
fn computes_snapshot_disk_usage_recursively() {
    let snapshot = tree(
        "latest",
        "sample.json",
        r#"[1,2,{"progname":"gdu","progver":"v0","timestamp":10},[{"name":"/root","mtime":1},[{"name":"dir","mtime":1},{"name":"a","asize":1,"dsize":2,"mtime":1},{"name":"b","asize":1,"dsize":3,"mtime":1}],{"name":"c","asize":1,"dsize":5,"mtime":1}]]"#,
    );

    assert_eq!(snapshot_disk_usage(&snapshot.root), 10);
}

#[test]
fn buckets_lie_in_the_store() {
    let store = match SnapshotStore::from_data_dir(found("/home/u/.local/share")) {
        Ok(store) => store,
        Err(error) => panic!("{}", error.message()),
    };
    assert_eq!(store.data_dir(), b"/home/u/.local/share/gdu-diff");
    assert_eq!(
        store.bucket_dir_for("/srv/x"),
        b"/home/u/.local/share/gdu-diff/snapshots/_2Fsrv_2Fx"
    );
    match SnapshotStore::from_data_dir(Some(vec![b'/', 0xff, b'/'])) {
        Ok(store) => {
            assert_eq!(store.data_dir(), b"/\xff/gdu-diff");
            assert_eq!(store.bucket_dir_for("/x"), b"/\xff/gdu-diff/snapshots/_2Fx");
        }
        Err(error) => panic!("{}", error.message()),
    }
    match SnapshotStore::from_data_dir(None) {
        Ok(_) => panic!("expected an error"),
        Err(error) => assert_eq!(
            error.message(),
            "failed to determine user data directory from dirs-next"
        ),
    }
}

#[test]
fn bucket_names_of_special_paths() {
    assert_eq!(encode_bucket_name(""), "");
    assert_eq!(encode_bucket_name("a_b-C9"), "a_5Fb-C9");
    assert_eq!(encode_bucket_name("é"), "_C3_A9");
    assert_ne!(encode_bucket_name("/a/b"), encode_bucket_name("_2Fa_2Fb"));
    assert_ne!(encode_bucket_name("/a/b"), encode_bucket_name("/a_2Fb"));
    assert_ne!(encode_bucket_name("/a/b"), encode_bucket_name("/a_b"));
    assert_eq!(encode_bucket_name(&"x".repeat(120)), "x".repeat(120));
    let long = "x".repeat(121);
    assert_eq!(
        encode_bucket_name(&long),
        format!("{}__{}", "x".repeat(102), stable_hash_suffix(long.as_bytes()))
    );
    let underscores = "_".repeat(121);
    assert_eq!(
        encode_bucket_name(&underscores),
        format!("{}__{}", "_5F".repeat(34), stable_hash_suffix(underscores.as_bytes()))
    );
    let cut = format!("{}/{}", "x".repeat(101), "y".repeat(30));
    assert_eq!(
        encode_bucket_name(&cut),
        format!("{}__{}", "x".repeat(101), stable_hash_suffix(cut.as_bytes()))
    );
    assert!(!encode_bucket_name("/a__b_").contains("__"));
}

#[test]
fn long_names_with_different_hashes_differ() {
    let a = format!("{}a", "x".repeat(200));
    let b = format!("{}b", "x".repeat(200));
    assert_ne!(encode_bucket_name(&a), encode_bucket_name(&b));
}

#[test]
fn the_hash_is_fnv_1a() {
    assert_eq!(stable_hash_suffix(b""), "CBF29CE484222325");
    assert_eq!(stable_hash_suffix(b"a"), "AF63DC4C8601EC8C");
    assert_eq!(stable_hash_suffix(b"foobar"), "85944171F73967E8");
    assert_eq!(hex(9), '9');
    assert_eq!(hex(15), 'F');
}

#[test]
fn keys_are_read_from_names() {
    assert_eq!(snapshot_name_sort_key("/b/shot-10.json.zst"), Some((10, 0)));
    assert_eq!(snapshot_name_sort_key("/b/shot-10-3.json"), Some((10, 3)));
    assert_eq!(snapshot_name_sort_key("/b/shot-10"), Some((10, 0)));
    assert_eq!(snapshot_name_sort_key("/b/shot-.json"), None);
    assert_eq!(snapshot_name_sort_key("/b/shot-1-2-3.json"), None);
    assert_eq!(snapshot_name_sort_key("/b/pending-1.json.zst"), None);
    assert_eq!(snapshot_name_sort_key("/b/shot-18446744073709551616.json"), None);
    assert_eq!(snapshot_name_sort_key("/b/shot-1-4294967296.json"), None);
    assert_eq!(snapshot_name_sort_key("/"), None);
}

#[test]
fn snapshots_are_listed_from_the_newest() {
    let ordered = ordered_snapshot_paths(texts(&[
        "/b/old.json",
        "/b/shot-5.json",
        "/b/notes.txt",
        "/b/shot-5-2.json.zst",
        "/b/shot-40.json.zst",
        "/b/newer.json",
        "/b/shot-5.json.zst",
    ]));
    assert_eq!(
        ordered,
        texts(&[
            "/b/shot-40.json.zst",
            "/b/shot-5-2.json.zst",
            "/b/shot-5.json.zst",
            "/b/shot-5.json",
            "/b/old.json",
            "/b/newer.json",
        ])
    );
    assert!(names_snapshot("/b/x.json"));
    assert!(!names_snapshot("/b/x.zst"));
}

#[test]
fn names_of_saved_snapshots_are_read_back() {
    let stem = shot_stem(Some(1712345678), 5);
    assert_eq!(stem, "shot-1712345678");
    assert_eq!(shot_stem(None, 17), "shot-17");
    let first = snapshot_candidate("/b", &stem, 0).expect("candidate");
    assert_eq!(first, "/b/shot-1712345678.json.zst");
    let third = snapshot_candidate("/b", &stem, 2).expect("candidate");
    assert_eq!(third, "/b/shot-1712345678-2.json.zst");
    assert_eq!(snapshot_name_sort_key(&third), Some((1712345678, 2)));
    assert!(snapshot_candidate("/b", &stem, 999).is_ok());
    match snapshot_candidate("/b", &stem, 1000) {
        Ok(_) => panic!("expected an error"),
        Err(error) => {
            assert!(matches!(error, StoreError::TooManyAtOnce { .. }));
            assert_eq!(error.message(), "too many snapshots with the same timestamp in /b");
        }
    }
    assert_eq!(pending_snapshot_path("/b", 99), "/b/pending-99.json.zst");
}

#[test]
fn pruning_keeps_the_newest_and_the_smallest() {
    assert_eq!(plan_pruning(&vec![1, 2, 3]), Vec::<usize>::new());
    assert_eq!(plan_pruning(&vec![5, 4, 3, 9, 2, 2, 7]), vec![3, 4, 6]);
    assert_eq!(plan_pruning(&vec![1, 4, 3, 9, 2]), vec![3, 4]);
}

#[test]
fn the_order_of_snapshots_is_total() {
    let paths = [
        "/s/shot-100.json",
        "/s/shot-20.json",
        "/s/shot-20-3.json",
        "/s/b.json",
        "/s/a.json",
        "/t/shot-20.json",
        "/s//shot-20.json",
    ];
    for a in paths {
        for b in paths {
            let rank = compare_snapshot_path_order(a, b);
            assert_eq!(rank, compare_snapshot_path_order(b, a).reverse());
            let same = std::path::Path::new(a) == std::path::Path::new(b);
            assert_eq!(rank.is_eq(), same);
            for c in paths {
                if rank.is_lt() && compare_snapshot_path_order(b, c).is_lt() {
                    assert!(compare_snapshot_path_order(a, c).is_lt());
                }
            }
        }
    }
    assert!(compare_snapshot_path_order(paths[0], paths[1]).is_lt());
    assert!(compare_snapshot_path_order(paths[1], paths[3]).is_lt());
    assert!(compare_snapshot_path_order(paths[3], paths[4]).is_lt());
    assert!(compare_snapshot_path_order(paths[5], paths[1]).is_lt());
}

#[test]
fn directories_have_their_own_buckets() {
    let store = match SnapshotStore::from_data_dir(found("/d")) {
        Ok(store) => store,
        Err(error) => panic!("{}", error.message()),
    };
    assert_eq!(store.bucket_dir_for("/a/b"), b"/d/gdu-diff/snapshots/_2Fa_2Fb");
    assert_eq!(store.bucket_dir_for("/a_2Fb"), b"/d/gdu-diff/snapshots/_2Fa_5F2Fb");
}
