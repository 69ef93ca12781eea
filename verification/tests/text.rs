use gdu_diff::json::{JsonValue, read_json};
use gdu_diff::path::{
    extension_in_path, name_in_path, path_in, path_with_extension, rank_paths, split_text,
};
use gdu_diff::sort::{arranged, sorted_places};
use gdu_diff::text::{
    Rank, decimal_text, ends_with, equal_ignoring_ascii_case, join_texts, parse_number, rank_texts,
    same_text, starts_with, strip_prefix, strip_suffix, trimmed,
};
use gdu_diff::text_map::{Keyed, TextMap};
use std::path::{Path, PathBuf};

fn native(path: &str) -> Option<String> {
    Path::new(path).file_name().map(|name| name.to_string_lossy().into_owned())
}

fn paths() -> Vec<&'static str> {
    vec![
        "", "/", "a", "/a", "a/", "/a/", "a/b", "a//b", "a/./b", "./a", ".", "..", "../a", "a/..",
        "a/.", "a/b.", "a/b.c", "a/b.c.d", ".x", "a/.x", "..x", "x..", "/.", "/..", "a/b/", "b",
        "a/b/c", "A", "é", "a.json.zst", "...", "a/...",
    ]
}

#[test]
fn paths_are_taken_apart_like_the_standard_library_does() {
    for path in paths() {
        assert_eq!(name_in_path(path), native(path), "{path}");
        assert_eq!(
            extension_in_path(path),
            Path::new(path).extension().map(|e| e.to_string_lossy().into_owned()),
            "{path}"
        );
        let mut renamed = PathBuf::from(path);
        renamed.set_extension("json");
        assert_eq!(PathBuf::from(path_with_extension(path, "json")), renamed, "{path}");
        for name in ["n", "x/y", "/abs", ""] {
            assert_eq!(
                path_in(path, name),
                Path::new(path).join(name).to_string_lossy().into_owned(),
                "{path} {name}"
            );
        }
    }
}

#[test]
fn paths_are_ordered_like_the_standard_library_does() {
    for a in paths() {
        for b in paths() {
            let expected = match Path::new(a).cmp(Path::new(b)) {
                std::cmp::Ordering::Less => Rank::Before,
                std::cmp::Ordering::Equal => Rank::Same,
                std::cmp::Ordering::Greater => Rank::After,
            };
            assert_eq!(rank_paths(a, b), expected, "{a} {b}");
        }
    }
}

#[test]
fn texts_are_ordered_like_the_standard_library_does() {
    for a in paths() {
        for b in paths() {
            let expected = match a.cmp(b) {
                std::cmp::Ordering::Less => Rank::Before,
                std::cmp::Ordering::Equal => Rank::Same,
                std::cmp::Ordering::Greater => Rank::After,
            };
            assert_eq!(rank_texts(a, b), expected, "{a} {b}");
            assert_eq!(same_text(a, b), a == b);
            assert_eq!(ends_with(a, b), a.ends_with(b));
            assert_eq!(starts_with(a, b), a.starts_with(b));
            assert_eq!(strip_suffix(a, b), a.strip_suffix(b).map(str::to_string));
            assert_eq!(strip_prefix(a, b), a.strip_prefix(b).map(str::to_string));
            assert_eq!(equal_ignoring_ascii_case(a, b), a.eq_ignore_ascii_case(b));
        }
        let pieces: Vec<String> =
            split_text(a, '/').into_iter().map(|piece| piece.into_iter().collect()).collect();
        let expected: Vec<String> = a.split('/').map(str::to_string).collect();
        assert_eq!(pieces, expected, "{a}");
    }
}

#[test]
fn numbers_are_written_and_read_back() {
    for n in [0, 7, 10, 99, 100, u64::MAX] {
        assert_eq!(decimal_text(n as u128), n.to_string());
        assert_eq!(parse_number(&decimal_text(n as u128), u64::MAX), Some(n));
    }
    assert_eq!(decimal_text(u128::MAX), u128::MAX.to_string());
    for text in ["", "+", "+5", "-5", "5a", " 5", "007", "18446744073709551616", "٣"] {
        assert_eq!(parse_number(text, u64::MAX), text.parse::<u64>().ok(), "{text}");
    }
    assert_eq!(parse_number("256", 255), None);
}

#[test]
fn white_space_is_trimmed() {
    for text in ["", " ", "a", " a b\t\n", "\u{a0}x\u{2003}", "\u{200b}x", "\u{85}\u{1680}y\u{3000}"]
    {
        assert_eq!(trimmed(text), text.trim(), "{text:?}");
    }
    for code in 0..0x3100u32 {
        if let Some(c) = char::from_u32(code) {
            let text = c.to_string();
            assert_eq!(trimmed(&text), text.trim(), "{code:x}");
        }
    }
}

#[test]
fn texts_are_joined() {
    let list = |texts: &[&str]| texts.iter().map(|t| t.to_string()).collect::<Vec<String>>();
    assert_eq!(join_texts(&list(&[]), ", "), "");
    assert_eq!(join_texts(&list(&["a"]), ", "), "a");
    assert_eq!(join_texts(&list(&["a", "", "b"]), ", "), "a, , b");
}

#[test]
fn a_map_keeps_the_last_value_of_a_key() {
    let pair = |key: &str, value: u32| Keyed { key: key.to_string(), value };
    let map = TextMap::from_pairs(vec![
        pair("b", 1),
        pair("a", 2),
        pair("b", 3),
        pair("c", 4),
        pair("a", 5),
    ]);
    assert_eq!(map.get("a"), Some(&5));
    assert_eq!(map.get("b"), Some(&3));
    assert_eq!(map.get("c"), Some(&4));
    assert_eq!(map.get("d"), None);
    assert_eq!(map.get(""), None);
    let keys: Vec<&str> = map.pairs().iter().map(|p| p.key.as_str()).collect();
    assert_eq!(keys, vec!["a", "b", "c"]);
}

#[test]
fn sorting_keeps_the_order_of_equal_items() {
    let items: Vec<u64> = vec![5, 3, 5, 1, 3, 9, 0];
    let places = sorted_places(&items);
    assert_eq!(places, vec![6, 3, 1, 4, 0, 2, 5]);
    assert_eq!(arranged(items, &places), vec![0, 1, 3, 3, 5, 5, 9]);
    let mut seed: u64 = 7;
    let mut many: Vec<u64> = Vec::new();
    for _ in 0..2000 {
        seed = seed.wrapping_mul(6364136223846793005).wrapping_add(1442695040888963407);
        many.push(seed >> 58);
    }
    let mut expected: Vec<usize> = (0..many.len()).collect();
    expected.sort_by_key(|i| many[*i]);
    assert_eq!(sorted_places(&many), expected);
}

#[test]
fn documents_are_read() {
    match read_json(r#"{"b":[1,-2,2.5,18446744073709551615],"a":null,"c":"t","d":true,"b":[]}"#) {
        Ok(JsonValue::Object(members)) => {
            let keys: Vec<&str> = members.iter().map(|(key, _)| key.as_str()).collect();
            assert_eq!(keys, vec!["a", "b", "c", "d"]);
            assert!(matches!(members[0].1, JsonValue::Null));
            assert!(matches!(&members[1].1, JsonValue::Array(items) if items.is_empty()));
            assert!(matches!(&members[2].1, JsonValue::Text(text) if text == "t"));
            assert!(matches!(members[3].1, JsonValue::Bool(true)));
        }
        _ => panic!("expected an object"),
    }
    match read_json("[1,-2,2.5,18446744073709551615]") {
        Ok(JsonValue::Array(items)) => {
            let numbers: Vec<Option<u64>> = items
                .iter()
                .map(|item| match item {
                    JsonValue::Number(n) => *n,
                    _ => panic!("expected a number"),
                })
                .collect();
            assert_eq!(numbers, vec![Some(1), None, None, Some(u64::MAX)]);
        }
        _ => panic!("expected an array"),
    }
    assert!(read_json("").is_err());
}
