use gdu_diff::version::build_version;

fn text(value: &str) -> Option<String> {
    Some(value.to_string())
}

#[test]
fn a_tagged_commit_shows_its_tag() {
    let version = build_version(text("v1.2.3"), text("a1b2c3"), text("v1.2.3"), text("M x"), "1".into());
    assert_eq!(version, "v1.2.3");
}

#[test]
fn another_commit_shows_the_latest_tag_and_itself() {
    let clean = build_version(None, text("a1b2c3"), text("v1.2.3"), text(""), "0.1.0".into());
    assert_eq!(clean, "v1.2.3-a1b2c3");
    let unknown = build_version(text(""), text("a1b2c3"), text("v1.2.3"), None, "0.1.0".into());
    assert_eq!(unknown, "v1.2.3-a1b2c3");
    let changed = build_version(None, text("a1b2c3"), text("v1.2.3"), text(" M x"), "0.1.0".into());
    assert_eq!(changed, "v1.2.3^a1b2c3");
}

#[test]
fn without_a_tag_the_package_gives_the_version() {
    assert_eq!(build_version(None, text("a1b2c3"), None, None, "0.1.0".into()), "0.1.0-a1b2c3");
    assert_eq!(build_version(None, text("a1b2c3"), text(""), None, "0.1.0".into()), "0.1.0-a1b2c3");
    assert_eq!(build_version(None, None, text("v1"), None, "0.1.0".into()), "0.1.0");
    assert_eq!(build_version(None, text(""), text("v1"), None, "0.1.0".into()), "0.1.0");
}
