use registry_proxy::versions::{find_first_outside, find_first_patched, parse_versions};

fn list(versions: &[&str]) -> Vec<String> {
    versions.iter().map(|v| v.to_string()).collect()
}

fn patched(vulnerable: &str, published: &[&str]) -> Option<String> {
    find_first_patched(vulnerable, &list(published))
}

#[test]
fn finds_the_first_version_outside_the_range() {
    assert_eq!(
        patched("<4.17.21", &["4.17.20", "4.17.21", "4.17.22"]),
        Some("4.17.21".to_string())
    );
}

#[test]
fn puts_the_published_versions_in_order_first() {
    assert_eq!(
        patched("<2.0.0", &["10.0.0", "2.1.0", "1.0.0", "2.0.0", "9.0.0"]),
        Some("2.0.0".to_string())
    );
    assert_eq!(
        patched("<1.2.0", &["1.10.0", "1.2.0", "1.9.0"]),
        Some("1.2.0".to_string())
    );
}

#[test]
fn the_order_of_the_published_versions_does_not_matter() {
    let one = patched(">=1.0.0, <3.0.0", &["3.0.0", "0.9.0", "1.0.0", "0.9.0"]);
    let other = patched(">=1.0.0, <3.0.0", &["1.0.0", "0.9.0", "3.0.0"]);
    assert_eq!(one, Some("0.9.0".to_string()));
    assert_eq!(one, other);
}

#[test]
fn a_version_below_the_range_counts_too() {
    assert_eq!(
        patched(">=1.0.0, <1.5.0", &["0.1.0", "1.0.0", "1.5.0"]),
        Some("0.1.0".to_string())
    );
}

#[test]
fn there_is_none_where_every_version_is_in_the_range() {
    assert_eq!(patched("*", &["1.0.0", "2.0.0"]), None);
    assert_eq!(patched("<3.0.0", &["1.0.0"]), None);
    assert_eq!(patched("<3.0.0", &[]), None);
}

#[test]
fn there_is_none_where_the_range_cannot_be_read() {
    assert_eq!(patched(">=1.0.0 <2.0.0 || >=3.0.0", &["2.0.0"]), None);
    assert_eq!(patched("nonsense", &["2.0.0"]), None);
    assert_eq!(patched("", &["2.0.0"]), None);
}

#[test]
fn texts_that_are_no_versions_are_passed_over() {
    assert_eq!(
        patched("<1.0.0", &["latest", "1", "v1.0.0", "1.0.0"]),
        Some("1.0.0".to_string())
    );
    assert_eq!(parse_versions(&list(&["x", "1.2.3", "1.2"])).len(), 1);
}

#[test]
fn a_prerelease_is_outside_a_range_that_does_not_name_it() {
    assert_eq!(
        patched("<2.0.0", &["1.0.0-beta.1", "1.0.0", "2.0.0"]),
        Some("1.0.0-beta.1".to_string())
    );
}

#[test]
fn finds_among_parsed_versions() {
    let range = semver::VersionReq::parse("<1.1.0").unwrap();
    let versions = parse_versions(&list(&["1.2.0", "1.1.0", "1.0.0"]));
    assert_eq!(
        find_first_outside(&range, versions),
        Some(semver::Version::new(1, 1, 0))
    );
    let inside = parse_versions(&list(&["1.0.0"]));
    assert_eq!(find_first_outside(&range, inside), None);
}
