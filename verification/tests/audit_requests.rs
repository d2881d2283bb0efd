use registry_proxy::audit::{parse_audit_request, FindingInfo, ParsedAudit};
use registry_proxy::codec::decode;

fn audit(text: &str) -> ParsedAudit {
    parse_audit_request(&decode(text.as_bytes()).unwrap())
}

fn versions(audit: &ParsedAudit, name: &str) -> Vec<String> {
    match audit.packages.iter().find(|entry| entry.0 == name) {
        Some(entry) => entry.1.clone(),
        None => vec![],
    }
}

fn findings<'a>(audit: &'a ParsedAudit, name: &str) -> &'a [FindingInfo] {
    match audit.pkg_findings.iter().find(|entry| entry.0 == name) {
        Some(entry) => &entry.1,
        None => &[],
    }
}

fn depth(audit: &ParsedAudit, name: &str) -> Option<usize> {
    audit.pkg_min_depth.iter().find(|entry| entry.0 == name).map(|entry| entry.1)
}

fn finding(version: &str, paths: &[&str]) -> FindingInfo {
    FindingInfo {
        version: version.to_string(),
        paths: paths.iter().map(|p| p.to_string()).collect(),
        dev: false,
        optional: false,
        bundled: false,
    }
}

#[test]
fn reads_a_small_tree() {
    let audit = audit(
        "{\"requires\":{\"express\":\"^4.0.0\"},\"dependencies\":{\
         \"express\":{\"version\":\"4.17.1\",\"requires\":{\"qs\":\"6.7.0\"}},\
         \"qs\":{\"version\":\"6.7.0\",\"dev\":true,\"bundled\":true}}}",
    );
    assert_eq!(
        audit.packages,
        vec![
            ("express".to_string(), vec!["4.17.1".to_string()]),
            ("qs".to_string(), vec!["6.7.0".to_string()]),
        ]
    );
    assert_eq!(findings(&audit, "express"), &[finding("4.17.1", &["express"])]);
    assert_eq!(
        findings(&audit, "qs"),
        &[FindingInfo { dev: true, bundled: true, ..finding("6.7.0", &["express>qs"]) }]
    );
    assert_eq!(depth(&audit, "express"), Some(1));
    assert_eq!(depth(&audit, "qs"), Some(2));
    assert_eq!(audit.total_deps, 2);
}

#[test]
fn an_empty_request_says_nothing() {
    for text in ["{}", "null", "[]", "{\"requires\":[],\"dependencies\":7}"] {
        let audit = audit(text);
        assert!(audit.packages.is_empty());
        assert!(audit.pkg_findings.is_empty());
        assert!(audit.pkg_min_depth.is_empty());
        assert_eq!(audit.total_deps, 0);
    }
}

#[test]
fn counts_every_entry_of_the_tree() {
    let audit = audit(
        "{\"dependencies\":{\"a\":{\"version\":\"1.0.0\",\"dependencies\":{\"b\":{},\
         \"c\":{\"dependencies\":{\"a\":{\"version\":\"1.0.0\"}}}}},\"d\":null}}",
    );
    assert_eq!(audit.total_deps, 5);
    assert!(audit.packages.is_empty());
}

#[test]
fn a_package_that_is_not_installed_is_asked_about_by_its_range() {
    let audit = audit(
        "{\"requires\":{\"a\":\"^1.0.0\",\"ghost\":\"~2.0.0\"},\"dependencies\":{\
         \"a\":{\"version\":\"1.0.0\",\"requires\":{\"ghost\":\"3.x\",\"other\":false}},\
         \"ghost\":{\"requires\":{}}}}",
    );
    assert_eq!(versions(&audit, "ghost"), vec!["3.x", "~2.0.0"]);
    assert!(findings(&audit, "ghost").is_empty());
    assert_eq!(depth(&audit, "ghost"), None);
    assert!(versions(&audit, "other").is_empty());
}

#[test]
fn a_range_is_taken_down_once() {
    let audit = audit(
        "{\"requires\":{\"a\":\"1\",\"b\":\"1\"},\"dependencies\":{\
         \"a\":{\"version\":\"1.0.0\",\"requires\":{\"g\":\"^2\"}},\
         \"b\":{\"version\":\"1.0.0\",\"requires\":{\"g\":\"^2\"}}}}",
    );
    assert_eq!(versions(&audit, "g"), vec!["^2"]);
}

#[test]
fn a_requirement_leads_to_every_installed_version() {
    let audit = audit(
        "{\"requires\":{\"a\":\"^1\"},\"dependencies\":{\
         \"a\":{\"version\":\"1.0.0\"},\
         \"b\":{\"version\":\"1.0.0\",\"dependencies\":{\"a\":{\"version\":\"2.0.0\"}}}}}",
    );
    assert_eq!(versions(&audit, "a"), vec!["1.0.0", "2.0.0"]);
    assert_eq!(
        findings(&audit, "a"),
        &[finding("1.0.0", &["a"]), finding("2.0.0", &["a"])]
    );
    assert!(versions(&audit, "b").is_empty());
    assert_eq!(audit.total_deps, 3);
}

#[test]
fn the_last_entry_of_a_version_speaks_for_it() {
    let audit = audit(
        "{\"requires\":{\"a\":\"^1\"},\"dependencies\":{\
         \"a\":{\"version\":\"1.0.0\",\"dev\":true},\
         \"b\":{\"version\":\"1.0.0\",\"dependencies\":{\
         \"a\":{\"version\":\"1.0.0\",\"optional\":true,\"requires\":{\"c\":\"1\"}}}}}}",
    );
    assert_eq!(
        findings(&audit, "a"),
        &[FindingInfo { optional: true, ..finding("1.0.0", &["a"]) }]
    );
    assert_eq!(versions(&audit, "c"), vec!["1"]);
}

#[test]
fn a_package_has_the_least_of_its_depths() {
    let audit = audit(
        "{\"requires\":{\"a\":\"1\",\"z\":\"1\"},\"dependencies\":{\
         \"a\":{\"version\":\"1.0.0\",\"requires\":{\"b\":\"1\"}},\
         \"b\":{\"version\":\"1.0.0\",\"requires\":{\"z\":\"1\"}},\
         \"z\":{\"version\":\"1.0.0\"}}}",
    );
    assert_eq!(depth(&audit, "a"), Some(1));
    assert_eq!(depth(&audit, "b"), Some(2));
    assert_eq!(depth(&audit, "z"), Some(1));
    assert_eq!(findings(&audit, "z"), &[finding("1.0.0", &["a>b>z", "z"])]);
}

#[test]
fn goes_round_no_circle() {
    let audit = audit(
        "{\"requires\":{\"a\":\"1\"},\"dependencies\":{\
         \"a\":{\"version\":\"1.0.0\",\"requires\":{\"b\":\"1\"}},\
         \"b\":{\"version\":\"1.0.0\",\"requires\":{\"a\":\"1\",\"c\":\"1\"}},\
         \"c\":{\"version\":\"1.0.0\",\"requires\":{\"c\":\"1\"}}}}",
    );
    assert_eq!(findings(&audit, "a"), &[finding("1.0.0", &["a", "a>b>a"])]);
    assert_eq!(findings(&audit, "b"), &[finding("1.0.0", &["a>b"])]);
    assert_eq!(findings(&audit, "c"), &[finding("1.0.0", &["a>b>c", "a>b>c>c"])]);
    assert_eq!(depth(&audit, "c"), Some(3));
}

#[test]
fn a_package_on_two_branches_is_followed_on_both() {
    let audit = audit(
        "{\"requires\":{\"a\":\"1\",\"b\":\"1\"},\"dependencies\":{\
         \"a\":{\"version\":\"1.0.0\",\"requires\":{\"c\":\"1\"}},\
         \"b\":{\"version\":\"1.0.0\",\"requires\":{\"c\":\"1\"}},\
         \"c\":{\"version\":\"1.0.0\",\"requires\":{\"d\":\"1\"}},\
         \"d\":{\"version\":\"1.0.0\"}}}",
    );
    assert_eq!(findings(&audit, "d"), &[finding("1.0.0", &["a>c>d", "b>c>d"])]);
    assert_eq!(versions(&audit, "d"), vec!["1.0.0"]);
}

#[test]
fn a_package_without_a_name_adds_nothing_to_the_path() {
    let audit = audit(
        "{\"requires\":{\"\":\"1\"},\"dependencies\":{\
         \"\":{\"version\":\"1.0.0\",\"requires\":{\"\":\"1\",\"a\":\"1\"}},\
         \"a\":{\"version\":\"1.0.0\"}}}",
    );
    assert_eq!(findings(&audit, ""), &[finding("1.0.0", &[""])]);
    assert_eq!(findings(&audit, "a"), &[finding("1.0.0", &["a"])]);
    assert_eq!(depth(&audit, ""), Some(1));
    assert_eq!(depth(&audit, "a"), Some(2));
}

#[test]
fn the_ranges_of_installed_packages_count_for_nothing() {
    let request = |own: &str, inner: &str| {
        audit(&format!(
            "{{\"requires\":{{\"a\":\"{}\",\"gone\":\"^1\"}},\"dependencies\":{{\
             \"a\":{{\"version\":\"1.0.0\",\"requires\":{{\"b\":\"{}\"}},\
             \"dependencies\":{{\"b\":{{\"version\":\"2.0.0\",\"requires\":{{\"a\":\"1\"}}}}}}}}}}}}",
            own, inner
        ))
    };
    assert_eq!(request("^1.0.0", "~2.0.0"), request("9.9.9", "no range at all"));
    assert_eq!(versions(&request("x", "y"), "gone"), vec!["^1"]);
}
