use registry_proxy::audit::{parse_audit_request, FindingInfo, ParsedAudit};
use registry_proxy::codec::{decode, encode};
use registry_proxy::json::Json;
use registry_proxy::report::{describe_action, describe_advisory, PackageMetadata, Report};

fn read(text: &str) -> Json {
    decode(text.as_bytes()).unwrap()
}

fn audit(text: &str) -> ParsedAudit {
    parse_audit_request(&read(text))
}

fn published(versions: &[&str]) -> Option<PackageMetadata> {
    Some(PackageMetadata { versions: versions.iter().map(|v| v.to_string()).collect() })
}

fn written(document: &Json) -> String {
    String::from_utf8(encode(document)).unwrap()
}

/// Puts a report together, with what `registry` says of each package that is asked for, and
/// lists the packages that were asked for.
fn build(
    audit: &ParsedAudit,
    bulk: &Json,
    registry: fn(&str) -> Option<PackageMetadata>,
) -> (Json, Vec<String>) {
    let mut asked = Vec::new();
    let mut report = Report::start(audit, bulk);
    while !report.is_done() {
        let fetched = match report.wanted() {
            Some(name) => {
                let fetched = registry(&name);
                asked.push(name);
                fetched
            }
            None => None,
        };
        report.advance(fetched);
    }
    (report.finish(), asked)
}

fn count(report: &Json, severity: &str) -> u64 {
    report
        .get("metadata")
        .unwrap()
        .get("vulnerabilities")
        .unwrap()
        .get(severity)
        .unwrap()
        .as_unsigned()
        .unwrap()
}

const LODASH: &str = "{\"requires\":{\"app\":\"1\",\"lodash\":\"4\"},\"dependencies\":{\
    \"app\":{\"version\":\"1.0.0\",\"requires\":{\"lodash\":\"4\"}},\
    \"lodash\":{\"version\":\"4.17.20\",\"dev\":true}}}";

#[test]
fn an_empty_report() {
    let audit = audit("{\"dependencies\":{\"a\":{},\"b\":{}}}");
    let (report, asked) = build(&audit, &read("{}"), |_| None);
    assert!(asked.is_empty());
    assert_eq!(
        written(&report),
        "{\"actions\":[],\"advisories\":{},\"metadata\":{\"dependencies\":2,\
         \"devDependencies\":0,\"optionalDependencies\":0,\"totalDependencies\":2,\
         \"vulnerabilities\":{\"critical\":0,\"high\":0,\"info\":0,\"low\":0,\"moderate\":0}},\
         \"muted\":[]}"
    );
}

#[test]
fn a_whole_report() {
    let audit = audit(LODASH);
    let bulk = read(
        "{\"lodash\":[{\"id\":1106913,\"url\":\"https://github.com/advisories/GHSA-35jh-r3h4-6jhm\",\
         \"title\":\"Command Injection in lodash\",\"severity\":\"high\",\
         \"vulnerable_versions\":\"<4.17.21\",\"cwe\":[\"CWE-77\"],\
         \"cvss\":{\"score\":7.2}}]}",
    );
    let (report, asked) = build(&audit, &bulk, |_| published(&["4.17.21", "4.17.20", "4.0.0"]));
    assert_eq!(asked, vec!["lodash"]);
    assert_eq!(
        written(&report),
        "{\"actions\":[{\"action\":\"update\",\"depth\":1,\"module\":\"lodash\",\"resolves\":[\
         {\"bundled\":false,\"dev\":true,\"id\":1106913,\"optional\":false,\"path\":\"app>lodash\"},\
         {\"bundled\":false,\"dev\":true,\"id\":1106913,\"optional\":false,\"path\":\"lodash\"}],\
         \"target\":\"4.17.21\"}],\
         \"advisories\":{\"1106913\":{\"access\":\"public\",\"created\":\"\",\"cves\":[],\
         \"cvss\":{\"score\":7.2},\"cwe\":[\"CWE-77\"],\"deleted\":null,\
         \"findings\":[{\"paths\":[\"app>lodash\",\"lodash\"],\"version\":\"4.17.20\"}],\
         \"found_by\":null,\"github_advisory_id\":\"GHSA-35jh-r3h4-6jhm\",\"id\":1106913,\
         \"metadata\":null,\"module_name\":\"lodash\",\"npm_advisory_id\":null,\"overview\":\"\",\
         \"patched_versions\":\">=4.17.21\",\
         \"recommendation\":\"Upgrade lodash to version 4.17.21 or later\",\"references\":\"\",\
         \"reported_by\":null,\"severity\":\"high\",\"title\":\"Command Injection in lodash\",\
         \"updated\":\"\",\"url\":\"https://github.com/advisories/GHSA-35jh-r3h4-6jhm\",\
         \"vulnerable_versions\":\"<4.17.21\"}},\
         \"metadata\":{\"dependencies\":2,\"devDependencies\":0,\"optionalDependencies\":0,\
         \"totalDependencies\":2,\"vulnerabilities\":{\"critical\":0,\"high\":1,\"info\":0,\
         \"low\":0,\"moderate\":0}},\"muted\":[]}"
    );
}

#[test]
fn an_advisory_that_says_nothing() {
    let described = describe_advisory("pkg", &read("{}"), &vec![], &None);
    assert_eq!(
        written(&described),
        "{\"access\":\"public\",\"created\":\"\",\"cves\":[],\"cvss\":null,\"cwe\":null,\
         \"deleted\":null,\"findings\":[],\"found_by\":null,\"github_advisory_id\":\"\",\"id\":0,\
         \"metadata\":null,\"module_name\":\"pkg\",\"npm_advisory_id\":null,\"overview\":\"\",\
         \"patched_versions\":\"\",\"recommendation\":\"Upgrade pkg to a patched version\",\
         \"references\":\"\",\"reported_by\":null,\"severity\":\"info\",\"title\":null,\
         \"updated\":\"\",\"url\":\"\",\"vulnerable_versions\":\"\"}"
    );
}

#[test]
fn without_a_target_the_advisory_speaks_for_itself() {
    let advisory = read("{\"patched_versions\":\">=9\",\"cves\":[\"CVE-1\"],\"id\":\"7\"}");
    let described = describe_advisory("pkg", &advisory, &vec![], &None);
    assert_eq!(described.get_text("patched_versions").unwrap(), ">=9");
    assert_eq!(
        described.get_text("recommendation").unwrap(),
        "Upgrade pkg to a patched version"
    );
    assert_eq!(described.get("cves"), Some(&Json::Array(vec![Json::text("CVE-1")])));
    assert_eq!(described.get("id").unwrap().as_unsigned(), Some(0));
    let patched = describe_advisory("pkg", &advisory, &vec![], &Some("9.1.0".to_string()));
    assert_eq!(patched.get_text("patched_versions").unwrap(), ">=9.1.0");
    assert_eq!(
        patched.get_text("recommendation").unwrap(),
        "Upgrade pkg to version 9.1.0 or later"
    );
}

#[test]
fn the_github_number_comes_from_the_address() {
    let id_of = |url: &str| {
        let advisory = Json::Object(vec![("url".to_string(), Json::text(url))]);
        describe_advisory("pkg", &advisory, &vec![], &None).get_text_or("github_advisory_id", "?")
    };
    assert_eq!(id_of("https://github.com/advisories/GHSA-p6mc-m468-83gw"), "GHSA-p6mc-m468-83gw");
    assert_eq!(id_of("https://npmjs.com/advisories/1523"), "");
    assert_eq!(id_of("GHSA-p6mc"), "");
    assert_eq!(id_of("https://x/GHSA-1/more"), "more");
    assert_eq!(id_of("https://x/GHSA-1/"), "");
}

#[test]
fn severities_without_a_count_are_not_counted() {
    let audit = audit("{}");
    let bulk = read(
        "{\"a\":[{\"severity\":\"info\"},{\"severity\":\"low\"},{\"severity\":\"moderate\"},\
         {\"severity\":\"high\"},{\"severity\":\"critical\"},{\"severity\":\"critical\"},{},\
         {\"severity\":3},{\"severity\":\"Low\"},{\"severity\":\"\"}],\"b\":{\"severity\":\"low\"}}",
    );
    let (report, _) = build(&audit, &bulk, |_| None);
    assert_eq!(count(&report, "info"), 3);
    assert_eq!(count(&report, "low"), 1);
    assert_eq!(count(&report, "moderate"), 1);
    assert_eq!(count(&report, "high"), 1);
    assert_eq!(count(&report, "critical"), 2);
}

#[test]
fn a_package_is_asked_for_once() {
    let audit = audit("{}");
    let bulk = read("{\"a\":[{\"id\":1},{\"id\":2}],\"b\":[{\"id\":3}],\"c\":[]}");
    let (_, asked) = build(&audit, &bulk, |_| published(&["1.0.0"]));
    assert_eq!(asked, vec!["a", "b"]);
}

#[test]
fn a_failed_fetch_is_tried_again() {
    let audit = audit("{}");
    let bulk = read("{\"a\":[{\"id\":1},{\"id\":2}]}");
    let (report, asked) = build(&audit, &bulk, |_| None);
    assert_eq!(asked, vec!["a", "a"]);
    let first = report.get("advisories").unwrap().get("1").unwrap();
    assert_eq!(first.get_text("patched_versions").unwrap(), "");
}

#[test]
fn what_was_fetched_serves_the_next_advisory() {
    let audit = audit("{}");
    let bulk = read(
        "{\"a\":[{\"id\":1,\"vulnerable_versions\":\"<1.1.0\"},\
         {\"id\":2,\"vulnerable_versions\":\"<2.0.0\"}]}",
    );
    let mut report = Report::start(&audit, &bulk);
    assert_eq!(report.wanted(), Some("a".to_string()));
    report.advance(published(&["2.0.0", "1.1.0", "1.0.0"]));
    assert_eq!(report.wanted(), None);
    report.advance(published(&["7.0.0"]));
    assert!(report.is_done());
    assert_eq!(report.wanted(), None);
    let report = report.finish();
    let advisories = report.get("advisories").unwrap();
    assert_eq!(advisories.get("1").unwrap().get_text("patched_versions").unwrap(), ">=1.1.0");
    assert_eq!(advisories.get("2").unwrap().get_text("patched_versions").unwrap(), ">=2.0.0");
}

#[test]
fn the_last_advisory_with_a_number_stays() {
    let audit = audit("{}");
    let bulk = read(
        "{\"a\":[{\"id\":5,\"title\":\"one\"},{\"id\":50}],\"b\":[{\"id\":5,\"title\":\"two\"}]}",
    );
    let (report, _) = build(&audit, &bulk, |_| None);
    let advisories = report.get("advisories").unwrap();
    assert_eq!(advisories.get("5").unwrap().get_text("title").unwrap(), "two");
    assert_eq!(advisories.get("5").unwrap().get_text("module_name").unwrap(), "b");
    assert_eq!(advisories.get("50").unwrap().get_text("module_name").unwrap(), "a");
    assert_eq!(count(&report, "info"), 3);
}

#[test]
fn a_package_that_was_not_found_gets_no_action() {
    let audit = audit(LODASH);
    let bulk = read("{\"other\":[{\"id\":1}],\"lodash\":[{\"id\":2}]}");
    let (report, _) = build(&audit, &bulk, |_| None);
    let actions = match report.get("actions") {
        Some(Json::Array(actions)) => actions,
        _ => panic!("no actions"),
    };
    assert_eq!(actions.len(), 1);
    assert_eq!(actions[0].get_text("module").unwrap(), "lodash");
    assert_eq!(actions[0].get_text("target").unwrap(), "");
}

#[test]
fn an_action_resolves_every_path() {
    let finding = |version: &str, paths: &[&str], optional: bool| FindingInfo {
        version: version.to_string(),
        paths: paths.iter().map(|p| p.to_string()).collect(),
        dev: false,
        optional,
        bundled: true,
    };
    let findings = vec![finding("1.0.0", &["a", "b>a"], false), finding("2.0.0", &["c>a"], true)];
    let action = describe_action("a", 9, &findings, "3.0.0", 4).unwrap();
    assert_eq!(
        written(&action),
        "{\"action\":\"update\",\"depth\":4,\"module\":\"a\",\"resolves\":[\
         {\"bundled\":true,\"dev\":false,\"id\":9,\"optional\":false,\"path\":\"a\"},\
         {\"bundled\":true,\"dev\":false,\"id\":9,\"optional\":false,\"path\":\"b>a\"},\
         {\"bundled\":true,\"dev\":false,\"id\":9,\"optional\":true,\"path\":\"c>a\"}],\
         \"target\":\"3.0.0\"}"
    );
    assert_eq!(describe_action("a", 9, &vec![], "3.0.0", 4), None);
}

#[test]
fn an_answer_that_is_no_object_has_no_advisories() {
    let audit = audit(LODASH);
    for text in ["null", "[]", "[{\"id\":1}]", "\"lodash\"", "{\"lodash\":{\"id\":1}}"] {
        let bulk = read(text);
        let (report, asked) = build(&audit, &bulk, |_| None);
        assert!(asked.is_empty());
        assert_eq!(report.get("advisories"), Some(&Json::Object(vec![])));
        assert_eq!(report.get("actions"), Some(&Json::Array(vec![])));
    }
}
