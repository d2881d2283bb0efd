//! Reports: the answer to an audit request, put together from the advisories of the registry.
use crate::audit::{finding_views, AuditView, FindingInfo, FindingView, ParsedAudit};
use crate::json::{
    enter_field, field_views, lemma_array_view, lemma_object_view, put_field, text_views, views,
    Json, JsonView,
};
use crate::table::{entered, find_key, keys, lookup, text_keys};
use crate::text::{
    contains_text, decimal, decimal_text, is_blank, join3, last_segment, occurs_in, same_text,
    segment_behind_last_slash, texts,
};
use crate::versions::{find_first_patched, first_patched, range_matches, range_of, version_of};
use vstd::prelude::*;
use vstd::string::StringExecFns;

verus! {

/// What the registry says of a package: its published versions.
#[derive(Debug, PartialEq)]
pub struct PackageMetadata {
    pub versions: Vec<String>,
}

/// How many advisories there are of each severity.
#[derive(Debug, Clone, Copy, PartialEq, Eq)]
pub struct Counts {
    pub info: u64,
    pub low: u64,
    pub moderate: u64,
    pub high: u64,
    pub critical: u64,
}

/// What the counts say.
pub struct CountsView {
    pub info: nat,
    pub low: nat,
    pub moderate: nat,
    pub high: nat,
    pub critical: nat,
}

impl View for Counts {
    type V = CountsView;

    open spec fn view(&self) -> CountsView {
        CountsView {
            info: self.info as nat,
            low: self.low as nat,
            moderate: self.moderate as nat,
            high: self.high as nat,
            critical: self.critical as nat,
        }
    }
}

impl CountsView {
    /// The number of advisories that are counted, of whatever severity.
    pub open spec fn total(self) -> nat {
        self.info + self.low + self.moderate + self.high + self.critical
    }

    /// The counts with one more of the severity. A severity with no count is not counted.
    pub open spec fn counted(self, severity: Seq<char>) -> CountsView {
        if severity == "info"@ {
            CountsView { info: self.info + 1, ..self }
        } else if severity == "low"@ {
            CountsView { low: self.low + 1, ..self }
        } else if severity == "moderate"@ {
            CountsView { moderate: self.moderate + 1, ..self }
        } else if severity == "high"@ {
            CountsView { high: self.high + 1, ..self }
        } else if severity == "critical"@ {
            CountsView { critical: self.critical + 1, ..self }
        } else {
            self
        }
    }
}

impl Counts {
    fn count(&mut self, severity: &str)
        requires
            old(self)@.total() < u64::MAX,
        ensures
            final(self)@ == old(self)@.counted(severity@),
    {
        if same_text(severity, "info") {
            self.info = self.info + 1;
        } else if same_text(severity, "low") {
            self.low = self.low + 1;
        } else if same_text(severity, "moderate") {
            self.moderate = self.moderate + 1;
        } else if same_text(severity, "high") {
            self.high = self.high + 1;
        } else if same_text(severity, "critical") {
            self.critical = self.critical + 1;
        }
    }
}

/// The number of an advisory, zero where it has none.
pub open spec fn advisory_id(advisory: JsonView) -> u64 {
    match advisory.field("id"@) {
        Some(JsonView::Unsigned(id)) => id,
        _ => 0,
    }
}

fn id_of(advisory: &Json) -> (id: u64)
    ensures
        id == advisory_id(advisory@),
{
    match advisory.get("id") {
        Some(value) => match value.as_unsigned() {
            Some(id) => id,
            None => 0,
        },
        None => 0,
    }
}

/// The severity of an advisory.
pub open spec fn severity_of(advisory: JsonView) -> Seq<char> {
    advisory.text_or("severity"@, "info"@)
}

/// The GitHub number of an advisory, as its address gives it: what stands behind the last slash
/// of an address with a GitHub number in it.
pub open spec fn github_id(url: Seq<char>) -> Seq<char> {
    if occurs_in("/GHSA-"@, url) {
        last_segment(url)
    } else {
        ""@
    }
}

fn github_id_of(url: &str) -> (id: String)
    ensures
        id@ == github_id(url@),
{
    if contains_text(url, "/GHSA-") {
        segment_behind_last_slash(url)
    } else {
        "".to_owned()
    }
}

/// The first published version that the advisory does not call vulnerable. There is none where
/// the published versions are not known.
pub open spec fn target_of(advisory: JsonView, published: Option<Seq<Seq<char>>>) -> Option<
    Seq<char>,
> {
    match published {
        Some(list) => first_patched(advisory.text_or("vulnerable_versions"@, ""@), list),
        None => None,
    }
}

/// Whether there is no version to upgrade to: the published versions are not known, the range of
/// vulnerable versions cannot be read, or it matches every version that a published text spells.
pub open spec fn no_target(vulnerable: Seq<char>, published: Option<Seq<Seq<char>>>) -> bool {
    published matches Some(list) ==> range_of(vulnerable) matches Some(range) ==> forall|
        i: int,
        version: semver::Version,
    |
        0 <= i < list.len() && version_of(#[trigger] list[i]) == Some(version)
            ==> #[trigger] range_matches(range, version)
}

/// The target, or nothing.
pub open spec fn target_text(target: Option<Seq<char>>) -> Seq<char> {
    match target {
        Some(text) => text,
        None => ""@,
    }
}

/// What the advisory recommends.
pub open spec fn recommendation(name: Seq<char>, target: Seq<char>) -> Seq<char> {
    if target.len() > 0 {
        "Upgrade "@ + name + " to version "@ + target + " or later"@
    } else {
        "Upgrade "@ + name + " to a patched version"@
    }
}

fn recommend(name: &str, target: &str) -> (text: String)
    ensures
        text@ == recommendation(name@, target@),
{
    if is_blank(target) {
        join3("Upgrade ", name, " to a patched version")
    } else {
        join3("Upgrade ", name, " to version ").concat(target).concat(" or later")
    }
}

/// The range of patched versions: from the target on, or what the advisory says where there is
/// no target.
pub open spec fn patched_range(advisory: JsonView, target: Option<Seq<char>>) -> Seq<char> {
    match target {
        Some(text) => ">="@ + text,
        None => advisory.text_or("patched_versions"@, ""@),
    }
}

/// A finding, as reports have it.
pub open spec fn finding_document(finding: FindingView) -> JsonView {
    JsonView::Object(
        seq![
            ("version"@, JsonView::Text(finding.version)),
            ("paths"@, JsonView::Array(text_views(finding.paths))),
        ],
    )
}

/// Findings, as reports have them.
pub open spec fn finding_documents(list: Seq<FindingView>) -> Seq<JsonView> {
    Seq::new(list.len(), |i: int| finding_document(list[i]))
}

/// What is found of the package.
pub open spec fn findings_for(audit: AuditView, name: Seq<char>) -> Seq<FindingView> {
    match lookup(audit.pkg_findings, name) {
        Some(list) => list,
        None => Seq::empty(),
    }
}

fn write_findings(list: &Vec<FindingInfo>) -> (items: Vec<Json>)
    ensures
        views(items@) == finding_documents(finding_views(list@)),
{
    let mut items: Vec<Json> = Vec::new();
    let mut i: usize = 0;
    while i < list.len()
        invariant
            i <= list@.len(),
            items@.len() == i,
            forall|k: int| 0 <= k < i ==> (#[trigger] items@[k])@ == finding_document(list@[k]@),
        decreases list@.len() - i,
    {
        let mut fields: Vec<(String, Json)> = Vec::new();
        assert(field_views(fields@) =~= Seq::empty());
        put_field(&mut fields, "version", Json::text(list[i].version.as_str()));
        put_field(&mut fields, "paths", Json::texts(&list[i].paths));
        assert(field_views(fields@) =~= finding_document(list@[i as int]@)->Object_0);
        items.push(Json::object(fields));
        i += 1;
    }
    assert(views(items@) =~= finding_documents(finding_views(list@)));
    items
}

/// An advisory, as reports have it.
pub open spec fn advisory_document(
    name: Seq<char>,
    advisory: JsonView,
    findings: Seq<FindingView>,
    target: Option<Seq<char>>,
) -> JsonView {
    let url = advisory.text_or("url"@, ""@);
    JsonView::Object(
        seq![
            ("findings"@, JsonView::Array(finding_documents(findings))),
            ("found_by"@, JsonView::Null),
            ("deleted"@, JsonView::Null),
            ("references"@, JsonView::Text(""@)),
            ("created"@, JsonView::Text(""@)),
            ("id"@, JsonView::Unsigned(advisory_id(advisory))),
            ("npm_advisory_id"@, JsonView::Null),
            ("overview"@, JsonView::Text(""@)),
            ("reported_by"@, JsonView::Null),
            ("title"@, advisory.field_or("title"@, JsonView::Null)),
            ("metadata"@, JsonView::Null),
            ("cves"@, advisory.field_or("cves"@, JsonView::Array(Seq::empty()))),
            ("access"@, JsonView::Text("public"@)),
            ("severity"@, JsonView::Text(severity_of(advisory))),
            ("module_name"@, JsonView::Text(name)),
            (
                "vulnerable_versions"@,
                JsonView::Text(advisory.text_or("vulnerable_versions"@, ""@)),
            ),
            ("github_advisory_id"@, JsonView::Text(github_id(url))),
            ("recommendation"@, JsonView::Text(recommendation(name, target_text(target)))),
            ("patched_versions"@, JsonView::Text(patched_range(advisory, target))),
            ("updated"@, JsonView::Text(""@)),
            ("cvss"@, advisory.field_or("cvss"@, JsonView::Null)),
            ("cwe"@, advisory.field_or("cwe"@, JsonView::Null)),
            ("url"@, JsonView::Text(url)),
        ],
    )
}

/// Writes an advisory as reports have it, given what is found of its package and the first
/// version that is not vulnerable.
pub fn describe_advisory(
    name: &str,
    advisory: &Json,
    findings: &Vec<FindingInfo>,
    target: &Option<String>,
) -> (described: Json)
    ensures
        described@ == advisory_document(
            name@,
            advisory@,
            finding_views(findings@),
            match *target {
                Some(text) => Some(text@),
                None => None,
            },
        ),
{
    let url: String = advisory.get_text_or("url", "");
    let (wanted, patched): (String, String) = match target {
        Some(text) => (text.clone(), ">=".to_owned().concat(text.as_str())),
        None => ("".to_owned(), advisory.get_text_or("patched_versions", "")),
    };
    let none: Vec<Json> = Vec::new();
    assert(views(none@) =~= Seq::empty());
    let mut fields: Vec<(String, Json)> = Vec::new();
    assert(field_views(fields@) =~= Seq::empty());
    put_field(&mut fields, "findings", Json::array(write_findings(findings)));
    put_field(&mut fields, "found_by", Json::Null);
    put_field(&mut fields, "deleted", Json::Null);
    put_field(&mut fields, "references", Json::text(""));
    put_field(&mut fields, "created", Json::text(""));
    put_field(&mut fields, "id", Json::unsigned(id_of(advisory)));
    put_field(&mut fields, "npm_advisory_id", Json::Null);
    put_field(&mut fields, "overview", Json::text(""));
    put_field(&mut fields, "reported_by", Json::Null);
    put_field(&mut fields, "title", advisory.get_or("title", Json::Null));
    put_field(&mut fields, "metadata", Json::Null);
    put_field(&mut fields, "cves", advisory.get_or("cves", Json::array(none)));
    put_field(&mut fields, "access", Json::text("public"));
    put_field(&mut fields, "severity", Json::Text(advisory.get_text_or("severity", "info")));
    put_field(&mut fields, "module_name", Json::text(name));
    put_field(
        &mut fields,
        "vulnerable_versions",
        Json::Text(advisory.get_text_or("vulnerable_versions", "")),
    );
    put_field(&mut fields, "github_advisory_id", Json::Text(github_id_of(url.as_str())));
    put_field(&mut fields, "recommendation", Json::Text(recommend(name, wanted.as_str())));
    put_field(&mut fields, "patched_versions", Json::Text(patched));
    put_field(&mut fields, "updated", Json::text(""));
    put_field(&mut fields, "cvss", advisory.get_or("cvss", Json::Null));
    put_field(&mut fields, "cwe", advisory.get_or("cwe", Json::Null));
    put_field(&mut fields, "url", Json::Text(url));
    assert(field_views(fields@) =~= advisory_document(
        name@,
        advisory@,
        finding_views(findings@),
        match *target {
            Some(text) => Some(text@),
            None => None,
        },
    )->Object_0);
    Json::object(fields)
}

/// A path that an action resolves, as reports have it.
pub open spec fn resolve_document(id: u64, finding: FindingView, path: Seq<char>) -> JsonView {
    JsonView::Object(
        seq![
            ("id"@, JsonView::Unsigned(id)),
            ("path"@, JsonView::Text(path)),
            ("dev"@, JsonView::Bool(finding.dev)),
            ("optional"@, JsonView::Bool(finding.optional)),
            ("bundled"@, JsonView::Bool(finding.bundled)),
        ],
    )
}

/// The paths of one finding, as reports have them.
pub open spec fn path_documents(id: u64, finding: FindingView) -> Seq<JsonView> {
    Seq::new(finding.paths.len(), |p: int| resolve_document(id, finding, finding.paths[p]))
}

/// The paths of all findings, one finding after the other.
pub open spec fn resolve_documents(id: u64, list: Seq<FindingView>) -> Seq<JsonView>
    decreases list.len(),
{
    if list.len() == 0 {
        Seq::empty()
    } else {
        resolve_documents(id, list.drop_last()) + path_documents(id, list.last())
    }
}

fn write_resolve(id: u64, finding: &FindingInfo, path: &str) -> (j: Json)
    ensures
        j@ == resolve_document(id, finding@, path@),
{
    let mut fields: Vec<(String, Json)> = Vec::new();
    assert(field_views(fields@) =~= Seq::empty());
    put_field(&mut fields, "id", Json::unsigned(id));
    put_field(&mut fields, "path", Json::text(path));
    put_field(&mut fields, "dev", Json::Bool(finding.dev));
    put_field(&mut fields, "optional", Json::Bool(finding.optional));
    put_field(&mut fields, "bundled", Json::Bool(finding.bundled));
    assert(field_views(fields@) =~= resolve_document(id, finding@, path@)->Object_0);
    Json::object(fields)
}

fn write_resolves(id: u64, list: &Vec<FindingInfo>) -> (items: Vec<Json>)
    ensures
        views(items@) == resolve_documents(id, finding_views(list@)),
{
    let mut items: Vec<Json> = Vec::new();
    let ghost whole = finding_views(list@);
    let mut i: usize = 0;
    assert(whole.take(0) =~= Seq::empty());
    assert(views(items@) =~= Seq::empty());
    while i < list.len()
        invariant
            i <= list@.len(),
            whole == finding_views(list@),
            views(items@) == resolve_documents(id, whole.take(i as int)),
        decreases list@.len() - i,
    {
        let finding: &FindingInfo = &list[i];
        let ghost before = views(items@);
        let mut p: usize = 0;
        assert(path_documents(id, finding@).take(0) =~= Seq::empty());
        while p < finding.paths.len()
            invariant
                p <= finding.paths@.len(),
                views(items@) =~= before + path_documents(id, finding@).take(p as int),
            decreases finding.paths@.len() - p,
        {
            let ghost so_far = views(items@);
            let written = write_resolve(id, finding, finding.paths[p].as_str());
            let ghost added = written@;
            items.push(written);
            assert(views(items@) =~= so_far.push(added));
            p += 1;
        }
        proof {
            assert(path_documents(id, finding@).take(p as int) =~= path_documents(id, finding@));
            assert(whole.take(i + 1).drop_last() =~= whole.take(i as int));
            assert(whole.take(i + 1).last() == finding@);
        }
        i += 1;
    }
    assert(whole.take(i as int) =~= whole);
    items
}

/// The action for an advisory, where it resolves anything.
pub open spec fn action_documents(
    name: Seq<char>,
    id: u64,
    findings: Seq<FindingView>,
    target: Seq<char>,
    depth: nat,
) -> Seq<JsonView> {
    let resolves = resolve_documents(id, findings);
    if resolves.len() > 0 {
        seq![
            JsonView::Object(
                seq![
                    ("action"@, JsonView::Text("update"@)),
                    ("resolves"@, JsonView::Array(resolves)),
                    ("module"@, JsonView::Text(name)),
                    ("target"@, JsonView::Text(target)),
                    ("depth"@, JsonView::Unsigned(depth as u64)),
                ],
            ),
        ]
    } else {
        Seq::empty()
    }
}

/// Writes the action for an advisory, where it resolves anything.
pub fn describe_action(
    name: &str,
    id: u64,
    findings: &Vec<FindingInfo>,
    target: &str,
    depth: usize,
) -> (action: Option<Json>)
    ensures
        match action {
            Some(action) => action_documents(
                name@,
                id,
                finding_views(findings@),
                target@,
                depth as nat,
            ) == seq![action@],
            None => action_documents(
                name@,
                id,
                finding_views(findings@),
                target@,
                depth as nat,
            ).len() == 0,
        },
{
    let resolves: Vec<Json> = write_resolves(id, findings);
    let ghost documents = views(resolves@);
    if resolves.len() == 0 {
        return None;
    }
    let mut fields: Vec<(String, Json)> = Vec::new();
    assert(field_views(fields@) =~= Seq::empty());
    put_field(&mut fields, "action", Json::text("update"));
    put_field(&mut fields, "resolves", Json::array(resolves));
    put_field(&mut fields, "module", Json::text(name));
    put_field(&mut fields, "target", Json::text(target));
    put_field(&mut fields, "depth", Json::unsigned(depth as u64));
    assert(field_views(fields@) =~= seq![
        ("action"@, JsonView::Text("update"@)),
        ("resolves"@, JsonView::Array(documents)),
        ("module"@, JsonView::Text(name@)),
        ("target"@, JsonView::Text(target@)),
        ("depth"@, JsonView::Unsigned(depth as u64)),
    ]);
    Some(Json::object(fields))
}

/// An advisory of the registry, with the package that it is about.
pub struct Item<'a> {
    pub name: &'a String,
    pub advisory: &'a Json,
}

impl<'a> View for Item<'a> {
    type V = (Seq<char>, JsonView);

    open spec fn view(&self) -> (Seq<char>, JsonView) {
        (self.name@, self.advisory@)
    }
}

/// What the items of a list say.
pub open spec fn item_views(items: Seq<Item>) -> Seq<(Seq<char>, JsonView)> {
    Seq::new(items.len(), |i: int| items[i]@)
}

/// The advisories for one package: none where they are not in a list.
pub open spec fn package_items(name: Seq<char>, advisories: JsonView) -> Seq<
    (Seq<char>, JsonView),
> {
    match advisories {
        JsonView::Array(list) => Seq::new(list.len(), |i: int| (name, list[i])),
        _ => Seq::empty(),
    }
}

/// The advisories for all packages, one package after the other.
pub open spec fn packages_items(packages: Seq<(Seq<char>, JsonView)>) -> Seq<(Seq<char>, JsonView)>
    decreases packages.len(),
{
    if packages.len() == 0 {
        Seq::empty()
    } else {
        packages_items(packages.drop_last()) + package_items(packages.last().0, packages.last().1)
    }
}

/// The advisories in the registry's answer.
pub open spec fn items_of(bulk: JsonView) -> Seq<(Seq<char>, JsonView)> {
    match bulk {
        JsonView::Object(packages) => packages_items(packages),
        _ => Seq::empty(),
    }
}

fn list_items<'a>(bulk: &'a Json) -> (items: Vec<Item<'a>>)
    ensures
        item_views(items@) == items_of(bulk@),
{
    broadcast use {lemma_array_view, lemma_object_view};

    let mut items: Vec<Item<'a>> = Vec::new();
    assert(item_views(items@) =~= Seq::empty());
    if let Json::Object(packages) = bulk {
        let ghost whole = field_views(packages@);
        let mut p: usize = 0;
        assert(whole.take(0) =~= Seq::empty());
        while p < packages.len()
            invariant
                p <= packages@.len(),
                whole == field_views(packages@),
                item_views(items@) == packages_items(whole.take(p as int)),
            decreases packages@.len() - p,
        {
            broadcast use lemma_array_view;

            let ghost before = item_views(items@);
            let name: &'a String = &packages[p].0;
            proof {
                assert(whole.take(p + 1).drop_last() =~= whole.take(p as int));
                assert(whole.take(p + 1).last() == whole[p as int]);
            }
            if let Json::Array(list) = &packages[p].1 {
                let ghost listed = package_items(name@, packages@[p as int].1@);
                let mut i: usize = 0;
                assert(listed.take(0) =~= Seq::empty());
                while i < list.len()
                    invariant
                        i <= list@.len(),
                        listed.len() == list@.len(),
                        forall|k: int|
                            0 <= k < list@.len() ==> #[trigger] listed[k] == (name@, list@[k]@),
                        item_views(items@) =~= before + listed.take(i as int),
                    decreases list@.len() - i,
                {
                    let ghost so_far = item_views(items@);
                    items.push(Item { name, advisory: &list[i] });
                    assert(item_views(items@) =~= so_far.push(listed[i as int]));
                    i += 1;
                }
                assert(listed.take(i as int) =~= listed);
            } else {
                assert(before + Seq::empty() =~= before);
            }
            p += 1;
        }
        assert(whole.take(p as int) =~= whole);
    }
    items
}

/// The state of a report that is being put together.
pub struct ReportView {
    pub audit: AuditView,
    /// The advisories to describe.
    pub items: Seq<(Seq<char>, JsonView)>,
    /// How many of them are described.
    pub next: nat,
    /// The published versions that are known, by package name.
    pub cache: Seq<(Seq<char>, Seq<Seq<char>>)>,
    pub counts: CountsView,
    /// The described advisories, by their number.
    pub advisories: Seq<(Seq<char>, JsonView)>,
    pub actions: Seq<JsonView>,
}

/// A report that is being put together.
pub struct Report<'a> {
    pub audit: &'a ParsedAudit,
    pub items: Vec<Item<'a>>,
    pub next: usize,
    pub cache: Vec<(String, PackageMetadata)>,
    pub counts: Counts,
    pub advisories: Vec<(String, Json)>,
    pub actions: Vec<Json>,
}

/// What is known of packages.
pub open spec fn cache_views(cache: Seq<(String, PackageMetadata)>) -> Seq<
    (Seq<char>, Seq<Seq<char>>),
> {
    Seq::new(cache.len(), |i: int| (cache[i].0@, texts(cache[i].1.versions@)))
}

impl<'a> View for Report<'a> {
    type V = ReportView;

    open spec fn view(&self) -> ReportView {
        ReportView {
            audit: self.audit@,
            items: item_views(self.items@),
            next: self.next as nat,
            cache: cache_views(self.cache@),
            counts: self.counts@,
            advisories: field_views(self.advisories@),
            actions: views(self.actions@),
        }
    }
}

/// What was fetched, where a fetch succeeded.
pub open spec fn fetched_versions(fetched: Option<PackageMetadata>) -> Option<Seq<Seq<char>>> {
    match fetched {
        Some(metadata) => Some(texts(metadata.versions@)),
        None => None,
    }
}

/// The least depth of a package, one where it has none.
pub open spec fn depth_for(audit: AuditView, name: Seq<char>) -> nat {
    match lookup(audit.pkg_min_depth, name) {
        Some(depth) => depth,
        None => 1,
    }
}

impl ReportView {
    /// No more advisories are described than there are, and none is counted twice.
    pub open spec fn well_formed(self) -> bool {
        &&& self.next <= self.items.len()
        &&& self.counts.total() <= self.next
    }

    /// Whether every advisory is described.
    pub open spec fn done(self) -> bool {
        self.next >= self.items.len()
    }

    /// The package whose published versions are to be fetched before the next advisory is
    /// described: its package, unless they are known already.
    pub open spec fn wanted(self) -> Option<Seq<char>> {
        if !self.done() && lookup(self.cache, self.items[self.next as int].0) is None {
            Some(self.items[self.next as int].0)
        } else {
            None
        }
    }

    /// What is known when the next advisory is described. A fetch that failed leaves nothing
    /// behind.
    pub open spec fn cache_with(self, fetched: Option<Seq<Seq<char>>>) -> Seq<
        (Seq<char>, Seq<Seq<char>>),
    > {
        match (self.wanted(), fetched) {
            (Some(name), Some(published)) => self.cache.push((name, published)),
            _ => self.cache,
        }
    }

    /// The first version of the next advisory's package that is not vulnerable.
    pub open spec fn target(self, fetched: Option<Seq<Seq<char>>>) -> Option<Seq<char>> {
        let (name, advisory) = self.items[self.next as int];
        target_of(advisory, lookup(self.cache_with(fetched), name))
    }

    /// The next advisory, described.
    pub open spec fn described(self, fetched: Option<Seq<Seq<char>>>) -> JsonView {
        let (name, advisory) = self.items[self.next as int];
        advisory_document(
            name,
            advisory,
            findings_for(self.audit, name),
            self.target(fetched),
        )
    }

    /// The action for the next advisory.
    pub open spec fn action(self, fetched: Option<Seq<Seq<char>>>) -> Seq<JsonView> {
        let (name, advisory) = self.items[self.next as int];
        action_documents(
            name,
            advisory_id(advisory),
            findings_for(self.audit, name),
            target_text(self.target(fetched)),
            depth_for(self.audit, name),
        )
    }

    /// The report with one more advisory described. Of two advisories with the same number the
    /// later one stays.
    pub open spec fn advanced(self, fetched: Option<Seq<Seq<char>>>) -> ReportView {
        let (name, advisory) = self.items[self.next as int];
        ReportView {
            next: self.next + 1,
            cache: self.cache_with(fetched),
            counts: self.counts.counted(severity_of(advisory)),
            advisories: entered(
                self.advisories,
                decimal(advisory_id(advisory) as nat),
                self.described(fetched),
            ),
            actions: self.actions + self.action(fetched),
            ..self
        }
    }
}

/// A report with nothing described yet.
pub open spec fn begun(audit: AuditView, bulk: JsonView) -> ReportView {
    ReportView {
        audit,
        items: items_of(bulk),
        next: 0,
        cache: Seq::empty(),
        counts: CountsView { info: 0, low: 0, moderate: 0, high: 0, critical: 0 },
        advisories: Seq::empty(),
        actions: Seq::empty(),
    }
}

fn target_for(advisory: &Json, metadata: Option<&PackageMetadata>) -> (target: Option<String>)
    ensures
        match target {
            Some(text) => target_of(
                advisory@,
                match metadata {
                    Some(metadata) => Some(texts(metadata.versions@)),
                    None => None,
                },
            ) == Some(text@),
            None => target_of(
                advisory@,
                match metadata {
                    Some(metadata) => Some(texts(metadata.versions@)),
                    None => None,
                },
            ) is None,
        },
        target is None <==> no_target(
            match advisory@.field("vulnerable_versions"@) {
                Some(JsonView::Text(text)) => text,
                _ => ""@,
            },
            match metadata {
                Some(metadata) => Some(texts(metadata.versions@)),
                None => None,
            },
        ),
{
    match metadata {
        Some(metadata) => {
            let vulnerable: String = advisory.get_text_or("vulnerable_versions", "");
            let found: Option<String> = find_first_patched(
                vulnerable.as_str(),
                &metadata.versions,
            );
            proof {
                let published = metadata.versions@;
                let list = texts(published);
                if range_of(vulnerable@) is Some {
                    let range = range_of(vulnerable@)->0;
                    if found is None {
                        assert forall|i: int, version: semver::Version|
                            0 <= i < list.len() && version_of(#[trigger] list[i]) == Some(
                                version,
                            ) implies #[trigger] range_matches(range, version) by {
                            assert(version_of(published[i]@) == Some(version));
                        }
                    }
                    if no_target(vulnerable@, Some(list)) {
                        assert forall|i: int, version: semver::Version|
                            0 <= i < published.len() && version_of((#[trigger] published[i])@)
                                == Some(version) implies #[trigger] range_matches(
                            range,
                            version,
                        ) by {
                            assert(version_of(list[i]) == Some(version));
                        }
                    }
                }
            }
            found
        },
        None => None,
    }
}

impl<'a> Report<'a> {
    /// Begins the report on an audit, from the registry's answer.
    pub fn start(audit: &'a ParsedAudit, bulk: &'a Json) -> (report: Report<'a>)
        ensures
            report@ == begun(audit@, bulk@),
            report@.well_formed(),
    {
        let report = Report {
            audit,
            items: list_items(bulk),
            next: 0,
            cache: Vec::new(),
            counts: Counts { info: 0, low: 0, moderate: 0, high: 0, critical: 0 },
            advisories: Vec::new(),
            actions: Vec::new(),
        };
        proof {
            assert(report@.cache =~= Seq::empty());
            assert(report@.advisories =~= Seq::empty());
            assert(report@.actions =~= Seq::empty());
        }
        report
    }

    /// Whether every advisory is described.
    pub fn is_done(&self) -> (done: bool)
        ensures
            done == self@.done(),
    {
        self.next >= self.items.len()
    }

    /// The package whose published versions are to be fetched before the report is advanced.
    pub fn wanted(&self) -> (name: Option<String>)
        ensures
            match name {
                Some(name) => self@.wanted() == Some(name@),
                None => self@.wanted() is None,
            },
    {
        if self.next >= self.items.len() {
            return None;
        }
        assert(self@.items[self.next as int] == self.items@[self.next as int]@);
        assert(keys(self.cache@) =~= text_keys(self@.cache));
        let name: &String = self.items[self.next].name;
        if find_key(&self.cache, name.as_str()) < self.cache.len() {
            None
        } else {
            Some(name.clone())
        }
    }

    /// Describes the next advisory. What was fetched is kept where it was wanted.
    pub fn advance(&mut self, fetched: Option<PackageMetadata>)
        requires
            old(self)@.well_formed(),
            !old(self)@.done(),
        ensures
            final(self)@ == old(self)@.advanced(fetched_versions(fetched)),
            final(self)@.well_formed(),
            ({
                let (name, advisory) = old(self)@.items[old(self)@.next as int];
                old(self)@.target(fetched_versions(fetched)) is None <==> no_target(
                    match advisory.field("vulnerable_versions"@) {
                        Some(JsonView::Text(text)) => text,
                        _ => ""@,
                    },
                    lookup(final(self)@.cache, name),
                )
            }),
    {
        let ghost before = self@;
        let ghost versions = fetched_versions(fetched);
        let size: usize = self.items.len();
        assert(before.next < size);
        let item: Item<'a> = Item {
            name: self.items[self.next].name,
            advisory: self.items[self.next].advisory,
        };
        assert(before.items[before.next as int] == item@);
        let wanted: bool = self.wanted().is_some();
        match fetched {
            Some(metadata) => {
                if wanted {
                    self.cache.push((item.name.clone(), metadata));
                }
            },
            None => {},
        }
        assert(cache_views(self.cache@) =~= before.cache_with(versions));
        assert(keys(self.cache@) =~= text_keys(cache_views(self.cache@)));
        let at: usize = find_key(&self.cache, item.name.as_str());
        let metadata: Option<&PackageMetadata> = if at < self.cache.len() {
            Some(&self.cache[at].1)
        } else {
            None
        };
        let target: Option<String> = target_for(item.advisory, metadata);
        let none: Vec<FindingInfo> = Vec::new();
        assert(finding_views(none@) =~= Seq::empty());
        let audit: &'a ParsedAudit = self.audit;
        assert(keys(audit.pkg_findings@) =~= text_keys(audit@.pkg_findings));
        assert(keys(audit.pkg_min_depth@) =~= text_keys(audit@.pkg_min_depth));
        let found_at: usize = find_key(&audit.pkg_findings, item.name.as_str());
        let findings: &Vec<FindingInfo> = if found_at < audit.pkg_findings.len() {
            &audit.pkg_findings[found_at].1
        } else {
            &none
        };
        let depth_at: usize = find_key(&audit.pkg_min_depth, item.name.as_str());
        let depth: usize = if depth_at < audit.pkg_min_depth.len() {
            audit.pkg_min_depth[depth_at].1
        } else {
            1
        };
        let severity: String = item.advisory.get_text_or("severity", "info");
        self.counts.count(severity.as_str());
        let id: u64 = id_of(item.advisory);
        let key: String = decimal_text(id);
        let described: Json = describe_advisory(
            item.name.as_str(),
            item.advisory,
            findings,
            &target,
        );
        enter_field(&mut self.advisories, key.as_str(), described);
        let target_version: String = match &target {
            Some(text) => text.clone(),
            None => "".to_owned(),
        };
        let ghost actions = views(self.actions@);
        match describe_action(item.name.as_str(), id, findings, target_version.as_str(), depth) {
            Some(action) => {
                let ghost added = action@;
                self.actions.push(action);
                assert(views(self.actions@) =~= actions + seq![added]);
            },
            None => {
                assert(views(self.actions@) =~= actions + before.action(versions));
            },
        }
        self.next = self.next + 1;
    }
}

/// The finished report.
pub open spec fn report_document(report: ReportView) -> JsonView {
    JsonView::Object(
        seq![
            ("actions"@, JsonView::Array(report.actions)),
            ("advisories"@, JsonView::Object(report.advisories)),
            ("muted"@, JsonView::Array(Seq::empty())),
            (
                "metadata"@,
                JsonView::Object(
                    seq![
                        (
                            "vulnerabilities"@,
                            JsonView::Object(
                                seq![
                                    ("info"@, JsonView::Unsigned(report.counts.info as u64)),
                                    ("low"@, JsonView::Unsigned(report.counts.low as u64)),
                                    (
                                        "moderate"@,
                                        JsonView::Unsigned(report.counts.moderate as u64),
                                    ),
                                    ("high"@, JsonView::Unsigned(report.counts.high as u64)),
                                    (
                                        "critical"@,
                                        JsonView::Unsigned(report.counts.critical as u64),
                                    ),
                                ],
                            ),
                        ),
                        ("dependencies"@, JsonView::Unsigned(report.audit.total_deps as u64)),
                        ("devDependencies"@, JsonView::Unsigned(0)),
                        ("optionalDependencies"@, JsonView::Unsigned(0)),
                        (
                            "totalDependencies"@,
                            JsonView::Unsigned(report.audit.total_deps as u64),
                        ),
                    ],
                ),
            ),
        ],
    )
}

impl<'a> Report<'a> {
    /// The report as a document.
    pub fn finish(self) -> (document: Json)
        ensures
            document@ == report_document(self@),
    {
        let ghost report = self@;
        let mut counts: Vec<(String, Json)> = Vec::new();
        assert(field_views(counts@) =~= Seq::empty());
        put_field(&mut counts, "info", Json::unsigned(self.counts.info));
        put_field(&mut counts, "low", Json::unsigned(self.counts.low));
        put_field(&mut counts, "moderate", Json::unsigned(self.counts.moderate));
        put_field(&mut counts, "high", Json::unsigned(self.counts.high));
        put_field(&mut counts, "critical", Json::unsigned(self.counts.critical));
        let ghost counted = field_views(counts@);
        let mut metadata: Vec<(String, Json)> = Vec::new();
        assert(field_views(metadata@) =~= Seq::empty());
        put_field(&mut metadata, "vulnerabilities", Json::object(counts));
        put_field(&mut metadata, "dependencies", Json::unsigned(self.audit.total_deps));
        put_field(&mut metadata, "devDependencies", Json::unsigned(0));
        put_field(&mut metadata, "optionalDependencies", Json::unsigned(0));
        put_field(&mut metadata, "totalDependencies", Json::unsigned(self.audit.total_deps));
        let ghost described = field_views(metadata@);
        let muted: Vec<Json> = Vec::new();
        assert(views(muted@) =~= Seq::empty());
        let mut fields: Vec<(String, Json)> = Vec::new();
        assert(field_views(fields@) =~= Seq::empty());
        put_field(&mut fields, "actions", Json::array(self.actions));
        put_field(&mut fields, "advisories", Json::object(self.advisories));
        put_field(&mut fields, "muted", Json::array(muted));
        put_field(&mut fields, "metadata", Json::object(metadata));
        proof {
            let whole = report_document(report)->Object_0;
            let last = whole[3].1->Object_0;
            assert(counted =~= last[0].1->Object_0);
            assert(described =~= last);
            assert(field_views(fields@) =~= whole);
        }
        Json::object(fields)
    }
}

} // verus!
