//! Audit requests: which packages a project has installed, and by which paths they are required.
use crate::audit_laws::law_audit_well_formed;
use crate::json::{
    field_views, fields_count, lemma_field_count, lemma_object_at_count, node_count, Json,
    JsonView,
};
use crate::table::{find_key, keys, lemma_slot, lemma_slot_is, slot, text_keys};
use crate::text::{is_blank, join3, lists_text, same_text, texts};
use vstd::prelude::*;

verus! {

/// What is known of one installed version of a package.
#[derive(Debug, Clone, PartialEq)]
pub struct FindingInfo {
    pub version: String,
    /// The paths by which the version is required, each from the project's own requirement on.
    pub paths: Vec<String>,
    pub dev: bool,
    pub optional: bool,
    pub bundled: bool,
}

/// What an audit request says.
#[derive(Debug, PartialEq)]
pub struct ParsedAudit {
    /// The versions to ask about, by package name.
    pub packages: Vec<(String, Vec<String>)>,
    /// The installed versions that some requirement leads to, by package name.
    pub pkg_findings: Vec<(String, Vec<FindingInfo>)>,
    /// The least depth at which a package is required, by package name.
    pub pkg_min_depth: Vec<(String, usize)>,
    /// The number of entries in the tree of dependencies.
    pub total_deps: u64,
}

/// What a finding says.
pub struct FindingView {
    pub version: Seq<char>,
    pub paths: Seq<Seq<char>>,
    pub dev: bool,
    pub optional: bool,
    pub bundled: bool,
}

/// What an audit says, its tables in the order in which their names were come upon.
pub struct AuditView {
    pub packages: Seq<(Seq<char>, Seq<Seq<char>>)>,
    pub pkg_findings: Seq<(Seq<char>, Seq<FindingView>)>,
    pub pkg_min_depth: Seq<(Seq<char>, nat)>,
    pub total_deps: nat,
}

impl FindingView {
    /// A finding has a path, and no path twice.
    pub open spec fn well_formed(self) -> bool {
        self.paths.len() > 0 && self.paths.no_duplicates()
    }
}

impl AuditView {
    /// Every table has each name once. A package has a version to ask about, and none twice; a
    /// package with findings has one for each of its versions, and a depth.
    pub open spec fn well_formed(self) -> bool {
        &&& text_keys(self.packages).no_duplicates()
        &&& text_keys(self.pkg_findings).no_duplicates()
        &&& text_keys(self.pkg_min_depth).no_duplicates()
        &&& text_keys(self.pkg_findings) == text_keys(self.pkg_min_depth)
        &&& forall|i: int|
            0 <= i < self.packages.len() ==> (#[trigger] self.packages[i]).1.len() > 0
                && self.packages[i].1.no_duplicates()
        &&& forall|i: int|
            0 <= i < self.pkg_findings.len() ==> (#[trigger] self.pkg_findings[i]).1.len() > 0
                && found_versions(self.pkg_findings[i].1).no_duplicates()
        &&& forall|i: int, j: int|
            0 <= i < self.pkg_findings.len() && 0 <= j < self.pkg_findings[i].1.len() ==> (
            #[trigger] self.pkg_findings[i].1[j]).well_formed()
    }
}

impl View for FindingInfo {
    type V = FindingView;

    open spec fn view(&self) -> FindingView {
        FindingView {
            version: self.version@,
            paths: texts(self.paths@),
            dev: self.dev,
            optional: self.optional,
            bundled: self.bundled,
        }
    }
}

/// What a table of versions says.
pub open spec fn package_views(packages: Seq<(String, Vec<String>)>) -> Seq<
    (Seq<char>, Seq<Seq<char>>),
> {
    Seq::new(packages.len(), |i: int| (packages[i].0@, texts(packages[i].1@)))
}

/// What the findings of a list say.
pub open spec fn finding_views(list: Seq<FindingInfo>) -> Seq<FindingView> {
    Seq::new(list.len(), |i: int| list[i]@)
}

/// What a table of findings says.
pub open spec fn findings_views(table: Seq<(String, Vec<FindingInfo>)>) -> Seq<
    (Seq<char>, Seq<FindingView>),
> {
    Seq::new(table.len(), |i: int| (table[i].0@, finding_views(table[i].1@)))
}

/// What a table of depths says.
pub open spec fn depth_views(depths: Seq<(String, usize)>) -> Seq<(Seq<char>, nat)> {
    Seq::new(depths.len(), |i: int| (depths[i].0@, depths[i].1 as nat))
}

impl View for ParsedAudit {
    type V = AuditView;

    open spec fn view(&self) -> AuditView {
        AuditView {
            packages: package_views(self.packages@),
            pkg_findings: findings_views(self.pkg_findings@),
            pkg_min_depth: depth_views(self.pkg_min_depth@),
            total_deps: self.total_deps as nat,
        }
    }
}

/// `packages` with `version` among the versions of `name`: behind the others where it is new.
pub open spec fn with_version(
    packages: Seq<(Seq<char>, Seq<Seq<char>>)>,
    name: Seq<char>,
    version: Seq<char>,
) -> Seq<(Seq<char>, Seq<Seq<char>>)> {
    let at = slot(text_keys(packages), name) as int;
    if at >= packages.len() {
        packages.push((name, seq![version]))
    } else if packages[at].1.contains(version) {
        packages
    } else {
        packages.update(at, (name, packages[at].1.push(version)))
    }
}

/// `depths` with `depth` for `name`, unless a smaller one, or the same, is there already.
pub open spec fn with_depth(
    depths: Seq<(Seq<char>, nat)>,
    name: Seq<char>,
    depth: nat,
) -> Seq<(Seq<char>, nat)> {
    let at = slot(text_keys(depths), name) as int;
    if at >= depths.len() {
        depths.push((name, depth))
    } else if depth < depths[at].1 {
        depths.update(at, (name, depth))
    } else {
        depths
    }
}

/// The versions that a list of findings is about.
pub open spec fn found_versions(list: Seq<FindingView>) -> Seq<Seq<char>> {
    Seq::new(list.len(), |i: int| list[i].version)
}

/// `list` with the path of `found` among the paths of its version: behind the others where it
/// is new. A version that is not in the list yet comes last, with the flags of `found`.
pub open spec fn with_path(list: Seq<FindingView>, found: Found) -> Seq<FindingView> {
    let at = slot(found_versions(list), found.version) as int;
    if at >= list.len() {
        list.push(
            FindingView {
                version: found.version,
                paths: seq![found.path],
                dev: found.dev,
                optional: found.optional,
                bundled: found.bundled,
            },
        )
    } else if list[at].paths.contains(found.path) {
        list
    } else {
        list.update(at, FindingView { paths: list[at].paths.push(found.path), ..list[at] })
    }
}

/// `findings` with the path of `found` under its package and version.
pub open spec fn with_finding(
    findings: Seq<(Seq<char>, Seq<FindingView>)>,
    found: Found,
) -> Seq<(Seq<char>, Seq<FindingView>)> {
    let at = slot(text_keys(findings), found.name) as int;
    if at >= findings.len() {
        findings.push((found.name, with_path(Seq::empty(), found)))
    } else {
        findings.update(at, (found.name, with_path(findings[at].1, found)))
    }
}

/// An installed version of a package to which a requirement leads.
pub struct Found {
    pub name: Seq<char>,
    pub version: Seq<char>,
    pub dev: bool,
    pub optional: bool,
    pub bundled: bool,
    /// The names of the packages on the way, the project's own requirement first.
    pub path: Seq<char>,
    /// The number of requirements on the way: one for a requirement of the project itself.
    pub depth: nat,
}

/// What is come upon when the requirements are followed.
pub enum Visit {
    /// A requirement that an installed version of its package answers.
    Found(Found),
    /// A requirement of a package of which no version is installed, with the range it asks for.
    Missing { name: Seq<char>, range: Seq<char> },
}

/// The audit `audit`, and what `visit` adds to it.
pub open spec fn noted(audit: AuditView, visit: Visit) -> AuditView {
    match visit {
        Visit::Found(found) => AuditView {
            packages: with_version(audit.packages, found.name, found.version),
            pkg_findings: with_finding(audit.pkg_findings, found),
            pkg_min_depth: with_depth(audit.pkg_min_depth, found.name, found.depth),
            ..audit
        },
        Visit::Missing { name, range } => AuditView {
            packages: with_version(audit.packages, name, range),
            ..audit
        },
    }
}

/// The audit `audit`, and what the visits add to it, one after the other.
pub open spec fn noted_all(audit: AuditView, visits: Seq<Visit>) -> AuditView
    decreases visits.len(),
{
    if visits.len() == 0 {
        audit
    } else {
        noted(noted_all(audit, visits.drop_last()), visits.last())
    }
}

/// Visits can be noted in two portions.
pub proof fn lemma_noted_all_add(audit: AuditView, first: Seq<Visit>, rest: Seq<Visit>)
    ensures
        noted_all(audit, first + rest) == noted_all(noted_all(audit, first), rest),
    decreases rest.len(),
{
    if rest.len() == 0 {
        assert(first + rest =~= first);
    } else {
        lemma_noted_all_add(audit, first, rest.drop_last());
        assert((first + rest).drop_last() =~= first + rest.drop_last());
    }
}

impl ParsedAudit {
    fn add_version(&mut self, name: &str, version: &str)
        ensures
            final(self)@ == (AuditView {
                packages: with_version(old(self)@.packages, name@, version@),
                ..old(self)@
            }),
    {
        let at: usize = find_key(&self.packages, name);
        let ghost before = self@.packages;
        assert(keys(self.packages@) =~= text_keys(before));
        proof {
            lemma_slot(text_keys(before), name@);
        }
        if at < self.packages.len() {
            if !lists_text(&self.packages[at].1, version) {
                self.packages[at].1.push(version.to_owned());
                assert(texts(self.packages@[at as int].1@) =~= before[at as int].1.push(version@));
            }
        } else {
            let mut list: Vec<String> = Vec::new();
            list.push(version.to_owned());
            assert(texts(list@) =~= seq![version@]);
            self.packages.push((name.to_owned(), list));
        }
        assert(self@.packages =~= with_version(before, name@, version@));
    }

    fn add_depth(&mut self, name: &str, depth: usize)
        ensures
            final(self)@ == (AuditView {
                pkg_min_depth: with_depth(old(self)@.pkg_min_depth, name@, depth as nat),
                ..old(self)@
            }),
    {
        let at: usize = find_key(&self.pkg_min_depth, name);
        let ghost before = self@.pkg_min_depth;
        assert(keys(self.pkg_min_depth@) =~= text_keys(before));
        proof {
            lemma_slot(text_keys(before), name@);
        }
        if at < self.pkg_min_depth.len() {
            if depth < self.pkg_min_depth[at].1 {
                self.pkg_min_depth[at].1 = depth;
            }
        } else {
            self.pkg_min_depth.push((name.to_owned(), depth));
        }
        assert(self@.pkg_min_depth =~= with_depth(before, name@, depth as nat));
    }

    fn add_finding(&mut self, name: &str, version: &str, info: &Json, path: &str)
        ensures
            final(self)@ == (AuditView {
                pkg_findings: with_finding(
                    old(self)@.pkg_findings,
                    found_at(name@, version@, info@, path@, 0),
                ),
                ..old(self)@
            }),
    {
        let ghost found = found_at(name@, version@, info@, path@, 0);
        let at: usize = find_key(&self.pkg_findings, name);
        let ghost before = self@.pkg_findings;
        assert(keys(self.pkg_findings@) =~= text_keys(before));
        proof {
            lemma_slot(text_keys(before), name@);
        }
        if at < self.pkg_findings.len() {
            add_path(&mut self.pkg_findings[at].1, version, info, path);
        } else {
            let mut list: Vec<FindingInfo> = Vec::new();
            assert(finding_views(list@) =~= Seq::empty());
            add_path(&mut list, version, info, path);
            self.pkg_findings.push((name.to_owned(), list));
        }
        assert(self@.pkg_findings =~= with_finding(before, found));
    }

    fn note_found(&mut self, name: &str, version: &str, info: &Json, path: &str, depth: usize)
        ensures
            final(self)@ == noted(
                old(self)@,
                Visit::Found(found_at(name@, version@, info@, path@, depth as nat)),
            ),
    {
        self.add_version(name, version);
        self.add_depth(name, depth);
        self.add_finding(name, version, info, path);
        assert(self@.pkg_findings == with_finding(
            old(self)@.pkg_findings,
            found_at(name@, version@, info@, path@, depth as nat),
        ));
    }
}

/// The visit of the installed version `version` of `name`, of which `info` says the rest.
pub open spec fn found_at(
    name: Seq<char>,
    version: Seq<char>,
    info: JsonView,
    path: Seq<char>,
    depth: nat,
) -> Found {
    Found {
        name,
        version,
        dev: info.flag_at("dev"@),
        optional: info.flag_at("optional"@),
        bundled: info.flag_at("bundled"@),
        path,
        depth,
    }
}

fn add_path(list: &mut Vec<FindingInfo>, version: &str, info: &Json, path: &str)
    ensures
        forall|name: Seq<char>, depth: nat|
            finding_views(final(list)@) == #[trigger] with_path(
                finding_views(old(list)@),
                found_at(name, version@, info@, path@, depth),
            ),
{
    let ghost before = finding_views(list@);
    let mut at: usize = 0;
    while at < list.len() && !same_text(list[at].version.as_str(), version)
        invariant
            at <= list@.len(),
            before == finding_views(list@),
            forall|k: int| 0 <= k < at ==> found_versions(before)[k] != version@,
        decreases list@.len() - at,
    {
        at += 1;
    }
    proof {
        lemma_slot_is(found_versions(before), version@, at as int);
    }
    if at < list.len() {
        if !lists_text(&list[at].paths, path) {
            list[at].paths.push(path.to_owned());
            assert(texts(list@[at as int].paths@) =~= before[at as int].paths.push(path@));
        }
    } else {
        let mut paths: Vec<String> = Vec::new();
        paths.push(path.to_owned());
        assert(texts(paths@) =~= seq![path@]);
        list.push(
            FindingInfo {
                version: version.to_owned(),
                paths,
                dev: info.get_flag("dev"),
                optional: info.get_flag("optional"),
                bundled: info.get_flag("bundled"),
            },
        );
    }
    assert forall|name: Seq<char>, depth: nat|
        finding_views(list@) == #[trigger] with_path(
            before,
            found_at(name, version@, info@, path@, depth),
        ) by {
        let found = found_at(name, version@, info@, path@, depth);
        assert(finding_views(list@) =~= with_path(before, found));
    }
}

/// An entry of the tree of dependencies that names its version.
pub struct NodeView {
    pub name: Seq<char>,
    pub version: Seq<char>,
    pub info: JsonView,
}

/// An entry of the tree of dependencies that names its version.
pub struct Node<'a> {
    pub name: &'a String,
    pub version: &'a String,
    pub info: &'a Json,
}

impl<'a> View for Node<'a> {
    type V = NodeView;

    open spec fn view(&self) -> NodeView {
        NodeView { name: self.name@, version: self.version@, info: self.info@ }
    }
}

/// What the nodes of a list say.
pub open spec fn node_views(nodes: Seq<Node>) -> Seq<NodeView> {
    Seq::new(nodes.len(), |i: int| nodes[i]@)
}

/// The first position in `index` of a node with this name and version, or the length of `index`
/// where there is none.
pub open spec fn place(index: Seq<NodeView>, name: Seq<char>, version: Seq<char>) -> nat
    decreases index.len(),
{
    if index.len() == 0 {
        0
    } else {
        let before = place(index.drop_last(), name, version);
        if before < index.len() - 1 || (index.last().name == name && index.last().version
            == version) {
            before
        } else {
            index.len()
        }
    }
}

/// The index with `node` in it: in the place of the node with its name and version, or behind
/// the others where there is none.
pub open spec fn filed(index: Seq<NodeView>, node: NodeView) -> Seq<NodeView> {
    let at = place(index, node.name, node.version) as int;
    if at < index.len() {
        index.update(at, node)
    } else {
        index.push(node)
    }
}

/// The index with the nodes of `listing` in it, filed one after the other.
pub open spec fn filed_all(index: Seq<NodeView>, listing: Seq<NodeView>) -> Seq<NodeView>
    decreases listing.len(),
{
    if listing.len() == 0 {
        index
    } else {
        filed(filed_all(index, listing.drop_last()), listing.last())
    }
}

/// The node of an entry, where the entry names its version.
pub open spec fn entry_nodes(name: Seq<char>, info: JsonView) -> Seq<NodeView> {
    match info.text_at("version"@) {
        Some(version) => seq![NodeView { name, version, info }],
        None => Seq::empty(),
    }
}

/// The nodes below `node`, each before those below it.
pub open spec fn installed(node: JsonView) -> Seq<NodeView>
    decreases node_count(node), 0nat,
{
    proof {
        lemma_object_at_count(node, "dependencies"@);
    }
    installed_in(node.object_at("dependencies"@))
}

/// The nodes of the entries and below them, each before those below it.
pub open spec fn installed_in(entries: Seq<(Seq<char>, JsonView)>) -> Seq<NodeView>
    decreases fields_count(entries), 1nat,
{
    if entries.len() == 0 {
        Seq::empty()
    } else {
        let (name, info) = entries.last();
        installed_in(entries.drop_last()) + entry_nodes(name, info) + installed(info)
    }
}

/// The number of entries below `node`, at any depth.
pub open spec fn dependency_count(node: JsonView) -> nat
    decreases node_count(node), 0nat,
{
    proof {
        lemma_object_at_count(node, "dependencies"@);
    }
    entry_count(node.object_at("dependencies"@))
}

/// The number of the entries and of those below them, at any depth.
pub open spec fn entry_count(entries: Seq<(Seq<char>, JsonView)>) -> nat
    decreases fields_count(entries), 1nat,
{
    if entries.len() == 0 {
        0
    } else {
        proof {
            assert(node_count(entries.last().1) >= 1);
        }
        entry_count(entries.drop_last()) + 1 + dependency_count(entries.last().1)
    }
}

/// There are fewer entries below a node than documents in it.
pub proof fn lemma_dependency_count(node: JsonView)
    ensures
        dependency_count(node) < node_count(node),
    decreases node_count(node), 0nat,
{
    lemma_object_at_count(node, "dependencies"@);
    lemma_entry_count(node.object_at("dependencies"@));
}

proof fn lemma_entry_count(entries: Seq<(Seq<char>, JsonView)>)
    ensures
        entry_count(entries) <= fields_count(entries),
    decreases fields_count(entries), 1nat,
{
    if entries.len() > 0 {
        assert(node_count(entries.last().1) >= 1);
        lemma_entry_count(entries.drop_last());
        lemma_dependency_count(entries.last().1);
    }
}

/// There are no more nodes below a node than entries.
pub proof fn lemma_installed_count(node: JsonView)
    ensures
        installed(node).len() <= dependency_count(node),
    decreases node_count(node), 0nat,
{
    lemma_object_at_count(node, "dependencies"@);
    lemma_installed_in_count(node.object_at("dependencies"@));
}

proof fn lemma_installed_in_count(entries: Seq<(Seq<char>, JsonView)>)
    ensures
        installed_in(entries).len() <= entry_count(entries),
    decreases fields_count(entries), 1nat,
{
    if entries.len() > 0 {
        assert(node_count(entries.last().1) >= 1);
        lemma_installed_in_count(entries.drop_last());
        lemma_installed_count(entries.last().1);
    }
}

proof fn lemma_filed_count(index: Seq<NodeView>, listing: Seq<NodeView>)
    ensures
        filed_all(index, listing).len() <= index.len() + listing.len(),
    decreases listing.len(),
{
    if listing.len() > 0 {
        lemma_filed_count(index, listing.drop_last());
    }
}

proof fn lemma_filed_all_add(index: Seq<NodeView>, first: Seq<NodeView>, rest: Seq<NodeView>)
    ensures
        filed_all(index, first + rest) == filed_all(filed_all(index, first), rest),
    decreases rest.len(),
{
    if rest.len() == 0 {
        assert(first + rest =~= first);
    } else {
        lemma_filed_all_add(index, first, rest.drop_last());
        assert((first + rest).drop_last() =~= first + rest.drop_last());
    }
}

proof fn lemma_place_is(index: Seq<NodeView>, name: Seq<char>, version: Seq<char>, at: int)
    requires
        0 <= at <= index.len(),
        at < index.len() ==> index[at].name == name && index[at].version == version,
        forall|i: int|
            0 <= i < at ==> (#[trigger] index[i]).name != name || index[i].version != version,
    ensures
        place(index, name, version) == at,
    decreases index.len(),
{
    if index.len() > 0 {
        lemma_place_is(
            index.drop_last(),
            name,
            version,
            if at < index.len() {
                at
            } else {
                at - 1
            },
        );
    }
}

fn file_node<'a>(index: &mut Vec<Node<'a>>, node: Node<'a>)
    ensures
        node_views(final(index)@) == filed(node_views(old(index)@), node@),
{
    let ghost before = node_views(index@);
    let mut at: usize = 0;
    while at < index.len() && !(same_text(index[at].name.as_str(), node.name.as_str()) && same_text(
        index[at].version.as_str(),
        node.version.as_str(),
    ))
        invariant
            at <= index@.len(),
            before == node_views(index@),
            forall|k: int|
                0 <= k < at ==> (#[trigger] before[k]).name != node@.name || before[k].version
                    != node@.version,
        decreases index@.len() - at,
    {
        at += 1;
    }
    proof {
        lemma_place_is(before, node@.name, node@.version, at as int);
    }
    let ghost added = node@;
    if at < index.len() {
        index[at] = node;
    } else {
        index.push(node);
    }
    assert(node_views(index@) =~= filed(before, added));
}

/// Files every node below `node`, and counts the entries there.
fn collect_nodes<'a>(node: &'a Json, index: &mut Vec<Node<'a>>, total: &mut u64)
    requires
        *old(total) + dependency_count(node@) <= u64::MAX,
    ensures
        node_views(final(index)@) == filed_all(node_views(old(index)@), installed(node@)),
        *final(total) == *old(total) + dependency_count(node@),
    decreases node_count(node@),
{
    let ghost before = node_views(index@);
    match node.get_object("dependencies") {
        Some(entries) => {
            let ghost whole = field_views(entries@);
            let mut i: usize = 0;
            assert(whole.take(0) =~= Seq::empty());
            while i < entries.len()
                invariant
                    i <= entries@.len(),
                    whole == field_views(entries@),
                    whole == node@.object_at("dependencies"@),
                    before == node_views(old(index)@),
                    *old(total) + dependency_count(node@) <= u64::MAX,
                    node_views(index@) == filed_all(before, installed_in(whole.take(i as int))),
                    *total == *old(total) + entry_count(whole.take(i as int)),
                decreases entries@.len() - i,
            {
                proof {
                    lemma_object_at_count(node@, "dependencies"@);
                    lemma_field_count(whole, i as int);
                    lemma_entry_count_take(whole, i + 1);
                    assert(whole.take(i + 1).drop_last() =~= whole.take(i as int));
                    assert(whole.take(i + 1).last() == whole[i as int]);
                }
                let name: &'a String = &entries[i].0;
                let info: &'a Json = &entries[i].1;
                let ghost listed = installed_in(whole.take(i as int));
                *total = *total + 1;
                match info.get_text("version") {
                    Some(version) => {
                        file_node(index, Node { name, version, info });
                    },
                    None => {},
                }
                proof {
                    reveal_with_fuel(filed_all, 2);
                    assert(info@.text_at("version"@) is Some ==> entry_nodes(
                        name@,
                        info@,
                    ).drop_last() =~= Seq::empty());
                    lemma_filed_all_add(before, listed, entry_nodes(name@, info@));
                    lemma_filed_all_add(
                        before,
                        listed + entry_nodes(name@, info@),
                        installed(info@),
                    );
                }
                collect_nodes(info, index, total);
                i += 1;
            }
            assert(whole.take(i as int) =~= whole);
        },
        None => {},
    }
}

proof fn lemma_entry_count_take(entries: Seq<(Seq<char>, JsonView)>, n: int)
    requires
        0 <= n <= entries.len(),
    ensures
        entry_count(entries.take(n)) <= entry_count(entries),
    decreases entries.len() - n,
{
    if n < entries.len() {
        lemma_entry_count_take(entries, n + 1);
        assert(entries.take(n + 1).drop_last() =~= entries.take(n));
    } else {
        assert(entries.take(n) =~= entries);
    }
}

/// A node that is being followed, and the path by which it was reached.
pub struct FrameView {
    pub path: Seq<char>,
    pub node: int,
}

/// A node that is being followed, by its position in the index, and the path by which it was
/// reached.
pub struct Frame {
    pub path: String,
    pub node: usize,
}

impl View for Frame {
    type V = FrameView;

    open spec fn view(&self) -> FrameView {
        FrameView { path: self.path@, node: self.node as int }
    }
}

/// The nodes that are being followed.
pub open spec fn frame_views(stack: Seq<Frame>) -> Seq<FrameView> {
    Seq::new(stack.len(), |i: int| stack[i]@)
}

/// Whether the node at position `node` of the index is being followed.
pub open spec fn following(stack: Seq<FrameView>, node: int) -> bool {
    exists|i: int| 0 <= i < stack.len() && (#[trigger] stack[i]).node == node
}

/// Whether a node is being followed that was reached by `path`.
pub open spec fn on_path(stack: Seq<FrameView>, path: Seq<char>) -> bool {
    exists|i: int| 0 <= i < stack.len() && (#[trigger] stack[i]).path == path
}

/// The path to a package that the node followed last requires. At the project itself, whose
/// path is empty, it is the name alone.
pub open spec fn path_to(stack: Seq<FrameView>, name: Seq<char>) -> Seq<char> {
    if stack.len() == 0 || stack.last().path.len() == 0 {
        name
    } else {
        stack.last().path + ">"@ + name
    }
}

/// How many of the first `n` nodes of the index are not being followed.
pub open spec fn unentered(n: nat, stack: Seq<FrameView>) -> nat
    decreases n,
{
    if n == 0 {
        0
    } else {
        unentered((n - 1) as nat, stack) + if following(stack, n - 1) {
            0nat
        } else {
            1nat
        }
    }
}

/// Whether some version of the package `name` is in the index.
pub open spec fn indexed(index: Seq<NodeView>, name: Seq<char>) -> bool {
    exists|i: int| 0 <= i < index.len() && (#[trigger] index[i]).name == name
}

/// Whether the node at position `node` of the index is to be followed, when it is come upon by
/// `path`: not where this would go round in a circle.
pub open spec fn follows(stack: Seq<FrameView>, path: Seq<char>, node: int) -> bool {
    !on_path(stack, path) && !following(stack, node)
}

/// What is come upon when the requirements of `node` are followed, in order.
pub open spec fn visits(
    node: JsonView,
    index: Seq<NodeView>,
    stack: Seq<FrameView>,
) -> Seq<Visit>
    decreases unentered(index.len(), stack), 3nat, 0nat,
{
    requirements_visits(node.object_at("requires"@), index, stack)
}

/// What is come upon when the requirements are followed, in order.
pub open spec fn requirements_visits(
    requirements: Seq<(Seq<char>, JsonView)>,
    index: Seq<NodeView>,
    stack: Seq<FrameView>,
) -> Seq<Visit>
    decreases unentered(index.len(), stack), 2nat, requirements.len(),
{
    if requirements.len() == 0 {
        Seq::empty()
    } else {
        requirements_visits(requirements.drop_last(), index, stack) + requirement_visits(
            requirements.last().0,
            requirements.last().1,
            index,
            stack,
        )
    }
}

/// What is come upon when one requirement is followed: every indexed version of the package,
/// or the range where none is indexed. A requirement whose range is not a text counts for
/// nothing.
pub open spec fn requirement_visits(
    name: Seq<char>,
    range: JsonView,
    index: Seq<NodeView>,
    stack: Seq<FrameView>,
) -> Seq<Visit>
    decreases unentered(index.len(), stack), 1nat, 0nat,
{
    match range {
        JsonView::Text(text) => if indexed(index, name) {
            versions_visits(name, index, stack, index.len())
        } else {
            seq![Visit::Missing { name, range: text }]
        },
        _ => Seq::empty(),
    }
}

/// What is come upon at the versions of the package `name` among the first `n` nodes of the
/// index, and below them.
pub open spec fn versions_visits(
    name: Seq<char>,
    index: Seq<NodeView>,
    stack: Seq<FrameView>,
    n: nat,
) -> Seq<Visit>
    decreases unentered(index.len(), stack), 0nat, n,
{
    if n == 0 || n > index.len() {
        Seq::empty()
    } else {
        let node = index[n - 1];
        let path = path_to(stack, name);
        let earlier = versions_visits(name, index, stack, (n - 1) as nat);
        if node.name == name {
            let here = earlier.push(
                Visit::Found(
                    found_at(name, node.version, node.info, path, stack.len() + 1),
                ),
            );
            if follows(stack, path, n - 1) {
                proof {
                    lemma_unentered_push(
                        index.len(),
                        stack,
                        FrameView { path, node: n - 1 },
                    );
                }
                here + visits(node.info, index, stack.push(FrameView { path, node: n - 1 }))
            } else {
                here
            }
        } else {
            earlier
        }
    }
}

/// Following one more node leaves one fewer.
pub proof fn lemma_unentered_push(n: nat, stack: Seq<FrameView>, frame: FrameView)
    requires
        0 <= frame.node,
        !following(stack, frame.node),
    ensures
        unentered(n, stack.push(frame)) == unentered(n, stack) - if frame.node < n {
            1int
        } else {
            0int
        },
    decreases n,
{
    if n > 0 {
        lemma_unentered_push((n - 1) as nat, stack, frame);
        let more = stack.push(frame);
        let node = n - 1;
        assert(following(more, node) == (following(stack, node) || frame.node == node)) by {
            if following(stack, node) {
                let i = choose|i: int| 0 <= i < stack.len() && (#[trigger] stack[i]).node == node;
                assert(more[i].node == node);
            }
            assert(more[stack.len() as int] == frame);
        }
    }
}

/// Whether some version of the package `name` is in the index.
fn is_indexed(index: &Vec<Node>, name: &str) -> (found: bool)
    ensures
        found == indexed(node_views(index@), name@),
{
    let mut i: usize = 0;
    while i < index.len()
        invariant
            i <= index@.len(),
            forall|k: int| 0 <= k < i ==> (#[trigger] node_views(index@)[k]).name != name@,
        decreases index@.len() - i,
    {
        if same_text(index[i].name.as_str(), name) {
            assert(node_views(index@)[i as int].name == name@);
            return true;
        }
        i += 1;
    }
    false
}

/// Whether the node at position `node` of the index is to be followed.
fn to_follow(stack: &Vec<Frame>, path: &str, node: usize) -> (descend: bool)
    ensures
        descend == follows(frame_views(stack@), path@, node as int),
{
    let mut i: usize = 0;
    while i < stack.len()
        invariant
            i <= stack@.len(),
            forall|k: int|
                0 <= k < i ==> (#[trigger] frame_views(stack@)[k]).path != path@ && frame_views(
                    stack@,
                )[k].node != node,
        decreases stack@.len() - i,
    {
        if stack[i].node == node || same_text(stack[i].path.as_str(), path) {
            assert(frame_views(stack@)[i as int] == stack@[i as int]@);
            return false;
        }
        i += 1;
    }
    true
}

/// The path to a package that the node followed last requires.
fn extended_path(stack: &Vec<Frame>, name: &str) -> (path: String)
    ensures
        path@ == path_to(frame_views(stack@), name@),
{
    let depth: usize = stack.len();
    if depth == 0 {
        return name.to_owned();
    }
    let above: &String = &stack[depth - 1].path;
    assert(frame_views(stack@).last() == stack@[depth - 1]@);
    if is_blank(above.as_str()) {
        name.to_owned()
    } else {
        join3(above.as_str(), ">", name)
    }
}

/// Follows the requirements of `node`, and notes what is come upon.
fn walk_logical(node: &Json, index: &Vec<Node>, stack: &mut Vec<Frame>, audit: &mut ParsedAudit)
    requires
        index@.len() < usize::MAX,
        old(stack)@.len() + unentered(index@.len(), frame_views(old(stack)@)) <= index@.len(),
    ensures
        final(stack)@ == old(stack)@,
        final(audit)@ == noted_all(
            old(audit)@,
            visits(node@, node_views(index@), frame_views(old(stack)@)),
        ),
    decreases unentered(index@.len(), frame_views(old(stack)@)), 1nat,
{
    let ghost frames = frame_views(stack@);
    let ghost nodes = node_views(index@);
    match node.get_object("requires") {
        Some(requirements) => {
            let ghost whole = field_views(requirements@);
            let mut i: usize = 0;
            assert(whole.take(0) =~= Seq::empty());
            while i < requirements.len()
                invariant
                    i <= requirements@.len(),
                    index@.len() < usize::MAX,
                    whole == field_views(requirements@),
                    whole == node@.object_at("requires"@),
                    stack@ == old(stack)@,
                    frames == frame_views(stack@),
                    nodes == node_views(index@),
                    stack@.len() + unentered(index@.len(), frames) <= index@.len(),
                    audit@ == noted_all(
                        old(audit)@,
                        requirements_visits(whole.take(i as int), nodes, frames),
                    ),
                decreases requirements@.len() - i,
            {
                let ghost seen = requirements_visits(whole.take(i as int), nodes, frames);
                proof {
                    assert(whole.take(i + 1).drop_last() =~= whole.take(i as int));
                    assert(whole.take(i + 1).last() == whole[i as int]);
                    lemma_noted_all_add(
                        old(audit)@,
                        seen,
                        requirement_visits(whole[i as int].0, whole[i as int].1, nodes, frames),
                    );
                }
                match &requirements[i].1 {
                    Json::Text(range) => {
                        walk_requirement(
                            requirements[i].0.as_str(),
                            range.as_str(),
                            index,
                            stack,
                            audit,
                        );
                    },
                    _ => {},
                }
                i += 1;
            }
            assert(whole.take(i as int) =~= whole);
        },
        None => {},
    }
}

/// Follows one requirement, and notes what is come upon.
fn walk_requirement(
    name: &str,
    range: &str,
    index: &Vec<Node>,
    stack: &mut Vec<Frame>,
    audit: &mut ParsedAudit,
)
    requires
        index@.len() < usize::MAX,
        old(stack)@.len() + unentered(index@.len(), frame_views(old(stack)@)) <= index@.len(),
    ensures
        final(stack)@ == old(stack)@,
        final(audit)@ == noted_all(
            old(audit)@,
            requirement_visits(
                name@,
                JsonView::Text(range@),
                node_views(index@),
                frame_views(old(stack)@),
            ),
        ),
    decreases unentered(index@.len(), frame_views(old(stack)@)), 0nat,
{
    let ghost frames = frame_views(stack@);
    let ghost nodes = node_views(index@);
    if !is_indexed(index, name) {
        audit.add_version(name, range);
        proof {
            reveal_with_fuel(noted_all, 2);
            let missing = Visit::Missing { name: name@, range: range@ };
            assert(seq![missing].drop_last() =~= Seq::empty());
        }
        return;
    }
    let path: String = extended_path(stack, name);
    let mut n: usize = 0;
    while n < index.len()
        invariant
            n <= index@.len(),
            index@.len() < usize::MAX,
            stack@ == old(stack)@,
            frames == frame_views(stack@),
            nodes == node_views(index@),
            path@ == path_to(frames, name@),
            stack@.len() + unentered(index@.len(), frames) <= index@.len(),
            audit@ == noted_all(old(audit)@, versions_visits(name@, nodes, frames, n as nat)),
        decreases index@.len() - n,
    {
        let ghost earlier = versions_visits(name@, nodes, frames, n as nat);
        if same_text(index[n].name.as_str(), name) {
            let version: &String = index[n].version;
            let info: &Json = index[n].info;
            let depth: usize = stack.len();
            let ghost visit = Visit::Found(
                found_at(name@, version@, info@, path@, frames.len() + 1),
            );
            audit.note_found(name, version.as_str(), info, path.as_str(), depth + 1);
            proof {
                assert(earlier.push(visit).drop_last() =~= earlier);
            }
            if to_follow(stack, path.as_str(), n) {
                let ghost frame = FrameView { path: path@, node: n as int };
                proof {
                    lemma_unentered_push(nodes.len(), frames, frame);
                    lemma_noted_all_add(
                        old(audit)@,
                        earlier.push(visit),
                        visits(info@, nodes, frames.push(frame)),
                    );
                }
                stack.push(Frame { path: path.clone(), node: n });
                assert(frame_views(stack@) =~= frames.push(frame));
                walk_logical(info, index, stack, audit);
                stack.pop();
                assert(stack@ =~= old(stack)@);
            }
        }
        n += 1;
    }
}

proof fn lemma_unentered_none(n: nat)
    ensures
        unentered(n, Seq::empty()) == n,
    decreases n,
{
    if n > 0 {
        lemma_unentered_none((n - 1) as nat);
    }
}

/// The installed packages of an audit request: every node of its tree of dependencies, filed by
/// name and version.
pub open spec fn index_of(body: JsonView) -> Seq<NodeView> {
    filed_all(Seq::empty(), installed(body))
}

/// An audit in which nothing is noted.
pub open spec fn empty_audit(total_deps: nat) -> AuditView {
    AuditView {
        packages: Seq::empty(),
        pkg_findings: Seq::empty(),
        pkg_min_depth: Seq::empty(),
        total_deps,
    }
}

/// What is come upon when the requirements of an audit request are followed.
pub open spec fn all_visits(body: JsonView) -> Seq<Visit> {
    visits(body, index_of(body), Seq::empty())
}

/// What an audit request says.
pub open spec fn audit_of(body: JsonView) -> AuditView {
    noted_all(empty_audit(dependency_count(body)), all_visits(body))
}

/// Reads an audit request: files the installed packages, and then follows the requirements from
/// the project's own on.
pub fn parse_audit_request(body: &Json) -> (audit: ParsedAudit)
    requires
        dependency_count(body@) < usize::MAX,
    ensures
        audit@ == audit_of(body@),
        audit@.well_formed(),
{
    proof {
        law_audit_well_formed(body@);
    }
    let mut index: Vec<Node> = Vec::new();
    let mut total: u64 = 0;
    assert(node_views(index@) =~= Seq::empty());
    collect_nodes(body, &mut index, &mut total);
    let mut audit = ParsedAudit {
        packages: Vec::new(),
        pkg_findings: Vec::new(),
        pkg_min_depth: Vec::new(),
        total_deps: total,
    };
    let mut stack: Vec<Frame> = Vec::new();
    proof {
        lemma_installed_count(body@);
        lemma_filed_count(Seq::empty(), installed(body@));
        assert(frame_views(stack@) =~= Seq::empty());
        lemma_unentered_none(index@.len());
        assert(audit@.packages =~= Seq::empty());
        assert(audit@.pkg_findings =~= Seq::empty());
        assert(audit@.pkg_min_depth =~= Seq::empty());
    }
    walk_logical(body, &index, &mut stack, &mut audit);
    audit
}

} // verus!
