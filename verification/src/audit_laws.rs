//! What holds of every audit.
use crate::audit::{
    all_visits, audit_of, dependency_count, empty_audit, entry_count, filed_all, follows,
    found_versions, index_of, indexed, installed, installed_in, lemma_unentered_push, noted,
    noted_all, path_to, place, requirement_visits, requirements_visits, unentered, versions_visits,
    visits, with_finding, with_path, with_version, AuditView, FindingInfo, FindingView, Found,
    FrameView, NodeView, ParsedAudit, Visit,
};
use crate::json::{fields_count, lemma_object_at_count, node_count, JsonView};
use crate::table::{lemma_lookup_push, lemma_lookup_update, lemma_slot, lookup, slot, text_keys};
use crate::text::texts;
use crate::walk_laws::{borne_out, found_node, law_visits_borne_out};
use vstd::prelude::*;

verus! {

/// Whether the audit asks about this version of this package.
pub open spec fn asks_about(audit: AuditView, name: Seq<char>, version: Seq<char>) -> bool {
    match lookup(audit.packages, name) {
        Some(versions) => versions.contains(version),
        None => false,
    }
}

/// What the audit says of an installed version of a package.
pub open spec fn finding_of(audit: AuditView, name: Seq<char>, version: Seq<char>) -> Option<
    FindingView,
> {
    match lookup(audit.pkg_findings, name) {
        Some(list) => listed(list, version),
        None => None,
    }
}

/// The first of the findings that is about `version`.
pub open spec fn listed(list: Seq<FindingView>, version: Seq<char>) -> Option<FindingView> {
    let at = slot(found_versions(list), version) as int;
    if at < list.len() {
        Some(list[at])
    } else {
        None
    }
}

/// Whether the audit says that this version of this package is required by this path.
pub open spec fn says_path(
    audit: AuditView,
    name: Seq<char>,
    version: Seq<char>,
    path: Seq<char>,
) -> bool {
    match finding_of(audit, name, version) {
        Some(finding) => finding.paths.contains(path),
        None => false,
    }
}

/// Whether a visit is a reason to ask about this version of this package.
pub open spec fn calls_for(visit: Visit, name: Seq<char>, version: Seq<char>) -> bool {
    match visit {
        Visit::Found(found) => found.name == name && found.version == version,
        Visit::Missing { name: missing, range } => missing == name && range == version,
    }
}

/// Whether a visit found this version of this package by this path.
pub open spec fn finds(
    visit: Visit,
    name: Seq<char>,
    version: Seq<char>,
    path: Seq<char>,
) -> bool {
    match visit {
        Visit::Found(found) => found.name == name && found.version == version && found.path == path,
        _ => false,
    }
}

/// Whether a visit found the package at this depth.
pub open spec fn finds_at(visit: Visit, name: Seq<char>, depth: nat) -> bool {
    match visit {
        Visit::Found(found) => found.name == name && found.depth == depth,
        _ => false,
    }
}

proof fn lemma_noted_asks(audit: AuditView, visit: Visit, name: Seq<char>, version: Seq<char>)
    ensures
        asks_about(noted(audit, visit), name, version) == (asks_about(audit, name, version)
            || calls_for(visit, name, version)),
{
    let (key, value) = match visit {
        Visit::Found(found) => (found.name, found.version),
        Visit::Missing { name: missing, range } => (missing, range),
    };
    let packages = audit.packages;
    let at = slot(text_keys(packages), key) as int;
    lemma_slot(text_keys(packages), key);
    if at >= packages.len() {
        lemma_lookup_push(packages, key, seq![value], name);
        assert(seq![value].contains(version) == (value == version)) by {
            assert(seq![value][0] == value);
        }
    } else if !packages[at].1.contains(value) {
        let more = packages[at].1.push(value);
        lemma_lookup_update(packages, key, more, name);
        assert(more.contains(version) == (packages[at].1.contains(version) || value == version))
            by {
            assert(more[packages[at].1.len() as int] == value);
            if packages[at].1.contains(version) {
                let i = packages[at].1.index_of(version);
                assert(more[i] == version);
            }
        }
    }
}

proof fn lemma_all_noted_asks(
    audit: AuditView,
    visits: Seq<Visit>,
    name: Seq<char>,
    version: Seq<char>,
)
    ensures
        asks_about(noted_all(audit, visits), name, version) == (asks_about(audit, name, version)
            || exists|i: int|
            0 <= i < visits.len() && calls_for(#[trigger] visits[i], name, version)),
    decreases visits.len(),
{
    if visits.len() > 0 {
        let before = visits.drop_last();
        lemma_all_noted_asks(audit, before, name, version);
        lemma_noted_asks(noted_all(audit, before), visits.last(), name, version);
        if exists|i: int| 0 <= i < visits.len() && calls_for(#[trigger] visits[i], name, version) {
            let i = choose|i: int|
                0 <= i < visits.len() && calls_for(#[trigger] visits[i], name, version);
            assert(i < before.len() ==> before[i] == visits[i]);
        }
        if exists|i: int| 0 <= i < before.len() && calls_for(#[trigger] before[i], name, version) {
            let i = choose|i: int|
                0 <= i < before.len() && calls_for(#[trigger] before[i], name, version);
            assert(visits[i] == before[i]);
        }
    }
}

/// The registry is asked about a version of a package if and only if following the requirements
/// comes upon that version, or upon a requirement with that range of a package that is not
/// installed.
pub proof fn law_asked_iff_visited(body: JsonView, name: Seq<char>, version: Seq<char>)
    ensures
        asks_about(audit_of(body), name, version) <==> exists|i: int|
            0 <= i < all_visits(body).len() && calls_for(
                #[trigger] all_visits(body)[i],
                name,
                version,
            ),
{
    lemma_all_noted_asks(
        empty_audit(dependency_count(body)),
        all_visits(body),
        name,
        version,
    );
}

/// What `with_path` does to the finding of a version.
proof fn lemma_with_path(list: Seq<FindingView>, found: Found, version: Seq<char>)
    ensures
        found.version != version ==> listed(with_path(list, found), version) == listed(
            list,
            version,
        ),
        listed(with_path(list, found), found.version) == Some(
            match listed(list, found.version) {
                None => FindingView {
                    version: found.version,
                    paths: seq![found.path],
                    dev: found.dev,
                    optional: found.optional,
                    bundled: found.bundled,
                },
                Some(before) => if before.paths.contains(found.path) {
                    before
                } else {
                    FindingView { paths: before.paths.push(found.path), ..before }
                },
            },
        ),
        found_versions(with_path(list, found)) == if listed(list, found.version) is None {
            found_versions(list).push(found.version)
        } else {
            found_versions(list)
        },
{
    let versions = found_versions(list);
    let after = with_path(list, found);
    let at = slot(versions, found.version) as int;
    lemma_slot(versions, found.version);
    lemma_slot(versions, version);
    if at >= list.len() {
        assert(found_versions(after) =~= versions.push(found.version));
        assert(versions.push(found.version).drop_last() =~= versions);
    } else {
        assert(found_versions(after) =~= versions);
    }
}

/// What `with_finding` does to the findings of a package.
proof fn lemma_with_finding(
    findings: Seq<(Seq<char>, Seq<FindingView>)>,
    found: Found,
    name: Seq<char>,
)
    ensures
        lookup(with_finding(findings, found), name) == if found.name != name {
            lookup(findings, name)
        } else {
            Some(
                with_path(
                    match lookup(findings, name) {
                        Some(list) => list,
                        None => Seq::empty(),
                    },
                    found,
                ),
            )
        },
        text_keys(with_finding(findings, found)) == if lookup(findings, found.name) is None {
            text_keys(findings).push(found.name)
        } else {
            text_keys(findings)
        },
{
    let at = slot(text_keys(findings), found.name) as int;
    lemma_slot(text_keys(findings), found.name);
    if at >= findings.len() {
        lemma_lookup_push(findings, found.name, with_path(Seq::empty(), found), name);
    } else {
        lemma_lookup_update(findings, found.name, with_path(findings[at].1, found), name);
    }
}

proof fn lemma_contains_push(list: Seq<Seq<char>>, item: Seq<char>, other: Seq<char>)
    ensures
        list.push(item).contains(other) == (list.contains(other) || item == other),
{
    let more = list.push(item);
    assert(more[list.len() as int] == item);
    if list.contains(other) {
        let i = list.index_of(other);
        assert(more[i] == other);
    }
}

proof fn lemma_noted_paths(
    audit: AuditView,
    visit: Visit,
    name: Seq<char>,
    version: Seq<char>,
    path: Seq<char>,
)
    ensures
        says_path(noted(audit, visit), name, version, path) == (says_path(
            audit,
            name,
            version,
            path,
        ) || finds(visit, name, version, path)),
{
    match visit {
        Visit::Found(found) => {
            lemma_with_finding(audit.pkg_findings, found, name);
            let list = match lookup(audit.pkg_findings, name) {
                Some(list) => list,
                None => Seq::empty(),
            };
            lemma_with_path(list, found, version);
            match listed(list, found.version) {
                Some(before) => {
                    lemma_contains_push(before.paths, found.path, path);
                },
                None => {
                    assert(Seq::<Seq<char>>::empty().push(found.path) =~= seq![found.path]);
                    lemma_contains_push(Seq::empty(), found.path, path);
                },
            }
        },
        _ => {},
    }
}

proof fn lemma_all_noted_paths(
    audit: AuditView,
    visits: Seq<Visit>,
    name: Seq<char>,
    version: Seq<char>,
    path: Seq<char>,
)
    ensures
        says_path(noted_all(audit, visits), name, version, path) == (says_path(
            audit,
            name,
            version,
            path,
        ) || exists|i: int|
            0 <= i < visits.len() && finds(#[trigger] visits[i], name, version, path)),
    decreases visits.len(),
{
    if visits.len() > 0 {
        let before = visits.drop_last();
        lemma_all_noted_paths(audit, before, name, version, path);
        lemma_noted_paths(noted_all(audit, before), visits.last(), name, version, path);
        if exists|i: int|
            0 <= i < visits.len() && finds(#[trigger] visits[i], name, version, path) {
            let i = choose|i: int|
                0 <= i < visits.len() && finds(#[trigger] visits[i], name, version, path);
            assert(i < before.len() ==> before[i] == visits[i]);
        }
        if exists|i: int|
            0 <= i < before.len() && finds(#[trigger] before[i], name, version, path) {
            let i = choose|i: int|
                0 <= i < before.len() && finds(#[trigger] before[i], name, version, path);
            assert(visits[i] == before[i]);
        }
    }
}

/// A path stands among the paths of a finding if and only if following the requirements leads to
/// that version of that package by that path.
pub proof fn law_path_iff_found(
    body: JsonView,
    name: Seq<char>,
    version: Seq<char>,
    path: Seq<char>,
)
    ensures
        says_path(audit_of(body), name, version, path) <==> exists|i: int|
            0 <= i < all_visits(body).len() && finds(
                #[trigger] all_visits(body)[i],
                name,
                version,
                path,
            ),
{
    lemma_all_noted_paths(
        empty_audit(dependency_count(body)),
        all_visits(body),
        name,
        version,
        path,
    );
}

/// Whether `depth` is what the visits say of the least depth of the package: attained by one of
/// them and exceeded by none, or missing where none of them found the package.
pub open spec fn is_least_depth(
    visits: Seq<Visit>,
    name: Seq<char>,
    depth: Option<nat>,
) -> bool {
    match depth {
        Some(least) => {
            &&& exists|i: int| 0 <= i < visits.len() && finds_at(#[trigger] visits[i], name, least)
            &&& forall|i: int, d: nat|
                0 <= i < visits.len() && #[trigger] finds_at(visits[i], name, d) ==> least <= d
        },
        None => forall|i: int, d: nat|
            0 <= i < visits.len() ==> !#[trigger] finds_at(visits[i], name, d),
    }
}

proof fn lemma_all_noted_depth(audit: AuditView, visits: Seq<Visit>, name: Seq<char>)
    requires
        audit.pkg_min_depth.len() == 0,
    ensures
        is_least_depth(visits, name, lookup(noted_all(audit, visits).pkg_min_depth, name)),
    decreases visits.len(),
{
    if visits.len() > 0 {
        let before = visits.drop_last();
        let earlier = noted_all(audit, before).pkg_min_depth;
        lemma_all_noted_depth(audit, before, name);
        assert forall|i: int, d: nat|
            0 <= i < visits.len() && #[trigger] finds_at(visits[i], name, d) implies (i
            == before.len() && finds_at(visits.last(), name, d)) || finds_at(
            before[i],
            name,
            d,
        ) by {
            assert(i < before.len() ==> before[i] == visits[i]);
        }
        assert forall|i: int, d: nat|
            0 <= i < before.len() && #[trigger] finds_at(before[i], name, d) implies finds_at(
            visits[i],
            name,
            d,
        ) by {
            assert(before[i] == visits[i]);
        }
        let least = lookup(noted_all(audit, visits).pkg_min_depth, name);
        match visits.last() {
            Visit::Found(found) => {
                let at = slot(text_keys(earlier), found.name) as int;
                lemma_slot(text_keys(earlier), found.name);
                if at >= earlier.len() {
                    lemma_lookup_push(earlier, found.name, found.depth, name);
                } else if found.depth < earlier[at].1 {
                    lemma_lookup_update(earlier, found.name, found.depth, name);
                }
                if found.name == name {
                    assert(finds_at(visits[visits.len() - 1], name, found.depth));
                }
            },
            _ => {},
        }
        if lookup(earlier, name) is Some {
            let i = choose|i: int|
                0 <= i < before.len() && finds_at(
                    #[trigger] before[i],
                    name,
                    lookup(earlier, name)->0,
                );
            assert(finds_at(visits[i], name, lookup(earlier, name)->0));
        }
    }
}

/// The depth of a package is the least depth at which following the requirements finds it. A
/// package that is not found has none.
pub proof fn law_depth_is_least(body: JsonView, name: Seq<char>)
    ensures
        is_least_depth(all_visits(body), name, lookup(audit_of(body).pkg_min_depth, name)),
{
    lemma_all_noted_depth(empty_audit(dependency_count(body)), all_visits(body), name);
}

proof fn lemma_push_distinct(list: Seq<Seq<char>>, item: Seq<char>)
    requires
        list.no_duplicates(),
        !list.contains(item),
    ensures
        list.push(item).no_duplicates(),
{
    let more = list.push(item);
    assert forall|i: int, j: int|
        0 <= i < more.len() && 0 <= j < more.len() && i != j implies more[i] != more[j] by {
        assert(i < list.len() ==> list.contains(list[i]));
        assert(j < list.len() ==> list.contains(list[j]));
    }
}

proof fn lemma_noted_packages(audit: AuditView, visit: Visit)
    requires
        audit.well_formed(),
    ensures
        text_keys(noted(audit, visit).packages).no_duplicates(),
        forall|i: int|
            0 <= i < noted(audit, visit).packages.len() ==> (#[trigger] noted(
                audit,
                visit,
            ).packages[i]).1.len() > 0 && noted(audit, visit).packages[i].1.no_duplicates(),
{
    let (key, value) = match visit {
        Visit::Found(found) => (found.name, found.version),
        Visit::Missing { name: missing, range } => (missing, range),
    };
    let packages = audit.packages;
    let after = with_version(packages, key, value);
    let at = slot(text_keys(packages), key) as int;
    lemma_slot(text_keys(packages), key);
    if at >= packages.len() {
        lemma_lookup_push(packages, key, seq![value], key);
        lemma_push_distinct(text_keys(packages), key);
    } else if !packages[at].1.contains(value) {
        lemma_lookup_update(packages, key, packages[at].1.push(value), key);
        lemma_push_distinct(packages[at].1, value);
    }
    assert forall|i: int| 0 <= i < after.len() implies (#[trigger] after[i]).1.len() > 0
        && after[i].1.no_duplicates() by {
        if i < packages.len() && i != at {
            assert(after[i] == packages[i]);
        }
    }
}

proof fn lemma_with_path_well_formed(list: Seq<FindingView>, found: Found)
    requires
        found_versions(list).no_duplicates(),
        forall|j: int| 0 <= j < list.len() ==> (#[trigger] list[j]).well_formed(),
    ensures
        with_path(list, found).len() > 0,
        found_versions(with_path(list, found)).no_duplicates(),
        forall|j: int|
            0 <= j < with_path(list, found).len() ==> (#[trigger] with_path(
                list,
                found,
            )[j]).well_formed(),
{
    let after = with_path(list, found);
    let at = slot(found_versions(list), found.version) as int;
    lemma_slot(found_versions(list), found.version);
    lemma_with_path(list, found, found.version);
    if at >= list.len() {
        lemma_push_distinct(found_versions(list), found.version);
    } else if !list[at].paths.contains(found.path) {
        lemma_push_distinct(list[at].paths, found.path);
    }
    assert forall|j: int| 0 <= j < after.len() implies (#[trigger] after[j]).well_formed() by {
        if j < list.len() && j != at {
            assert(after[j] == list[j]);
        } else if at < list.len() {
            assert(list[at].well_formed());
        }
    }
}

proof fn lemma_noted_well_formed(audit: AuditView, visit: Visit)
    requires
        audit.well_formed(),
    ensures
        noted(audit, visit).well_formed(),
{
    lemma_noted_packages(audit, visit);
    match visit {
        Visit::Found(found) => {
            let findings = audit.pkg_findings;
            let after = with_finding(findings, found);
            let at = slot(text_keys(findings), found.name) as int;
            lemma_slot(text_keys(findings), found.name);
            lemma_with_finding(findings, found, found.name);
            let depths = audit.pkg_min_depth;
            if at >= findings.len() {
                lemma_push_distinct(text_keys(findings), found.name);
                lemma_lookup_push(depths, found.name, found.depth, found.name);
                assert(found_versions(Seq::empty()) =~= Seq::empty());
                lemma_with_path_well_formed(Seq::empty(), found);
            } else {
                lemma_lookup_update(depths, found.name, found.depth, found.name);
                assert(findings[at].1.len() > 0);
                assert forall|j: int| 0 <= j < findings[at].1.len() implies (
                #[trigger] findings[at].1[j]).well_formed() by {}
                lemma_with_path_well_formed(findings[at].1, found);
            }
            assert forall|i: int| 0 <= i < after.len() implies (#[trigger] after[i]).1.len() > 0
                && found_versions(after[i].1).no_duplicates() by {
                if i < findings.len() && i != at {
                    assert(after[i] == findings[i]);
                }
            }
            assert forall|i: int, j: int|
                0 <= i < after.len() && 0 <= j < after[i].1.len() implies (
            #[trigger] after[i].1[j]).well_formed() by {
                if i < findings.len() && i != at {
                    assert(after[i] == findings[i]);
                    assert(findings[i].1[j].well_formed());
                }
            }
        },
        _ => {},
    }
}

/// What is noted keeps an audit well-formed.
pub proof fn law_noted_well_formed(audit: AuditView, visits: Seq<Visit>)
    requires
        audit.well_formed(),
    ensures
        noted_all(audit, visits).well_formed(),
    decreases visits.len(),
{
    if visits.len() > 0 {
        law_noted_well_formed(audit, visits.drop_last());
        lemma_noted_well_formed(noted_all(audit, visits.drop_last()), visits.last());
    }
}

/// Every audit is well-formed.
pub proof fn law_audit_well_formed(body: JsonView)
    ensures
        audit_of(body).well_formed(),
{
    let empty = empty_audit(dependency_count(body));
    assert(text_keys(empty.packages) =~= Seq::empty());
    assert(text_keys(empty.pkg_findings) =~= Seq::empty());
    assert(text_keys(empty.pkg_min_depth) =~= Seq::empty());
    law_noted_well_formed(empty, all_visits(body));
}

/// Whatever is found is asked about: a version that has a finding is among the versions of its
/// package.
pub proof fn law_findings_are_asked_about(
    body: JsonView,
    name: Seq<char>,
    version: Seq<char>,
    path: Seq<char>,
)
    requires
        says_path(audit_of(body), name, version, path),
    ensures
        asks_about(audit_of(body), name, version),
{
    law_path_iff_found(body, name, version, path);
    law_asked_iff_visited(body, name, version);
    let i = choose|i: int|
        0 <= i < all_visits(body).len() && finds(
            #[trigger] all_visits(body)[i],
            name,
            version,
            path,
        );
    assert(calls_for(all_visits(body)[i], name, version));
}

/// What is noted on the way changes nothing in the number of dependencies.
proof fn lemma_noted_total(audit: AuditView, visits: Seq<Visit>)
    ensures
        noted_all(audit, visits).total_deps == audit.total_deps,
    decreases visits.len(),
{
    if visits.len() > 0 {
        lemma_noted_total(audit, visits.drop_last());
    }
}

/// The total is the number of entries in the tree of dependencies, whatever requires them.
pub proof fn law_total_counts_entries(body: JsonView)
    ensures
        audit_of(body).total_deps == dependency_count(body),
{
    lemma_noted_total(empty_audit(dependency_count(body)), all_visits(body));
}

/// Whether the visit found this version of this package, and with the flags of the finding.
pub open spec fn tells(visit: Visit, name: Seq<char>, finding: FindingView) -> bool {
    match visit {
        Visit::Found(found) => {
            &&& found.name == name
            &&& found.version == finding.version
            &&& found.dev == finding.dev
            &&& found.optional == finding.optional
            &&& found.bundled == finding.bundled
        },
        Visit::Missing { .. } => false,
    }
}

proof fn lemma_all_noted_flags(
    audit: AuditView,
    visits: Seq<Visit>,
    name: Seq<char>,
    version: Seq<char>,
)
    requires
        audit.pkg_findings.len() == 0,
    ensures
        match finding_of(noted_all(audit, visits), name, version) {
            Some(finding) => finding.version == version && exists|i: int|
                0 <= i < visits.len() && tells(#[trigger] visits[i], name, finding),
            None => true,
        },
    decreases visits.len(),
{
    if visits.len() > 0 {
        let before = visits.drop_last();
        let earlier = noted_all(audit, before);
        lemma_all_noted_flags(audit, before, name, version);
        match visits.last() {
            Visit::Found(found) => {
                lemma_with_finding(earlier.pkg_findings, found, name);
                let list = match lookup(earlier.pkg_findings, name) {
                    Some(list) => list,
                    None => Seq::empty(),
                };
                lemma_with_path(list, found, version);
            },
            _ => {},
        }
        match finding_of(noted_all(audit, visits), name, version) {
            Some(finding) => {
                match finding_of(earlier, name, version) {
                    Some(known) => {
                        let i = choose|i: int|
                            0 <= i < before.len() && tells(#[trigger] before[i], name, known);
                        assert(tells(visits[i], name, finding));
                    },
                    None => {
                        assert(tells(visits[visits.len() - 1], name, finding));
                    },
                }
            },
            None => {},
        }
    }
}

/// What a finding says of a version is what the installed entry of that name and version says:
/// it is for development, optional or bundled exactly where the entry is.
pub proof fn law_finding_has_flags_of_entry(body: JsonView, name: Seq<char>, version: Seq<char>)
    requires
        finding_of(audit_of(body), name, version) is Some,
    ensures
        ({
            let finding = finding_of(audit_of(body), name, version)->0;
            exists|k: int|
                0 <= k < index_of(body).len() && tells_of(
                    finding,
                    name,
                    version,
                    #[trigger] index_of(body)[k],
                )
        }),
{
    let visits = all_visits(body);
    lemma_all_noted_flags(empty_audit(dependency_count(body)), visits, name, version);
    law_visits_borne_out(body);
    let finding = finding_of(audit_of(body), name, version)->0;
    let i = choose|i: int| 0 <= i < visits.len() && tells(#[trigger] visits[i], name, finding);
    assert(borne_out(index_of(body), visits[i]));
    let k = choose|k: int|
        0 <= k < index_of(body).len() && found_node(visits[i], #[trigger] index_of(body)[k]);
    assert(tells_of(finding, name, version, index_of(body)[k]));
}

/// Whether the finding is about the node, and has its flags.
pub open spec fn tells_of(
    finding: FindingView,
    name: Seq<char>,
    version: Seq<char>,
    node: NodeView,
) -> bool {
    &&& node.name == name
    &&& node.version == version
    &&& finding.version == version
    &&& finding.dev == node.info.flag_at("dev"@)
    &&& finding.optional == node.info.flag_at("optional"@)
    &&& finding.bundled == node.info.flag_at("bundled"@)
}

/// Whether two requirements are of the same package and have the same range. Of a package with a
/// version in `index` the ranges may be any two texts.
pub open spec fn same_requirement(
    a: (Seq<char>, JsonView),
    b: (Seq<char>, JsonView),
    index: Seq<NodeView>,
) -> bool {
    &&& a.0 == b.0
    &&& a.1 == b.1 || (a.1 is Text && b.1 is Text && indexed(index, a.0))
}

/// Whether two lists of requirements differ only in the ranges of packages with a version in
/// `index`.
pub open spec fn same_requirements(
    a: Seq<(Seq<char>, JsonView)>,
    b: Seq<(Seq<char>, JsonView)>,
    index: Seq<NodeView>,
) -> bool {
    &&& a.len() == b.len()
    &&& forall|i: int|
        #![trigger a[i]]
        #![trigger b[i]]
        0 <= i < a.len() ==> same_requirement(a[i], b[i], index)
}

/// Whether two nodes differ, in themselves and below them, only in the ranges that are required
/// of packages with a version in `index`.
pub open spec fn same_but_ranges(a: JsonView, b: JsonView, index: Seq<NodeView>) -> bool
    decreases node_count(a), 0nat,
{
    proof {
        lemma_object_at_count(a, "dependencies"@);
    }
    &&& forall|key: Seq<char>|
        key != "requires"@ && key != "dependencies"@ ==> #[trigger] a.field(key) == b.field(key)
    &&& same_requirements(a.object_at("requires"@), b.object_at("requires"@), index)
    &&& same_entries_but_ranges(
        a.object_at("dependencies"@),
        b.object_at("dependencies"@),
        index,
    )
}

/// Whether two lists of entries have the same names, and entries that differ only in the ranges
/// that are required of packages with a version in `index`.
pub open spec fn same_entries_but_ranges(
    a: Seq<(Seq<char>, JsonView)>,
    b: Seq<(Seq<char>, JsonView)>,
    index: Seq<NodeView>,
) -> bool
    decreases fields_count(a), 1nat,
{
    &&& a.len() == b.len()
    &&& a.len() > 0 ==> {
        proof {
            assert(node_count(a.last().1) >= 1);
        }
        &&& a.last().0 == b.last().0
        &&& same_but_ranges(a.last().1, b.last().1, index)
        &&& same_entries_but_ranges(a.drop_last(), b.drop_last(), index)
    }
}

/// Whether the nodes of two lists have the same names and versions, and differ only in the ranges
/// that are required of packages with a version in `index`.
spec fn same_nodes(a: Seq<NodeView>, b: Seq<NodeView>, index: Seq<NodeView>) -> bool {
    &&& a.len() == b.len()
    &&& forall|k: int|
        #![trigger a[k]]
        #![trigger b[k]]
        0 <= k < a.len() ==> a[k].name == b[k].name && a[k].version == b[k].version
            && same_but_ranges(a[k].info, b[k].info, index)
}

/// What is read of a node besides its requirements and what is below it.
proof fn lemma_same_fields(a: JsonView, b: JsonView, index: Seq<NodeView>)
    requires
        same_but_ranges(a, b, index),
    ensures
        a.text_at("version"@) == b.text_at("version"@),
        a.flag_at("dev"@) == b.flag_at("dev"@),
        a.flag_at("optional"@) == b.flag_at("optional"@),
        a.flag_at("bundled"@) == b.flag_at("bundled"@),
{
    reveal_strlit("requires");
    reveal_strlit("dependencies");
    reveal_strlit("version");
    reveal_strlit("dev");
    reveal_strlit("optional");
    reveal_strlit("bundled");
    assert("optional"@[0] != "requires"@[0]);
    assert("version"@.len() == 7 && "bundled"@.len() == 7 && "dev"@.len() == 3);
    assert("requires"@.len() == 8 && "dependencies"@.len() == 12 && "optional"@.len() == 8);
    assert(a.field("version"@) == b.field("version"@));
    assert(a.field("dev"@) == b.field("dev"@));
    assert(a.field("optional"@) == b.field("optional"@));
    assert(a.field("bundled"@) == b.field("bundled"@));
}

proof fn lemma_same_installed(a: JsonView, b: JsonView, index: Seq<NodeView>)
    requires
        same_but_ranges(a, b, index),
    ensures
        same_nodes(installed(a), installed(b), index),
        dependency_count(a) == dependency_count(b),
    decreases node_count(a), 0nat,
{
    lemma_object_at_count(a, "dependencies"@);
    lemma_same_installed_in(
        a.object_at("dependencies"@),
        b.object_at("dependencies"@),
        index,
    );
}

proof fn lemma_same_installed_in(
    a: Seq<(Seq<char>, JsonView)>,
    b: Seq<(Seq<char>, JsonView)>,
    index: Seq<NodeView>,
)
    requires
        same_entries_but_ranges(a, b, index),
    ensures
        same_nodes(installed_in(a), installed_in(b), index),
        entry_count(a) == entry_count(b),
    decreases fields_count(a), 1nat,
{
    if a.len() > 0 {
        assert(node_count(a.last().1) >= 1);
        lemma_same_installed_in(a.drop_last(), b.drop_last(), index);
        lemma_same_installed(a.last().1, b.last().1, index);
        lemma_same_fields(a.last().1, b.last().1, index);
    }
}

proof fn lemma_same_place(
    a: Seq<NodeView>,
    b: Seq<NodeView>,
    index: Seq<NodeView>,
    name: Seq<char>,
    version: Seq<char>,
)
    requires
        same_nodes(a, b, index),
    ensures
        place(a, name, version) == place(b, name, version),
    decreases a.len(),
{
    if a.len() > 0 {
        assert(same_nodes(a.drop_last(), b.drop_last(), index)) by {
            assert forall|k: int|
                #![trigger a.drop_last()[k]]
                #![trigger b.drop_last()[k]]
                0 <= k < a.len() - 1 implies a.drop_last()[k].name == b.drop_last()[k].name
                && a.drop_last()[k].version == b.drop_last()[k].version && same_but_ranges(
                a.drop_last()[k].info,
                b.drop_last()[k].info,
                index,
            ) by {
                assert(a.drop_last()[k] == a[k] && b.drop_last()[k] == b[k]);
            }
        }
        lemma_same_place(a.drop_last(), b.drop_last(), index, name, version);
        assert(a[a.len() - 1] == a.last() && b[b.len() - 1] == b.last());
    }
}

proof fn lemma_same_filed(a: Seq<NodeView>, b: Seq<NodeView>, index: Seq<NodeView>)
    requires
        same_nodes(a, b, index),
    ensures
        same_nodes(filed_all(Seq::empty(), a), filed_all(Seq::empty(), b), index),
    decreases a.len(),
{
    if a.len() > 0 {
        let (some, others) = (a.drop_last(), b.drop_last());
        assert forall|k: int|
            #![trigger some[k]]
            #![trigger others[k]]
            0 <= k < some.len() implies some[k].name == others[k].name && some[k].version
            == others[k].version && same_but_ranges(some[k].info, others[k].info, index) by {
            assert(some[k] == a[k] && others[k] == b[k]);
        }
        lemma_same_filed(some, others, index);
        assert(a[a.len() - 1] == a.last() && b[b.len() - 1] == b.last());
        lemma_same_place(
            filed_all(Seq::empty(), some),
            filed_all(Seq::empty(), others),
            index,
            a.last().name,
            a.last().version,
        );
    }
}

proof fn lemma_same_indexed(
    a: Seq<NodeView>,
    b: Seq<NodeView>,
    index: Seq<NodeView>,
    name: Seq<char>,
)
    requires
        same_nodes(a, b, index),
    ensures
        indexed(a, name) == indexed(b, name),
{
    if indexed(a, name) {
        let k = choose|k: int| 0 <= k < a.len() && (#[trigger] a[k]).name == name;
        assert(b[k].name == name);
    }
    if indexed(b, name) {
        let k = choose|k: int| 0 <= k < b.len() && (#[trigger] b[k]).name == name;
        assert(a[k].name == name);
    }
}

proof fn lemma_same_visits(
    a: JsonView,
    b: JsonView,
    ia: Seq<NodeView>,
    ib: Seq<NodeView>,
    stack: Seq<FrameView>,
)
    requires
        same_nodes(ia, ib, ia),
        same_but_ranges(a, b, ia),
    ensures
        visits(a, ia, stack) == visits(b, ib, stack),
    decreases unentered(ia.len(), stack), 3nat, 0nat,
{
    lemma_same_requirements_visits(
        a.object_at("requires"@),
        b.object_at("requires"@),
        ia,
        ib,
        stack,
    );
}

proof fn lemma_same_requirements_visits(
    a: Seq<(Seq<char>, JsonView)>,
    b: Seq<(Seq<char>, JsonView)>,
    ia: Seq<NodeView>,
    ib: Seq<NodeView>,
    stack: Seq<FrameView>,
)
    requires
        same_nodes(ia, ib, ia),
        same_requirements(a, b, ia),
    ensures
        requirements_visits(a, ia, stack) == requirements_visits(b, ib, stack),
    decreases unentered(ia.len(), stack), 2nat, a.len(),
{
    if a.len() > 0 {
        let (some, others) = (a.drop_last(), b.drop_last());
        assert forall|i: int|
            #![trigger some[i]]
            #![trigger others[i]]
            0 <= i < some.len() implies same_requirement(some[i], others[i], ia) by {
            assert(some[i] == a[i] && others[i] == b[i]);
        }
        lemma_same_requirements_visits(some, others, ia, ib, stack);
        assert(a[a.len() - 1] == a.last() && b[b.len() - 1] == b.last());
        lemma_same_requirement_visits(a.last(), b.last(), ia, ib, stack);
    }
}

proof fn lemma_same_requirement_visits(
    a: (Seq<char>, JsonView),
    b: (Seq<char>, JsonView),
    ia: Seq<NodeView>,
    ib: Seq<NodeView>,
    stack: Seq<FrameView>,
)
    requires
        same_nodes(ia, ib, ia),
        same_requirement(a, b, ia),
    ensures
        requirement_visits(a.0, a.1, ia, stack) == requirement_visits(b.0, b.1, ib, stack),
    decreases unentered(ia.len(), stack), 1nat, 0nat,
{
    lemma_same_indexed(ia, ib, ia, a.0);
    lemma_same_versions_visits(a.0, ia, ib, stack, ia.len());
}

proof fn lemma_same_versions_visits(
    name: Seq<char>,
    ia: Seq<NodeView>,
    ib: Seq<NodeView>,
    stack: Seq<FrameView>,
    n: nat,
)
    requires
        same_nodes(ia, ib, ia),
        n <= ia.len(),
    ensures
        versions_visits(name, ia, stack, n) == versions_visits(name, ib, stack, n),
    decreases unentered(ia.len(), stack), 0nat, n,
{
    if n > 0 {
        let k = n - 1;
        lemma_same_versions_visits(name, ia, ib, stack, k as nat);
        assert(ia[k].name == ib[k].name);
        lemma_same_fields(ia[k].info, ib[k].info, ia);
        let path = path_to(stack, name);
        if ia[k].name == name && follows(stack, path, k) {
            let frame = FrameView { path, node: k };
            lemma_unentered_push(ia.len(), stack, frame);
            lemma_same_visits(ia[k].info, ib[k].info, ia, ib, stack.push(frame));
        }
    }
}

/// What is installed decides, not which ranges ask for it: two requests that differ only in the
/// ranges that are required of installed packages say the same.
pub proof fn law_ranges_of_installed_packages_count_for_nothing(a: JsonView, b: JsonView)
    requires
        same_but_ranges(a, b, index_of(a)),
    ensures
        audit_of(a) == audit_of(b),
{
    lemma_same_installed(a, b, index_of(a));
    lemma_same_filed(installed(a), installed(b), index_of(a));
    lemma_same_visits(a, b, index_of(a), index_of(b), Seq::empty());
}

/// An audit says what its tables hold, entry for entry and in their order.
pub proof fn law_audit_tables(audit: ParsedAudit)
    ensures
        audit@.total_deps == audit.total_deps,
        audit@.packages.len() == audit.packages@.len(),
        forall|i: int|
            0 <= i < audit.packages@.len() ==> #[trigger] audit@.packages[i] == (
                audit.packages@[i].0@,
                texts(audit.packages@[i].1@),
            ),
        audit@.pkg_min_depth.len() == audit.pkg_min_depth@.len(),
        forall|i: int|
            0 <= i < audit.pkg_min_depth@.len() ==> #[trigger] audit@.pkg_min_depth[i] == (
                audit.pkg_min_depth@[i].0@,
                audit.pkg_min_depth@[i].1 as nat,
            ),
        audit@.pkg_findings.len() == audit.pkg_findings@.len(),
        forall|i: int|
            0 <= i < audit.pkg_findings@.len() ==> (#[trigger] audit@.pkg_findings[i]).0
                == audit.pkg_findings@[i].0@ && audit@.pkg_findings[i].1.len()
                == audit.pkg_findings@[i].1@.len(),
        forall|i: int, j: int|
            0 <= i < audit.pkg_findings@.len() && 0 <= j < audit.pkg_findings@[i].1@.len()
                ==> #[trigger] audit@.pkg_findings[i].1[j] == audit.pkg_findings@[i].1@[j]@,
{
}

/// A finding says what it holds.
pub proof fn law_finding(finding: FindingInfo)
    ensures
        finding@.version == finding.version@,
        finding@.paths == texts(finding.paths@),
        finding@.dev == finding.dev,
        finding@.optional == finding.optional,
        finding@.bundled == finding.bundled,
{
}

/// The path to a package is its name where the node that requires it was reached by no path, and
/// otherwise that path, a ">" and the name.
pub proof fn law_path_goes_on(stack: Seq<FrameView>, name: Seq<char>)
    ensures
        stack.len() == 0 ==> path_to(stack, name) == name,
        stack.len() > 0 && stack.last().path.len() == 0 ==> path_to(stack, name) == name,
        stack.len() > 0 && stack.last().path.len() > 0 ==> path_to(stack, name)
            == stack.last().path + ">"@ + name,
{
}

/// Whether one version of a package is called for by a visit before any calls for the other.
pub open spec fn called_for_first(
    visits: Seq<Visit>,
    name: Seq<char>,
    version: Seq<char>,
    other: Seq<char>,
) -> bool {
    exists|p: int|
        0 <= p < visits.len() && calls_for(#[trigger] visits[p], name, version) && forall|q: int|
            0 <= q <= p ==> !calls_for(#[trigger] visits[q], name, other)
}

proof fn lemma_versions_in_order(audit: AuditView, visits: Seq<Visit>, name: Seq<char>)
    requires
        audit.packages.len() == 0,
    ensures
        lookup(noted_all(audit, visits).packages, name) matches Some(list) ==> forall|
            i: int,
            j: int,
        |
            0 <= i < j < list.len() ==> called_for_first(
                visits,
                name,
                #[trigger] list[i],
                #[trigger] list[j],
            ),
    decreases visits.len(),
{
    if visits.len() > 0 {
        let before = visits.drop_last();
        let earlier = noted_all(audit, before);
        lemma_versions_in_order(audit, before, name);
        let (key, value) = match visits.last() {
            Visit::Found(found) => (found.name, found.version),
            Visit::Missing { name: missing, range } => (missing, range),
        };
        let packages = earlier.packages;
        let at = slot(text_keys(packages), key) as int;
        lemma_slot(text_keys(packages), key);
        if at >= packages.len() {
            lemma_lookup_push(packages, key, seq![value], name);
        } else if !packages[at].1.contains(value) {
            lemma_lookup_update(packages, key, packages[at].1.push(value), name);
        }
        if lookup(noted_all(audit, visits).packages, name) is Some {
            let list = lookup(noted_all(audit, visits).packages, name)->0;
            assert forall|i: int, j: int| 0 <= i < j < list.len() implies called_for_first(
                visits,
                name,
                #[trigger] list[i],
                #[trigger] list[j],
            ) by {
                let known = lookup(packages, name)->0;
                lemma_all_noted_asks(audit, before, name, list[i]);
                lemma_all_noted_asks(audit, before, name, list[j]);
                assert(known[i] == list[i]);
                assert(known.contains(list[i]));
                let p = if j < known.len() {
                    assert(known[j] == list[j]);
                    assert(called_for_first(before, name, known[i], known[j]));
                    choose|p: int|
                        0 <= p < before.len() && calls_for(#[trigger] before[p], name, list[i])
                            && forall|q: int|
                            0 <= q <= p ==> !calls_for(#[trigger] before[q], name, list[j])
                } else {
                    assert(!asks_about(earlier, name, list[j]));
                    choose|p: int|
                        0 <= p < before.len() && calls_for(#[trigger] before[p], name, list[i])
                };
                assert(calls_for(visits[p], name, list[i]));
                assert forall|q: int| 0 <= q <= p implies !calls_for(
                    #[trigger] visits[q],
                    name,
                    list[j],
                ) by {
                    assert(visits[q] == before[q]);
                }
            }
        }
    }
}

/// The versions of a package come in the order in which following the requirements comes upon
/// them.
pub proof fn law_versions_in_order_of_visits(body: JsonView, name: Seq<char>)
    ensures
        lookup(audit_of(body).packages, name) matches Some(list) ==> forall|i: int, j: int|
            0 <= i < j < list.len() ==> called_for_first(
                all_visits(body),
                name,
                #[trigger] list[i],
                #[trigger] list[j],
            ),
{
    lemma_versions_in_order(empty_audit(dependency_count(body)), all_visits(body), name);
}

/// Whether one path to a version is found by a visit before any finds the other.
pub open spec fn found_first(
    visits: Seq<Visit>,
    name: Seq<char>,
    version: Seq<char>,
    path: Seq<char>,
    other: Seq<char>,
) -> bool {
    exists|p: int|
        0 <= p < visits.len() && finds(#[trigger] visits[p], name, version, path) && forall|q: int|
            0 <= q <= p ==> !finds(#[trigger] visits[q], name, version, other)
}

proof fn lemma_paths_in_order(
    audit: AuditView,
    visits: Seq<Visit>,
    name: Seq<char>,
    version: Seq<char>,
)
    requires
        audit.pkg_findings.len() == 0,
    ensures
        finding_of(noted_all(audit, visits), name, version) matches Some(finding) ==> forall|
            i: int,
            j: int,
        |
            0 <= i < j < finding.paths.len() ==> found_first(
                visits,
                name,
                version,
                #[trigger] finding.paths[i],
                #[trigger] finding.paths[j],
            ),
    decreases visits.len(),
{
    if visits.len() > 0 {
        let before = visits.drop_last();
        let earlier = noted_all(audit, before);
        lemma_paths_in_order(audit, before, name, version);
        match visits.last() {
            Visit::Found(found) => {
                lemma_with_finding(earlier.pkg_findings, found, name);
                let list = match lookup(earlier.pkg_findings, name) {
                    Some(list) => list,
                    None => Seq::empty(),
                };
                lemma_with_path(list, found, version);
            },
            _ => {},
        }
        if finding_of(noted_all(audit, visits), name, version) is Some {
            let paths = (finding_of(noted_all(audit, visits), name, version)->0).paths;
            assert forall|i: int, j: int| 0 <= i < j < paths.len() implies found_first(
                visits,
                name,
                version,
                #[trigger] paths[i],
                #[trigger] paths[j],
            ) by {
                let known = (finding_of(earlier, name, version)->0).paths;
                lemma_all_noted_paths(audit, before, name, version, paths[i]);
                lemma_all_noted_paths(audit, before, name, version, paths[j]);
                assert(known[i] == paths[i]);
                assert(known.contains(paths[i]));
                let p = if j < known.len() {
                    assert(known[j] == paths[j]);
                    assert(found_first(before, name, version, known[i], known[j]));
                    choose|p: int|
                        0 <= p < before.len() && finds(
                            #[trigger] before[p],
                            name,
                            version,
                            paths[i],
                        ) && forall|q: int|
                            0 <= q <= p ==> !finds(#[trigger] before[q], name, version, paths[j])
                } else {
                    assert(!says_path(earlier, name, version, paths[j]));
                    choose|p: int|
                        0 <= p < before.len() && finds(
                            #[trigger] before[p],
                            name,
                            version,
                            paths[i],
                        )
                };
                assert(finds(visits[p], name, version, paths[i]));
                assert forall|q: int| 0 <= q <= p implies !finds(
                    #[trigger] visits[q],
                    name,
                    version,
                    paths[j],
                ) by {
                    assert(visits[q] == before[q]);
                }
            }
        }
    }
}

/// The paths to a version come in the order in which following the requirements finds them.
pub proof fn law_paths_in_order_of_visits(body: JsonView, name: Seq<char>, version: Seq<char>)
    ensures
        finding_of(audit_of(body), name, version) matches Some(finding) ==> forall|
            i: int,
            j: int,
        |
            0 <= i < j < finding.paths.len() ==> found_first(
                all_visits(body),
                name,
                version,
                #[trigger] finding.paths[i],
                #[trigger] finding.paths[j],
            ),
{
    lemma_paths_in_order(
        empty_audit(dependency_count(body)),
        all_visits(body),
        name,
        version,
    );
}

} // verus!
