//! What a report says, field by field.
use crate::audit::{finding_views, AuditView, FindingInfo, FindingView};
use crate::json::{field_views, views, JsonView};
use crate::json_laws::lemma_field_at;
use crate::report::{
    advisory_id, begun, cache_views, fetched_versions, finding_document, findings_for, item_views,
    items_of, package_items, packages_items, path_documents, report_document, resolve_document,
    resolve_documents, target_of, Item, PackageMetadata, Report, ReportView,
};
use crate::report_laws::{
    law_action_iff_found, law_advisory_fields_are_distinct, law_counts_are_tallies, ran, tally,
};
use crate::table::{lemma_lookup_push, lemma_slot, lookup, text_keys};
use crate::text::{last_segment, law_occurs_iff_splits, splits, texts};
use crate::versions::{
    law_patch_whatever_the_order, law_patched_among_all_published,
    law_patched_wherever_it_stands, range_matches, range_of, spells, version_before, version_text,
    versions_are_ordered,
};
use vstd::prelude::*;

verus! {

/// The text under a key, or another where no text stands there.
pub open spec fn text_under(j: JsonView, key: Seq<char>, otherwise: Seq<char>) -> Seq<char> {
    match j.field(key) {
        Some(JsonView::Text(text)) => text,
        _ => otherwise,
    }
}

/// What the audit found of a package: nothing where the package is not among the findings.
pub open spec fn found_of(audit: AuditView, name: Seq<char>) -> Seq<FindingView> {
    match lookup(audit.pkg_findings, name) {
        Some(list) => list,
        None => Seq::empty(),
    }
}

/// The target of an advisory is the text of a version that is published, wherever in the list its
/// text stands, and that the advisory does not call vulnerable; every other such version comes
/// after it. There is none where the published versions are not known, where the range cannot be
/// read, or where it matches every published version.
pub proof fn law_target(advisory: JsonView, list: Seq<Seq<char>>)
    ensures
        target_of(advisory, None) is None,
        ({
            let range = range_of(text_under(advisory, "vulnerable_versions"@, ""@));
            let target = target_of(advisory, Some(list));
            &&& range is None ==> target is None
            &&& (forall|version: semver::Version| #[trigger]
                spells(list, version) ==> range_matches(range->0, version)) ==> target is None
            &&& target matches Some(text) ==> exists|version: semver::Version| #[trigger]
                spells(list, version) && version_text(version) == text && !range_matches(
                    range->0,
                    version,
                ) && forall|other: semver::Version| #[trigger]
                    spells(list, other) && !range_matches(range->0, other) ==> other == version
                        || version_before(version, other)
        }),
{
    law_patched_among_all_published(
        text_under(advisory, "vulnerable_versions"@, ""@),
        list,
    );
}

/// Versions being ordered, an advisory has a target as soon as some published version, wherever
/// in the list its text stands, is not vulnerable.
pub proof fn law_target_wherever_it_stands(
    advisory: JsonView,
    list: Seq<Seq<char>>,
    version: semver::Version,
)
    requires
        versions_are_ordered(),
        range_of(text_under(advisory, "vulnerable_versions"@, ""@)) is Some,
        spells(list, version),
        !range_matches(
            range_of(text_under(advisory, "vulnerable_versions"@, ""@))->0,
            version,
        ),
    ensures
        target_of(advisory, Some(list)) is Some,
{
    law_patched_wherever_it_stands(
        text_under(advisory, "vulnerable_versions"@, ""@),
        list,
        version,
    );
}

/// The target is the same for any two lists of published versions with the same texts.
pub proof fn law_target_whatever_the_order(
    advisory: JsonView,
    list: Seq<Seq<char>>,
    shuffled: Seq<Seq<char>>,
)
    requires
        forall|text: Seq<char>| list.contains(text) == shuffled.contains(text),
    ensures
        target_of(advisory, Some(list)) == target_of(advisory, Some(shuffled)),
{
    law_patch_whatever_the_order(
        advisory.text_or("vulnerable_versions"@, ""@),
        list,
        shuffled,
    );
}

/// A step goes by what is known of the advisory's package once the fetch before it is done.
pub proof fn law_step_target(report: ReportView, fetched: Option<Seq<Seq<char>>>)
    requires
        !report.done(),
    ensures
        report.target(fetched) == target_of(
            report.items[report.next as int].1,
            lookup(report.advanced(fetched).cache, report.items[report.next as int].0),
        ),
{
}

/// Whether the document tells of the finding: its version, and all of its paths in their order.
pub open spec fn tells_finding(document: JsonView, finding: FindingView) -> bool {
    &&& document matches JsonView::Object(fields) && fields.len() == 2
    &&& document.field("version"@) == Some(JsonView::Text(finding.version))
    &&& document.field("paths"@) matches Some(JsonView::Array(paths)) && paths.len()
        == finding.paths.len() && forall|p: int|
        0 <= p < paths.len() ==> #[trigger] paths[p] == JsonView::Text(finding.paths[p])
}

proof fn lemma_tells_finding(finding: FindingView)
    ensures
        tells_finding(finding_document(finding), finding),
{
    let fields = finding_document(finding)->Object_0;
    let names = text_keys(fields);
    reveal_strlit("version");
    reveal_strlit("paths");
    assert(names[0].len() == 7 && names[1].len() == 5);
    lemma_field_at(fields, 0);
    lemma_field_at(fields, 1);
}

/// A described advisory has a finding for every installed version of its package that was found,
/// as many as the audit has: each with its version and all of its paths.
pub proof fn law_description_has_every_finding(
    report: ReportView,
    fetched: Option<Seq<Seq<char>>>,
)
    requires
        !report.done(),
    ensures
        ({
            let found = found_of(report.audit, report.items[report.next as int].0);
            report.described(fetched).field("findings"@) matches Some(JsonView::Array(list))
                && list.len() == found.len() && forall|i: int|
                0 <= i < found.len() ==> tells_finding(#[trigger] list[i], found[i])
        }),
{
    let (name, advisory) = report.items[report.next as int];
    let found = found_of(report.audit, name);
    let fields = report.described(fetched)->Object_0;
    law_advisory_fields_are_distinct(
        name,
        advisory,
        findings_for(report.audit, name),
        report.target(fetched),
    );
    lemma_field_at(fields, 0);
    assert forall|i: int| 0 <= i < found.len() implies tells_finding(
        #[trigger] fields[0].1->Array_0[i],
        found[i],
    ) by {
        lemma_tells_finding(found[i]);
    }
}

/// A described advisory is about its package, and has the number, the severity, the range, the
/// address, the title, the CVEs, the score and the weaknesses of the advisory, or what stands for
/// them where the advisory does not say.
pub proof fn law_description_copies_advisory(report: ReportView, fetched: Option<Seq<Seq<char>>>)
    requires
        !report.done(),
    ensures
        ({
            let (name, advisory) = report.items[report.next as int];
            let described = report.described(fetched);
            &&& described.field("module_name"@) == Some(JsonView::Text(name))
            &&& described.field("id"@) == Some(
                match advisory.field("id"@) {
                    Some(JsonView::Unsigned(id)) => JsonView::Unsigned(id),
                    _ => JsonView::Unsigned(0),
                },
            )
            &&& described.field("severity"@) == Some(
                JsonView::Text(text_under(advisory, "severity"@, "info"@)),
            )
            &&& described.field("vulnerable_versions"@) == Some(
                JsonView::Text(text_under(advisory, "vulnerable_versions"@, ""@)),
            )
            &&& described.field("url"@) == Some(
                JsonView::Text(text_under(advisory, "url"@, ""@)),
            )
            &&& described.field("title"@) == (match advisory.field("title"@) {
                Some(title) => Some(title),
                None => Some(JsonView::Null),
            })
            &&& described.field("cves"@) == (match advisory.field("cves"@) {
                Some(cves) => Some(cves),
                None => Some(JsonView::Array(Seq::empty())),
            })
            &&& described.field("cvss"@) == (match advisory.field("cvss"@) {
                Some(cvss) => Some(cvss),
                None => Some(JsonView::Null),
            })
            &&& described.field("cwe"@) == (match advisory.field("cwe"@) {
                Some(cwe) => Some(cwe),
                None => Some(JsonView::Null),
            })
        }),
{
    lemma_description_fields(report, fetched);
}

/// A described advisory recommends the target where there is one, and calls all versions from it
/// on patched. Where there is none, it recommends some patched version, and says of patched
/// versions what the advisory says.
pub proof fn law_description_gives_advice(report: ReportView, fetched: Option<Seq<Seq<char>>>)
    requires
        !report.done(),
    ensures
        ({
            let (name, advisory) = report.items[report.next as int];
            let described = report.described(fetched);
            match report.target(fetched) {
                Some(target) => {
                    &&& described.field("patched_versions"@) == Some(
                        JsonView::Text(">="@ + target),
                    )
                    &&& described.field("recommendation"@) == Some(
                        JsonView::Text(
                            if target.len() > 0 {
                                "Upgrade "@ + name + " to version "@ + target + " or later"@
                            } else {
                                "Upgrade "@ + name + " to a patched version"@
                            },
                        ),
                    )
                },
                None => {
                    &&& described.field("patched_versions"@) == Some(
                        JsonView::Text(text_under(advisory, "patched_versions"@, ""@)),
                    )
                    &&& described.field("recommendation"@) == Some(
                        JsonView::Text("Upgrade "@ + name + " to a patched version"@),
                    )
                },
            }
        }),
{
    lemma_description_fields(report, fetched);
    reveal_strlit("");
}

/// A described advisory has the GitHub number of an address with "/GHSA-" somewhere in it: what
/// stands behind the last slash. Of any other address it has none.
pub proof fn law_description_has_github_number(
    report: ReportView,
    fetched: Option<Seq<Seq<char>>>,
)
    requires
        !report.done(),
    ensures
        ({
            let url = text_under(report.items[report.next as int].1, "url"@, ""@);
            report.described(fetched).field("github_advisory_id"@) == Some(
                JsonView::Text(
                    if exists|before: Seq<char>, behind: Seq<char>| #[trigger]
                        splits(url, before, "/GHSA-"@, behind) {
                        last_segment(url)
                    } else {
                        ""@
                    },
                ),
            )
        }),
{
    lemma_description_fields(report, fetched);
    law_occurs_iff_splits(
        "/GHSA-"@,
        text_under(report.items[report.next as int].1, "url"@, ""@),
    );
}

/// The rest of a described advisory is the same for every advisory.
pub proof fn law_description_has_blanks(report: ReportView, fetched: Option<Seq<Seq<char>>>)
    requires
        !report.done(),
    ensures
        ({
            let described = report.described(fetched);
            &&& described.field("access"@) == Some(JsonView::Text("public"@))
            &&& described.field("found_by"@) == Some(JsonView::Null)
            &&& described.field("deleted"@) == Some(JsonView::Null)
            &&& described.field("npm_advisory_id"@) == Some(JsonView::Null)
            &&& described.field("reported_by"@) == Some(JsonView::Null)
            &&& described.field("metadata"@) == Some(JsonView::Null)
            &&& described.field("references"@) == Some(JsonView::Text(""@))
            &&& described.field("created"@) == Some(JsonView::Text(""@))
            &&& described.field("overview"@) == Some(JsonView::Text(""@))
            &&& described.field("updated"@) == Some(JsonView::Text(""@))
            &&& described matches JsonView::Object(fields) && fields.len() == 23
        }),
{
    lemma_description_fields(report, fetched);
}

proof fn lemma_description_fields(report: ReportView, fetched: Option<Seq<Seq<char>>>)
    requires
        !report.done(),
    ensures
        forall|i: int|
            0 <= i < report.described(fetched)->Object_0.len() ==> report.described(fetched).field(
                (#[trigger] report.described(fetched)->Object_0[i]).0,
            ) == Some(report.described(fetched)->Object_0[i].1),
{
    let (name, advisory) = report.items[report.next as int];
    let fields = report.described(fetched)->Object_0;
    law_advisory_fields_are_distinct(
        name,
        advisory,
        findings_for(report.audit, name),
        report.target(fetched),
    );
    assert forall|i: int| 0 <= i < fields.len() implies report.described(fetched).field(
        (#[trigger] fields[i]).0,
    ) == Some(fields[i].1) by {
        lemma_field_at(fields, i);
    }
}

/// Whether the document says that the advisory with this number is resolved on this path of the
/// finding.
pub open spec fn tells_resolved(
    document: JsonView,
    id: u64,
    finding: FindingView,
    path: Seq<char>,
) -> bool {
    &&& document matches JsonView::Object(fields) && fields.len() == 5
    &&& document.field("id"@) == Some(JsonView::Unsigned(id))
    &&& document.field("path"@) == Some(JsonView::Text(path))
    &&& document.field("dev"@) == Some(JsonView::Bool(finding.dev))
    &&& document.field("optional"@) == Some(JsonView::Bool(finding.optional))
    &&& document.field("bundled"@) == Some(JsonView::Bool(finding.bundled))
}

proof fn lemma_tells_resolved(id: u64, finding: FindingView, path: Seq<char>)
    ensures
        tells_resolved(resolve_document(id, finding, path), id, finding, path),
{
    let fields = resolve_document(id, finding, path)->Object_0;
    let names = text_keys(fields);
    reveal_strlit("id");
    reveal_strlit("path");
    reveal_strlit("dev");
    reveal_strlit("optional");
    reveal_strlit("bundled");
    assert(names[0].len() == 2 && names[1].len() == 4 && names[2].len() == 3);
    assert(names[3].len() == 8 && names[4].len() == 7);
    lemma_field_at(fields, 0);
    lemma_field_at(fields, 1);
    lemma_field_at(fields, 2);
    lemma_field_at(fields, 3);
    lemma_field_at(fields, 4);
}

/// What an action resolves: nothing where nothing was found, and with one more finding all of its
/// paths more, in their order, behind the rest.
pub proof fn law_one_more_finding_resolved(id: u64, list: Seq<FindingView>, finding: FindingView)
    ensures
        resolve_documents(id, Seq::empty()).len() == 0,
        ({
            let before = resolve_documents(id, list);
            let after = resolve_documents(id, list.push(finding));
            &&& after.len() == before.len() + finding.paths.len()
            &&& forall|i: int| 0 <= i < before.len() ==> #[trigger] after[i] == before[i]
            &&& forall|p: int|
                0 <= p < finding.paths.len() ==> tells_resolved(
                    after[before.len() + p],
                    id,
                    finding,
                    #[trigger] finding.paths[p],
                )
        }),
{
    let before = resolve_documents(id, list);
    let more = list.push(finding);
    let after = resolve_documents(id, more);
    assert(more.drop_last() =~= list);
    assert(after == before + path_documents(id, finding));
    assert forall|p: int| 0 <= p < finding.paths.len() implies tells_resolved(
        after[before.len() + p],
        id,
        finding,
        #[trigger] finding.paths[p],
    ) by {
        assert(after[before.len() + p] == resolve_document(id, finding, finding.paths[p]));
        lemma_tells_resolved(id, finding, finding.paths[p]);
    }
}

/// A step adds one action behind the others where the advisory's package was found, and none
/// otherwise. The action is an update of the package to the target, or to nothing in particular,
/// at the least depth of the package, and resolves the advisory on all paths that were found.
pub proof fn law_step_adds_action(report: ReportView, fetched: Option<Seq<Seq<char>>>)
    requires
        report.audit.well_formed(),
        !report.done(),
    ensures
        ({
            let (name, advisory) = report.items[report.next as int];
            let before = report.actions;
            let after = report.advanced(fetched).actions;
            match lookup(report.audit.pkg_findings, name) {
                None => after == before,
                Some(found) => {
                    &&& after.len() == before.len() + 1
                    &&& forall|i: int| 0 <= i < before.len() ==> #[trigger] after[i] == before[i]
                    &&& after.last() matches JsonView::Object(fields) && fields.len() == 5
                    &&& after.last().field("action"@) == Some(JsonView::Text("update"@))
                    &&& after.last().field("module"@) == Some(JsonView::Text(name))
                    &&& after.last().field("target"@) == Some(
                        JsonView::Text(
                            match report.target(fetched) {
                                Some(target) => target,
                                None => ""@,
                            },
                        ),
                    )
                    &&& after.last().field("depth"@) == Some(
                        JsonView::Unsigned(
                            match lookup(report.audit.pkg_min_depth, name) {
                                Some(depth) => depth as u64,
                                None => 1,
                            },
                        ),
                    )
                    &&& after.last().field("resolves"@) == Some(
                        JsonView::Array(
                            resolve_documents(
                                match advisory.field("id"@) {
                                    Some(JsonView::Unsigned(id)) => id,
                                    _ => 0,
                                },
                                found,
                            ),
                        ),
                    )
                },
            }
        }),
{
    let (name, advisory) = report.items[report.next as int];
    law_action_iff_found(report, fetched);
    let added = report.action(fetched);
    let after = report.advanced(fetched).actions;
    if lookup(report.audit.pkg_findings, name) is Some {
        assert(after.last() == added[0]);
        let fields = added[0]->Object_0;
        let names = text_keys(fields);
        reveal_strlit("action");
        reveal_strlit("resolves");
        reveal_strlit("module");
        reveal_strlit("target");
        reveal_strlit("depth");
        assert(names[0].len() == 6 && names[0][0] == 'a');
        assert(names[1].len() == 8);
        assert(names[2].len() == 6 && names[2][0] == 'm');
        assert(names[3].len() == 6 && names[3][0] == 't');
        assert(names[4].len() == 5);
        lemma_field_at(fields, 0);
        lemma_field_at(fields, 1);
        lemma_field_at(fields, 2);
        lemma_field_at(fields, 3);
        lemma_field_at(fields, 4);
    } else {
        assert(after =~= report.actions);
    }
}

/// The advisories in the registry's answer: each package with a list of advisories adds all of
/// them behind the rest, in their order, and a package without a list adds none. An answer that is
/// not an object has none.
pub proof fn law_one_more_package(
    packages: Seq<(Seq<char>, JsonView)>,
    name: Seq<char>,
    advisories: JsonView,
)
    ensures
        items_of(JsonView::Object(Seq::empty())).len() == 0,
        !(advisories is Object) ==> items_of(advisories).len() == 0,
        ({
            let before = items_of(JsonView::Object(packages));
            let after = items_of(JsonView::Object(packages.push((name, advisories))));
            match advisories {
                JsonView::Array(list) => {
                    &&& after.len() == before.len() + list.len()
                    &&& forall|i: int| 0 <= i < before.len() ==> #[trigger] after[i] == before[i]
                    &&& forall|i: int|
                        0 <= i < list.len() ==> after[before.len() + i] == (
                            name,
                            #[trigger] list[i],
                        )
                },
                _ => after == before,
            }
        }),
{
    let more = packages.push((name, advisories));
    assert(more.drop_last() =~= packages);
    assert(packages_items(more) == packages_items(packages) + package_items(name, advisories));
    match advisories {
        JsonView::Array(_) => {},
        _ => {
            assert(packages_items(more) =~= packages_items(packages));
        },
    }
}

/// A report begins with the audit, all of the advisories in the registry's answer, and nothing
/// else.
pub proof fn law_report_begins_with_nothing(audit: AuditView, bulk: JsonView)
    ensures
        begun(audit, bulk).audit == audit,
        begun(audit, bulk).items == items_of(bulk),
        begun(audit, bulk).next == 0,
        begun(audit, bulk).cache.len() == 0,
        begun(audit, bulk).advisories.len() == 0,
        begun(audit, bulk).actions.len() == 0,
        begun(audit, bulk).counts.total() == 0,
{
}

/// Before an advisory is described, the versions of its package are asked for exactly where they
/// are not known. Nothing is asked for once all advisories are described.
pub proof fn law_wanted_iff_not_known(report: ReportView)
    ensures
        report.done() <==> report.next >= report.items.len(),
        report.done() ==> report.wanted() is None,
        !report.done() ==> report.wanted() == (match lookup(
            report.cache,
            report.items[report.next as int].0,
        ) {
            Some(_) => None,
            None => Some(report.items[report.next as int].0),
        }),
{
}

/// A step learns of no other package than the one that was asked for.
pub proof fn law_others_stay_as_known(
    report: ReportView,
    fetched: Option<Seq<Seq<char>>>,
    other: Seq<char>,
)
    requires
        report.wanted() != Some(other),
    ensures
        lookup(report.advanced(fetched).cache, other) == lookup(report.cache, other),
{
    match (report.wanted(), fetched) {
        (Some(name), Some(published)) => {
            lemma_slot(text_keys(report.cache), name);
            lemma_lookup_push(report.cache, name, published, other);
        },
        _ => {},
    }
}

/// Whether an advisory is of the severity: it says so, or it says none and the severity is "info".
pub open spec fn is_of_severity(advisory: JsonView, severity: Seq<char>) -> bool {
    match advisory.field("severity"@) {
        Some(JsonView::Text(text)) => text == severity,
        _ => severity == "info"@,
    }
}

/// The positions of the advisories that are of the severity.
pub open spec fn of_severity(items: Seq<(Seq<char>, JsonView)>, severity: Seq<char>) -> Set<int> {
    Set::new(|i: int| 0 <= i < items.len() && is_of_severity(items[i].1, severity))
}

proof fn lemma_tally_counts(items: Seq<(Seq<char>, JsonView)>, severity: Seq<char>)
    ensures
        of_severity(items, severity).finite(),
        tally(items, severity) == of_severity(items, severity).len(),
    decreases items.len(),
{
    let all = of_severity(items, severity);
    if items.len() == 0 {
        assert(all =~= Set::empty());
    } else {
        let before = items.drop_last();
        let n = items.len() - 1;
        lemma_tally_counts(before, severity);
        if is_of_severity(items[n].1, severity) {
            assert(all =~= of_severity(before, severity).insert(n));
        } else {
            assert(all =~= of_severity(before, severity));
        }
    }
}

/// In a finished report the number under each of the five severities is the number of advisories
/// in the registry's answer that are of it.
pub proof fn law_vulnerabilities_by_severity(
    audit: AuditView,
    bulk: JsonView,
    answers: Seq<Option<Seq<Seq<char>>>>,
)
    requires
        answers.len() == items_of(bulk).len(),
    ensures
        report_document(ran(begun(audit, bulk), answers)).field("metadata"@) matches Some(metadata)
            && metadata.field("vulnerabilities"@) matches Some(counts) && {
            &&& counts matches JsonView::Object(fields) && fields.len() == 5
            &&& counts.field("info"@) == Some(
                JsonView::Unsigned(of_severity(items_of(bulk), "info"@).len() as u64),
            )
            &&& counts.field("low"@) == Some(
                JsonView::Unsigned(of_severity(items_of(bulk), "low"@).len() as u64),
            )
            &&& counts.field("moderate"@) == Some(
                JsonView::Unsigned(of_severity(items_of(bulk), "moderate"@).len() as u64),
            )
            &&& counts.field("high"@) == Some(
                JsonView::Unsigned(of_severity(items_of(bulk), "high"@).len() as u64),
            )
            &&& counts.field("critical"@) == Some(
                JsonView::Unsigned(of_severity(items_of(bulk), "critical"@).len() as u64),
            )
        },
{
    let items = items_of(bulk);
    let report = ran(begun(audit, bulk), answers);
    law_counts_are_tallies(audit, bulk, answers);
    assert(items.take(answers.len() as int) =~= items);
    lemma_tally_counts(items, "info"@);
    lemma_tally_counts(items, "low"@);
    lemma_tally_counts(items, "moderate"@);
    lemma_tally_counts(items, "high"@);
    lemma_tally_counts(items, "critical"@);
    law_report_fields(report);
    let metadata = report_document(report)->Object_0[3].1->Object_0;
    let counts = metadata[0].1->Object_0;
    let names = text_keys(counts);
    reveal_strlit("info");
    reveal_strlit("low");
    reveal_strlit("moderate");
    reveal_strlit("high");
    reveal_strlit("critical");
    assert(names[0].len() == 4 && names[0][0] == 'i');
    assert(names[1].len() == 3);
    assert(names[2].len() == 8 && names[2][0] == 'm');
    assert(names[3].len() == 4 && names[3][0] == 'h');
    assert(names[4].len() == 8 && names[4][0] == 'c');
    lemma_field_at(counts, 0);
    lemma_field_at(counts, 1);
    lemma_field_at(counts, 2);
    lemma_field_at(counts, 3);
    lemma_field_at(counts, 4);
}

/// A report has the actions, the advisories by their number, nothing muted, and the number of
/// dependencies of the audit, of which none is told apart as for development or optional.
pub proof fn law_report_fields(report: ReportView)
    ensures
        ({
            let document = report_document(report);
            &&& document matches JsonView::Object(fields) && fields.len() == 4
            &&& document.field("actions"@) == Some(JsonView::Array(report.actions))
            &&& document.field("advisories"@) == Some(JsonView::Object(report.advisories))
            &&& document.field("muted"@) == Some(JsonView::Array(Seq::empty()))
            &&& document.field("metadata"@) matches Some(metadata) && {
                &&& metadata.field("dependencies"@) == Some(
                    JsonView::Unsigned(report.audit.total_deps as u64),
                )
                &&& metadata.field("devDependencies"@) == Some(JsonView::Unsigned(0))
                &&& metadata.field("optionalDependencies"@) == Some(JsonView::Unsigned(0))
                &&& metadata.field("totalDependencies"@) == Some(
                    JsonView::Unsigned(report.audit.total_deps as u64),
                )
                &&& metadata == report_document(report)->Object_0[3].1
                &&& metadata.field("vulnerabilities"@) == Some(metadata->Object_0[0].1)
                &&& metadata matches JsonView::Object(inner) && inner.len() == 5
            }
        }),
{
    reveal_strlit("actions");
    reveal_strlit("advisories");
    reveal_strlit("muted");
    reveal_strlit("metadata");
    reveal_strlit("vulnerabilities");
    reveal_strlit("dependencies");
    reveal_strlit("devDependencies");
    reveal_strlit("optionalDependencies");
    reveal_strlit("totalDependencies");
    let fields = report_document(report)->Object_0;
    let names = text_keys(fields);
    assert(names[0].len() == 7 && names[1].len() == 10);
    assert(names[2].len() == 5 && names[3].len() == 8);
    lemma_field_at(fields, 0);
    lemma_field_at(fields, 1);
    lemma_field_at(fields, 2);
    lemma_field_at(fields, 3);
    let metadata = fields[3].1->Object_0;
    let inner = text_keys(metadata);
    assert(inner[0].len() == 15 && inner[0][0] == 'v');
    assert(inner[1].len() == 12);
    assert(inner[2].len() == 15 && inner[2][0] == 'd');
    assert(inner[3].len() == 20 && inner[4].len() == 17);
    lemma_field_at(metadata, 0);
    lemma_field_at(metadata, 1);
    lemma_field_at(metadata, 2);
    lemma_field_at(metadata, 3);
    lemma_field_at(metadata, 4);
}

/// The number of an advisory is the unsigned integer under "id", and zero where there is none.
pub proof fn law_advisory_number(advisory: JsonView)
    ensures
        advisory_id(advisory) == (match advisory.field("id"@) {
            Some(JsonView::Unsigned(id)) => id,
            _ => 0u64,
        }),
{
}

/// What is fetched and kept of a package is all of its published versions, in their order.
pub proof fn law_all_versions_are_kept(
    metadata: PackageMetadata,
    cache: Seq<(String, PackageMetadata)>,
)
    ensures
        fetched_versions(None) is None,
        fetched_versions(Some(metadata)) == Some(texts(metadata.versions@)),
        cache_views(cache).len() == cache.len(),
        forall|i: int|
            0 <= i < cache.len() ==> #[trigger] cache_views(cache)[i] == (
                cache[i].0@,
                texts(cache[i].1.versions@),
            ),
{
}

/// The advisories and the findings of a list say what each of them says, in their order.
pub proof fn law_items_and_findings(items: Seq<Item>, findings: Seq<FindingInfo>)
    ensures
        item_views(items).len() == items.len(),
        forall|i: int|
            0 <= i < items.len() ==> #[trigger] item_views(items)[i] == (
                items[i].name@,
                items[i].advisory@,
            ),
        finding_views(findings).len() == findings.len(),
        forall|i: int|
            0 <= i < findings.len() ==> #[trigger] finding_views(findings)[i] == findings[i]@,
{
}

/// A report says what it holds.
pub proof fn law_report(report: Report)
    ensures
        report@.audit == report.audit@,
        report@.items == item_views(report.items@),
        report@.next == report.next,
        report@.cache == cache_views(report.cache@),
        report@.advisories == field_views(report.advisories@),
        report@.actions == views(report.actions@),
        report@.counts.info == report.counts.info,
        report@.counts.low == report.counts.low,
        report@.counts.moderate == report.counts.moderate,
        report@.counts.high == report.counts.high,
        report@.counts.critical == report.counts.critical,
{
}

} // verus!
