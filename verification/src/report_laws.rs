//! What holds of every report.
use crate::audit::{AuditView, FindingView};
use crate::codec::{canonical, law_canonical_keeps_fields};
use crate::json::JsonView;
use crate::report::{
    advisory_document, advisory_id, begun, findings_for, items_of, path_documents, report_document,
    resolve_document, resolve_documents, severity_of, CountsView, ReportView,
};
use crate::table::{
    lemma_entered, lemma_lookup_push, lemma_slot, lemma_slot_is, lookup, slot, text_keys,
};
use crate::text::{decimal, law_decimal_tells_apart};
use vstd::prelude::*;

verus! {

/// The report after as many steps as there are answers, each answer being what the fetch before
/// the step gave.
pub open spec fn ran(report: ReportView, answers: Seq<Option<Seq<Seq<char>>>>) -> ReportView
    decreases answers.len(),
{
    if answers.len() == 0 {
        report
    } else {
        ran(report, answers.drop_last()).advanced(answers.last())
    }
}

/// Each step describes one advisory, and leaves the audit and the advisories as they are. With as
/// many steps as there are advisories the report is done.
pub proof fn law_one_advisory_a_step(
    report: ReportView,
    answers: Seq<Option<Seq<Seq<char>>>>,
)
    ensures
        ran(report, answers).next == report.next + answers.len(),
        ran(report, answers).items == report.items,
        ran(report, answers).audit == report.audit,
        ran(report, answers).done() <==> report.next + answers.len() >= report.items.len(),
    decreases answers.len(),
{
    if answers.len() > 0 {
        law_one_advisory_a_step(report, answers.drop_last());
    }
}

proof fn lemma_cache_kept(report: ReportView, fetched: Option<Seq<Seq<char>>>, name: Seq<char>)
    requires
        lookup(report.cache, name) is Some,
    ensures
        lookup(report.cache_with(fetched), name) == lookup(report.cache, name),
{
    match (report.wanted(), fetched) {
        (Some(wanted), Some(published)) => {
            lemma_slot(text_keys(report.cache), wanted);
            lemma_lookup_push(report.cache, wanted, published, name);
        },
        _ => {},
    }
}

/// What the registry said of a package stays known, and is not asked for again.
pub proof fn law_fetched_once(
    report: ReportView,
    answers: Seq<Option<Seq<Seq<char>>>>,
    name: Seq<char>,
)
    requires
        lookup(report.cache, name) is Some,
    ensures
        lookup(ran(report, answers).cache, name) == lookup(report.cache, name),
        ran(report, answers).wanted() != Some(name),
    decreases answers.len(),
{
    if answers.len() > 0 {
        law_fetched_once(report, answers.drop_last(), name);
        lemma_cache_kept(ran(report, answers.drop_last()), answers.last(), name);
    }
}

/// A fetch that succeeded is what the step goes by, and is known from then on. One that failed
/// leaves the package to be asked for again.
pub proof fn law_fetched_is_known(report: ReportView, fetched: Option<Seq<Seq<char>>>)
    requires
        report.wanted() is Some,
    ensures
        lookup(report.advanced(fetched).cache, report.wanted()->0) == fetched,
{
    let name = report.wanted()->0;
    lemma_slot(text_keys(report.cache), name);
    if fetched is Some {
        lemma_lookup_push(report.cache, name, fetched->0, name);
    }
}

/// How many of the advisories are of the severity.
pub open spec fn tally(items: Seq<(Seq<char>, JsonView)>, severity: Seq<char>) -> nat
    decreases items.len(),
{
    if items.len() == 0 {
        0
    } else {
        tally(items.drop_last(), severity) + if severity_of(items.last().1) == severity {
            1nat
        } else {
            0nat
        }
    }
}

/// Each count is the number of advisories of that severity that are described.
pub proof fn law_counts_are_tallies(
    audit: AuditView,
    bulk: JsonView,
    answers: Seq<Option<Seq<Seq<char>>>>,
)
    requires
        answers.len() <= items_of(bulk).len(),
    ensures
        ({
            let described = items_of(bulk).take(answers.len() as int);
            ran(begun(audit, bulk), answers).counts == CountsView {
                info: tally(described, "info"@),
                low: tally(described, "low"@),
                moderate: tally(described, "moderate"@),
                high: tally(described, "high"@),
                critical: tally(described, "critical"@),
            }
        }),
    decreases answers.len(),
{
    let items = items_of(bulk);
    let described = items.take(answers.len() as int);
    if answers.len() > 0 {
        law_counts_are_tallies(audit, bulk, answers.drop_last());
        law_one_advisory_a_step(begun(audit, bulk), answers.drop_last());
        assert(described.drop_last() =~= items.take(answers.len() - 1));
        assert(described.last() == items[answers.len() - 1]);
        reveal_strlit("info");
        reveal_strlit("low");
        reveal_strlit("moderate");
        reveal_strlit("high");
        reveal_strlit("critical");
        assert("info"@[0] != "high"@[0]);
        assert("moderate"@[0] != "critical"@[0]);
    }
}

/// The last of the described advisories with this number, where there is one: its position.
pub open spec fn last_with_id(items: Seq<(Seq<char>, JsonView)>, id: u64) -> Option<nat>
    decreases items.len(),
{
    if items.len() == 0 {
        None
    } else if advisory_id(items.last().1) == id {
        Some((items.len() - 1) as nat)
    } else {
        last_with_id(items.drop_last(), id)
    }
}

/// Under the number of an advisory the report has the description of the last advisory with that
/// number, and nothing where there is none. No number has two descriptions.
pub proof fn law_last_description_stands(
    audit: AuditView,
    bulk: JsonView,
    answers: Seq<Option<Seq<Seq<char>>>>,
    id: u64,
)
    requires
        answers.len() <= items_of(bulk).len(),
    ensures
        lookup(ran(begun(audit, bulk), answers).advisories, decimal(id as nat)) == (
        match last_with_id(items_of(bulk).take(answers.len() as int), id) {
            Some(i) => Some(
                ran(begun(audit, bulk), answers.take(i as int)).described(answers[i as int]),
            ),
            None => None,
        }),
        text_keys(ran(begun(audit, bulk), answers).advisories).no_duplicates(),
        last_with_id(items_of(bulk).take(answers.len() as int), id) matches Some(i) ==> i
            < answers.len(),
    decreases answers.len(),
{
    let items = items_of(bulk);
    let start = begun(audit, bulk);
    if answers.len() > 0 {
        let some = answers.drop_last();
        let n = some.len() as int;
        let before = ran(start, some);
        law_last_description_stands(audit, bulk, some, id);
        law_one_advisory_a_step(start, some);
        assert(items.take(n + 1).drop_last() =~= items.take(n));
        assert(items.take(n + 1).last() == items[n]);
        let number = advisory_id(items[n].1);
        lemma_entered(
            before.advisories,
            decimal(number as nat),
            before.described(answers.last()),
            decimal(id as nat),
        );
        if number != id {
            law_decimal_tells_apart(number as nat, id as nat);
        }
        assert(answers.take(n) =~= some);
        match last_with_id(items.take(n), id) {
            Some(i) => {
                assert(some.take(i as int) =~= answers.take(i as int));
            },
            None => {},
        }
    } else {
        assert(text_keys(start.advisories) =~= Seq::empty());
        assert(items.take(0) =~= Seq::empty());
    }
}

proof fn lemma_resolves_nonempty(id: u64, list: Seq<FindingView>)
    requires
        forall|j: int| 0 <= j < list.len() ==> (#[trigger] list[j]).well_formed(),
    ensures
        resolve_documents(id, list).len() > 0 <==> list.len() > 0,
{
    if list.len() > 0 {
        assert(list[list.len() - 1].well_formed());
    }
}

/// An advisory gets an action if and only if its package was found: one action, and no more.
pub proof fn law_action_iff_found(report: ReportView, fetched: Option<Seq<Seq<char>>>)
    requires
        report.audit.well_formed(),
        !report.done(),
    ensures
        report.action(fetched).len() == if lookup(
            report.audit.pkg_findings,
            report.items[report.next as int].0,
        ) is Some {
            1nat
        } else {
            0nat
        },
{
    let name = report.items[report.next as int].0;
    let findings = report.audit.pkg_findings;
    let list = findings_for(report.audit, name);
    let at = slot(text_keys(findings), name) as int;
    if at < findings.len() {
        assert(findings[at].1.len() > 0);
        assert forall|j: int| 0 <= j < list.len() implies (#[trigger] list[j]).well_formed() by {
            assert(findings[at].1[j].well_formed());
        }
    }
    lemma_resolves_nonempty(advisory_id(report.items[report.next as int].1), list);
}

/// How many of the advisories are for packages that were found.
pub open spec fn found_items(audit: AuditView, items: Seq<(Seq<char>, JsonView)>) -> nat
    decreases items.len(),
{
    if items.len() == 0 {
        0
    } else {
        found_items(audit, items.drop_last()) + if lookup(
            audit.pkg_findings,
            items.last().0,
        ) is Some {
            1nat
        } else {
            0nat
        }
    }
}

/// A report has as many actions as there are advisories for packages that were found.
pub proof fn law_one_action_for_each_found(
    audit: AuditView,
    bulk: JsonView,
    answers: Seq<Option<Seq<Seq<char>>>>,
)
    requires
        audit.well_formed(),
        answers.len() <= items_of(bulk).len(),
    ensures
        ran(begun(audit, bulk), answers).actions.len() == found_items(
            audit,
            items_of(bulk).take(answers.len() as int),
        ),
    decreases answers.len(),
{
    if answers.len() > 0 {
        let some = answers.drop_last();
        let described = items_of(bulk).take(answers.len() as int);
        law_one_action_for_each_found(audit, bulk, some);
        law_one_advisory_a_step(begun(audit, bulk), some);
        law_action_iff_found(ran(begun(audit, bulk), some), answers.last());
        assert(described.drop_last() =~= items_of(bulk).take(some.len() as int));
        assert(described.last() == items_of(bulk)[some.len() as int]);
    }
}

/// An action resolves every path of every finding of its package, and nothing else.
pub proof fn law_action_resolves_every_path(id: u64, list: Seq<FindingView>)
    ensures
        forall|j: int, p: int|
            0 <= j < list.len() && 0 <= p < list[j].paths.len() ==> resolve_documents(
                id,
                list,
            ).contains(#[trigger] resolve_document(id, list[j], list[j].paths[p])),
        forall|i: int|
            0 <= i < resolve_documents(id, list).len() ==> is_path_of(
                id,
                list,
                #[trigger] resolve_documents(id, list)[i],
            ),
    decreases list.len(),
{
    let all = resolve_documents(id, list);
    if list.len() > 0 {
        let some = list.drop_last();
        let earlier = resolve_documents(id, some);
        let last = path_documents(id, list.last());
        law_action_resolves_every_path(id, some);
        assert forall|j: int, p: int|
            0 <= j < list.len() && 0 <= p < list[j].paths.len() implies all.contains(
            #[trigger] resolve_document(id, list[j], list[j].paths[p]),
        ) by {
            let document = resolve_document(id, list[j], list[j].paths[p]);
            if j < some.len() {
                assert(some[j] == list[j]);
                assert(earlier.contains(resolve_document(id, some[j], some[j].paths[p])));
                let i = earlier.index_of(document);
                assert(all[i] == document);
            } else {
                assert(last[p] == document);
                assert(all[earlier.len() + p] == document);
            }
        }
        assert forall|i: int| 0 <= i < all.len() implies is_path_of(
            id,
            list,
            #[trigger] all[i],
        ) by {
            if i < earlier.len() {
                assert(all[i] == earlier[i]);
                let (j, p) = choose|j: int, p: int|
                    0 <= j < some.len() && 0 <= p < some[j].paths.len() && earlier[i]
                        == #[trigger] resolve_document(id, some[j], some[j].paths[p]);
                assert(all[i] == resolve_document(id, list[j], list[j].paths[p]));
            } else {
                let p = i - earlier.len();
                let j = list.len() - 1;
                assert(all[i] == resolve_document(id, list[j], list[j].paths[p]));
            }
        }
    }
}

/// Whether the document is one of a path of the findings.
pub open spec fn is_path_of(id: u64, list: Seq<FindingView>, document: JsonView) -> bool {
    exists|j: int, p: int|
        0 <= j < list.len() && 0 <= p < list[j].paths.len() && document
            == #[trigger] resolve_document(id, list[j], list[j].paths[p])
}

/// A report gives the same number of dependencies twice: the number in the audit.
pub proof fn law_totals_agree(report: ReportView)
    ensures
        report_document(report).field("metadata"@) matches Some(metadata) && {
            &&& metadata.field("dependencies"@) == Some(
                JsonView::Unsigned(report.audit.total_deps as u64),
            )
            &&& metadata.field("totalDependencies"@) == metadata.field("dependencies"@)
        },
{
    reveal_strlit("actions");
    reveal_strlit("advisories");
    reveal_strlit("muted");
    reveal_strlit("metadata");
    reveal_strlit("vulnerabilities");
    reveal_strlit("dependencies");
    reveal_strlit("devDependencies");
    reveal_strlit("optionalDependencies");
    reveal_strlit("totalDependencies");
    let fields = report_document(report)->Object_0;
    let names = text_keys(fields);
    assert(names[0].len() == 7 && names[1].len() == 10 && names[2].len() == 5);
    assert("metadata"@.len() == 8);
    lemma_slot_is(names, "metadata"@, 3);
    let metadata = fields[3].1->Object_0;
    let inner = text_keys(metadata);
    assert(inner[0].len() == 15 && inner[1].len() == 12 && inner[2].len() == 15);
    assert(inner[3].len() == 20 && inner[4].len() == 17);
    lemma_slot_is(inner, "dependencies"@, 1);
    lemma_slot_is(inner, "totalDependencies"@, 4);
}

/// No field of a described advisory has the key of another: all of them are written.
pub proof fn law_advisory_fields_are_distinct(
    name: Seq<char>,
    advisory: JsonView,
    findings: Seq<FindingView>,
    target: Option<Seq<char>>,
)
    ensures
        text_keys(
            advisory_document(name, advisory, findings, target)->Object_0,
        ).no_duplicates(),
{
    let names = text_keys(advisory_document(name, advisory, findings, target)->Object_0);
    reveal_strlit("findings");
    reveal_strlit("found_by");
    reveal_strlit("deleted");
    reveal_strlit("references");
    reveal_strlit("created");
    reveal_strlit("id");
    reveal_strlit("npm_advisory_id");
    reveal_strlit("overview");
    reveal_strlit("reported_by");
    reveal_strlit("title");
    reveal_strlit("metadata");
    reveal_strlit("cves");
    reveal_strlit("access");
    reveal_strlit("severity");
    reveal_strlit("module_name");
    reveal_strlit("vulnerable_versions");
    reveal_strlit("github_advisory_id");
    reveal_strlit("recommendation");
    reveal_strlit("patched_versions");
    reveal_strlit("updated");
    reveal_strlit("cvss");
    reveal_strlit("cwe");
    reveal_strlit("url");
    assert(names[0].len() == 8 && names[0][0] == 'f' && names[0][1] == 'i');
    assert(names[1].len() == 8 && names[1][0] == 'f' && names[1][1] == 'o');
    assert(names[2].len() == 7 && names[2][0] == 'd');
    assert(names[3].len() == 10 && names[3][0] == 'r');
    assert(names[4].len() == 7 && names[4][0] == 'c');
    assert(names[5].len() == 2 && names[5][0] == 'i');
    assert(names[6].len() == 15 && names[6][0] == 'n');
    assert(names[7].len() == 8 && names[7][0] == 'o');
    assert(names[8].len() == 11 && names[8][0] == 'r');
    assert(names[9].len() == 5 && names[9][0] == 't');
    assert(names[10].len() == 8 && names[10][0] == 'm');
    assert(names[11].len() == 4 && names[11][0] == 'c' && names[11][2] == 'e');
    assert(names[12].len() == 6 && names[12][0] == 'a');
    assert(names[13].len() == 8 && names[13][0] == 's');
    assert(names[14].len() == 11 && names[14][0] == 'm');
    assert(names[15].len() == 19 && names[15][0] == 'v');
    assert(names[16].len() == 18 && names[16][0] == 'g');
    assert(names[17].len() == 14 && names[17][0] == 'r');
    assert(names[18].len() == 16 && names[18][0] == 'p');
    assert(names[19].len() == 7 && names[19][0] == 'u');
    assert(names[20].len() == 4 && names[20][0] == 'c' && names[20][2] == 's');
    assert(names[21].len() == 3 && names[21][0] == 'c');
    assert(names[22].len() == 3 && names[22][0] == 'u');
    assert forall|i: int, j: int|
        0 <= i < names.len() && 0 <= j < names.len() && i != j implies names[i] != names[j] by {
    }
}

/// The report as it is written has, under the number of an advisory, the description of the last
/// advisory with that number, and nothing where there is none.
pub proof fn law_written_report_has_descriptions(
    audit: AuditView,
    bulk: JsonView,
    answers: Seq<Option<Seq<Seq<char>>>>,
    id: u64,
)
    requires
        answers.len() == items_of(bulk).len(),
    ensures
        canonical(
            report_document(ran(begun(audit, bulk), answers)),
        ).field("advisories"@) matches Some(table) && table.field(decimal(id as nat)) == (
        match last_with_id(items_of(bulk), id) {
            Some(i) => Some(
                canonical(
                    ran(begun(audit, bulk), answers.take(i as int)).described(answers[i as int]),
                ),
            ),
            None => None,
        }),
{
    let report = ran(begun(audit, bulk), answers);
    let fields = report_document(report)->Object_0;
    let names = text_keys(fields);
    reveal_strlit("actions");
    reveal_strlit("advisories");
    reveal_strlit("muted");
    reveal_strlit("metadata");
    assert(names[0].len() == 7 && names[1].len() == 10 && names[2].len() == 5);
    assert(names[3].len() == 8);
    lemma_slot_is(names, "advisories"@, 1);
    law_canonical_keeps_fields(fields, "advisories"@);
    law_last_description_stands(audit, bulk, answers, id);
    assert(items_of(bulk).take(answers.len() as int) =~= items_of(bulk));
    law_canonical_keeps_fields(report.advisories, decimal(id as nat));
}

} // verus!
