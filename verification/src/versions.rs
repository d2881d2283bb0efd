//! Semantic versions and ranges of them, through `semver`.
use crate::text::texts;
use vstd::prelude::*;

verus! {

/// A version, as `semver` keeps it.
#[verifier::external_type_specification]
#[verifier::external_body]
pub struct ExVersion(semver::Version);

/// A range of versions, as `semver` keeps it.
#[verifier::external_type_specification]
#[verifier::external_body]
pub struct ExVersionReq(semver::VersionReq);

/// An error of `semver`.
#[verifier::external_type_specification]
#[verifier::external_body]
pub struct ExSemverError(semver::Error);

/// The version that `semver::Version::parse` reads from a text, where it accepts the text.
pub uninterp spec fn version_of(text: Seq<char>) -> Option<semver::Version>;

/// The range that `semver::VersionReq::parse` reads from a text, where it accepts the text.
pub uninterp spec fn range_of(text: Seq<char>) -> Option<semver::VersionReq>;

/// Whether `semver::VersionReq::matches` holds of a range and a version.
pub uninterp spec fn range_matches(range: semver::VersionReq, version: semver::Version) -> bool;

/// Whether the `Ord` of `semver::Version` puts `a` before `b`.
pub uninterp spec fn version_before(a: semver::Version, b: semver::Version) -> bool;

/// The text that the `Display` of `semver::Version` writes.
pub uninterp spec fn version_text(version: semver::Version) -> Seq<char>;

/// `semver::Version::parse`: what it reads, and whether it accepts, depends on the text alone.
pub assume_specification[ semver::Version::parse ](text: &str) -> (read: Result<
    semver::Version,
    semver::Error,
>)
    ensures
        match read {
            Ok(version) => version_of(text@) == Some(version),
            Err(_) => version_of(text@) is None,
        },
;

/// `semver::VersionReq::parse`: what it reads, and whether it accepts, depends on the text alone.
pub assume_specification[ semver::VersionReq::parse ](text: &str) -> (read: Result<
    semver::VersionReq,
    semver::Error,
>)
    ensures
        match read {
            Ok(range) => range_of(text@) == Some(range),
            Err(_) => range_of(text@) is None,
        },
;

/// `semver::VersionReq::matches` depends on the range and the version alone.
pub assume_specification[ semver::VersionReq::matches ](
    range: &semver::VersionReq,
    version: &semver::Version,
) -> (matched: bool)
    ensures
        matched == range_matches(*range, *version),
;

/// The `Display` of `semver::Version` depends on the version alone.
#[verifier::external_body]
fn write_version(version: &semver::Version) -> (text: String)
    ensures
        text@ == version_text(*version),
{
    version.to_string()
}

/// The standard `sort` on versions: the same versions, put in the order of their `Ord`. Of two
/// versions that differ, that order puts one before the other, and not the other way round.
#[verifier::external_body]
fn sort_versions(versions: &mut Vec<semver::Version>)
    ensures
        final(versions)@.to_multiset() == old(versions)@.to_multiset(),
        forall|i: int, j: int|
            0 <= i < j < final(versions)@.len() ==> #[trigger] final(versions)@[i]
                == #[trigger] final(versions)@[j] || (version_before(
                final(versions)@[i],
                final(versions)@[j],
            ) && !version_before(final(versions)@[j], final(versions)@[i])),
{
    versions.sort();
}

/// Whether `version` is one of `versions` that `range` does not match, and comes before every
/// other such one.
pub open spec fn is_first_outside(
    range: semver::VersionReq,
    versions: Set<semver::Version>,
    version: semver::Version,
) -> bool {
    &&& versions.contains(version)
    &&& !range_matches(range, version)
    &&& forall|other: semver::Version| #[trigger]
        versions.contains(other) && !range_matches(range, other) ==> other == version
            || version_before(version, other)
}

/// The first of `versions`, in their order, that `range` does not match, where there is one.
pub open spec fn first_outside(
    range: semver::VersionReq,
    versions: Set<semver::Version>,
) -> Option<semver::Version> {
    if exists|version: semver::Version| is_first_outside(range, versions, version) {
        Some(choose|version: semver::Version| is_first_outside(range, versions, version))
    } else {
        None
    }
}

/// Whether the range matches all of the versions.
pub open spec fn all_match(range: semver::VersionReq, versions: Seq<semver::Version>) -> bool {
    forall|i: int| 0 <= i < versions.len() ==> range_matches(range, #[trigger] versions[i])
}

/// The versions that the texts of a list spell. A text that spells none is passed over.
pub open spec fn versions_of(list: Seq<Seq<char>>) -> Seq<semver::Version>
    decreases list.len(),
{
    if list.len() == 0 {
        Seq::empty()
    } else {
        match version_of(list.last()) {
            Some(version) => versions_of(list.drop_last()).push(version),
            None => versions_of(list.drop_last()),
        }
    }
}

/// The text of the first version, among those that `published` spells, that the range spelled
/// by `vulnerable` does not match. There is none where `vulnerable` spells no range.
pub open spec fn first_patched(vulnerable: Seq<char>, published: Seq<Seq<char>>) -> Option<
    Seq<char>,
> {
    match range_of(vulnerable) {
        Some(range) => match first_outside(range, versions_of(published).to_set()) {
            Some(version) => Some(version_text(version)),
            None => None,
        },
        None => None,
    }
}

/// The versions that the texts of a list spell.
pub fn parse_versions(list: &Vec<String>) -> (versions: Vec<semver::Version>)
    ensures
        versions@ == versions_of(texts(list@)),
{
    let mut versions: Vec<semver::Version> = Vec::new();
    let mut i: usize = 0;
    assert(texts(list@).take(0) =~= Seq::empty());
    while i < list.len()
        invariant
            i <= list@.len(),
            versions@ == versions_of(texts(list@).take(i as int)),
        decreases list@.len() - i,
    {
        assert(texts(list@).take(i + 1).drop_last() =~= texts(list@).take(i as int));
        match semver::Version::parse(list[i].as_str()) {
            Ok(version) => versions.push(version),
            Err(_) => {},
        }
        i += 1;
    }
    assert(texts(list@).take(i as int) =~= texts(list@));
    versions
}

/// The first of `versions`, in their order, that `range` does not match.
pub fn find_first_outside(
    range: &semver::VersionReq,
    versions: Vec<semver::Version>,
) -> (found: Option<semver::Version>)
    ensures
        found == first_outside(*range, versions@.to_set()),
        found is None <==> all_match(*range, versions@),
{
    let ghost given = versions@.to_set();
    let mut sorted: Vec<semver::Version> = versions;
    sort_versions(&mut sorted);
    let ghost order = sorted@;
    proof {
        assert forall|v: semver::Version| given.contains(v) == order.contains(v) by {
            versions@.to_multiset_ensures();
            order.to_multiset_ensures();
            assert(versions@.to_multiset().count(v) == order.to_multiset().count(v));
        }
    }
    for version in it: sorted
        invariant
            it.seq() == order,
            given == versions@.to_set(),
            forall|k: int| 0 <= k < it.index() ==> range_matches(*range, #[trigger] order[k]),
            forall|v: semver::Version| given.contains(v) == order.contains(v),
            forall|i: int, j: int|
                0 <= i < j < order.len() ==> #[trigger] order[i] == #[trigger] order[j] || (
                version_before(order[i], order[j]) && !version_before(order[j], order[i])),
    {
        if !range.matches(&version) {
            proof {
                let at = it.index() as int;
                assert(order[at] == version);
                assert(given.contains(version));
                assert(versions@[versions@.index_of(version)] == version);
                assert forall|other: semver::Version| #[trigger]
                    given.contains(other) && !range_matches(*range, other) implies other == version
                    || version_before(version, other) by {
                    let k = choose|k: int| 0 <= k < order.len() && order[k] == other;
                    assert(order.contains(other));
                }
                assert(is_first_outside(*range, given, version));
                let chosen = choose|v: semver::Version| is_first_outside(*range, given, v);
                assert(given.contains(chosen));
                let k = choose|k: int| 0 <= k < order.len() && order[k] == chosen;
                assert(chosen == version) by {
                    if chosen != version {
                        assert(version_before(chosen, version));
                        assert(version_before(version, chosen));
                        if k < at {
                            assert(order[k] == order[at] || !version_before(order[at], order[k]));
                        } else {
                            assert(order[at] == order[k] || !version_before(order[k], order[at]));
                        }
                    }
                }
            }
            return Some(version);
        }
    }
    proof {
        assert forall|v: semver::Version| !is_first_outside(*range, given, v) by {
            if given.contains(v) {
                assert(order.contains(v));
            }
        }
        assert forall|i: int| 0 <= i < versions@.len() implies range_matches(
            *range,
            #[trigger] versions@[i],
        ) by {
            assert(given.contains(versions@[i]));
            assert(order.contains(versions@[i]));
        }
    }
    None
}

/// The text of the first published version that the vulnerable range does not match.
pub fn find_first_patched(vulnerable: &str, published: &Vec<String>) -> (found: Option<String>)
    ensures
        match found {
            Some(text) => first_patched(vulnerable@, texts(published@)) == Some(text@),
            None => first_patched(vulnerable@, texts(published@)) is None,
        },
        found is None <==> match range_of(vulnerable@) {
            Some(range) => all_match(range, versions_of(texts(published@))),
            None => true,
        },
        found is None <==> (range_of(vulnerable@) matches Some(range) ==> forall|
            i: int,
            version: semver::Version,
        |
            0 <= i < published@.len() && version_of((#[trigger] published@[i])@) == Some(version)
                ==> #[trigger] range_matches(range, version)),
{
    proof {
        lemma_all_spelled_match(vulnerable@, texts(published@));
        assert forall|i: int| 0 <= i < published@.len() implies texts(published@)[i] == (
        #[trigger] published@[i])@ by {}
    }
    match semver::VersionReq::parse(vulnerable) {
        Ok(range) => match find_first_outside(&range, parse_versions(published)) {
            Some(version) => Some(write_version(&version)),
            None => None,
        },
        Err(_) => None,
    }
}

proof fn lemma_versions_of(list: Seq<Seq<char>>, version: semver::Version)
    ensures
        versions_of(list).contains(version) <==> exists|i: int|
            0 <= i < list.len() && version_of(#[trigger] list[i]) == Some(version),
    decreases list.len(),
{
    if list.len() > 0 {
        let before = list.drop_last();
        lemma_versions_of(before, version);
        if versions_of(list).contains(version) {
            let k = versions_of(list).index_of(version);
            if version_of(list.last()) == Some(version) {
                assert(version_of(list[list.len() - 1]) == Some(version));
            } else {
                assert(versions_of(before)[k] == version);
                let i = choose|i: int|
                    0 <= i < before.len() && version_of(#[trigger] before[i]) == Some(version);
                assert(version_of(list[i]) == Some(version));
            }
        }
        if exists|i: int| 0 <= i < list.len() && version_of(#[trigger] list[i]) == Some(version) {
            let i = choose|i: int|
                0 <= i < list.len() && version_of(#[trigger] list[i]) == Some(version);
            if i < before.len() {
                assert(version_of(before[i]) == Some(version));
                let k = versions_of(before).index_of(version);
                assert(versions_of(list)[k] == version);
            } else {
                assert(versions_of(list).last() == version);
            }
        }
    }
}

/// A version is spelled in a list if and only if one of the texts spells it.
pub proof fn law_versions_are_spelled(list: Seq<Seq<char>>, version: semver::Version)
    ensures
        versions_of(list).contains(version) <==> exists|i: int|
            0 <= i < list.len() && version_of(#[trigger] list[i]) == Some(version),
{
    lemma_versions_of(list, version);
}

/// The first patched version is the same in whatever order the published versions come, and
/// however often one comes.
pub proof fn law_patch_whatever_the_order(
    vulnerable: Seq<char>,
    published: Seq<Seq<char>>,
    shuffled: Seq<Seq<char>>,
)
    requires
        forall|text: Seq<char>| published.contains(text) == shuffled.contains(text),
    ensures
        first_patched(vulnerable, published) == first_patched(vulnerable, shuffled),
{
    assert forall|v: semver::Version| versions_of(published).contains(v) == versions_of(
        shuffled,
    ).contains(v) by {
        law_versions_are_spelled(published, v);
        law_versions_are_spelled(shuffled, v);
        if versions_of(published).contains(v) {
            let i = choose|i: int|
                0 <= i < published.len() && version_of(#[trigger] published[i]) == Some(v);
            assert(shuffled.contains(published[i]));
            assert(version_of(shuffled[shuffled.index_of(published[i])]) == Some(v));
        }
        if versions_of(shuffled).contains(v) {
            let i = choose|i: int|
                0 <= i < shuffled.len() && version_of(#[trigger] shuffled[i]) == Some(v);
            assert(published.contains(shuffled[i]));
            assert(version_of(published[published.index_of(shuffled[i])]) == Some(v));
        }
    }
    assert(versions_of(published).to_set() =~= versions_of(shuffled).to_set());
}

/// The first patched version is published and not vulnerable, and every other published version
/// that is not vulnerable comes after it.
pub proof fn law_patched_is_first_published(vulnerable: Seq<char>, published: Seq<Seq<char>>)
    requires
        first_patched(vulnerable, published) is Some,
    ensures
        exists|version: semver::Version| #[trigger]
            is_first_outside(
                range_of(vulnerable)->0,
                versions_of(published).to_set(),
                version,
            ) && first_patched(vulnerable, published) == Some(version_text(version)),
{
    let range = range_of(vulnerable)->0;
    let versions = versions_of(published).to_set();
    let version = first_outside(range, versions)->0;
    assert(is_first_outside(range, versions, version));
}

proof fn lemma_all_spelled_match(vulnerable: Seq<char>, published: Seq<Seq<char>>)
    ensures
        range_of(vulnerable) matches Some(range) ==> (all_match(range, versions_of(published))
            <==> forall|i: int, version: semver::Version|
            0 <= i < published.len() && version_of(#[trigger] published[i]) == Some(version)
                ==> #[trigger] range_matches(range, version)),
{
    if range_of(vulnerable) is Some {
        let range = range_of(vulnerable)->0;
        let versions = versions_of(published);
        if all_match(range, versions) {
            assert forall|i: int, version: semver::Version|
                0 <= i < published.len() && version_of(#[trigger] published[i]) == Some(
                    version,
                ) implies #[trigger] range_matches(range, version) by {
                law_versions_are_spelled(published, version);
                assert(versions[versions.index_of(version)] == version);
            }
        }
        if forall|i: int, version: semver::Version|
            0 <= i < published.len() && version_of(#[trigger] published[i]) == Some(version)
                ==> #[trigger] range_matches(range, version) {
            assert forall|k: int| 0 <= k < versions.len() implies range_matches(
                range,
                #[trigger] versions[k],
            ) by {
                law_versions_are_spelled(published, versions[k]);
                assert(versions.contains(versions[k]));
                let i = choose|i: int|
                    0 <= i < published.len() && version_of(#[trigger] published[i]) == Some(
                        versions[k],
                    );
                assert(range_matches(range, versions[k]));
            }
        }
    }
}

/// Whether one of the texts spells the version.
pub open spec fn spells(published: Seq<Seq<char>>, version: semver::Version) -> bool {
    exists|i: int| 0 <= i < published.len() && version_of(#[trigger] published[i]) == Some(version)
}

/// The first patched version, where there is one, is the text of a version that one of the texts
/// of the list spells, wherever in the list it stands. The range does not match that version, and
/// it comes before every other version that a text of the list spells and the range does not
/// match. There is none where the range cannot be read, nor where it matches whatever is spelled.
pub proof fn law_patched_among_all_published(vulnerable: Seq<char>, published: Seq<Seq<char>>)
    ensures
        range_of(vulnerable) is None ==> first_patched(vulnerable, published) is None,
        first_patched(vulnerable, published) matches Some(text) ==> exists|
            version: semver::Version,
        | #[trigger]
            spells(published, version) && version_text(version) == text && !range_matches(
                range_of(vulnerable)->0,
                version,
            ) && forall|other: semver::Version| #[trigger]
                spells(published, other) && !range_matches(range_of(vulnerable)->0, other)
                    ==> other == version || version_before(version, other),
        (forall|version: semver::Version| #[trigger]
            spells(published, version) ==> range_matches(range_of(vulnerable)->0, version))
            ==> first_patched(vulnerable, published) is None,
{
    let versions = versions_of(published);
    assert forall|version: semver::Version| #[trigger]
        spells(published, version) == versions.to_set().contains(version) by {
        law_versions_are_spelled(published, version);
    }
    if range_of(vulnerable) is Some {
        let range = range_of(vulnerable)->0;
        if first_patched(vulnerable, published) is Some {
            let version = first_outside(range, versions.to_set())->0;
            assert(is_first_outside(range, versions.to_set(), version));
            assert(spells(published, version));
            assert forall|other: semver::Version| #[trigger]
                spells(published, other) && !range_matches(range, other) implies other == version
                || version_before(version, other) by {
                assert(versions.to_set().contains(other));
            }
        }
    }
}

/// Whether of any two versions that differ one comes before the other, and what comes before a
/// version comes before all that come after it.
pub open spec fn versions_are_ordered() -> bool {
    &&& forall|a: semver::Version, b: semver::Version|
        a != b ==> #[trigger] version_before(a, b) || version_before(b, a)
    &&& forall|a: semver::Version, b: semver::Version, c: semver::Version| #[trigger]
        version_before(a, b) && #[trigger] version_before(b, c) ==> version_before(a, c)
}

/// Versions being ordered, there is a first patched version as soon as one of the texts of the
/// list, wherever it stands, spells a version that the range does not match.
pub proof fn law_patched_wherever_it_stands(
    vulnerable: Seq<char>,
    published: Seq<Seq<char>>,
    version: semver::Version,
)
    requires
        versions_are_ordered(),
        range_of(vulnerable) is Some,
        spells(published, version),
        !range_matches(range_of(vulnerable)->0, version),
    ensures
        first_patched(vulnerable, published) is Some,
{
    let range = range_of(vulnerable)->0;
    law_versions_are_spelled(published, version);
    lemma_first_exists(range, versions_of(published), version);
}

proof fn lemma_first_exists(
    range: semver::VersionReq,
    versions: Seq<semver::Version>,
    version: semver::Version,
)
    requires
        versions_are_ordered(),
        versions.contains(version),
        !range_matches(range, version),
    ensures
        exists|first: semver::Version| is_first_outside(range, versions.to_set(), first),
    decreases versions.len(),
{
    let before = versions.drop_last();
    let last = versions.last();
    assert(versions[versions.len() - 1] == last);
    assert forall|v: semver::Version| versions.contains(v) == (before.contains(v) || v == last) by {
        if versions.contains(v) && v != last {
            assert(before[versions.index_of(v)] == v);
        }
        if before.contains(v) {
            assert(versions[before.index_of(v)] == v);
        }
    }
    if exists|v: semver::Version| before.contains(v) && !range_matches(range, v) {
        let v = choose|v: semver::Version| before.contains(v) && !range_matches(range, v);
        lemma_first_exists(range, before, v);
        let first = choose|first: semver::Version|
            is_first_outside(range, before.to_set(), first);
        if !range_matches(range, last) && last != first && !version_before(first, last) {
            assert(version_before(last, first));
            assert forall|other: semver::Version| #[trigger]
                versions.to_set().contains(other) && !range_matches(range, other) implies other
                == last || version_before(last, other) by {
                if other != last {
                    assert(before.to_set().contains(other));
                }
            }
            assert(is_first_outside(range, versions.to_set(), last));
        } else {
            assert forall|other: semver::Version| #[trigger]
                versions.to_set().contains(other) && !range_matches(range, other) implies other
                == first || version_before(first, other) by {
                if other != last {
                    assert(before.to_set().contains(other));
                }
            }
            assert(is_first_outside(range, versions.to_set(), first));
        }
    } else {
        assert forall|other: semver::Version| #[trigger]
            versions.to_set().contains(other) && !range_matches(range, other) implies other == last
            || version_before(last, other) by {
            assert(versions.contains(other));
        }
        assert(version == last) by {
            assert(before.contains(version) || version == last);
        }
        assert(is_first_outside(range, versions.to_set(), last));
    }
}

} // verus!
