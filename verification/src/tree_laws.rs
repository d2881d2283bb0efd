//! The tree of dependencies, entry by entry.
use crate::arrangement::{ascending, law_texts_are_ordered};
use crate::audit::{
    audit_of, dependency_count, entry_count, entry_nodes, index_of, installed, installed_in,
    NodeView,
};
use crate::audit_laws::law_total_counts_entries;
use crate::codec::in_order;
use crate::json::{fields_count, lemma_object_at_count, node_count, JsonView};
use crate::table::{slot, text_keys};
use crate::walk_laws::{is_last_listed, last_listed_at, law_index_keeps_last};
use vstd::prelude::*;

verus! {

/// The entry to which a chain of positions leads: the first is a position among `entries`, and
/// each of the others is one in the "dependencies" of the entry before it.
pub open spec fn entry_in(entries: Seq<(Seq<char>, JsonView)>, chain: Seq<int>) -> Option<
    (Seq<char>, JsonView),
>
    decreases chain.len(),
{
    if chain.len() == 0 || chain[0] < 0 || chain[0] >= entries.len() {
        None
    } else if chain.len() == 1 {
        Some(entries[chain[0]])
    } else {
        entry_in(entries[chain[0]].1.object_at("dependencies"@), chain.drop_first())
    }
}

/// The entry to which a chain of positions leads from a node.
pub open spec fn entry_at(node: JsonView, chain: Seq<int>) -> Option<(Seq<char>, JsonView)> {
    entry_in(node.object_at("dependencies"@), chain)
}

/// The keys along a chain of positions.
pub open spec fn keys_along(entries: Seq<(Seq<char>, JsonView)>, chain: Seq<int>) -> Seq<Seq<char>>
    decreases chain.len(),
{
    if chain.len() == 0 || chain[0] < 0 || chain[0] >= entries.len() {
        Seq::empty()
    } else {
        seq![entries[chain[0]].0] + keys_along(
            entries[chain[0]].1.object_at("dependencies"@),
            chain.drop_first(),
        )
    }
}

/// Whether one chain comes before another when the tree is gone through, each entry before those
/// below it.
pub open spec fn chain_before(a: Seq<int>, b: Seq<int>) -> bool
    decreases a.len(),
{
    if b.len() == 0 {
        false
    } else if a.len() == 0 {
        true
    } else if a[0] != b[0] {
        a[0] < b[0]
    } else {
        chain_before(a.drop_first(), b.drop_first())
    }
}

proof fn lemma_chain_not_before_itself(a: Seq<int>)
    ensures
        !chain_before(a, a),
    decreases a.len(),
{
    if a.len() > 0 {
        lemma_chain_not_before_itself(a.drop_first());
    }
}

/// The chains, each one step longer, behind a first step.
spec fn stepped(first: int, chains: Seq<Seq<int>>) -> Seq<Seq<int>> {
    Seq::new(chains.len(), |i: int| seq![first] + chains[i])
}

/// The chains to all entries below a node, in the order in which the tree is gone through.
spec fn chains_below(node: JsonView) -> Seq<Seq<int>>
    decreases node_count(node), 0nat,
{
    proof {
        lemma_object_at_count(node, "dependencies"@);
    }
    chains_in(node.object_at("dependencies"@))
}

spec fn chains_in(entries: Seq<(Seq<char>, JsonView)>) -> Seq<Seq<int>>
    decreases fields_count(entries), 1nat,
{
    if entries.len() == 0 {
        Seq::empty()
    } else {
        proof {
            assert(node_count(entries.last().1) >= 1);
        }
        let k = entries.len() - 1;
        chains_in(entries.drop_last()) + seq![seq![k]] + stepped(k, chains_below(entries.last().1))
    }
}

proof fn lemma_entry_in_more(entries: Seq<(Seq<char>, JsonView)>, chain: Seq<int>)
    requires
        entries.len() > 0,
        chain.len() > 0,
        chain[0] < entries.len() - 1,
    ensures
        entry_in(entries, chain) == entry_in(entries.drop_last(), chain),
{
}

proof fn lemma_chains_below(node: JsonView)
    ensures
        forall|c: Seq<int>| #[trigger]
            chains_below(node).contains(c) <==> entry_at(node, c) is Some,
        forall|i: int, j: int|
            0 <= i < j < chains_below(node).len() ==> #[trigger] chain_before(
                chains_below(node)[i],
                chains_below(node)[j],
            ),
        chains_below(node).len() == dependency_count(node),
    decreases node_count(node), 0nat,
{
    lemma_object_at_count(node, "dependencies"@);
    lemma_chains_in(node.object_at("dependencies"@));
}

proof fn lemma_chains_in(entries: Seq<(Seq<char>, JsonView)>)
    ensures
        forall|c: Seq<int>| #[trigger]
            chains_in(entries).contains(c) <==> entry_in(entries, c) is Some,
        forall|i: int, j: int|
            0 <= i < j < chains_in(entries).len() ==> #[trigger] chain_before(
                chains_in(entries)[i],
                chains_in(entries)[j],
            ),
        chains_in(entries).len() == entry_count(entries),
    decreases fields_count(entries), 1nat,
{
    let all = chains_in(entries);
    if entries.len() > 0 {
        let k = entries.len() - 1;
        let before = entries.drop_last();
        let last = entries.last();
        assert(node_count(last.1) >= 1);
        lemma_chains_in(before);
        lemma_chains_below(last.1);
        let earlier = chains_in(before);
        let below = chains_below(last.1);
        let one = earlier.len() as int;
        assert forall|i: int| 0 <= i < earlier.len() implies (#[trigger] earlier[i]).len() > 0
            && earlier[i][0] < k by {
            assert(earlier.contains(earlier[i]));
        }
        assert forall|i: int| 0 <= i < below.len() implies (#[trigger] below[i]).len() > 0 by {
            assert(below.contains(below[i]));
        }
        assert(all[one] == seq![k]);
        assert forall|i: int| one < i < all.len() implies #[trigger] all[i] == seq![k]
            + below[i - one - 1] by {}
        assert forall|c: Seq<int>| #[trigger] all.contains(c) <==> entry_in(entries, c) is Some by {
            if all.contains(c) {
                let i = all.index_of(c);
                if i < one {
                    assert(earlier[i] == c);
                    assert(earlier.contains(c));
                    lemma_entry_in_more(entries, c);
                } else if i > one {
                    let rest = below[i - one - 1];
                    assert(below.contains(rest));
                    assert(c.drop_first() =~= rest);
                }
            }
            if entry_in(entries, c) is Some {
                if c[0] < k {
                    lemma_entry_in_more(entries, c);
                    assert(earlier.contains(c));
                    assert(all[earlier.index_of(c)] == c);
                } else if c.len() == 1 {
                    assert(c =~= seq![k]);
                    assert(all[one] == c);
                } else {
                    let rest = c.drop_first();
                    assert(below.contains(rest));
                    let i = below.index_of(rest);
                    assert(c =~= seq![k] + rest);
                    assert(all[one + 1 + i] == c);
                }
            }
        }
        assert forall|i: int, j: int| 0 <= i < j < all.len() implies #[trigger] chain_before(
            all[i],
            all[j],
        ) by {
            if j < one {
                assert(all[i] == earlier[i] && all[j] == earlier[j]);
                assert(chain_before(earlier[i], earlier[j]));
            } else if i < one {
                assert(all[i] == earlier[i]);
                assert(all[j][0] == k);
            } else if i == one {
                assert(all[i].drop_first() =~= Seq::empty());
                assert(all[j].drop_first() =~= below[j - one - 1]);
                assert(chain_before(all[i].drop_first(), all[j].drop_first()));
            } else {
                assert(all[i].drop_first() =~= below[i - one - 1]);
                assert(all[j].drop_first() =~= below[j - one - 1]);
                assert(chain_before(below[i - one - 1], below[j - one - 1]));
                assert(all[i][0] == k && all[j][0] == k);
            }
        }
    }
}

proof fn lemma_chains_distinct(node: JsonView)
    ensures
        chains_below(node).no_duplicates(),
{
    let all = chains_below(node);
    lemma_chains_below(node);
    assert forall|i: int, j: int| 0 <= i < all.len() && 0 <= j < all.len() && i != j implies all[i]
        != all[j] by {
        lemma_chain_not_before_itself(all[i]);
        if i < j {
            assert(chain_before(all[i], all[j]));
        } else {
            assert(chain_before(all[j], all[i]));
        }
    }
}

/// The total is the number of entries in the tree of dependencies: of the chains that lead from
/// the request, through "dependencies" and again "dependencies", to an entry, whatever the entries
/// on the way say.
pub proof fn law_total_is_number_of_chains(body: JsonView)
    ensures
        Set::new(|c: Seq<int>| entry_at(body, c) is Some).finite(),
        audit_of(body).total_deps == Set::new(|c: Seq<int>| entry_at(body, c) is Some).len(),
{
    let all = chains_below(body);
    lemma_chains_below(body);
    lemma_chains_distinct(body);
    law_total_counts_entries(body);
    all.unique_seq_to_set();
    assert(all.to_set() =~= Set::new(|c: Seq<int>| entry_at(body, c) is Some)) by {
        assert forall|c: Seq<int>| all.to_set().contains(c) == (entry_at(body, c) is Some) by {
            assert(all.contains(c) <==> entry_at(body, c) is Some);
        }
    }
}

/// Whether the entry is of this name, and its text under "version" is this one.
pub open spec fn names_version(
    entry: Option<(Seq<char>, JsonView)>,
    name: Seq<char>,
    version: Seq<char>,
) -> bool {
    match entry {
        Some((key, info)) => key == name && info.field("version"@) == Some(
            JsonView::Text(version),
        ),
        None => false,
    }
}

/// The nodes of the entries to which the chains lead, one chain after the other.
spec fn nodes_along(entries: Seq<(Seq<char>, JsonView)>, chains: Seq<Seq<int>>) -> Seq<NodeView>
    decreases chains.len(),
{
    if chains.len() == 0 {
        Seq::empty()
    } else {
        nodes_along(entries, chains.drop_last()) + match entry_in(entries, chains.last()) {
            Some((name, info)) => entry_nodes(name, info),
            None => Seq::empty(),
        }
    }
}

proof fn lemma_nodes_along_add(
    entries: Seq<(Seq<char>, JsonView)>,
    first: Seq<Seq<int>>,
    rest: Seq<Seq<int>>,
)
    ensures
        nodes_along(entries, first + rest) == nodes_along(entries, first) + nodes_along(
            entries,
            rest,
        ),
    decreases rest.len(),
{
    if rest.len() == 0 {
        assert(first + rest =~= first);
        assert(nodes_along(entries, first) + Seq::empty() =~= nodes_along(entries, first));
    } else {
        lemma_nodes_along_add(entries, first, rest.drop_last());
        assert((first + rest).drop_last() =~= first + rest.drop_last());
        assert((first + rest).last() == rest.last());
        assert(nodes_along(entries, first + rest) =~= nodes_along(entries, first) + nodes_along(
            entries,
            rest,
        ));
    }
}

/// Chains that lead to the same entries lead to the same nodes.
proof fn lemma_nodes_along_same(
    a: Seq<(Seq<char>, JsonView)>,
    b: Seq<(Seq<char>, JsonView)>,
    chains: Seq<Seq<int>>,
    others: Seq<Seq<int>>,
)
    requires
        chains.len() == others.len(),
        forall|i: int|
            #![trigger chains[i]]
            #![trigger others[i]]
            0 <= i < chains.len() ==> entry_in(a, chains[i]) == entry_in(b, others[i]),
    ensures
        nodes_along(a, chains) == nodes_along(b, others),
    decreases chains.len(),
{
    if chains.len() > 0 {
        let (some, rest) = (chains.drop_last(), others.drop_last());
        assert forall|i: int|
            #![trigger some[i]]
            #![trigger rest[i]]
            0 <= i < some.len() implies entry_in(a, some[i]) == entry_in(b, rest[i]) by {
            assert(some[i] == chains[i] && rest[i] == others[i]);
        }
        lemma_nodes_along_same(a, b, some, rest);
        assert(chains[chains.len() - 1] == chains.last());
        assert(others[others.len() - 1] == others.last());
    }
}

proof fn lemma_installed_along(node: JsonView)
    ensures
        installed(node) == nodes_along(node.object_at("dependencies"@), chains_below(node)),
    decreases node_count(node), 0nat,
{
    lemma_object_at_count(node, "dependencies"@);
    lemma_installed_in_along(node.object_at("dependencies"@));
}

proof fn lemma_installed_in_along(entries: Seq<(Seq<char>, JsonView)>)
    ensures
        installed_in(entries) == nodes_along(entries, chains_in(entries)),
    decreases fields_count(entries), 1nat,
{
    if entries.len() > 0 {
        let k = entries.len() - 1;
        let before = entries.drop_last();
        let (name, info) = entries.last();
        assert(node_count(info) >= 1);
        lemma_installed_in_along(before);
        lemma_installed_along(info);
        lemma_chains_in(before);
        lemma_chains_below(info);
        let earlier = chains_in(before);
        let below = chains_below(info);
        let one = seq![seq![k]];
        let deeper = stepped(k, below);
        assert forall|i: int| #![trigger earlier[i]] 0 <= i < earlier.len() implies entry_in(
            before,
            earlier[i],
        ) == entry_in(entries, earlier[i]) by {
            assert(earlier.contains(earlier[i]));
            lemma_entry_in_more(entries, earlier[i]);
        }
        lemma_nodes_along_same(before, entries, earlier, earlier);
        assert forall|i: int|
            #![trigger deeper[i]]
            #![trigger below[i]]
            0 <= i < deeper.len() implies entry_in(entries, deeper[i]) == entry_in(
            info.object_at("dependencies"@),
            below[i],
        ) by {
            assert(below.contains(below[i]));
            assert(deeper[i].drop_first() =~= below[i]);
        }
        lemma_nodes_along_same(entries, info.object_at("dependencies"@), deeper, below);
        lemma_nodes_along_add(entries, earlier + one, deeper);
        lemma_nodes_along_add(entries, earlier, one);
        assert(nodes_along(entries, one) == entry_nodes(name, info)) by {
            reveal_with_fuel(nodes_along, 2);
            assert(one.drop_last() =~= Seq::empty());
            assert(one.last() == seq![k]);
            assert(entry_in(entries, seq![k]) == Some(entries[k]));
            assert(Seq::empty() + entry_nodes(name, info) =~= entry_nodes(name, info));
        }
        assert(installed_in(entries) =~= nodes_along(entries, chains_in(entries)));
    }
}

/// Whether the chain at position `i` leads to the node, and none behind it to one of the same name
/// and version.
spec fn last_along(
    entries: Seq<(Seq<char>, JsonView)>,
    chains: Seq<Seq<int>>,
    node: NodeView,
    i: int,
) -> bool {
    &&& 0 <= i < chains.len()
    &&& entry_in(entries, chains[i]) == Some((node.name, node.info))
    &&& node.info.field("version"@) == Some(JsonView::Text(node.version))
    &&& forall|j: int|
        i < j < chains.len() ==> !names_version(
            entry_in(entries, #[trigger] chains[j]),
            node.name,
            node.version,
        )
}

proof fn lemma_last_along(
    entries: Seq<(Seq<char>, JsonView)>,
    chains: Seq<Seq<int>>,
    node: NodeView,
)
    ensures
        is_last_listed(nodes_along(entries, chains), node) <==> exists|i: int| #[trigger]
            last_along(entries, chains, node, i),
    decreases chains.len(),
{
    let listing = nodes_along(entries, chains);
    if chains.len() > 0 {
        let some = chains.drop_last();
        let n = chains.len() - 1;
        let entry = entry_in(entries, chains.last());
        let earlier = nodes_along(entries, some);
        lemma_last_along(entries, some, node);
        assert(chains[n] == chains.last());
        if entry is Some && (entry->0).1.text_at("version"@) is Some {
            let (name, info) = entry->0;
            let added = NodeView { name, version: info.text_at("version"@)->0, info };
            assert(listing =~= earlier.push(added));
            assert(listing.drop_last() =~= earlier);
            lemma_last_listed_push(earlier, added, node);
            assert(names_version(entry, node.name, node.version) <==> added.name == node.name
                && added.version == node.version);
        } else {
            assert(listing =~= earlier);
            assert(!names_version(entry, node.name, node.version));
        }
        if exists|i: int| #[trigger] last_along(entries, some, node, i) && !names_version(
            entry,
            node.name,
            node.version,
        ) {
            let i = choose|i: int| #[trigger] last_along(entries, some, node, i);
            assert forall|j: int| i < j < chains.len() implies !names_version(
                entry_in(entries, #[trigger] chains[j]),
                node.name,
                node.version,
            ) by {
                if j < n {
                    assert(some[j] == chains[j]);
                }
            }
            assert(last_along(entries, chains, node, i));
        }
        if exists|i: int| #[trigger] last_along(entries, chains, node, i) {
            let i = choose|i: int| #[trigger] last_along(entries, chains, node, i);
            if i < n {
                assert forall|j: int| i < j < some.len() implies !names_version(
                    entry_in(entries, #[trigger] some[j]),
                    node.name,
                    node.version,
                ) by {
                    assert(some[j] == chains[j]);
                }
                assert(last_along(entries, some, node, i));
                assert(!names_version(
                    entry_in(entries, chains[n]),
                    node.name,
                    node.version,
                ));
            }
        }
        if entry == Some((node.name, node.info)) && node.info.field("version"@) == Some(
            JsonView::Text(node.version),
        ) {
            assert(last_along(entries, chains, node, n));
        }
    } else {
        assert forall|i: int| !last_listed_at(listing, node, i) by {}
    }
}

proof fn lemma_last_listed_push(listing: Seq<NodeView>, added: NodeView, node: NodeView)
    ensures
        is_last_listed(listing.push(added), node) <==> node == added || ((node.name != added.name
            || node.version != added.version) && is_last_listed(listing, node)),
{
    let more = listing.push(added);
    assert(more[listing.len() as int] == added);
    if node == added {
        assert(last_listed_at(more, node, listing.len() as int));
    }
    if is_last_listed(more, node) && node != added {
        let i = choose|i: int| #[trigger] last_listed_at(more, node, i);
        assert forall|j: int| i < j < listing.len() implies (#[trigger] listing[j]).name
            != node.name || listing[j].version != node.version by {
            assert(more[j] == listing[j]);
        }
        assert(last_listed_at(listing, node, i));
    }
    if (node.name != added.name || node.version != added.version) && is_last_listed(
        listing,
        node,
    ) {
        let i = choose|i: int| #[trigger] last_listed_at(listing, node, i);
        assert forall|j: int| i < j < more.len() implies (#[trigger] more[j]).name != node.name
            || more[j].version != node.version by {
            if j < listing.len() {
                assert(more[j] == listing[j]);
            }
        }
        assert(last_listed_at(more, node, i));
    }
}

/// Whether the chain leads to the node, and every other chain to an entry of the same name and
/// version comes before it.
pub open spec fn leads_last(body: JsonView, node: NodeView, c: Seq<int>) -> bool {
    &&& entry_at(body, c) == Some((node.name, node.info))
    &&& node.info.field("version"@) == Some(JsonView::Text(node.version))
    &&& forall|d: Seq<int>| #[trigger]
        names_version(entry_at(body, d), node.name, node.version) ==> d == c || chain_before(d, c)
}

/// What is installed is what stands anywhere in the tree of dependencies with a text under
/// "version": a node is in the index if and only if it is such an entry, and of the entries with
/// its name and version the last that is come to when the tree is gone through.
pub proof fn law_index_is_the_tree(body: JsonView, node: NodeView)
    ensures
        index_of(body).contains(node) <==> exists|c: Seq<int>| #[trigger]
            leads_last(body, node, c),
{
    let entries = body.object_at("dependencies"@);
    let all = chains_below(body);
    law_index_keeps_last(body, node);
    lemma_installed_along(body);
    lemma_chains_below(body);
    lemma_last_along(entries, all, node);
    if exists|i: int| #[trigger] last_along(entries, all, node, i) {
        let i = choose|i: int| #[trigger] last_along(entries, all, node, i);
        assert forall|d: Seq<int>| #[trigger]
            names_version(entry_at(body, d), node.name, node.version) implies d == all[i]
            || chain_before(d, all[i]) by {
            assert(all.contains(d));
            let j = all.index_of(d);
            if j < i {
                assert(chain_before(all[j], all[i]));
            } else if j > i {
                assert(!names_version(entry_in(entries, all[j]), node.name, node.version));
            }
        }
        assert(leads_last(body, node, all[i]));
    }
    if exists|c: Seq<int>| #[trigger] leads_last(body, node, c) {
        let c = choose|c: Seq<int>| #[trigger] leads_last(body, node, c);
        assert(all.contains(c));
        let i = all.index_of(c);
        assert forall|j: int| i < j < all.len() implies !names_version(
            entry_in(entries, #[trigger] all[j]),
            node.name,
            node.version,
        ) by {
            if names_version(entry_at(body, all[j]), node.name, node.version) {
                assert(chain_before(all[i], all[j]));
                lemma_chain_not_before_both(all[i], all[j]);
                lemma_chain_not_before_itself(c);
            }
        }
        assert(last_along(entries, all, node, i));
    }
}

proof fn lemma_chain_not_before_both(a: Seq<int>, b: Seq<int>)
    requires
        chain_before(a, b),
    ensures
        !chain_before(b, a),
    decreases a.len(),
{
    if a.len() > 0 && a[0] == b[0] {
        lemma_chain_not_before_both(a.drop_first(), b.drop_first());
    }
}

/// Every entry anywhere in the tree of dependencies with a text under "version" is installed: the
/// index has a node of its name and version.
pub proof fn law_every_version_is_indexed(
    body: JsonView,
    c: Seq<int>,
    name: Seq<char>,
    version: Seq<char>,
)
    requires
        names_version(entry_at(body, c), name, version),
    ensures
        exists|k: int|
            0 <= k < index_of(body).len() && (#[trigger] index_of(body)[k]).name == name
                && index_of(body)[k].version == version,
{
    let entries = body.object_at("dependencies"@);
    let all = chains_below(body);
    lemma_chains_below(body);
    assert(all.contains(c));
    let i = lemma_last_of(entries, all, name, version, all.index_of(c));
    let info = (entry_in(entries, all[i])->0).1;
    let node = NodeView { name, version, info };
    assert(last_along(entries, all, node, i));
    lemma_last_along(entries, all, node);
    lemma_installed_along(body);
    law_index_keeps_last(body, node);
    let k = index_of(body).index_of(node);
    assert(index_of(body)[k] == node);
}

proof fn lemma_last_of(
    entries: Seq<(Seq<char>, JsonView)>,
    chains: Seq<Seq<int>>,
    name: Seq<char>,
    version: Seq<char>,
    from: int,
) -> (last: int)
    requires
        0 <= from < chains.len(),
        names_version(entry_in(entries, chains[from]), name, version),
    ensures
        0 <= last < chains.len(),
        names_version(entry_in(entries, chains[last]), name, version),
        forall|j: int|
            last < j < chains.len() ==> !names_version(
                entry_in(entries, #[trigger] chains[j]),
                name,
                version,
            ),
    decreases chains.len() - from,
{
    if exists|j: int|
        from < j < chains.len() && names_version(
            entry_in(entries, #[trigger] chains[j]),
            name,
            version,
        ) {
        let j = choose|j: int|
            from < j < chains.len() && names_version(
                entry_in(entries, #[trigger] chains[j]),
                name,
                version,
            );
        lemma_last_of(entries, chains, name, version, j)
    } else {
        from
    }
}

/// In a document whose objects have no key twice, two chains of positions that lead to entries
/// have different keys along them: the chains are as many as the chains of keys.
pub proof fn law_chains_are_told_by_keys(body: JsonView, a: Seq<int>, b: Seq<int>)
    requires
        in_order(body),
        entry_at(body, a) is Some,
        entry_at(body, b) is Some,
        a != b,
    ensures
        keys_along(body.object_at("dependencies"@), a) != keys_along(
            body.object_at("dependencies"@),
            b,
        ),
    decreases a.len(),
{
    let entries = body.object_at("dependencies"@);
    lemma_below_in_order(body);
    let (ka, kb) = (keys_along(entries, a), keys_along(entries, b));
    assert(ka[0] == entries[a[0]].0 && kb[0] == entries[b[0]].0);
    if a[0] != b[0] {
        if a[0] < b[0] {
            law_texts_are_ordered(entries[a[0]].0, entries[b[0]].0);
        } else {
            law_texts_are_ordered(entries[b[0]].0, entries[a[0]].0);
        }
    } else {
        let info = entries[a[0]].1;
        let below = info.object_at("dependencies"@);
        let (ra, rb) = (a.drop_first(), b.drop_first());
        assert(a =~= seq![a[0]] + ra);
        assert(b =~= seq![b[0]] + rb);
        assert(ka.drop_first() =~= keys_along(below, ra));
        assert(kb.drop_first() =~= keys_along(below, rb));
        if ra.len() > 0 && rb.len() > 0 {
            law_chains_are_told_by_keys(info, ra, rb);
        } else if ra.len() == 0 {
            assert(rb.len() > 0) by {
                if rb.len() == 0 {
                    assert(ra =~= rb);
                }
            }
            assert(keys_along(below, rb).len() > 0);
        } else {
            assert(keys_along(below, ra).len() > 0);
        }
    }
}

proof fn lemma_below_in_order(node: JsonView)
    requires
        in_order(node),
    ensures
        ascending(node.object_at("dependencies"@)),
        forall|i: int|
            0 <= i < node.object_at("dependencies"@).len() ==> in_order(
                (#[trigger] node.object_at("dependencies"@)[i]).1,
            ),
{
    match node {
        JsonView::Object(fields) => {
            let at = slot(text_keys(fields), "dependencies"@) as int;
            if at < fields.len() {
                assert(in_order(fields[at].1));
            }
        },
        _ => {},
    }
}

} // verus!
