//! The paths of an audit, as chains of requirements.
use crate::audit::{
    all_visits, audit_of, following, follows, found_at, index_of, indexed, lemma_unentered_push,
    on_path, path_to, requirement_visits, requirements_visits, unentered, versions_visits, visits,
    Found, FrameView, NodeView, Visit,
};
use crate::audit_laws::{
    asks_about, calls_for, finds, finds_at, law_asked_iff_visited, law_depth_is_least,
    law_path_iff_found, says_path,
};
use crate::json::JsonView;
use crate::table::lookup;
use crate::walk_laws::{
    answered, borne_out, covered, found_in, found_node, law_requirements_answered,
    law_visits_borne_out,
};
use vstd::prelude::*;

verus! {

/// Whether the requirement is of the package, for some range.
pub open spec fn is_requirement_of(requirement: (Seq<char>, JsonView), name: Seq<char>) -> bool {
    requirement.0 == name && requirement.1 is Text
}

/// Whether a node requires the package.
pub open spec fn requires_package(node: JsonView, name: Seq<char>) -> bool {
    exists|r: int|
        0 <= r < node.object_at("requires"@).len() && is_requirement_of(
            #[trigger] node.object_at("requires"@)[r],
            name,
        )
}

/// The node at position `k`, come upon from the node followed last.
pub open spec fn frame_at(index: Seq<NodeView>, stack: Seq<FrameView>, k: int) -> FrameView {
    FrameView { path: path_to(stack, index[k].name), node: k }
}

/// Whether the requirements of `node` can be followed along the chain of nodes: each node but
/// the last is followed, and requires the next.
pub open spec fn is_chain(
    node: JsonView,
    index: Seq<NodeView>,
    stack: Seq<FrameView>,
    chain: Seq<int>,
) -> bool
    decreases chain.len(), 1nat,
{
    chain.len() > 0 && requires_package(node, index[chain[0]].name) && leads(index, stack, chain)
}

/// Whether the chain can be followed from its first node on.
pub open spec fn leads(index: Seq<NodeView>, stack: Seq<FrameView>, chain: Seq<int>) -> bool
    decreases chain.len(), 0nat,
{
    &&& chain.len() > 0
    &&& 0 <= chain[0] < index.len()
    &&& chain.len() > 1 ==> {
        let frame = frame_at(index, stack, chain[0]);
        follows(stack, frame.path, frame.node) && is_chain(
            index[chain[0]].info,
            index,
            stack.push(frame),
            chain.drop_first(),
        )
    }
}

/// What is found at the end of the chain.
pub open spec fn found_by(index: Seq<NodeView>, stack: Seq<FrameView>, chain: Seq<int>) -> Found
    decreases chain.len(),
{
    let node = index[chain[0]];
    if chain.len() <= 1 {
        found_at(node.name, node.version, node.info, path_to(stack, node.name), stack.len() + 1)
    } else {
        found_by(index, stack.push(frame_at(index, stack, chain[0])), chain.drop_first())
    }
}

/// Whether a visit is what is found at the end of some chain.
pub open spec fn ends_chain(
    node: JsonView,
    index: Seq<NodeView>,
    stack: Seq<FrameView>,
    found: Found,
) -> bool {
    exists|chain: Seq<int>| #[trigger]
        is_chain(node, index, stack, chain) && found_by(index, stack, chain) == found
}

/// Whether a visit is what is found at the end of some chain that starts at a version of the
/// package.
spec fn ends_chain_from(
    name: Seq<char>,
    index: Seq<NodeView>,
    stack: Seq<FrameView>,
    found: Found,
) -> bool {
    exists|chain: Seq<int>| #[trigger]
        leads(index, stack, chain) && index[chain[0]].name == name && found_by(index, stack, chain)
            == found
}

proof fn lemma_visits_end_chains(node: JsonView, index: Seq<NodeView>, stack: Seq<FrameView>)
    ensures
        forall|i: int|
            #![trigger visits(node, index, stack)[i]]
            0 <= i < visits(node, index, stack).len() && visits(node, index, stack)[i] is Found
                ==> ends_chain(node, index, stack, visits(node, index, stack)[i]->Found_0),
    decreases unentered(index.len(), stack), 3nat, 0nat,
{
    let requirements = node.object_at("requires"@);
    let all = visits(node, index, stack);
    lemma_requirements_end_chains(requirements, index, stack);
    assert forall|i: int|
        #![trigger all[i]]
        0 <= i < all.len() && all[i] is Found implies ends_chain(
        node,
        index,
        stack,
        all[i]->Found_0,
    ) by {
        assert(all[i] == requirements_visits(requirements, index, stack)[i]);
        let r = choose|r: int|
            0 <= r < requirements.len() && (#[trigger] requirements[r]).1 is Text
                && ends_chain_from(requirements[r].0, index, stack, all[i]->Found_0);
        let name = requirements[r].0;
        let chain = choose|chain: Seq<int>| #[trigger]
            leads(index, stack, chain) && index[chain[0]].name == name && found_by(
                index,
                stack,
                chain,
            ) == all[i]->Found_0;
        assert(is_requirement_of(node.object_at("requires"@)[r], name));
        assert(is_chain(node, index, stack, chain));
    }
}

proof fn lemma_requirements_end_chains(
    requirements: Seq<(Seq<char>, JsonView)>,
    index: Seq<NodeView>,
    stack: Seq<FrameView>,
)
    ensures
        forall|i: int|
            #![trigger requirements_visits(requirements, index, stack)[i]]
            0 <= i < requirements_visits(requirements, index, stack).len() && requirements_visits(
                requirements,
                index,
                stack,
            )[i] is Found ==> exists|r: int|
                0 <= r < requirements.len() && (#[trigger] requirements[r]).1 is Text
                    && ends_chain_from(
                    requirements[r].0,
                    index,
                    stack,
                    requirements_visits(requirements, index, stack)[i]->Found_0,
                ),
    decreases unentered(index.len(), stack), 2nat, requirements.len(),
{
    let all = requirements_visits(requirements, index, stack);
    if requirements.len() > 0 {
        let some = requirements.drop_last();
        let earlier = requirements_visits(some, index, stack);
        let (name, range) = requirements.last();
        let last = requirement_visits(name, range, index, stack);
        lemma_requirements_end_chains(some, index, stack);
        if indexed(index, name) {
            lemma_versions_end_chains(name, index, stack, index.len());
        }
        assert forall|i: int|
            #![trigger all[i]]
            0 <= i < all.len() && all[i] is Found implies exists|r: int|
            0 <= r < requirements.len() && (#[trigger] requirements[r]).1 is Text
                && ends_chain_from(requirements[r].0, index, stack, all[i]->Found_0) by {
            if i < earlier.len() {
                assert(all[i] == earlier[i]);
                let r = choose|r: int|
                    0 <= r < some.len() && (#[trigger] some[r]).1 is Text && ends_chain_from(
                        some[r].0,
                        index,
                        stack,
                        earlier[i]->Found_0,
                    );
                assert(requirements[r] == some[r]);
            } else {
                assert(all[i] == last[i - earlier.len()]);
                assert(requirements[requirements.len() - 1] == (name, range));
                assert(range is Text && indexed(index, name));
                assert(last == versions_visits(name, index, stack, index.len()));
            }
        }
    }
}

proof fn lemma_versions_end_chains(
    name: Seq<char>,
    index: Seq<NodeView>,
    stack: Seq<FrameView>,
    n: nat,
)
    requires
        n <= index.len(),
    ensures
        forall|i: int|
            #![trigger versions_visits(name, index, stack, n)[i]]
            0 <= i < versions_visits(name, index, stack, n).len() && versions_visits(
                name,
                index,
                stack,
                n,
            )[i] is Found ==> ends_chain_from(
                name,
                index,
                stack,
                versions_visits(name, index, stack, n)[i]->Found_0,
            ),
    decreases unentered(index.len(), stack), 0nat, n,
{
    let all = versions_visits(name, index, stack, n);
    if n > 0 {
        let k = n - 1;
        let earlier = versions_visits(name, index, stack, k as nat);
        lemma_versions_end_chains(name, index, stack, k as nat);
        let node = index[k];
        let frame = frame_at(index, stack, k);
        let deeper = stack.push(frame);
        let inner = visits(node.info, index, deeper);
        if node.name == name && follows(stack, frame.path, k) {
            lemma_unentered_push(index.len(), stack, frame);
            lemma_visits_end_chains(node.info, index, deeper);
        }
        assert forall|i: int|
            #![trigger all[i]]
            0 <= i < all.len() && all[i] is Found implies ends_chain_from(
            name,
            index,
            stack,
            all[i]->Found_0,
        ) by {
            if i < earlier.len() {
                assert(all[i] == earlier[i]);
            } else if i == earlier.len() {
                let chain = seq![k];
                assert(leads(index, stack, chain));
                assert(found_by(index, stack, chain) == all[i]->Found_0);
            } else {
                assert(all[i] == inner[i - earlier.len() - 1]);
                let rest = choose|rest: Seq<int>| #[trigger]
                    is_chain(node.info, index, deeper, rest) && found_by(index, deeper, rest)
                        == all[i]->Found_0;
                let chain = seq![k] + rest;
                assert(chain.drop_first() =~= rest);
                assert(chain[0] == k);
                assert(leads(index, stack, chain));
                assert(found_by(index, stack, chain) == all[i]->Found_0);
            }
        }
    }
}

proof fn lemma_in_versions(
    name: Seq<char>,
    index: Seq<NodeView>,
    stack: Seq<FrameView>,
    n: nat,
    k: int,
    visit: Visit,
)
    requires
        0 <= k < n <= index.len(),
        index[k].name == name,
        ({
            let frame = frame_at(index, stack, k);
            ||| visit == Visit::Found(
                found_at(name, index[k].version, index[k].info, frame.path, stack.len() + 1),
            )
            ||| follows(stack, frame.path, k) && visits(
                index[k].info,
                index,
                stack.push(frame),
            ).contains(visit)
        }),
    ensures
        versions_visits(name, index, stack, n).contains(visit),
    decreases n,
{
    let all = versions_visits(name, index, stack, n);
    let earlier = versions_visits(name, index, stack, (n - 1) as nat);
    if k == n - 1 {
        let frame = frame_at(index, stack, k);
        let inner = visits(index[k].info, index, stack.push(frame));
        if visit == Visit::Found(
            found_at(name, index[k].version, index[k].info, frame.path, stack.len() + 1),
        ) {
            assert(all[earlier.len() as int] == visit);
        } else {
            let i = inner.index_of(visit);
            assert(all[earlier.len() + 1 + i] == visit);
        }
    } else {
        lemma_in_versions(name, index, stack, (n - 1) as nat, k, visit);
        let i = earlier.index_of(visit);
        assert(all[i] == visit);
    }
}

proof fn lemma_in_requirements(
    requirements: Seq<(Seq<char>, JsonView)>,
    index: Seq<NodeView>,
    stack: Seq<FrameView>,
    r: int,
    visit: Visit,
)
    requires
        0 <= r < requirements.len(),
        requirement_visits(requirements[r].0, requirements[r].1, index, stack).contains(visit),
    ensures
        requirements_visits(requirements, index, stack).contains(visit),
    decreases requirements.len(),
{
    let all = requirements_visits(requirements, index, stack);
    let some = requirements.drop_last();
    let earlier = requirements_visits(some, index, stack);
    let last = requirement_visits(requirements.last().0, requirements.last().1, index, stack);
    if r < some.len() {
        assert(some[r] == requirements[r]);
        lemma_in_requirements(some, index, stack, r, visit);
        let i = earlier.index_of(visit);
        assert(all[i] == visit);
    } else {
        let i = last.index_of(visit);
        assert(all[earlier.len() + i] == visit);
    }
}

proof fn lemma_chain_is_visited(
    node: JsonView,
    index: Seq<NodeView>,
    stack: Seq<FrameView>,
    chain: Seq<int>,
)
    requires
        is_chain(node, index, stack, chain),
    ensures
        visits(node, index, stack).contains(Visit::Found(found_by(index, stack, chain))),
    decreases chain.len(),
{
    let k = chain[0];
    let name = index[k].name;
    let frame = frame_at(index, stack, k);
    let visit = Visit::Found(found_by(index, stack, chain));
    let requirements = node.object_at("requires"@);
    if chain.len() > 1 {
        lemma_chain_is_visited(index[k].info, index, stack.push(frame), chain.drop_first());
    }
    lemma_in_versions(name, index, stack, index.len(), k, visit);
    let r = choose|r: int|
        0 <= r < requirements.len() && is_requirement_of(#[trigger] requirements[r], name);
    assert(indexed(index, name));
    assert(requirement_visits(name, requirements[r].1, index, stack) == versions_visits(
        name,
        index,
        stack,
        index.len(),
    ));
    lemma_in_requirements(requirements, index, stack, r, visit);
}

/// Following the requirements finds exactly what chains of requirements lead to: installed
/// packages of which the project requires the first, and each of the others is required by the
/// one before it.
pub proof fn law_found_iff_chain(body: JsonView, found: Found)
    ensures
        all_visits(body).contains(Visit::Found(found)) <==> ends_chain(
            body,
            index_of(body),
            Seq::empty(),
            found,
        ),
{
    let all = all_visits(body);
    let index = index_of(body);
    let stack = Seq::<FrameView>::empty();
    lemma_visits_end_chains(body, index, stack);
    if all.contains(Visit::Found(found)) {
        let i = all.index_of(Visit::Found(found));
        assert(visits(body, index, stack)[i] is Found);
    }
    if ends_chain(body, index, stack, found) {
        let chain = choose|chain: Seq<int>| #[trigger]
            is_chain(body, index, stack, chain) && found_by(index, stack, chain) == found;
        lemma_chain_is_visited(body, index, stack, chain);
    }
}

/// Whether no installed package lacks a name.
pub open spec fn all_named(index: Seq<NodeView>) -> bool {
    forall|k: int| 0 <= k < index.len() ==> (#[trigger] index[k]).name.len() > 0
}

/// Whether a node of the chain requires the next.
pub open spec fn links(index: Seq<NodeView>, chain: Seq<int>, i: int) -> bool {
    requires_package(index[chain[i]].info, index[chain[i + 1]].name)
}

/// Whether `chain` is a chain of requirements: the project requires its first node, every node
/// requires the next, and none but the last comes twice.
pub open spec fn is_requirement_chain(
    body: JsonView,
    index: Seq<NodeView>,
    chain: Seq<int>,
) -> bool {
    &&& chain.len() > 0
    &&& forall|i: int| 0 <= i < chain.len() ==> 0 <= #[trigger] chain[i] < index.len()
    &&& requires_package(body, index[chain[0]].name)
    &&& forall|i: int| 0 <= i < chain.len() - 1 ==> #[trigger] links(index, chain, i)
    &&& forall|i: int, j: int|
        0 <= i < j < chain.len() - 1 ==> #[trigger] chain[i] != #[trigger] chain[j]
}

/// The names of the nodes of the chain.
pub open spec fn chain_names(index: Seq<NodeView>, chain: Seq<int>) -> Seq<Seq<char>> {
    Seq::new(chain.len(), |i: int| index[chain[i]].name)
}

/// The names with a `>` between each and the next.
pub open spec fn joined(names: Seq<Seq<char>>) -> Seq<char>
    decreases names.len(),
{
    if names.len() == 0 {
        Seq::empty()
    } else if names.len() == 1 {
        names[0]
    } else {
        names[0] + ">"@ + joined(names.drop_first())
    }
}

/// Whether no node is being followed by an empty path, and paths do not become shorter.
spec fn named_paths(stack: Seq<FrameView>) -> bool {
    forall|i: int|
        0 <= i < stack.len() ==> 0 < (#[trigger] stack[i]).path.len() <= stack.last().path.len()
}

/// Whether no node of the chain but the last is being followed.
spec fn clear_of(stack: Seq<FrameView>, chain: Seq<int>) -> bool {
    forall|i: int| 0 <= i < chain.len() - 1 ==> !following(stack, #[trigger] chain[i])
}

proof fn lemma_following_push(stack: Seq<FrameView>, frame: FrameView, node: int)
    ensures
        following(stack.push(frame), node) == (following(stack, node) || frame.node == node),
{
    let more = stack.push(frame);
    assert(more[stack.len() as int] == frame);
    if following(stack, node) {
        let i = choose|i: int| 0 <= i < stack.len() && (#[trigger] stack[i]).node == node;
        assert(more[i].node == node);
    }
    if following(more, node) {
        let i = choose|i: int| 0 <= i < more.len() && (#[trigger] more[i]).node == node;
        assert(i < stack.len() ==> stack[i].node == node);
    }
}

proof fn lemma_named_push(index: Seq<NodeView>, stack: Seq<FrameView>, k: int)
    requires
        all_named(index),
        named_paths(stack),
        0 <= k < index.len(),
    ensures
        named_paths(stack.push(frame_at(index, stack, k))),
        !on_path(stack, frame_at(index, stack, k).path),
{
    let frame = frame_at(index, stack, k);
    let more = stack.push(frame);
    reveal_strlit(">");
    assert(index[k].name.len() > 0);
    if stack.len() > 0 {
        assert(stack[stack.len() - 1].path.len() > 0);
    }
    assert forall|i: int| 0 <= i < more.len() implies 0 < (#[trigger] more[i]).path.len()
        <= more.last().path.len() by {
        assert(i < stack.len() ==> more[i] == stack[i]);
    }
    assert forall|i: int| 0 <= i < stack.len() implies (#[trigger] stack[i]).path
        != frame.path by {
        assert(stack[i].path.len() < frame.path.len());
    }
}

proof fn lemma_chain_shape(
    node: JsonView,
    index: Seq<NodeView>,
    stack: Seq<FrameView>,
    chain: Seq<int>,
)
    requires
        all_named(index),
        named_paths(stack),
    ensures
        is_chain(node, index, stack, chain) <==> is_requirement_chain(node, index, chain)
            && clear_of(stack, chain),
    decreases chain.len(),
{
    if chain.len() > 0 && 0 <= chain[0] < index.len() {
        let k = chain[0];
        let rest = chain.drop_first();
        let frame = frame_at(index, stack, k);
        let deeper = stack.push(frame);
        lemma_named_push(index, stack, k);
        lemma_chain_shape(index[k].info, index, deeper, rest);
        assert forall|i: int| 0 <= i < rest.len() implies #[trigger] rest[i] == chain[i + 1] by {}
        assert forall|i: int| 0 <= i < rest.len() - 1 implies #[trigger] links(index, rest, i)
            == links(index, chain, i + 1) by {}
        if is_requirement_chain(node, index, chain) && clear_of(stack, chain) {
            if chain.len() > 1 {
                assert(links(index, chain, 0));
                assert forall|i: int| 0 <= i < rest.len() implies 0 <= #[trigger] rest[i]
                    < index.len() by {
                    assert(rest[i] == chain[i + 1]);
                }
                assert forall|i: int| 0 <= i < rest.len() - 1 implies #[trigger] links(
                    index,
                    rest,
                    i,
                ) by {
                    assert(links(index, chain, i + 1));
                }
                assert forall|i: int, j: int| 0 <= i < j < rest.len() - 1 implies #[trigger] rest[i]
                    != #[trigger] rest[j] by {
                    assert(chain[i + 1] != chain[j + 1]);
                }
                assert forall|i: int| 0 <= i < rest.len() - 1 implies !following(
                    deeper,
                    #[trigger] rest[i],
                ) by {
                    lemma_following_push(stack, frame, rest[i]);
                    assert(!following(stack, chain[i + 1]));
                    assert(chain[0] != chain[i + 1]);
                }
                assert(!following(stack, chain[0]));
                assert(is_chain(index[k].info, index, deeper, rest));
            }
        }
        if is_chain(node, index, stack, chain) {
            if chain.len() > 1 {
                assert forall|i: int| 0 <= i < chain.len() implies 0 <= #[trigger] chain[i]
                    < index.len() by {
                    if i > 0 {
                        assert(rest[i - 1] == chain[i]);
                    }
                }
                assert forall|i: int| 0 <= i < chain.len() - 1 implies #[trigger] links(
                    index,
                    chain,
                    i,
                ) by {
                    if i > 0 {
                        assert(links(index, rest, i - 1));
                    } else {
                        assert(rest[0] == chain[1]);
                    }
                }
                assert forall|i: int| 0 <= i < chain.len() - 1 implies !following(
                    stack,
                    #[trigger] chain[i],
                ) by {
                    if i > 0 {
                        assert(rest[i - 1] == chain[i]);
                        lemma_following_push(stack, frame, chain[i]);
                    }
                }
                assert forall|i: int, j: int|
                    0 <= i < j < chain.len() - 1 implies #[trigger] chain[i]
                    != #[trigger] chain[j] by {
                    assert(rest[j - 1] == chain[j]);
                    lemma_following_push(stack, frame, chain[j]);
                    if i > 0 {
                        assert(rest[i - 1] == chain[i]);
                    }
                }
            }
        }
    }
}

/// What stands before the names of a chain in its path.
spec fn path_before(stack: Seq<FrameView>) -> Seq<char> {
    if stack.len() == 0 {
        Seq::empty()
    } else {
        stack.last().path + ">"@
    }
}

proof fn lemma_found_by(
    node: JsonView,
    index: Seq<NodeView>,
    stack: Seq<FrameView>,
    chain: Seq<int>,
)
    requires
        all_named(index),
        named_paths(stack),
        is_chain(node, index, stack, chain),
    ensures
        ({
            let found = found_by(index, stack, chain);
            let end = index[chain.last()];
            &&& found.path == path_before(stack) + joined(chain_names(index, chain))
            &&& found == found_at(
                end.name,
                end.version,
                end.info,
                found.path,
                stack.len() + chain.len(),
            )
        }),
    decreases chain.len(),
{
    let k = chain[0];
    let names = chain_names(index, chain);
    if stack.len() > 0 {
        assert(stack[stack.len() - 1].path.len() > 0);
    }
    let frame = frame_at(index, stack, k);
    assert(frame.path =~= path_before(stack) + index[k].name);
    if chain.len() > 1 {
        let rest = chain.drop_first();
        let deeper = stack.push(frame);
        lemma_named_push(index, stack, k);
        lemma_found_by(index[k].info, index, deeper, rest);
        assert(names.drop_first() =~= chain_names(index, rest));
        let behind = joined(chain_names(index, rest));
        assert(frame.path + ">"@ + behind =~= path_before(stack) + (index[k].name + ">"@ + behind));
    } else {
        assert(path_before(stack) + joined(names) =~= frame.path);
    }
}

/// Where all installed packages have names, an audit says that a version of a package is required
/// by a path if and only if the path is made of the names along a chain of requirements that
/// ends at that version.
pub proof fn law_paths_are_requirement_chains(
    body: JsonView,
    name: Seq<char>,
    version: Seq<char>,
    path: Seq<char>,
)
    requires
        all_named(index_of(body)),
    ensures
        says_path(audit_of(body), name, version, path) <==> exists|chain: Seq<int>| #[trigger]
            is_requirement_chain(body, index_of(body), chain) && index_of(
                body,
            )[chain.last()].name == name && index_of(body)[chain.last()].version == version
                && joined(chain_names(index_of(body), chain)) == path,
{
    let index = index_of(body);
    let all = all_visits(body);
    let stack = Seq::<FrameView>::empty();
    law_path_iff_found(body, name, version, path);
    if says_path(audit_of(body), name, version, path) {
        let i = choose|i: int|
            0 <= i < all.len() && finds(#[trigger] all[i], name, version, path);
        let found = all[i]->Found_0;
        assert(all.contains(Visit::Found(found)));
        law_found_iff_chain(body, found);
        let chain = choose|chain: Seq<int>| #[trigger]
            is_chain(body, index, stack, chain) && found_by(index, stack, chain) == found;
        lemma_chain_shape(body, index, stack, chain);
        lemma_found_by(body, index, stack, chain);
        assert(path =~= joined(chain_names(index, chain)));
        assert(is_requirement_chain(body, index, chain));
    }
    if exists|chain: Seq<int>| #[trigger]
        is_requirement_chain(body, index, chain) && index[chain.last()].name == name
            && index[chain.last()].version == version && joined(chain_names(index, chain))
            == path {
        let chain = choose|chain: Seq<int>| #[trigger]
            is_requirement_chain(body, index, chain) && index[chain.last()].name == name
                && index[chain.last()].version == version && joined(chain_names(index, chain))
                == path;
        lemma_chain_shape(body, index, stack, chain);
        lemma_found_by(body, index, stack, chain);
        let found = found_by(index, stack, chain);
        assert(found.path =~= path);
        law_found_iff_chain(body, found);
        let i = all.index_of(Visit::Found(found));
        assert(finds(all[i], name, version, path));
    }
}

/// Where all installed packages have names, the depth of a package is the length of the shortest
/// chain of requirements that ends at a version of it.
pub proof fn law_depth_is_shortest_chain(body: JsonView, name: Seq<char>)
    requires
        all_named(index_of(body)),
    ensures
        match lookup(audit_of(body).pkg_min_depth, name) {
            Some(depth) => {
                &&& exists|chain: Seq<int>| #[trigger]
                    is_requirement_chain(body, index_of(body), chain) && index_of(
                        body,
                    )[chain.last()].name == name && chain.len() == depth
                &&& forall|chain: Seq<int>| #[trigger]
                    is_requirement_chain(body, index_of(body), chain) && index_of(
                        body,
                    )[chain.last()].name == name ==> depth <= chain.len()
            },
            None => forall|chain: Seq<int>| #[trigger]
                is_requirement_chain(body, index_of(body), chain) ==> index_of(
                    body,
                )[chain.last()].name != name,
        },
{
    let index = index_of(body);
    let all = all_visits(body);
    let stack = Seq::<FrameView>::empty();
    let depth = lookup(audit_of(body).pkg_min_depth, name);
    law_depth_is_least(body, name);
    assert forall|chain: Seq<int>| #[trigger]
        is_requirement_chain(body, index, chain) && index[chain.last()].name == name implies exists|
        i: int,
    | 0 <= i < all.len() && #[trigger] finds_at(all[i], name, chain.len()) by {
        lemma_chain_shape(body, index, stack, chain);
        lemma_found_by(body, index, stack, chain);
        let found = found_by(index, stack, chain);
        law_found_iff_chain(body, found);
        let i = all.index_of(Visit::Found(found));
        assert(finds_at(all[i], name, chain.len()));
    }
    match depth {
        Some(least) => {
            let i = choose|i: int| 0 <= i < all.len() && finds_at(#[trigger] all[i], name, least);
            let found = all[i]->Found_0;
            assert(all.contains(Visit::Found(found)));
            law_found_iff_chain(body, found);
            let chain = choose|chain: Seq<int>| #[trigger]
                is_chain(body, index, stack, chain) && found_by(index, stack, chain) == found;
            lemma_chain_shape(body, index, stack, chain);
            lemma_found_by(body, index, stack, chain);
            assert(is_requirement_chain(body, index, chain));
        },
        None => {},
    }
}

/// Whether a node requires this range of the package.
pub open spec fn requires_range(node: JsonView, name: Seq<char>, range: Seq<char>) -> bool {
    node.object_at("requires"@).contains((name, JsonView::Text(range)))
}

/// Whether the range is required by the node itself, or at the end of a chain that starts there.
spec fn required_from(
    node: JsonView,
    index: Seq<NodeView>,
    stack: Seq<FrameView>,
    name: Seq<char>,
    range: Seq<char>,
) -> bool {
    ||| requires_range(node, name, range)
    ||| exists|chain: Seq<int>| #[trigger]
        is_chain(node, index, stack, chain) && requires_range(
            index[chain.last()].info,
            name,
            range,
        )
}

/// Whether the range is required at the end of a chain that starts at a version of the package
/// `first`.
spec fn required_behind(
    first: Seq<char>,
    index: Seq<NodeView>,
    stack: Seq<FrameView>,
    name: Seq<char>,
    range: Seq<char>,
) -> bool {
    exists|chain: Seq<int>| #[trigger]
        leads(index, stack, chain) && index[chain[0]].name == first && requires_range(
            index[chain.last()].info,
            name,
            range,
        )
}

proof fn lemma_missing_is_required(
    node: JsonView,
    index: Seq<NodeView>,
    stack: Seq<FrameView>,
    name: Seq<char>,
    range: Seq<char>,
)
    requires
        visits(node, index, stack).contains(Visit::Missing { name, range }),
    ensures
        required_from(node, index, stack, name, range),
    decreases unentered(index.len(), stack), 3nat, 0nat,
{
    let requirements = node.object_at("requires"@);
    let r = lemma_missing_in_requirements(requirements, index, stack, name, range);
    if requirements[r] == (name, JsonView::Text(range)) {
        assert(requires_range(node, name, range));
    } else {
        let first = requirements[r].0;
        let chain = choose|chain: Seq<int>| #[trigger]
            leads(index, stack, chain) && index[chain[0]].name == first && requires_range(
                index[chain.last()].info,
                name,
                range,
            );
        assert(is_requirement_of(node.object_at("requires"@)[r], first));
        assert(is_chain(node, index, stack, chain));
    }
}

proof fn lemma_missing_in_requirements(
    requirements: Seq<(Seq<char>, JsonView)>,
    index: Seq<NodeView>,
    stack: Seq<FrameView>,
    name: Seq<char>,
    range: Seq<char>,
) -> (r: int)
    requires
        requirements_visits(requirements, index, stack).contains(Visit::Missing { name, range }),
    ensures
        0 <= r < requirements.len(),
        requirements[r] == (name, JsonView::Text(range)) || (requirements[r].1 is Text
            && required_behind(requirements[r].0, index, stack, name, range)),
    decreases unentered(index.len(), stack), 2nat, requirements.len(),
{
    let visit = Visit::Missing { name, range };
    let all = requirements_visits(requirements, index, stack);
    let some = requirements.drop_last();
    let earlier = requirements_visits(some, index, stack);
    let last = requirements.last();
    let here = requirement_visits(last.0, last.1, index, stack);
    let i = all.index_of(visit);
    if i < earlier.len() {
        assert(earlier[i] == visit);
        let r = lemma_missing_in_requirements(some, index, stack, name, range);
        assert(some[r] == requirements[r]);
        r
    } else {
        assert(here[i - earlier.len()] == visit);
        if last.1 is Text && indexed(index, last.0) {
            assert(here == versions_visits(last.0, index, stack, index.len()));
            assert(here.contains(visit));
            lemma_missing_behind(last.0, index, stack, index.len(), name, range);
        }
        requirements.len() - 1
    }
}

proof fn lemma_missing_behind(
    first: Seq<char>,
    index: Seq<NodeView>,
    stack: Seq<FrameView>,
    n: nat,
    name: Seq<char>,
    range: Seq<char>,
)
    requires
        n <= index.len(),
        versions_visits(first, index, stack, n).contains(Visit::Missing { name, range }),
    ensures
        required_behind(first, index, stack, name, range),
    decreases unentered(index.len(), stack), 0nat, n,
{
    let visit = Visit::Missing { name, range };
    let all = versions_visits(first, index, stack, n);
    let k = n - 1;
    let earlier = versions_visits(first, index, stack, k as nat);
    let i = all.index_of(visit);
    if i < earlier.len() {
        assert(earlier[i] == visit);
        lemma_missing_behind(first, index, stack, k as nat, name, range);
    } else {
        let frame = frame_at(index, stack, k);
        let deeper = stack.push(frame);
        let node = index[k].info;
        let inner = visits(node, index, deeper);
        assert(inner[i - earlier.len() - 1] == visit);
        lemma_unentered_push(index.len(), stack, frame);
        lemma_missing_is_required(node, index, deeper, name, range);
        if requires_range(node, name, range) {
            let chain = seq![k];
            assert(leads(index, stack, chain));
            assert(chain.last() == k);
        } else {
            let rest = choose|rest: Seq<int>| #[trigger]
                is_chain(node, index, deeper, rest) && requires_range(
                    index[rest.last()].info,
                    name,
                    range,
                );
            let chain = seq![k] + rest;
            assert(chain.drop_first() =~= rest);
            assert(chain.last() == rest.last());
            assert(leads(index, stack, chain));
        }
    }
}

/// Whether some chain of requirements ends at this version of the package.
pub open spec fn is_required(
    body: JsonView,
    index: Seq<NodeView>,
    name: Seq<char>,
    version: Seq<char>,
) -> bool {
    exists|chain: Seq<int>| #[trigger]
        is_requirement_chain(body, index, chain) && index[chain.last()].name == name
            && index[chain.last()].version == version
}

/// Whether the project requires this range of the package, or a package does that some chain of
/// requirements ends at.
pub open spec fn is_range_required(
    body: JsonView,
    index: Seq<NodeView>,
    name: Seq<char>,
    range: Seq<char>,
) -> bool {
    ||| requires_range(body, name, range)
    ||| exists|chain: Seq<int>| #[trigger]
        is_requirement_chain(body, index, chain) && requires_range(
            index[chain.last()].info,
            name,
            range,
        )
}

/// Where all installed packages have names, the registry is asked about an installed version if
/// and only if a chain of requirements ends at it, and about a range of a package that is not
/// installed if and only if the project requires it, or a package at the end of such a chain
/// does. It is asked about nothing else.
pub proof fn law_asked_about_what_is_required(body: JsonView, name: Seq<char>, version: Seq<char>)
    requires
        all_named(index_of(body)),
    ensures
        asks_about(audit_of(body), name, version) <==> if indexed(index_of(body), name) {
            is_required(body, index_of(body), name, version)
        } else {
            is_range_required(body, index_of(body), name, version)
        },
{
    let index = index_of(body);
    let all = all_visits(body);
    let stack = Seq::<FrameView>::empty();
    law_asked_iff_visited(body, name, version);
    law_visits_borne_out(body);
    law_requirements_answered(body);
    if asks_about(audit_of(body), name, version) {
        let i = choose|i: int|
            0 <= i < all.len() && calls_for(#[trigger] all[i], name, version);
        assert(borne_out(index, all[i]));
        match all[i] {
            Visit::Found(found) => {
                let k = choose|k: int|
                    0 <= k < index.len() && found_node(all[i], #[trigger] index[k]);
                assert(index[k].name == name);
                assert(all.contains(Visit::Found(found)));
                law_found_iff_chain(body, found);
                let chain = choose|chain: Seq<int>| #[trigger]
                    is_chain(body, index, stack, chain) && found_by(index, stack, chain) == found;
                lemma_chain_shape(body, index, stack, chain);
                lemma_found_by(body, index, stack, chain);
                assert(is_requirement_chain(body, index, chain));
            },
            Visit::Missing { name: missing, range } => {
                assert(all.contains(Visit::Missing { name, range: version }));
                lemma_missing_is_required(body, index, stack, name, version);
                if !requires_range(body, name, version) {
                    let chain = choose|chain: Seq<int>| #[trigger]
                        is_chain(body, index, stack, chain) && requires_range(
                            index[chain.last()].info,
                            name,
                            version,
                        );
                    lemma_chain_shape(body, index, stack, chain);
                    assert(is_requirement_chain(body, index, chain));
                }
            },
        }
    }
    if indexed(index, name) {
        if is_required(body, index, name, version) {
            let chain = choose|chain: Seq<int>| #[trigger]
                is_requirement_chain(body, index, chain) && index[chain.last()].name == name
                    && index[chain.last()].version == version;
            lemma_chain_is_found(body, chain);
            let found = found_by(index, stack, chain);
            let i = all.index_of(Visit::Found(found));
            assert(calls_for(all[i], name, version));
        }
    } else if is_range_required(body, index, name, version) {
        if requires_range(body, name, version) {
            lemma_missing_answered(all, index, body, name, version);
        } else {
            let chain = choose|chain: Seq<int>| #[trigger]
                is_requirement_chain(body, index, chain) && requires_range(
                    index[chain.last()].info,
                    name,
                    version,
                );
            lemma_chain_is_found(body, chain);
            let found = found_by(index, stack, chain);
            let i = all.index_of(Visit::Found(found));
            let k = chain.last();
            assert(chain[chain.len() - 1] == k);
            assert(found_node(all[i], index[k]));
            assert(found_in(all, index[k]));
            lemma_missing_answered(all, index, index[k].info, name, version);
        }
        let i = all.index_of(Visit::Missing { name, range: version });
        assert(calls_for(all[i], name, version));
    }
}

proof fn lemma_chain_is_found(body: JsonView, chain: Seq<int>)
    requires
        all_named(index_of(body)),
        is_requirement_chain(body, index_of(body), chain),
    ensures
        all_visits(body).contains(
            Visit::Found(found_by(index_of(body), Seq::<FrameView>::empty(), chain)),
        ),
        ({
            let found = found_by(index_of(body), Seq::<FrameView>::empty(), chain);
            let end = index_of(body)[chain.last()];
            found == found_at(end.name, end.version, end.info, found.path, chain.len())
        }),
{
    let index = index_of(body);
    let stack = Seq::<FrameView>::empty();
    lemma_chain_shape(body, index, stack, chain);
    lemma_found_by(body, index, stack, chain);
    law_found_iff_chain(body, found_by(index, stack, chain));
}

proof fn lemma_missing_answered(
    visits: Seq<Visit>,
    index: Seq<NodeView>,
    node: JsonView,
    name: Seq<char>,
    range: Seq<char>,
)
    requires
        covered(visits, index, node),
        requires_range(node, name, range),
        !indexed(index, name),
    ensures
        visits.contains(Visit::Missing { name, range }),
{
    let requirements = node.object_at("requires"@);
    let r = requirements.index_of((name, JsonView::Text(range)));
    assert(requirements[r] == (name, JsonView::Text(range)));
    assert(answered(visits, index, name, range));
}

} // verus!
