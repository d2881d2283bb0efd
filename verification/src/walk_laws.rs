//! What holds of the index of installed packages, and of following requirements through it.
use crate::audit::{
    all_visits, filed_all, following, follows, found_at, index_of, indexed, installed,
    lemma_unentered_push, on_path, path_to, place, requirement_visits, requirements_visits,
    unentered, versions_visits, visits, FrameView, NodeView, Visit,
};
use crate::json::JsonView;
use vstd::prelude::*;

verus! {

/// Whether the visit found the node, and says of it what the node says.
pub open spec fn found_node(visit: Visit, node: NodeView) -> bool {
    match visit {
        Visit::Found(found) => {
            &&& found.name == node.name
            &&& found.version == node.version
            &&& found.dev == node.info.flag_at("dev"@)
            &&& found.optional == node.info.flag_at("optional"@)
            &&& found.bundled == node.info.flag_at("bundled"@)
        },
        Visit::Missing { .. } => false,
    }
}

/// Whether the index bears the visit out: what was found is a node of it, and of what was
/// missing it has no version.
pub open spec fn borne_out(index: Seq<NodeView>, visit: Visit) -> bool {
    match visit {
        Visit::Found(found) => found.depth >= 1 && exists|k: int|
            0 <= k < index.len() && found_node(visit, #[trigger] index[k]),
        Visit::Missing { name, .. } => !indexed(index, name),
    }
}

/// Whether the index bears all of the visits out.
pub open spec fn all_borne_out(index: Seq<NodeView>, visits: Seq<Visit>) -> bool {
    forall|i: int| 0 <= i < visits.len() ==> borne_out(index, #[trigger] visits[i])
}

proof fn lemma_visits_borne_out(node: JsonView, index: Seq<NodeView>, stack: Seq<FrameView>)
    ensures
        all_borne_out(index, visits(node, index, stack)),
    decreases unentered(index.len(), stack), 3nat, 0nat,
{
    lemma_requirements_borne_out(node.object_at("requires"@), index, stack);
}

proof fn lemma_requirements_borne_out(
    requirements: Seq<(Seq<char>, JsonView)>,
    index: Seq<NodeView>,
    stack: Seq<FrameView>,
)
    ensures
        all_borne_out(index, requirements_visits(requirements, index, stack)),
    decreases unentered(index.len(), stack), 2nat, requirements.len(),
{
    if requirements.len() > 0 {
        lemma_requirements_borne_out(requirements.drop_last(), index, stack);
        lemma_requirement_borne_out(requirements.last().0, requirements.last().1, index, stack);
    }
}

proof fn lemma_requirement_borne_out(
    name: Seq<char>,
    range: JsonView,
    index: Seq<NodeView>,
    stack: Seq<FrameView>,
)
    ensures
        all_borne_out(index, requirement_visits(name, range, index, stack)),
    decreases unentered(index.len(), stack), 1nat, 0nat,
{
    if indexed(index, name) {
        lemma_versions_borne_out(name, index, stack, index.len());
    }
}

proof fn lemma_versions_borne_out(
    name: Seq<char>,
    index: Seq<NodeView>,
    stack: Seq<FrameView>,
    n: nat,
)
    ensures
        all_borne_out(index, versions_visits(name, index, stack, n)),
    decreases unentered(index.len(), stack), 0nat, n,
{
    if 0 < n <= index.len() {
        lemma_versions_borne_out(name, index, stack, (n - 1) as nat);
        let node = index[n - 1];
        let path = path_to(stack, name);
        if node.name == name {
            let visit = Visit::Found(
                found_at(name, node.version, node.info, path, stack.len() + 1),
            );
            assert(found_node(visit, index[n - 1]));
            assert(borne_out(index, visit));
            if follows(stack, path, n - 1) {
                let frame = FrameView { path, node: n - 1 };
                lemma_unentered_push(index.len(), stack, frame);
                lemma_visits_borne_out(node.info, index, stack.push(frame));
            }
        }
    }
}

/// Following the requirements finds installed packages only, with the flags of their entries,
/// and takes a package for missing only where no version of it is installed.
pub proof fn law_visits_borne_out(body: JsonView)
    ensures
        all_borne_out(index_of(body), all_visits(body)),
{
    lemma_visits_borne_out(body, index_of(body), Seq::empty());
}

/// Whether no two nodes of the index have the same name and version.
pub open spec fn distinct_nodes(index: Seq<NodeView>) -> bool {
    forall|i: int, j: int|
        0 <= i < j < index.len() ==> (#[trigger] index[i]).name != (#[trigger] index[j]).name
            || index[i].version != index[j].version
}

proof fn lemma_place(index: Seq<NodeView>, name: Seq<char>, version: Seq<char>)
    ensures
        place(index, name, version) <= index.len(),
        place(index, name, version) < index.len() ==> index[place(
            index,
            name,
            version,
        ) as int].name == name && index[place(index, name, version) as int].version == version,
        forall|i: int|
            0 <= i < place(index, name, version) ==> (#[trigger] index[i]).name != name
                || index[i].version != version,
    decreases index.len(),
{
    if index.len() > 0 {
        lemma_place(index.drop_last(), name, version);
        assert forall|i: int| 0 <= i < place(index, name, version) implies (
        #[trigger] index[i]).name != name || index[i].version != version by {
            if i < index.len() - 1 {
                assert(index.drop_last()[i] == index[i]);
            }
        }
    }
}

proof fn lemma_filed_distinct(listing: Seq<NodeView>)
    ensures
        distinct_nodes(filed_all(Seq::empty(), listing)),
    decreases listing.len(),
{
    if listing.len() > 0 {
        lemma_filed_distinct(listing.drop_last());
        let before = filed_all(Seq::empty(), listing.drop_last());
        let node = listing.last();
        lemma_place(before, node.name, node.version);
    }
}

/// Whether `node` is the last in `listing` of its name and version.
pub open spec fn is_last_listed(listing: Seq<NodeView>, node: NodeView) -> bool {
    exists|i: int| #[trigger] last_listed_at(listing, node, i)
}

/// Whether `node` stands at position `i` of `listing`, and none of its name and version behind it.
pub open spec fn last_listed_at(listing: Seq<NodeView>, node: NodeView, i: int) -> bool {
    &&& 0 <= i < listing.len()
    &&& listing[i] == node
    &&& forall|j: int|
        i < j < listing.len() ==> (#[trigger] listing[j]).name != node.name || listing[j].version
            != node.version
}

proof fn lemma_last_listed(listing: Seq<NodeView>, node: NodeView)
    requires
        listing.len() > 0,
    ensures
        is_last_listed(listing, node) <==> node == listing.last() || ((node.name
            != listing.last().name || node.version != listing.last().version) && is_last_listed(
            listing.drop_last(),
            node,
        )),
{
    let before = listing.drop_last();
    if is_last_listed(listing, node) && node != listing.last() {
        let i = choose|i: int| #[trigger] last_listed_at(listing, node, i);
        assert(i < before.len());
        assert(listing[listing.len() - 1] == listing.last());
        assert(last_listed_at(before, node, i));
    }
    if node == listing.last() {
        assert(last_listed_at(listing, node, listing.len() - 1));
    }
    if (node.name != listing.last().name || node.version != listing.last().version)
        && is_last_listed(before, node) {
        let i = choose|i: int| #[trigger] last_listed_at(before, node, i);
        assert forall|j: int| i < j < listing.len() implies (#[trigger] listing[j]).name
            != node.name || listing[j].version != node.version by {
            if j < before.len() {
                assert(before[j] == listing[j]);
            }
        }
        assert(last_listed_at(listing, node, i));
    }
}

proof fn lemma_filed_last(listing: Seq<NodeView>, node: NodeView)
    ensures
        filed_all(Seq::empty(), listing).contains(node) <==> is_last_listed(listing, node),
    decreases listing.len(),
{
    if listing.len() > 0 {
        let before = filed_all(Seq::empty(), listing.drop_last());
        let after = filed_all(Seq::empty(), listing);
        let added = listing.last();
        lemma_filed_last(listing.drop_last(), node);
        lemma_last_listed(listing, node);
        lemma_filed_distinct(listing.drop_last());
        lemma_place(before, added.name, added.version);
        let at = place(before, added.name, added.version) as int;
        assert(after[at] == added);
        if after.contains(node) {
            let k = choose|k: int| 0 <= k < after.len() && after[k] == node;
            if k != at {
                assert(before[k] == node);
                if at < before.len() {
                    assert(before[at].name == added.name && before[at].version == added.version);
                }
            }
        }
        if before.contains(node) && (node.name != added.name || node.version != added.version) {
            let k = choose|k: int| 0 <= k < before.len() && before[k] == node;
            assert(after[k] == node);
        }
    }
}

/// The index has a node once for each name and version that the tree of dependencies names: the
/// last one, where the tree names it more than once.
pub proof fn law_index_keeps_last(body: JsonView, node: NodeView)
    ensures
        distinct_nodes(index_of(body)),
        index_of(body).contains(node) <==> is_last_listed(installed(body), node),
{
    lemma_filed_distinct(installed(body));
    lemma_filed_last(installed(body), node);
}

/// Whether one of the visits found the node.
pub open spec fn found_in(visits: Seq<Visit>, node: NodeView) -> bool {
    exists|i: int| 0 <= i < visits.len() && found_node(#[trigger] visits[i], node)
}

/// Whether the visits answer a requirement: every installed version of the package was found,
/// or, where none is installed, the range was taken down.
pub open spec fn answered(
    visits: Seq<Visit>,
    index: Seq<NodeView>,
    name: Seq<char>,
    range: Seq<char>,
) -> bool {
    if indexed(index, name) {
        forall|k: int|
            0 <= k < index.len() && (#[trigger] index[k]).name == name ==> found_in(
                visits,
                index[k],
            )
    } else {
        visits.contains(Visit::Missing { name, range })
    }
}

/// Whether the visits answer all of the requirements.
pub open spec fn all_answered(
    visits: Seq<Visit>,
    index: Seq<NodeView>,
    requirements: Seq<(Seq<char>, JsonView)>,
) -> bool {
    forall|r: int|
        #![trigger requirements[r]]
        0 <= r < requirements.len() && requirements[r].1 is Text ==> answered(
            visits,
            index,
            requirements[r].0,
            requirements[r].1->Text_0,
        )
}

/// Whether the visits answer all requirements of a node.
pub open spec fn covered(visits: Seq<Visit>, index: Seq<NodeView>, node: JsonView) -> bool {
    all_answered(visits, index, node.object_at("requires"@))
}

/// Whether every visit of `some` is one of `more`.
spec fn within(some: Seq<Visit>, more: Seq<Visit>) -> bool {
    forall|i: int| 0 <= i < some.len() ==> more.contains(#[trigger] some[i])
}

proof fn lemma_within(some: Seq<Visit>, before: Seq<Visit>, behind: Seq<Visit>)
    ensures
        within(some, before + some + behind),
{
    let more = before + some + behind;
    assert forall|i: int| 0 <= i < some.len() implies more.contains(#[trigger] some[i]) by {
        assert(more[before.len() + i] == some[i]);
    }
}

proof fn lemma_found_within(some: Seq<Visit>, more: Seq<Visit>, node: NodeView)
    requires
        within(some, more),
        found_in(some, node),
    ensures
        found_in(more, node),
{
    let i = choose|i: int| 0 <= i < some.len() && found_node(#[trigger] some[i], node);
    let j = more.index_of(some[i]);
    assert(more.contains(some[i]));
    assert(found_node(more[j], node));
}

proof fn lemma_answered_within(
    some: Seq<Visit>,
    more: Seq<Visit>,
    index: Seq<NodeView>,
    requirements: Seq<(Seq<char>, JsonView)>,
)
    requires
        within(some, more),
        all_answered(some, index, requirements),
    ensures
        all_answered(more, index, requirements),
{
    assert forall|r: int|
        #![trigger requirements[r]]
        0 <= r < requirements.len() && requirements[r].1 is Text implies answered(
        more,
        index,
        requirements[r].0,
        requirements[r].1->Text_0,
    ) by {
        let name = requirements[r].0;
        let range = requirements[r].1->Text_0;
        assert(answered(some, index, name, range));
        if indexed(index, name) {
            assert forall|k: int|
                0 <= k < index.len() && (#[trigger] index[k]).name == name implies found_in(
                more,
                index[k],
            ) by {
                lemma_found_within(some, more, index[k]);
            }
        } else {
            let i = some.index_of(Visit::Missing { name, range });
            assert(more.contains(some[i]));
        }
    }
}

proof fn lemma_versions_found(
    name: Seq<char>,
    index: Seq<NodeView>,
    stack: Seq<FrameView>,
    n: nat,
    k: int,
)
    requires
        0 <= k < n <= index.len(),
        index[k].name == name,
    ensures
        found_in(versions_visits(name, index, stack, n), index[k]),
    decreases n,
{
    let earlier = versions_visits(name, index, stack, (n - 1) as nat);
    let all = versions_visits(name, index, stack, n);
    if k == n - 1 {
        assert(found_node(all[earlier.len() as int], index[k]));
    } else {
        lemma_versions_found(name, index, stack, (n - 1) as nat, k);
        let i = choose|i: int|
            0 <= i < earlier.len() && found_node(#[trigger] earlier[i], index[k]);
        assert(all[i] == earlier[i]);
    }
}

proof fn lemma_requirement_answered(
    name: Seq<char>,
    range: Seq<char>,
    index: Seq<NodeView>,
    stack: Seq<FrameView>,
)
    ensures
        answered(
            requirement_visits(name, JsonView::Text(range), index, stack),
            index,
            name,
            range,
        ),
{
    let all = requirement_visits(name, JsonView::Text(range), index, stack);
    if indexed(index, name) {
        assert forall|k: int|
            0 <= k < index.len() && (#[trigger] index[k]).name == name implies found_in(
            all,
            index[k],
        ) by {
            lemma_versions_found(name, index, stack, index.len(), k);
        }
    } else {
        assert(all[0] == Visit::Missing { name, range });
    }
}

/// Following requirements answers them.
proof fn lemma_requirements_answered(
    requirements: Seq<(Seq<char>, JsonView)>,
    index: Seq<NodeView>,
    stack: Seq<FrameView>,
)
    ensures
        all_answered(requirements_visits(requirements, index, stack), index, requirements),
    decreases requirements.len(),
{
    if requirements.len() > 0 {
        let some = requirements.drop_last();
        let earlier = requirements_visits(some, index, stack);
        let (name, range) = requirements.last();
        let last = requirement_visits(name, range, index, stack);
        let all = requirements_visits(requirements, index, stack);
        lemma_requirements_answered(some, index, stack);
        assert(all =~= Seq::empty() + earlier + last);
        lemma_within(earlier, Seq::empty(), last);
        lemma_answered_within(earlier, all, index, some);
        assert forall|r: int|
            #![trigger requirements[r]]
            0 <= r < requirements.len() && requirements[r].1 is Text implies answered(
            all,
            index,
            requirements[r].0,
            requirements[r].1->Text_0,
        ) by {
            if r < some.len() {
                assert(some[r] == requirements[r]);
            } else {
                lemma_requirement_answered(name, range->Text_0, index, stack);
                let one = seq![requirements[r]];
                assert(all =~= earlier + last + Seq::empty());
                lemma_within(last, earlier, Seq::empty());
                lemma_answered_within(last, all, index, one);
                assert(one[0] == requirements[r]);
            }
        }
    }
}

/// Whether the paths of the nodes that are followed do not become shorter towards the last.
spec fn growing(stack: Seq<FrameView>) -> bool {
    forall|i: int|
        0 <= i < stack.len() ==> (#[trigger] stack[i]).path.len() <= stack.last().path.len()
}

/// Whether the requirements of the node at position `k` are answered by the visits, or have been
/// left to a node that is being followed.
spec fn settled(
    visits: Seq<Visit>,
    index: Seq<NodeView>,
    stack: Seq<FrameView>,
    k: int,
) -> bool {
    ||| covered(visits, index, index[k].info)
    ||| following(stack, k)
    ||| index[k].name.len() == 0 && on_path(stack, Seq::empty())
}

spec fn all_settled(visits: Seq<Visit>, index: Seq<NodeView>, stack: Seq<FrameView>) -> bool {
    forall|k: int|
        0 <= k < index.len() && found_in(visits, #[trigger] index[k]) ==> settled(
            visits,
            index,
            stack,
            k,
        )
}

proof fn lemma_visits_settled(node: JsonView, index: Seq<NodeView>, stack: Seq<FrameView>)
    requires
        distinct_nodes(index),
        growing(stack),
    ensures
        all_settled(visits(node, index, stack), index, stack),
    decreases unentered(index.len(), stack), 3nat, 0nat,
{
    lemma_requirements_settled(node.object_at("requires"@), index, stack);
}

proof fn lemma_requirements_settled(
    requirements: Seq<(Seq<char>, JsonView)>,
    index: Seq<NodeView>,
    stack: Seq<FrameView>,
)
    requires
        distinct_nodes(index),
        growing(stack),
    ensures
        all_settled(requirements_visits(requirements, index, stack), index, stack),
    decreases unentered(index.len(), stack), 2nat, requirements.len(),
{
    let all = requirements_visits(requirements, index, stack);
    if requirements.len() > 0 {
        let earlier = requirements_visits(requirements.drop_last(), index, stack);
        let (name, range) = requirements.last();
        let last = requirement_visits(name, range, index, stack);
        lemma_requirements_settled(requirements.drop_last(), index, stack);
        lemma_requirement_settled(name, range, index, stack);
        lemma_within(earlier, Seq::empty(), last);
        lemma_within(last, earlier, Seq::empty());
        assert(all =~= Seq::empty() + earlier + last);
        assert(all =~= earlier + last + Seq::empty());
        assert forall|k: int|
            0 <= k < index.len() && found_in(all, #[trigger] index[k]) implies settled(
            all,
            index,
            stack,
            k,
        ) by {
            let requires_of = index[k].info.object_at("requires"@);
            if covered(earlier, index, index[k].info) {
                lemma_answered_within(earlier, all, index, requires_of);
            }
            if covered(last, index, index[k].info) {
                lemma_answered_within(last, all, index, requires_of);
            }
            let i = choose|i: int| 0 <= i < all.len() && found_node(#[trigger] all[i], index[k]);
            if i < earlier.len() {
                assert(found_node(earlier[i], index[k]));
            } else {
                assert(found_node(last[i - earlier.len()], index[k]));
            }
        }
    }
}

proof fn lemma_requirement_settled(
    name: Seq<char>,
    range: JsonView,
    index: Seq<NodeView>,
    stack: Seq<FrameView>,
)
    requires
        distinct_nodes(index),
        growing(stack),
    ensures
        all_settled(requirement_visits(name, range, index, stack), index, stack),
    decreases unentered(index.len(), stack), 1nat, 0nat,
{
    let all = requirement_visits(name, range, index, stack);
    if range is Text && indexed(index, name) {
        lemma_versions_settled(name, index, stack, index.len());
        assert forall|k: int|
            0 <= k < index.len() && found_in(all, #[trigger] index[k]) implies settled(
            all,
            index,
            stack,
            k,
        ) by {
            if stack.len() == 0 && name.len() == 0 && index[k].name.len() == 0 {
                assert(index[k].name =~= name);
                lemma_followed_from_project(name, index, stack, index.len(), k);
            }
        }
    }
}

/// The project's own requirements are followed at every version that they lead to.
proof fn lemma_followed_from_project(
    name: Seq<char>,
    index: Seq<NodeView>,
    stack: Seq<FrameView>,
    n: nat,
    k: int,
)
    requires
        stack.len() == 0,
        0 <= k < n <= index.len(),
        index[k].name == name,
    ensures
        covered(versions_visits(name, index, stack, n), index, index[k].info),
    decreases n,
{
    let all = versions_visits(name, index, stack, n);
    let earlier = versions_visits(name, index, stack, (n - 1) as nat);
    let needed = index[k].info.object_at("requires"@);
    let path = path_to(stack, name);
    if k == n - 1 {
        let inner = visits(index[k].info, index, stack.push(FrameView { path, node: k }));
        let visit = Visit::Found(
            found_at(name, index[k].version, index[k].info, path, stack.len() + 1),
        );
        lemma_requirements_answered(needed, index, stack.push(FrameView { path, node: k }));
        assert(all =~= earlier.push(visit) + inner + Seq::empty());
        lemma_within(inner, earlier.push(visit), Seq::empty());
        lemma_answered_within(inner, all, index, needed);
    } else {
        lemma_followed_from_project(name, index, stack, (n - 1) as nat, k);
        let behind = all.skip(earlier.len() as int);
        assert(all =~= Seq::empty() + earlier + behind);
        lemma_within(earlier, Seq::empty(), behind);
        lemma_answered_within(earlier, all, index, needed);
    }
}

proof fn lemma_versions_settled(
    name: Seq<char>,
    index: Seq<NodeView>,
    stack: Seq<FrameView>,
    n: nat,
)
    requires
        distinct_nodes(index),
        growing(stack),
        n <= index.len(),
    ensures
        forall|k: int|
            0 <= k < index.len() && found_in(
                versions_visits(name, index, stack, n),
                #[trigger] index[k],
            ) ==> settled(versions_visits(name, index, stack, n), index, stack, k) || (stack.len()
                == 0 && name.len() == 0 && index[k].name.len() == 0),
    decreases unentered(index.len(), stack), 0nat, n,
{
    let all = versions_visits(name, index, stack, n);
    if n > 0 {
        let at = n - 1;
        let earlier = versions_visits(name, index, stack, at as nat);
        lemma_versions_settled(name, index, stack, at as nat);
        let behind = all.skip(earlier.len() as int);
        assert(all =~= Seq::empty() + earlier + behind);
        lemma_within(earlier, Seq::empty(), behind);
        let node = index[at];
        let path = path_to(stack, name);
        let visit = Visit::Found(
            found_at(name, node.version, node.info, path, stack.len() + 1),
        );
        let frame = FrameView { path, node: at };
        let deeper = stack.push(frame);
        let inner = visits(node.info, index, deeper);
        let descends = node.name == name && follows(stack, path, at);
        if descends {
            lemma_unentered_push(index.len(), stack, frame);
            assert forall|i: int| 0 <= i < deeper.len() implies (#[trigger] deeper[i]).path.len()
                <= deeper.last().path.len() by {
                if i < stack.len() {
                    assert(deeper[i] == stack[i]);
                    reveal_strlit(">");
                }
            }
            lemma_visits_settled(node.info, index, deeper);
            lemma_requirements_answered(node.info.object_at("requires"@), index, deeper);
            assert(all =~= earlier.push(visit) + inner + Seq::empty());
            lemma_within(inner, earlier.push(visit), Seq::empty());
        }
        assert forall|k: int|
            0 <= k < index.len() && found_in(all, #[trigger] index[k]) implies settled(
            all,
            index,
            stack,
            k,
        ) || (stack.len() == 0 && name.len() == 0 && index[k].name.len() == 0) by {
            let needed = index[k].info.object_at("requires"@);
            let i = choose|i: int| 0 <= i < all.len() && found_node(#[trigger] all[i], index[k]);
            if i < earlier.len() {
                assert(found_node(earlier[i], index[k]));
                if covered(earlier, index, index[k].info) {
                    lemma_answered_within(earlier, all, index, needed);
                }
            } else {
                assert(node.name == name);
                if descends && covered(inner, index, index[k].info) {
                    lemma_answered_within(inner, all, index, needed);
                }
                if i == earlier.len() {
                    assert(all[i] == visit);
                    assert(k == at);
                    if !descends && !following(stack, k) {
                        lemma_path_repeats(stack, name);
                    }
                } else {
                    assert(all[i] == inner[i - earlier.len() - 1]);
                    assert(found_in(inner, index[k]));
                    assert(settled(inner, index, deeper, k));
                    if following(deeper, k) && k != at {
                        let f = choose|f: int|
                            0 <= f < deeper.len() && (#[trigger] deeper[f]).node == k;
                        assert(stack[f].node == k);
                    }
                    if on_path(deeper, Seq::empty()) {
                        let f = choose|f: int|
                            0 <= f < deeper.len() && (#[trigger] deeper[f]).path == Seq::<
                                char,
                            >::empty();
                        if f < stack.len() {
                            assert(stack[f].path == Seq::<char>::empty());
                        } else {
                            reveal_strlit(">");
                            if stack.len() > 0 {
                                assert(stack.last().path =~= Seq::empty());
                                assert(stack[stack.len() - 1].path == Seq::<char>::empty());
                            }
                        }
                    }
                }
            }
        }
    }
}

/// A path comes twice only where it is empty.
proof fn lemma_path_repeats(stack: Seq<FrameView>, name: Seq<char>)
    requires
        growing(stack),
        on_path(stack, path_to(stack, name)),
    ensures
        name.len() == 0,
        on_path(stack, Seq::empty()),
{
    reveal_strlit(">");
    let i = choose|i: int|
        0 <= i < stack.len() && (#[trigger] stack[i]).path == path_to(stack, name);
    assert(stack[i].path.len() <= stack.last().path.len());
    assert(stack[i].path =~= Seq::empty());
}

/// Following the requirements leaves none unanswered: neither of the project itself nor of any
/// installed package that is found on the way. An answer is every installed version of the
/// required package, or the range where none is installed.
pub proof fn law_requirements_answered(body: JsonView)
    ensures
        covered(all_visits(body), index_of(body), body),
        forall|k: int|
            0 <= k < index_of(body).len() && found_in(
                all_visits(body),
                #[trigger] index_of(body)[k],
            ) ==> covered(all_visits(body), index_of(body), index_of(body)[k].info),
{
    let index = index_of(body);
    let stack = Seq::<FrameView>::empty();
    lemma_filed_distinct(installed(body));
    lemma_requirements_answered(body.object_at("requires"@), index, stack);
    lemma_visits_settled(body, index, stack);
}

/// A node is followed unless it is being followed already, or its path is that of a node that is.
pub proof fn law_followed_unless_round(stack: Seq<FrameView>, path: Seq<char>, node: int)
    ensures
        follows(stack, path, node) <==> forall|i: int|
            0 <= i < stack.len() ==> (#[trigger] stack[i]).path != path && stack[i].node != node,
{
}

/// Requirements are followed one after the other: what is come upon by two lists of them, one
/// behind the other, is what is come upon by the first and then what is come upon by the second.
pub proof fn law_requirements_in_order(
    first: Seq<(Seq<char>, JsonView)>,
    rest: Seq<(Seq<char>, JsonView)>,
    index: Seq<NodeView>,
    stack: Seq<FrameView>,
)
    ensures
        requirements_visits(first + rest, index, stack) == requirements_visits(first, index, stack)
            + requirements_visits(rest, index, stack),
    decreases rest.len(),
{
    let all = requirements_visits(first + rest, index, stack);
    let (a, b) = (
        requirements_visits(first, index, stack),
        requirements_visits(rest, index, stack),
    );
    if rest.len() == 0 {
        assert(first + rest =~= first);
        assert(a + b =~= a);
    } else {
        law_requirements_in_order(first, rest.drop_last(), index, stack);
        assert((first + rest).drop_last() =~= first + rest.drop_last());
        assert((first + rest).last() == rest.last());
        assert(all =~= a + b);
    }
}

} // verus!
