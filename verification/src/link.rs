//! Second pass of the scene graph builder: the parent/child links between
//! the entities of the first pass.

use crate::entity::{node_components, Entity, EntityView, SourceNode};
use crate::scene::DanglingReference;
use crate::walk::{first_pass_state, holds, is_visit_list, lemma_state_visit_list};
use vstd::prelude::*;

verus! {

/// The position of node `c` in the visiting order.
pub open spec fn position_in(order: Seq<usize>, c: int) -> int {
    choose|k: int| 0 <= k < order.len() && #[trigger] order[k] == c
}

/// The id of the entity made for the visited node `c`.
pub open spec fn id_of(order: Seq<usize>, first: int, c: int) -> u32 {
    (first + position_in(order, c)) as u32
}

/// Whether child `j` of the node visited at position `p` was given no entity.
pub open spec fn dangles(nodes: Seq<SourceNode>, order: Seq<usize>, p: int, j: int) -> bool {
    !holds(order, nodes[order[p] as int].children@[j] as int)
}

/// The ids of those among the first `j` children of the node visited at
/// position `p` that have an entity, in the order in which the node lists
/// them.
pub open spec fn resolved_children(
    nodes: Seq<SourceNode>,
    order: Seq<usize>,
    first: int,
    p: int,
    j: int,
) -> Seq<u32>
    decreases j,
{
    if j <= 0 {
        Seq::empty()
    } else if dangles(nodes, order, p, j - 1) {
        resolved_children(nodes, order, first, p, j - 1)
    } else {
        resolved_children(nodes, order, first, p, j - 1).push(
            id_of(order, first, nodes[order[p] as int].children@[j - 1] as int),
        )
    }
}

/// The ids of the children of the node visited at position `p`: those of
/// its listed children that have an entity, in the order in which the node
/// lists them.
pub open spec fn child_ids(nodes: Seq<SourceNode>, order: Seq<usize>, first: int, p: int) -> Seq<u32> {
    resolved_children(nodes, order, first, p, nodes[order[p] as int].children@.len() as int)
}

/// The dangling edges among the first `j` children of the node visited at
/// position `p`, in the order in which the node lists them.
pub open spec fn dangling_in(nodes: Seq<SourceNode>, order: Seq<usize>, p: int, j: int) -> Seq<
    DanglingReference,
>
    decreases j,
{
    if j <= 0 {
        Seq::empty()
    } else if dangles(nodes, order, p, j - 1) {
        dangling_in(nodes, order, p, j - 1).push(
            DanglingReference {
                parent: order[p],
                child: nodes[order[p] as int].children@[j - 1],
            },
        )
    } else {
        dangling_in(nodes, order, p, j - 1)
    }
}

/// The dangling edges of the first `p` visited nodes, parent by parent in
/// visiting order.
pub open spec fn dangling_before(nodes: Seq<SourceNode>, order: Seq<usize>, p: int) -> Seq<
    DanglingReference,
>
    decreases p,
{
    if p <= 0 {
        Seq::empty()
    } else {
        dangling_before(nodes, order, p - 1) + dangling_in(
            nodes,
            order,
            p - 1,
            nodes[order[p - 1] as int].children@.len() as int,
        )
    }
}

/// Every dangling edge of a document, parent by parent in visiting order
/// and child by child.
pub open spec fn dangling_edges(nodes: Seq<SourceNode>, order: Seq<usize>) -> Seq<DanglingReference> {
    dangling_before(nodes, order, order.len() as int)
}

/// The position of the last among the first `p` visited nodes that lists
/// node `c` as a child.
pub open spec fn last_parent(nodes: Seq<SourceNode>, order: Seq<usize>, c: int, p: int) -> Option<int>
    decreases p,
{
    if p <= 0 {
        None
    } else if holds(nodes[order[p - 1] as int].children@, c) {
        Some(p - 1)
    } else {
        last_parent(nodes, order, c, p - 1)
    }
}

/// The id of the entity at a position, if there is a position.
pub open spec fn id_at(first: int, position: Option<int>) -> Option<u32> {
    match position {
        Some(p) => Some((first + p) as u32),
        None => None,
    }
}

/// The finished entity at position `k`: its id counts up from `first`, its
/// children are those listed children of its node that have an entity, and
/// its parent is the last visited node that lists it as a child.
pub open spec fn linked_entity(nodes: Seq<SourceNode>, order: Seq<usize>, first: int, k: int) -> EntityView {
    EntityView {
        id: (first + k) as u32,
        parent: id_at(first, last_parent(nodes, order, order[k] as int, order.len() as int)),
        children: child_ids(nodes, order, first, k),
        components: node_components(nodes[order[k] as int]),
    }
}

/// In a visit list a node's position is the place where it stands.
pub(crate) proof fn lemma_position_in(nodes: Seq<SourceNode>, order: Seq<usize>, k: int)
    requires
        is_visit_list(nodes, order),
        0 <= k < order.len(),
    ensures
        holds(order, order[k] as int),
        position_in(order, order[k] as int) == k,
{
    let c = order[k] as int;
    assert(0 <= k < order.len() && order[k] == c);
    let found = position_in(order, c);
    assert(0 <= found < order.len() && order[found] == c);
    if found < k {
        assert(order[found] != order[k]);
    } else if k < found {
        assert(order[k] != order[found]);
    }
}

/// Two visited nodes with one id are one node.
pub proof fn lemma_id_of_injective(nodes: Seq<SourceNode>, order: Seq<usize>, first: int, a: int, b: int)
    requires
        0 <= first,
        first + order.len() <= u32::MAX,
        holds(order, a),
        holds(order, b),
        id_of(order, first, a) == id_of(order, first, b),
    ensures
        a == b,
{
    let x = position_in(order, a);
    let y = position_in(order, b);
    assert(0 <= x < order.len() && order[x] == a);
    assert(0 <= y < order.len() && order[y] == b);
}

/// Whether child `i` of the node visited at position `p` has an entity and
/// `id` is that entity's id.
pub open spec fn resolves_to(
    nodes: Seq<SourceNode>,
    order: Seq<usize>,
    first: int,
    p: int,
    i: int,
    id: u32,
) -> bool {
    !dangles(nodes, order, p, i) && id == id_of(order, first, nodes[order[p] as int].children@[i] as int)
}

/// Every id among the resolved children comes from a listed child that has
/// an entity; the result is the place of such a child in the node's list.
pub proof fn lemma_resolved_source(
    nodes: Seq<SourceNode>,
    order: Seq<usize>,
    first: int,
    p: int,
    j: int,
    t: int,
) -> (i: int)
    requires
        0 <= t < resolved_children(nodes, order, first, p, j).len(),
    ensures
        0 <= i < j,
        resolves_to(nodes, order, first, p, i, resolved_children(nodes, order, first, p, j)[t]),
    decreases j,
{
    let before = resolved_children(nodes, order, first, p, j - 1);
    if t < before.len() {
        lemma_resolved_source(nodes, order, first, p, j - 1, t)
    } else {
        j - 1
    }
}

/// The id of every listed child that has an entity is among the resolved
/// children; the result is its place there.
pub proof fn lemma_resolved_target(
    nodes: Seq<SourceNode>,
    order: Seq<usize>,
    first: int,
    p: int,
    j: int,
    i: int,
) -> (t: int)
    requires
        0 <= i < j,
        !dangles(nodes, order, p, i),
    ensures
        0 <= t < resolved_children(nodes, order, first, p, j).len(),
        resolved_children(nodes, order, first, p, j)[t] == id_of(
            order,
            first,
            nodes[order[p] as int].children@[i] as int,
        ),
    decreases j,
{
    let before = resolved_children(nodes, order, first, p, j - 1);
    if i < j - 1 {
        lemma_resolved_target(nodes, order, first, p, j - 1, i)
    } else {
        before.len() as int
    }
}

/// Where a node lists no child twice, no id occurs twice among its resolved
/// children.
pub proof fn lemma_resolved_distinct(
    nodes: Seq<SourceNode>,
    order: Seq<usize>,
    first: int,
    p: int,
    j: int,
)
    requires
        0 <= first,
        first + order.len() <= u32::MAX,
        0 <= j <= nodes[order[p] as int].children@.len(),
        forall|a: int, b: int|
            0 <= a < b < nodes[order[p] as int].children@.len() ==> (
            #[trigger] nodes[order[p] as int].children@[a]) != (
            #[trigger] nodes[order[p] as int].children@[b]),
    ensures
        forall|s: int, t: int|
            0 <= s < t < resolved_children(nodes, order, first, p, j).len() ==> (
            #[trigger] resolved_children(nodes, order, first, p, j)[s]) != (
            #[trigger] resolved_children(nodes, order, first, p, j)[t]),
    decreases j,
{
    if j > 0 {
        lemma_resolved_distinct(nodes, order, first, p, j - 1);
        let before = resolved_children(nodes, order, first, p, j - 1);
        let now = resolved_children(nodes, order, first, p, j);
        let children = nodes[order[p] as int].children@;
        assert forall|s: int, t: int| 0 <= s < t < now.len() implies (#[trigger] now[s]) != (
        #[trigger] now[t]) by {
            if t < before.len() {
                assert(now[s] == before[s] && now[t] == before[t]);
            } else {
                let i = lemma_resolved_source(nodes, order, first, p, j - 1, s);
                assert(now[s] == before[s]);
                if now[s] == now[t] {
                    lemma_id_of_injective(
                        nodes,
                        order,
                        first,
                        children[i] as int,
                        children[j - 1] as int,
                    );
                    assert(children[i] != children[j - 1]);
                }
            }
        }
    }
}

/// Every edge among the dangling edges of a node is one of its edges that
/// dangle; the result is the place of the child in the node's list.
pub proof fn lemma_dangling_in_source(
    nodes: Seq<SourceNode>,
    order: Seq<usize>,
    p: int,
    j: int,
    t: int,
) -> (i: int)
    requires
        0 <= t < dangling_in(nodes, order, p, j).len(),
    ensures
        0 <= i < j,
        dangles(nodes, order, p, i),
        dangling_in(nodes, order, p, j)[t] == (DanglingReference {
            parent: order[p],
            child: nodes[order[p] as int].children@[i],
        }),
    decreases j,
{
    let before = dangling_in(nodes, order, p, j - 1);
    if t < before.len() {
        lemma_dangling_in_source(nodes, order, p, j - 1, t)
    } else {
        j - 1
    }
}

/// Every edge of a node that dangles is among its dangling edges; the
/// result is its place there.
pub proof fn lemma_dangling_in_target(
    nodes: Seq<SourceNode>,
    order: Seq<usize>,
    p: int,
    j: int,
    i: int,
) -> (t: int)
    requires
        0 <= i < j,
        dangles(nodes, order, p, i),
    ensures
        0 <= t < dangling_in(nodes, order, p, j).len(),
        dangling_in(nodes, order, p, j)[t] == (DanglingReference {
            parent: order[p],
            child: nodes[order[p] as int].children@[i],
        }),
    decreases j,
{
    let before = dangling_in(nodes, order, p, j - 1);
    if i < j - 1 {
        lemma_dangling_in_target(nodes, order, p, j - 1, i)
    } else {
        before.len() as int
    }
}

/// Every edge among the dangling edges of the first `p` visited nodes is an
/// edge of one of them that dangles; the result is the position of the
/// parent and the place of the child in its list.
pub proof fn lemma_dangling_before_source(
    nodes: Seq<SourceNode>,
    order: Seq<usize>,
    p: int,
    t: int,
) -> (r: (int, int))
    requires
        0 <= t < dangling_before(nodes, order, p).len(),
    ensures
        0 <= r.0 < p,
        0 <= r.1 < nodes[order[r.0] as int].children@.len(),
        dangles(nodes, order, r.0, r.1),
        dangling_before(nodes, order, p)[t] == (DanglingReference {
            parent: order[r.0],
            child: nodes[order[r.0] as int].children@[r.1],
        }),
    decreases p,
{
    let before = dangling_before(nodes, order, p - 1);
    if t < before.len() {
        lemma_dangling_before_source(nodes, order, p - 1, t)
    } else {
        let full = nodes[order[p - 1] as int].children@.len() as int;
        let i = lemma_dangling_in_source(nodes, order, p - 1, full, t - before.len());
        (p - 1, i)
    }
}

/// Every edge of the first `p` visited nodes that dangles is among their
/// dangling edges; the result is its place there.
pub proof fn lemma_dangling_before_target(
    nodes: Seq<SourceNode>,
    order: Seq<usize>,
    p: int,
    q: int,
    i: int,
) -> (t: int)
    requires
        0 <= q < p,
        0 <= i < nodes[order[q] as int].children@.len(),
        dangles(nodes, order, q, i),
    ensures
        0 <= t < dangling_before(nodes, order, p).len(),
        dangling_before(nodes, order, p)[t] == (DanglingReference {
            parent: order[q],
            child: nodes[order[q] as int].children@[i],
        }),
    decreases p,
{
    let before = dangling_before(nodes, order, p - 1);
    if q < p - 1 {
        lemma_dangling_before_target(nodes, order, p - 1, q, i)
    } else {
        let full = nodes[order[q] as int].children@.len() as int;
        let t = lemma_dangling_in_target(nodes, order, q, full, i);
        before.len() + t
    }
}

/// The node that `last_parent` names is one of the first `p` visited and
/// lists the child.
pub proof fn lemma_last_parent(nodes: Seq<SourceNode>, order: Seq<usize>, c: int, p: int)
    ensures
        last_parent(nodes, order, c, p) matches Some(q) ==> 0 <= q < p && holds(
            nodes[order[q] as int].children@,
            c,
        ),
    decreases p,
{
    if p > 0 && !holds(nodes[order[p - 1] as int].children@, c) {
        lemma_last_parent(nodes, order, c, p - 1);
    }
}

/// A node that one of the first `p` visited nodes lists has a last parent
/// among them.
pub proof fn lemma_listed_has_parent(nodes: Seq<SourceNode>, order: Seq<usize>, c: int, q: int, p: int)
    requires
        0 <= q < p,
        holds(nodes[order[q] as int].children@, c),
    ensures
        last_parent(nodes, order, c, p).is_some(),
    decreases p,
{
    if !holds(nodes[order[p - 1] as int].children@, c) {
        lemma_listed_has_parent(nodes, order, c, q, p - 1);
    }
}

/// Whether `table` maps exactly the visited nodes, each to the id of its
/// entity.
spec fn table_agrees(nodes: Seq<SourceNode>, order: Seq<usize>, first: int, table: Seq<Option<u32>>) -> bool {
    &&& table.len() == nodes.len()
    &&& 0 <= first
    &&& first + order.len() <= u32::MAX
    &&& is_visit_list(nodes, order)
    &&& forall|k: int| 0 <= k < order.len() ==> table[(#[trigger] order[k]) as int] == Some((first + k) as u32)
    &&& forall|i: int| 0 <= i < nodes.len() ==> ((#[trigger] table[i]).is_some() <==> holds(order, i))
}

/// The parent recorded for node `c` once the first `p` visited nodes and
/// the first `j` children of the next have been linked.
spec fn parent_after(nodes: Seq<SourceNode>, order: Seq<usize>, c: int, p: int, j: int) -> Option<int> {
    if p < order.len() && holds(nodes[order[p] as int].children@.take(j), c) {
        Some(p)
    } else {
        last_parent(nodes, order, c, p)
    }
}

/// Whether the entities are as the second pass leaves them once the first
/// `p` visited nodes and the first `j` children of the next are linked.
spec fn link_state(
    nodes: Seq<SourceNode>,
    order: Seq<usize>,
    first: int,
    entities: Seq<Entity>,
    skipped: Seq<DanglingReference>,
    p: int,
    j: int,
) -> bool {
    &&& entities.len() == order.len()
    &&& skipped == dangling_before(nodes, order, p) + dangling_in(nodes, order, p, j)
    &&& forall|k: int|
        0 <= k < order.len() ==> {
            let e = #[trigger] entities[k];
            &&& e.well_formed()
            &&& e.id == first + k
            &&& e.components@ == node_components(nodes[order[k] as int])
            &&& e.parent == id_at(first, parent_after(nodes, order, order[k] as int, p, j))
            &&& e.children@ == if k < p {
                child_ids(nodes, order, first, k)
            } else if k == p {
                resolved_children(nodes, order, first, k, j)
            } else {
                Seq::empty()
            }
        }
}

/// The first `j + 1` children hold a node exactly if the first `j` do or
/// child `j` is that node.
proof fn lemma_holds_take(children: Seq<usize>, j: int, c: int)
    requires
        0 <= j < children.len(),
    ensures
        holds(children.take(j + 1), c) <==> (holds(children.take(j), c) || children[j] == c),
{
    let shorter = children.take(j);
    let longer = children.take(j + 1);
    if holds(shorter, c) {
        let i = choose|i: int| 0 <= i < shorter.len() && #[trigger] shorter[i] == c;
        assert(0 <= i < longer.len() && longer[i] == c);
    }
    if children[j] == c {
        assert(longer[j] == c);
    }
    if holds(longer, c) {
        let i = choose|i: int| 0 <= i < longer.len() && #[trigger] longer[i] == c;
        if i < j {
            assert(shorter[i] == c);
        }
    }
}

/// A list cut down to nothing holds no index.
proof fn lemma_take_none(children: Seq<usize>, c: int)
    ensures
        !holds(children.take(0), c),
{
}

/// Second pass: walks every edge from a visited node to a child, parent by
/// parent in visiting order and child by child. An edge whose child has an
/// entity is recorded: the child's id is appended to the parent's children
/// and the parent's id becomes the child's parent. An edge whose child has
/// none is skipped and returned, and touches no entity.
pub(crate) fn link_entities(
    nodes: &Vec<SourceNode>,
    order: &Vec<usize>,
    table: &Vec<Option<u32>>,
    first: u32,
    entities: &mut Vec<Entity>,
) -> (skipped: Vec<DanglingReference>)
    requires
        first_pass_state(nodes@, first as int, old(entities)@, order@, table@),
    ensures
        final(entities)@.len() == order@.len(),
        forall|k: int|
            0 <= k < order@.len() ==> (#[trigger] final(entities)@[k]).well_formed()
                && final(entities)@[k]@ == linked_entity(nodes@, order@, first as int, k),
        skipped@ == dangling_edges(nodes@, order@),
{
    let mut skipped: Vec<DanglingReference> = Vec::new();
    proof {
        lemma_state_visit_list(nodes@, first as int, entities@, order@, table@);
        assert(table_agrees(nodes@, order@, first as int, table@));
        assert forall|k: int| 0 <= k < order@.len() implies parent_after(
            nodes@,
            order@,
            order@[k] as int,
            0,
            0,
        ) == None::<int> by {
            lemma_take_none(nodes@[order@[0] as int].children@, order@[k] as int);
        }
        assert(skipped@ =~= dangling_before(nodes@, order@, 0) + dangling_in(nodes@, order@, 0, 0));
        assert(link_state(nodes@, order@, first as int, entities@, skipped@, 0, 0));
    }
    let mut p: usize = 0;
    while p < order.len()
        invariant
            p <= order@.len(),
            table_agrees(nodes@, order@, first as int, table@),
            link_state(nodes@, order@, first as int, entities@, skipped@, p as int, 0),
        decreases order@.len() - p,
    {
        let children = &nodes[order[p]].children;
        let parent_id: u32 = entities[p].id;
        let mut j: usize = 0;
        while j < children.len()
            invariant
                p < order@.len(),
                j <= children@.len(),
                children@ == nodes@[order@[p as int] as int].children@,
                parent_id == first + p,
                table_agrees(nodes@, order@, first as int, table@),
                link_state(nodes@, order@, first as int, entities@, skipped@, p as int, j as int),
            decreases children@.len() - j,
        {
            let c: usize = children[j];
            let found: Option<u32> = if c < nodes.len() {
                table[c]
            } else {
                None
            };
            let ghost skipped_before = skipped@;
            match found {
                Some(child_id) => {
                    let ghost place = position_in(order@, c as int);
                    proof {
                        assert(holds(order@, c as int));
                        assert(0 <= place < order@.len() && order@[place] == c);
                        assert(child_id == first + place);
                        assert(!dangles(nodes@, order@, p as int, j as int));
                    }
                    let position: usize = (child_id - first) as usize;
                    entities[p].children.push(child_id);
                    entities[position].parent = Some(parent_id);
                    proof {
                        assert forall|k: int| 0 <= k < order@.len() implies {
                            let e = #[trigger] entities@[k];
                            &&& e.well_formed()
                            &&& e.id == first + k
                            &&& e.components@ == node_components(nodes@[order@[k] as int])
                            &&& e.parent == id_at(
                                first as int,
                                parent_after(nodes@, order@, order@[k] as int, p as int, j as int + 1),
                            )
                            &&& e.children@ == if k < p {
                                child_ids(nodes@, order@, first as int, k)
                            } else if k == p {
                                resolved_children(nodes@, order@, first as int, k, j as int + 1)
                            } else {
                                Seq::empty()
                            }
                        } by {
                            lemma_holds_take(children@, j as int, order@[k] as int);
                            lemma_position_in(nodes@, order@, k);
                            if k == place {
                                assert(order@[k] == c);
                            } else {
                                assert(order@[k] != c);
                            }
                        }
                    }
                },
                None => {
                    proof {
                        assert(!holds(order@, c as int)) by {
                            if holds(order@, c as int) {
                                let k = choose|k: int| 0 <= k < order@.len() && #[trigger] order@[k] == c;
                                assert(order@[k] < nodes@.len());
                            }
                        }
                        assert(dangles(nodes@, order@, p as int, j as int));
                    }
                    skipped.push(DanglingReference { parent: order[p], child: c });
                    proof {
                        assert forall|k: int| 0 <= k < order@.len() implies parent_after(
                            nodes@,
                            order@,
                            order@[k] as int,
                            p as int,
                            j as int + 1,
                        ) == parent_after(nodes@, order@, order@[k] as int, p as int, j as int) by {
                            lemma_holds_take(children@, j as int, order@[k] as int);
                            lemma_position_in(nodes@, order@, k);
                        }
                    }
                },
            }
            proof {
                assert(skipped@ =~= dangling_before(nodes@, order@, p as int) + dangling_in(
                    nodes@,
                    order@,
                    p as int,
                    j as int + 1,
                ));
            }
            j = j + 1;
        }
        proof {
            let full = children@.len() as int;
            assert forall|k: int| 0 <= k < order@.len() implies parent_after(
                nodes@,
                order@,
                order@[k] as int,
                p as int + 1,
                0,
            ) == parent_after(nodes@, order@, order@[k] as int, p as int, full) by {
                let c = order@[k] as int;
                if p + 1 < order@.len() {
                    lemma_take_none(nodes@[order@[p as int + 1] as int].children@, c);
                }
                assert(children@.take(full) =~= children@);
            }
            assert(skipped@ =~= dangling_before(nodes@, order@, p as int + 1) + dangling_in(
                nodes@,
                order@,
                p as int + 1,
                0,
            ));
        }
        p = p + 1;
    }
    proof {
        assert(skipped@ =~= dangling_edges(nodes@, order@));
    }
    skipped
}

} // verus!
