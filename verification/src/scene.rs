//! Scene graph builder: turns a forest of source nodes into entities with
//! fresh ids, per-node components and resolved parent/child links.

use crate::entity::{Entity, SourceNode};
use crate::ids::IdAllocator;
use crate::link::{
    dangles, dangling_edges, last_parent, lemma_dangling_before_source,
    lemma_dangling_before_target, lemma_last_parent, lemma_listed_has_parent,
    lemma_position_in, lemma_resolved_distinct, lemma_resolved_source, lemma_resolved_target,
    link_entities, linked_entity, position_in,
};
use crate::walk::{
    assign_entities, holds, is_listed, is_root, lemma_visit_roots_extends, lemma_visit_roots_keeps, lemma_visit_scenes_closed,
    lemma_visit_scenes_extends, lemma_visit_scenes_keeps, lemma_visit_scenes_origins,
    lemma_walk_visits_root, visit_order, visit_roots, visit_scenes,
};
use vstd::prelude::*;

verus! {

/// Why a scene graph could not be built.
#[derive(Clone, Copy, Debug, PartialEq, Eq, Structural)]
pub enum SceneError {
    /// The allocator has no id left for a node.
    IdsExhausted,
}

/// An edge from a visited node to a child that was given no entity. Such an
/// edge is skipped and reported; it touches no entity.
#[derive(Clone, Copy, Debug, PartialEq, Eq, Structural)]
pub struct DanglingReference {
    /// Index of the node that lists the child.
    pub parent: usize,
    /// The index that the node lists and that has no entity.
    pub child: usize,
}

/// A built scene graph.
#[derive(Debug)]
pub struct SceneGraph {
    /// One entity per visited node, in visiting order.
    pub entities: Vec<Entity>,
    /// The edges that were skipped, in the order in which they were met.
    pub dangling: Vec<DanglingReference>,
}

/// Builds the scene graph of a document.
///
/// `nodes` is the document's node list; a node's index is its place in it.
/// `scenes` lists, scene by scene, the indices of the root nodes.
///
/// The first pass visits every node reachable from a root, depth first and
/// each node once, and makes its entity; the ids count up from the
/// allocator's next id in visiting order. The second pass walks every edge
/// from a visited node to a child, parent by parent in visiting order and
/// child by child. Where the child has an entity the edge is recorded: the
/// child's id is appended to the parent's children and the parent's id
/// becomes the child's parent. Where it has none the edge is skipped and
/// listed in the result; the other edges are recorded all the same.
///
/// Fails, with `IdsExhausted`, exactly when the allocator cannot serve every
/// visited node.
pub fn build_scene_graph(nodes: &Vec<SourceNode>, scenes: &Vec<Vec<usize>>, ids: &mut IdAllocator) -> (r:
    Result<SceneGraph, SceneError>)
    ensures
        r is Ok <==> old(ids).next_id() + visit_order(nodes@, scenes@).len() <= u32::MAX,
        r matches Ok(graph) ==> {
            &&& graph.entities@.len() == visit_order(nodes@, scenes@).len()
            &&& forall|k: int|
                0 <= k < graph.entities@.len() ==> (#[trigger] graph.entities@[k]).well_formed()
                    && graph.entities@[k]@ == linked_entity(
                    nodes@,
                    visit_order(nodes@, scenes@),
                    old(ids).next_id() as int,
                    k,
                )
            &&& graph.dangling@ == dangling_edges(nodes@, visit_order(nodes@, scenes@))
            &&& final(ids).next_id() == old(ids).next_id() + graph.entities@.len()
        },
        r matches Err(e) ==> e == SceneError::IdsExhausted && final(ids).next_id() == u32::MAX,
{
    let first: u32 = ids.peek();
    match assign_entities(nodes, scenes, ids) {
        Ok((entities, order, table)) => {
            let mut entities = entities;
            let dangling = link_entities(nodes, &order, &table, first, &mut entities);
            Ok(SceneGraph { entities, dangling })
        },
        Err(e) => Err(e),
    }
}

/// No two entities of a scene graph have the same id.
pub proof fn lemma_ids_unique(nodes: Seq<SourceNode>, order: Seq<usize>, first: int, a: int, b: int)
    requires
        0 <= first,
        first + order.len() <= u32::MAX,
        0 <= a < order.len(),
        0 <= b < order.len(),
        a != b,
    ensures
        linked_entity(nodes, order, first, a).id != linked_entity(nodes, order, first, b).id,
{
}

/// Whether no visited node lists a child twice.
pub open spec fn children_listed_once(nodes: Seq<SourceNode>, order: Seq<usize>) -> bool {
    forall|p: int, i: int, j: int|
        0 <= p < order.len() && 0 <= i < j < nodes[order[p] as int].children@.len() ==> (
        #[trigger] nodes[order[p] as int].children@[i]) != (
        #[trigger] nodes[order[p] as int].children@[j])
}

/// In the scene graph of a document, the parent of an entity is an entity
/// of the graph whose children hold the entity's id; where no node lists a
/// child twice, they hold it exactly once.
pub proof fn lemma_parent_lists_child(
    nodes: Seq<SourceNode>,
    scenes: Seq<Vec<usize>>,
    first: int,
    k: int,
)
    requires
        0 <= first,
        first + visit_order(nodes, scenes).len() <= u32::MAX,
        0 <= k < visit_order(nodes, scenes).len(),
        linked_entity(nodes, visit_order(nodes, scenes), first, k).parent.is_some(),
    ensures
        ({
            let order = visit_order(nodes, scenes);
            let id = linked_entity(nodes, order, first, k).id;
            let p = linked_entity(nodes, order, first, k).parent.unwrap() - first;
            let siblings = linked_entity(nodes, order, first, p).children;
            &&& 0 <= p < order.len()
            &&& linked_entity(nodes, order, first, p).id == linked_entity(
                nodes,
                order,
                first,
                k,
            ).parent.unwrap()
            &&& exists|j: int| 0 <= j < siblings.len() && #[trigger] siblings[j] == id
            &&& children_listed_once(nodes, order) ==> forall|i: int, j: int|
                0 <= i < siblings.len() && 0 <= j < siblings.len() && #[trigger] siblings[i] == id
                    && #[trigger] siblings[j] == id ==> i == j
        }),
{
    let order = visit_order(nodes, scenes);
    lemma_visit_scenes_extends(nodes, scenes, scenes.len() as int);
    let c = order[k] as int;
    lemma_last_parent(nodes, order, c, order.len() as int);
    let p = last_parent(nodes, order, c, order.len() as int).unwrap();
    let children = nodes[order[p] as int].children@;
    let siblings = linked_entity(nodes, order, first, p).children;
    let id = linked_entity(nodes, order, first, k).id;
    lemma_position_in(nodes, order, k);
    let at = choose|j: int| 0 <= j < children.len() && #[trigger] children[j] == c;
    assert(!dangles(nodes, order, p, at));
    let found = lemma_resolved_target(nodes, order, first, p, children.len() as int, at);
    assert(siblings[found] == id);
    if children_listed_once(nodes, order) {
        assert forall|a: int, b: int| 0 <= a < b < children.len() implies (
        #[trigger] nodes[order[p] as int].children@[a]) != (
        #[trigger] nodes[order[p] as int].children@[b]) by {}
        lemma_resolved_distinct(nodes, order, first, p, children.len() as int);
        assert forall|i: int, j: int|
            0 <= i < siblings.len() && 0 <= j < siblings.len() && #[trigger] siblings[i] == id
                && #[trigger] siblings[j] == id implies i == j by {
            if i < j {
                assert(siblings[i] != siblings[j]);
            } else if j < i {
                assert(siblings[j] != siblings[i]);
            }
        }
    }
}

/// Whether no node is listed as a child by two visited nodes.
pub open spec fn single_parents(nodes: Seq<SourceNode>, order: Seq<usize>) -> bool {
    forall|p: int, q: int, c: int|
        0 <= p < order.len() && 0 <= q < order.len() && #[trigger] holds(
            nodes[order[p] as int].children@,
            c,
        ) && #[trigger] holds(nodes[order[q] as int].children@, c) ==> p == q
}

/// In the scene graph of a document in which no node has two parents, every
/// id among an entity's children is the id of an entity whose parent is that
/// entity.
pub proof fn lemma_child_names_parent(
    nodes: Seq<SourceNode>,
    scenes: Seq<Vec<usize>>,
    first: int,
    p: int,
    j: int,
)
    requires
        single_parents(nodes, visit_order(nodes, scenes)),
        0 <= first,
        first + visit_order(nodes, scenes).len() <= u32::MAX,
        0 <= p < visit_order(nodes, scenes).len(),
        0 <= j < linked_entity(nodes, visit_order(nodes, scenes), first, p).children.len(),
    ensures
        ({
            let order = visit_order(nodes, scenes);
            let parent = linked_entity(nodes, order, first, p);
            let k = parent.children[j] - first;
            &&& 0 <= k < order.len()
            &&& linked_entity(nodes, order, first, k).id == parent.children[j]
            &&& linked_entity(nodes, order, first, k).parent == Some(parent.id)
        }),
{
    let order = visit_order(nodes, scenes);
    lemma_visit_scenes_extends(nodes, scenes, scenes.len() as int);
    let children = nodes[order[p] as int].children@;
    let siblings = linked_entity(nodes, order, first, p).children;
    let i = lemma_resolved_source(nodes, order, first, p, children.len() as int, j);
    let c = children[i] as int;
    let k = position_in(order, c);
    assert(0 <= k < order.len() && order[k] == c);
    assert(holds(children, c));
    lemma_listed_has_parent(nodes, order, c, p, order.len() as int);
    lemma_last_parent(nodes, order, c, order.len() as int);
    let q = last_parent(nodes, order, c, order.len() as int).unwrap();
    assert(holds(nodes[order[q] as int].children@, c));
    assert(q == p);
}

/// An edge of a document dangles exactly when its child names no node:
/// every node that a visited node lists is visited too.
pub proof fn lemma_dangles_iff_no_node(nodes: Seq<SourceNode>, scenes: Seq<Vec<usize>>, p: int, j: int)
    requires
        0 <= p < visit_order(nodes, scenes).len(),
        0 <= j < nodes[visit_order(nodes, scenes)[p] as int].children@.len(),
    ensures
        dangles(nodes, visit_order(nodes, scenes), p, j) <==> nodes[visit_order(
            nodes,
            scenes,
        )[p] as int].children@[j] >= nodes.len(),
{
    let order = visit_order(nodes, scenes);
    let c = nodes[order[p] as int].children@[j];
    lemma_visit_scenes_closed(nodes, scenes, scenes.len() as int);
    lemma_visit_scenes_extends(nodes, scenes, scenes.len() as int);
    if c < nodes.len() {
        assert(holds(order, c as int) || holds(Seq::<usize>::empty(), c as int));
    }
    if holds(order, c as int) {
        let k = choose|k: int| 0 <= k < order.len() && #[trigger] order[k] == c;
        assert(order[k] < nodes.len());
    }
}

/// Every skipped edge of a document runs from a visited node to an index
/// that the node lists and that names no node. The result is the position of
/// the parent and the place of the child in its list.
pub proof fn lemma_skipped_names_no_node(nodes: Seq<SourceNode>, scenes: Seq<Vec<usize>>, t: int) -> (r: (
    int,
    int,
))
    requires
        0 <= t < dangling_edges(nodes, visit_order(nodes, scenes)).len(),
    ensures
        0 <= r.0 < visit_order(nodes, scenes).len(),
        0 <= r.1 < nodes[visit_order(nodes, scenes)[r.0] as int].children@.len(),
        dangling_edges(nodes, visit_order(nodes, scenes))[t] == (DanglingReference {
            parent: visit_order(nodes, scenes)[r.0],
            child: nodes[visit_order(nodes, scenes)[r.0] as int].children@[r.1],
        }),
        dangling_edges(nodes, visit_order(nodes, scenes))[t].child >= nodes.len(),
{
    let order = visit_order(nodes, scenes);
    let r = lemma_dangling_before_source(nodes, order, order.len() as int, t);
    lemma_dangles_iff_no_node(nodes, scenes, r.0, r.1);
    r
}

/// Every edge from a visited node to an index that names no node is among
/// the skipped edges of the document. The result is its place there.
pub proof fn lemma_no_node_is_skipped(nodes: Seq<SourceNode>, scenes: Seq<Vec<usize>>, p: int, j: int) -> (t:
    int)
    requires
        0 <= p < visit_order(nodes, scenes).len(),
        0 <= j < nodes[visit_order(nodes, scenes)[p] as int].children@.len(),
        nodes[visit_order(nodes, scenes)[p] as int].children@[j] >= nodes.len(),
    ensures
        0 <= t < dangling_edges(nodes, visit_order(nodes, scenes)).len(),
        dangling_edges(nodes, visit_order(nodes, scenes))[t] == (DanglingReference {
            parent: visit_order(nodes, scenes)[p],
            child: nodes[visit_order(nodes, scenes)[p] as int].children@[j],
        }),
{
    let order = visit_order(nodes, scenes);
    lemma_dangles_iff_no_node(nodes, scenes, p, j);
    lemma_dangling_before_target(nodes, order, order.len() as int, p, j)
}

/// Every scene root that names a node is visited.
pub proof fn lemma_root_visited(nodes: Seq<SourceNode>, scenes: Seq<Vec<usize>>, s: int, r: int)
    requires
        0 <= s < scenes.len(),
        0 <= r < scenes[s]@.len(),
        scenes[s]@[r] < nodes.len(),
    ensures
        holds(visit_order(nodes, scenes), scenes[s]@[r] as int),
{
    let roots = scenes[s]@;
    let root = roots[r];
    let start = visit_scenes(nodes, scenes, s);
    lemma_visit_scenes_extends(nodes, scenes, s);
    lemma_visit_roots_extends(nodes, roots, r, start);
    lemma_walk_visits_root(nodes, root, visit_roots(nodes, roots, r, start));
    assert(holds(visit_roots(nodes, roots, r + 1, start), root as int));
    lemma_visit_roots_keeps(nodes, roots, r + 1, roots.len() as int, start, root as int);
    assert(holds(visit_scenes(nodes, scenes, s + 1), root as int));
    lemma_visit_scenes_keeps(nodes, scenes, s + 1, scenes.len() as int, root as int);
}

/// Every visited node is a scene root or is listed as a child by a visited
/// node.
pub proof fn lemma_visited_has_origin(nodes: Seq<SourceNode>, scenes: Seq<Vec<usize>>, k: int)
    requires
        0 <= k < visit_order(nodes, scenes).len(),
    ensures
        is_root(scenes, visit_order(nodes, scenes)[k] as int) || is_listed(
            nodes,
            visit_order(nodes, scenes),
            visit_order(nodes, scenes)[k] as int,
        ),
{
    lemma_visit_scenes_origins(nodes, scenes, scenes.len() as int);
}

/// The entities without a parent are exactly those whose node no visited
/// node lists as a child; the node of each is a scene root.
pub proof fn lemma_parentless_are_roots(
    nodes: Seq<SourceNode>,
    scenes: Seq<Vec<usize>>,
    first: int,
    k: int,
)
    requires
        0 <= k < visit_order(nodes, scenes).len(),
    ensures
        linked_entity(nodes, visit_order(nodes, scenes), first, k).parent.is_none() <==> !is_listed(
            nodes,
            visit_order(nodes, scenes),
            visit_order(nodes, scenes)[k] as int,
        ),
        linked_entity(nodes, visit_order(nodes, scenes), first, k).parent.is_none() ==> is_root(
            scenes,
            visit_order(nodes, scenes)[k] as int,
        ),
{
    let order = visit_order(nodes, scenes);
    let c = order[k] as int;
    lemma_last_parent(nodes, order, c, order.len() as int);
    if is_listed(nodes, order, c) {
        let q = choose|q: int| 0 <= q < order.len() && #[trigger] holds(nodes[order[q] as int].children@, c);
        lemma_listed_has_parent(nodes, order, c, q, order.len() as int);
    }
    lemma_visited_has_origin(nodes, scenes, k);
}

} // verus!
