//! First pass of the scene graph builder: the order in which the nodes of a
//! document are visited, and the entities made along the way.

use crate::entity::{fresh_entity, process_node, Entity, SourceNode};
use crate::ids::IdAllocator;
use crate::scene::SceneError;
use vstd::prelude::*;

verus! {

/// Whether a list of node indices holds the index `i`.
pub open spec fn holds(list: Seq<usize>, i: int) -> bool {
    exists|k: int| 0 <= k < list.len() && #[trigger] list[k] == i
}

/// After `idx` is appended, exactly `idx` and what was held before is held.
pub(crate) proof fn lemma_holds_push(seen: Seq<usize>, idx: usize, i: int)
    ensures
        holds(seen.push(idx), i) <==> (holds(seen, i) || i == idx),
{
    let longer = seen.push(idx);
    if holds(seen, i) {
        let k = choose|k: int| 0 <= k < seen.len() && #[trigger] seen[k] == i;
        assert(0 <= k < longer.len() && longer[k] == i);
    }
    if i == idx {
        assert(longer[seen.len() as int] == i);
    }
    if holds(longer, i) {
        let k = choose|k: int| 0 <= k < longer.len() && #[trigger] longer[k] == i;
        if k < seen.len() {
            assert(seen[k] == i);
        }
    }
}

/// Number of node indices below `n` that `seen` does not hold.
pub open spec fn unseen(n: nat, seen: Seq<usize>) -> nat
    decreases n,
{
    if n == 0 {
        0
    } else if holds(seen, n - 1) {
        unseen((n - 1) as nat, seen)
    } else {
        unseen((n - 1) as nat, seen) + 1
    }
}

/// Holding one more index below `n` leaves one index fewer unseen.
proof fn lemma_unseen_push(n: nat, seen: Seq<usize>, idx: usize)
    requires
        !holds(seen, idx as int),
    ensures
        idx < n ==> unseen(n, seen.push(idx)) + 1 == unseen(n, seen),
        idx >= n ==> unseen(n, seen.push(idx)) == unseen(n, seen),
    decreases n,
{
    if n > 0 {
        lemma_unseen_push((n - 1) as nat, seen, idx);
        lemma_holds_push(seen, idx, n - 1);
    }
}

/// The visiting order of a depth-first walk. `stack` holds the node indices
/// still to visit, the next one last; `seen` the nodes visited so far, in
/// order. An index that names no node, or a node seen before, is passed
/// over; a new node is visited and its children are taken next, first child
/// first.
pub open spec fn walk(nodes: Seq<SourceNode>, stack: Seq<usize>, seen: Seq<usize>) -> Seq<usize>
    decreases unseen(nodes.len(), seen), stack.len(),
    via walk_terminates
{
    if stack.len() == 0 {
        seen
    } else {
        let idx = stack.last();
        let rest = stack.drop_last();
        if idx >= nodes.len() || holds(seen, idx as int) {
            walk(nodes, rest, seen)
        } else {
            walk(nodes, rest + nodes[idx as int].children@.reverse(), seen.push(idx))
        }
    }
}

#[via_fn]
proof fn walk_terminates(nodes: Seq<SourceNode>, stack: Seq<usize>, seen: Seq<usize>) {
    if stack.len() > 0 {
        let idx = stack.last();
        if !(idx >= nodes.len() || holds(seen, idx as int)) {
            lemma_unseen_push(nodes.len(), seen, idx);
        }
    }
}

/// The visiting order after the first `k` of `roots` have been walked, one
/// after another, starting from `seen`.
pub open spec fn visit_roots(nodes: Seq<SourceNode>, roots: Seq<usize>, k: int, seen: Seq<usize>) -> Seq<
    usize,
>
    decreases k,
{
    if k <= 0 {
        seen
    } else {
        walk(nodes, seq![roots[k - 1]], visit_roots(nodes, roots, k - 1, seen))
    }
}

/// The visiting order after the first `s` scenes have been walked.
pub open spec fn visit_scenes(nodes: Seq<SourceNode>, scenes: Seq<Vec<usize>>, s: int) -> Seq<usize>
    decreases s,
{
    if s <= 0 {
        Seq::empty()
    } else {
        visit_roots(
            nodes,
            scenes[s - 1]@,
            scenes[s - 1]@.len() as int,
            visit_scenes(nodes, scenes, s - 1),
        )
    }
}

/// The order in which the nodes of a document are visited: scene by scene,
/// root by root, each root's subtree depth first, every node once.
pub open spec fn visit_order(nodes: Seq<SourceNode>, scenes: Seq<Vec<usize>>) -> Seq<usize> {
    visit_scenes(nodes, scenes, scenes.len() as int)
}

/// Whether every index in `order` names a node and none occurs twice.
pub open spec fn is_visit_list(nodes: Seq<SourceNode>, order: Seq<usize>) -> bool {
    &&& forall|k: int| 0 <= k < order.len() ==> #[trigger] order[k] < nodes.len()
    &&& forall|a: int, b: int| 0 <= a < b < order.len() ==> #[trigger] order[a] != #[trigger] order[b]
}

/// A node not yet listed may be appended to a visit list.
pub(crate) proof fn lemma_visit_list_push(nodes: Seq<SourceNode>, seen: Seq<usize>, idx: usize)
    requires
        is_visit_list(nodes, seen),
        idx < nodes.len(),
        !holds(seen, idx as int),
    ensures
        is_visit_list(nodes, seen.push(idx)),
{
    let longer = seen.push(idx);
    assert forall|a: int, b: int| 0 <= a < b < longer.len() implies #[trigger] longer[a]
        != #[trigger] longer[b] by {
        if b == seen.len() && longer[a] == longer[b] {
            assert(seen[a] == idx);
        }
    }
}

/// A walk keeps what was seen, in place, and adds only nodes, each once.
pub proof fn lemma_walk_extends(nodes: Seq<SourceNode>, stack: Seq<usize>, seen: Seq<usize>)
    requires
        is_visit_list(nodes, seen),
    ensures
        is_visit_list(nodes, walk(nodes, stack, seen)),
        seen.len() <= walk(nodes, stack, seen).len(),
        walk(nodes, stack, seen).subrange(0, seen.len() as int) == seen,
    decreases unseen(nodes.len(), seen), stack.len(),
{
    if stack.len() > 0 {
        let idx = stack.last();
        let rest = stack.drop_last();
        if idx >= nodes.len() || holds(seen, idx as int) {
            lemma_walk_extends(nodes, rest, seen);
        } else {
            let longer = seen.push(idx);
            lemma_unseen_push(nodes.len(), seen, idx);
            assert(is_visit_list(nodes, longer)) by {
                assert forall|a: int, b: int| 0 <= a < b < longer.len() implies #[trigger] longer[a]
                    != #[trigger] longer[b] by {
                    if b == seen.len() && longer[a] == longer[b] {
                        assert(seen[a] == idx);
                    }
                }
            }
            let next = rest + nodes[idx as int].children@.reverse();
            lemma_walk_extends(nodes, next, longer);
            let out = walk(nodes, next, longer);
            assert(out.subrange(0, seen.len() as int) =~= out.subrange(
                0,
                longer.len() as int,
            ).subrange(0, seen.len() as int));
            assert(longer.subrange(0, seen.len() as int) =~= seen);
        }
    } else {
        assert(seen.subrange(0, seen.len() as int) =~= seen);
    }
}

/// Walking roots keeps what was seen, in place, and adds only nodes, each
/// once; walking more roots adds to what fewer gave.
pub proof fn lemma_visit_roots_extends(
    nodes: Seq<SourceNode>,
    roots: Seq<usize>,
    k: int,
    seen: Seq<usize>,
)
    requires
        is_visit_list(nodes, seen),
    ensures
        is_visit_list(nodes, visit_roots(nodes, roots, k, seen)),
        seen.len() <= visit_roots(nodes, roots, k, seen).len(),
        forall|j: int|
            0 <= j <= k ==> (#[trigger] visit_roots(nodes, roots, j, seen)).len() <= visit_roots(
                nodes,
                roots,
                k,
                seen,
            ).len(),
    decreases k,
{
    if k > 0 {
        lemma_visit_roots_extends(nodes, roots, k - 1, seen);
        lemma_walk_extends(nodes, seq![roots[k - 1]], visit_roots(nodes, roots, k - 1, seen));
    }
}

/// Walking scenes visits only nodes, each once; walking more scenes adds to
/// what fewer gave.
pub proof fn lemma_visit_scenes_extends(nodes: Seq<SourceNode>, scenes: Seq<Vec<usize>>, s: int)
    ensures
        is_visit_list(nodes, visit_scenes(nodes, scenes, s)),
        forall|j: int|
            0 <= j <= s ==> (#[trigger] visit_scenes(nodes, scenes, j)).len() <= visit_scenes(
                nodes,
                scenes,
                s,
            ).len(),
    decreases s,
{
    if s > 0 {
        lemma_visit_scenes_extends(nodes, scenes, s - 1);
        lemma_visit_roots_extends(
            nodes,
            scenes[s - 1]@,
            scenes[s - 1]@.len() as int,
            visit_scenes(nodes, scenes, s - 1),
        );
    }
}

/// Whether every child of a visited node that names a node is itself
/// visited or waits on the stack.
pub open spec fn children_accounted(nodes: Seq<SourceNode>, seen: Seq<usize>, stack: Seq<usize>) -> bool {
    forall|k: int, j: int|
        0 <= k < seen.len() && 0 <= j < nodes[seen[k] as int].children@.len() && (
        #[trigger] nodes[seen[k] as int].children@[j]) < nodes.len() ==> holds(
            seen,
            nodes[seen[k] as int].children@[j] as int,
        ) || holds(stack, nodes[seen[k] as int].children@[j] as int)
}

/// A walk ends with every child of a visited node visited, where the child
/// names a node.
pub proof fn lemma_walk_closed(nodes: Seq<SourceNode>, stack: Seq<usize>, seen: Seq<usize>)
    requires
        is_visit_list(nodes, seen),
        children_accounted(nodes, seen, stack),
    ensures
        children_accounted(nodes, walk(nodes, stack, seen), Seq::empty()),
    decreases unseen(nodes.len(), seen), stack.len(),
{
    if stack.len() > 0 {
        let idx = stack.last();
        let rest = stack.drop_last();
        if idx >= nodes.len() || holds(seen, idx as int) {
            assert forall|k: int, j: int|
                0 <= k < seen.len() && 0 <= j < nodes[seen[k] as int].children@.len() && (
                #[trigger] nodes[seen[k] as int].children@[j]) < nodes.len() implies holds(
                seen,
                nodes[seen[k] as int].children@[j] as int,
            ) || holds(rest, nodes[seen[k] as int].children@[j] as int) by {
                let c = nodes[seen[k] as int].children@[j] as int;
                if !holds(seen, c) {
                    let i = choose|i: int| 0 <= i < stack.len() && #[trigger] stack[i] == c;
                    assert(i < rest.len());
                    assert(rest[i] == c);
                }
            }
            lemma_walk_closed(nodes, rest, seen);
        } else {
            let longer = seen.push(idx);
            let children = nodes[idx as int].children@;
            let next = rest + children.reverse();
            lemma_unseen_push(nodes.len(), seen, idx);
            lemma_visit_list_push(nodes, seen, idx);
            assert forall|k: int, j: int|
                0 <= k < longer.len() && 0 <= j < nodes[longer[k] as int].children@.len() && (
                #[trigger] nodes[longer[k] as int].children@[j]) < nodes.len() implies holds(
                longer,
                nodes[longer[k] as int].children@[j] as int,
            ) || holds(next, nodes[longer[k] as int].children@[j] as int) by {
                let c = nodes[longer[k] as int].children@[j] as int;
                lemma_holds_push(seen, idx, c);
                if k < seen.len() {
                    assert(longer[k] == seen[k]);
                    if !holds(seen, c) {
                        let i = choose|i: int| 0 <= i < stack.len() && #[trigger] stack[i] == c;
                        if i < rest.len() {
                            assert(next[i] == c);
                        }
                    }
                } else {
                    let at = rest.len() + (children.len() - 1 - j);
                    assert(next[at] == children.reverse()[children.len() - 1 - j]);
                    assert(next[at] == c);
                }
            }
            lemma_walk_closed(nodes, next, longer);
        }
    }
}

/// Walking roots keeps every child accounted for.
pub proof fn lemma_visit_roots_closed(nodes: Seq<SourceNode>, roots: Seq<usize>, k: int, seen: Seq<usize>)
    requires
        is_visit_list(nodes, seen),
        children_accounted(nodes, seen, Seq::empty()),
    ensures
        children_accounted(nodes, visit_roots(nodes, roots, k, seen), Seq::empty()),
    decreases k,
{
    if k > 0 {
        lemma_visit_roots_closed(nodes, roots, k - 1, seen);
        lemma_visit_roots_extends(nodes, roots, k - 1, seen);
        let before = visit_roots(nodes, roots, k - 1, seen);
        assert(children_accounted(nodes, before, seq![roots[k - 1]]));
        lemma_walk_closed(nodes, seq![roots[k - 1]], before);
    }
}

/// Walking scenes keeps every child accounted for.
pub proof fn lemma_visit_scenes_closed(nodes: Seq<SourceNode>, scenes: Seq<Vec<usize>>, s: int)
    ensures
        children_accounted(nodes, visit_scenes(nodes, scenes, s), Seq::empty()),
    decreases s,
{
    if s > 0 {
        lemma_visit_scenes_closed(nodes, scenes, s - 1);
        lemma_visit_scenes_extends(nodes, scenes, s - 1);
        lemma_visit_roots_closed(
            nodes,
            scenes[s - 1]@,
            scenes[s - 1]@.len() as int,
            visit_scenes(nodes, scenes, s - 1),
        );
    }
}

/// What a walk has seen it keeps.
pub proof fn lemma_walk_keeps(nodes: Seq<SourceNode>, stack: Seq<usize>, seen: Seq<usize>, i: int)
    requires
        is_visit_list(nodes, seen),
        holds(seen, i),
    ensures
        holds(walk(nodes, stack, seen), i),
{
    lemma_walk_extends(nodes, stack, seen);
    let out = walk(nodes, stack, seen);
    let k = choose|k: int| 0 <= k < seen.len() && #[trigger] seen[k] == i;
    assert(out.subrange(0, seen.len() as int)[k] == out[k]);
    assert(out[k] == i);
}

/// A walk from a root that names a node visits that node, if it was not
/// visited before.
pub proof fn lemma_walk_visits_root(nodes: Seq<SourceNode>, root: usize, seen: Seq<usize>)
    requires
        is_visit_list(nodes, seen),
        root < nodes.len(),
    ensures
        holds(walk(nodes, seq![root], seen), root as int),
{
    let stack = seq![root];
    assert(stack.last() == root);
    if holds(seen, root as int) {
        lemma_walk_keeps(nodes, stack, seen, root as int);
    } else {
        let longer = seen.push(root);
        let next = stack.drop_last() + nodes[root as int].children@.reverse();
        lemma_visit_list_push(nodes, seen, root);
        lemma_holds_push(seen, root, root as int);
        lemma_walk_keeps(nodes, next, longer, root as int);
        assert(walk(nodes, stack, seen) == walk(nodes, next, longer));
    }
}

/// What the first `j` roots gave, the first `k` keep.
pub proof fn lemma_visit_roots_keeps(
    nodes: Seq<SourceNode>,
    roots: Seq<usize>,
    j: int,
    k: int,
    seen: Seq<usize>,
    i: int,
)
    requires
        is_visit_list(nodes, seen),
        0 <= j <= k,
        holds(visit_roots(nodes, roots, j, seen), i),
    ensures
        holds(visit_roots(nodes, roots, k, seen), i),
    decreases k,
{
    if j < k {
        lemma_visit_roots_keeps(nodes, roots, j, k - 1, seen, i);
        lemma_visit_roots_extends(nodes, roots, k - 1, seen);
        lemma_walk_keeps(nodes, seq![roots[k - 1]], visit_roots(nodes, roots, k - 1, seen), i);
    }
}

/// What the first `a` scenes gave, the first `b` keep.
pub proof fn lemma_visit_scenes_keeps(
    nodes: Seq<SourceNode>,
    scenes: Seq<Vec<usize>>,
    a: int,
    b: int,
    i: int,
)
    requires
        0 <= a <= b,
        holds(visit_scenes(nodes, scenes, a), i),
    ensures
        holds(visit_scenes(nodes, scenes, b), i),
    decreases b,
{
    if a < b {
        lemma_visit_scenes_keeps(nodes, scenes, a, b - 1, i);
        lemma_visit_scenes_extends(nodes, scenes, b - 1);
        lemma_visit_roots_keeps(
            nodes,
            scenes[b - 1]@,
            0,
            scenes[b - 1]@.len() as int,
            visit_scenes(nodes, scenes, b - 1),
            i,
        );
    }
}

/// Whether some scene names node `i` as a root.
pub open spec fn is_root(scenes: Seq<Vec<usize>>, i: int) -> bool {
    exists|s: int, r: int|
        0 <= s < scenes.len() && 0 <= r < scenes[s]@.len() && #[trigger] scenes[s]@[r] == i
}

/// Whether one of the nodes in `seen` lists node `i` as a child.
pub open spec fn is_listed(nodes: Seq<SourceNode>, seen: Seq<usize>, i: int) -> bool {
    exists|q: int| 0 <= q < seen.len() && #[trigger] holds(nodes[seen[q] as int].children@, i)
}

/// Whether every index in `list` is a root or is listed by a node in `seen`.
pub open spec fn have_origin(
    nodes: Seq<SourceNode>,
    scenes: Seq<Vec<usize>>,
    seen: Seq<usize>,
    list: Seq<usize>,
) -> bool {
    forall|t: int|
        0 <= t < list.len() ==> is_root(scenes, #[trigger] list[t] as int) || is_listed(
            nodes,
            seen,
            list[t] as int,
        )
}

/// What a node in `seen` lists, a node in `seen` with one more node lists.
proof fn lemma_listed_push(nodes: Seq<SourceNode>, seen: Seq<usize>, idx: usize, i: int)
    requires
        is_listed(nodes, seen, i),
    ensures
        is_listed(nodes, seen.push(idx), i),
{
    let q = choose|q: int| 0 <= q < seen.len() && #[trigger] holds(nodes[seen[q] as int].children@, i);
    let longer = seen.push(idx);
    assert(longer[q] == seen[q]);
    assert(0 <= q < longer.len() && holds(nodes[longer[q] as int].children@, i));
}

/// A walk visits only roots and nodes that a visited node lists.
pub proof fn lemma_walk_origins(
    nodes: Seq<SourceNode>,
    scenes: Seq<Vec<usize>>,
    stack: Seq<usize>,
    seen: Seq<usize>,
)
    requires
        have_origin(nodes, scenes, seen, seen),
        have_origin(nodes, scenes, seen, stack),
    ensures
        have_origin(nodes, scenes, walk(nodes, stack, seen), walk(nodes, stack, seen)),
    decreases unseen(nodes.len(), seen), stack.len(),
{
    if stack.len() > 0 {
        let idx = stack.last();
        let rest = stack.drop_last();
        if idx >= nodes.len() || holds(seen, idx as int) {
            assert forall|t: int| 0 <= t < rest.len() implies is_root(
                scenes,
                #[trigger] rest[t] as int,
            ) || is_listed(nodes, seen, rest[t] as int) by {
                assert(rest[t] == stack[t]);
            }
            lemma_walk_origins(nodes, scenes, rest, seen);
        } else {
            let longer = seen.push(idx);
            let children = nodes[idx as int].children@;
            let next = rest + children.reverse();
            lemma_unseen_push(nodes.len(), seen, idx);
            assert forall|t: int| 0 <= t < longer.len() implies is_root(
                scenes,
                #[trigger] longer[t] as int,
            ) || is_listed(nodes, longer, longer[t] as int) by {
                let i = longer[t] as int;
                if t < seen.len() {
                    assert(longer[t] == seen[t]);
                } else {
                    assert(idx == stack[stack.len() - 1]);
                }
                if is_listed(nodes, seen, i) {
                    lemma_listed_push(nodes, seen, idx, i);
                }
            }
            assert forall|t: int| 0 <= t < next.len() implies is_root(
                scenes,
                #[trigger] next[t] as int,
            ) || is_listed(nodes, longer, next[t] as int) by {
                let i = next[t] as int;
                if t < rest.len() {
                    assert(next[t] == stack[t]);
                    if is_listed(nodes, seen, i) {
                        lemma_listed_push(nodes, seen, idx, i);
                    }
                } else {
                    let at = children.len() - 1 - (t - rest.len());
                    assert(next[t] == children.reverse()[t - rest.len()]);
                    assert(children[at] == i);
                    assert(holds(children, i));
                    assert(longer[seen.len() as int] == idx);
                    assert(holds(nodes[longer[seen.len() as int] as int].children@, i));
                }
            }
            lemma_walk_origins(nodes, scenes, next, longer);
        }
    }
}

/// Walking the roots of a scene visits only roots and nodes that a visited
/// node lists.
proof fn lemma_visit_roots_origins(
    nodes: Seq<SourceNode>,
    scenes: Seq<Vec<usize>>,
    s: int,
    k: int,
    seen: Seq<usize>,
)
    requires
        0 <= s < scenes.len(),
        0 <= k <= scenes[s]@.len(),
        have_origin(nodes, scenes, seen, seen),
    ensures
        have_origin(
            nodes,
            scenes,
            visit_roots(nodes, scenes[s]@, k, seen),
            visit_roots(nodes, scenes[s]@, k, seen),
        ),
    decreases k,
{
    if k > 0 {
        lemma_visit_roots_origins(nodes, scenes, s, k - 1, seen);
        let before = visit_roots(nodes, scenes[s]@, k - 1, seen);
        let stack = seq![scenes[s]@[k - 1]];
        assert forall|t: int| 0 <= t < stack.len() implies is_root(
            scenes,
            #[trigger] stack[t] as int,
        ) || is_listed(nodes, before, stack[t] as int) by {
            assert(scenes[s]@[k - 1] == stack[t]);
        }
        lemma_walk_origins(nodes, scenes, stack, before);
    }
}

/// Walking scenes visits only roots and nodes that a visited node lists.
pub proof fn lemma_visit_scenes_origins(nodes: Seq<SourceNode>, scenes: Seq<Vec<usize>>, s: int)
    requires
        0 <= s <= scenes.len(),
    ensures
        have_origin(
            nodes,
            scenes,
            visit_scenes(nodes, scenes, s),
            visit_scenes(nodes, scenes, s),
        ),
    decreases s,
{
    if s > 0 {
        lemma_visit_scenes_origins(nodes, scenes, s - 1);
        lemma_visit_roots_origins(
            nodes,
            scenes,
            s - 1,
            scenes[s - 1]@.len() as int,
            visit_scenes(nodes, scenes, s - 1),
        );
    }
}

/// Whether the tables of the first pass agree with one another: `order`
/// lists the visited nodes, `entities` holds the entity made for each, with
/// ids counting up from `first`, and `table` maps each visited node index to
/// its entity's id and no other index to anything.
pub(crate) open spec fn first_pass_state(
    nodes: Seq<SourceNode>,
    first: int,
    entities: Seq<Entity>,
    order: Seq<usize>,
    table: Seq<Option<u32>>,
) -> bool {
    &&& table.len() == nodes.len()
    &&& entities.len() == order.len()
    &&& 0 <= first
    &&& first + order.len() <= u32::MAX
    &&& forall|k: int|
        0 <= k < order.len() ==> #[trigger] order[k] < nodes.len() && table[order[k] as int] == Some(
            (first + k) as u32,
        )
    &&& forall|i: int| 0 <= i < nodes.len() && (#[trigger] table[i]).is_some() ==> holds(order, i)
    &&& forall|k: int|
        0 <= k < order.len() ==> (#[trigger] entities[k]).well_formed() && entities[k]@
            == fresh_entity(nodes[order[k] as int], (first + k) as u32)
}

/// In agreeing tables the visited nodes are nodes, each listed once.
pub(crate) proof fn lemma_state_visit_list(
    nodes: Seq<SourceNode>,
    first: int,
    entities: Seq<Entity>,
    order: Seq<usize>,
    table: Seq<Option<u32>>,
)
    requires
        first_pass_state(nodes, first, entities, order, table),
    ensures
        is_visit_list(nodes, order),
        forall|i: int| 0 <= i < nodes.len() ==> ((#[trigger] table[i]).is_some() <==> holds(order, i)),
{
    assert forall|a: int, b: int| 0 <= a < b < order.len() implies #[trigger] order[a]
        != #[trigger] order[b] by {
        assert(table[order[a] as int] == Some((first + a) as u32));
        assert(table[order[b] as int] == Some((first + b) as u32));
    }
    assert forall|i: int| 0 <= i < nodes.len() && holds(order, i) implies (#[trigger] table[i]).is_some() by {
        let k = choose|k: int| 0 <= k < order.len() && #[trigger] order[k] == i;
        assert(table[order[k] as int] == Some((first + k) as u32));
    }
}

/// Puts the children of a node on the stack, the first child last, so that
/// it is taken first.
fn push_children(stack: &mut Vec<usize>, children: &Vec<usize>)
    ensures
        final(stack)@ == old(stack)@ + children@.reverse(),
{
    let ghost rest = stack@;
    let mut j: usize = children.len();
    while j > 0
        invariant
            j <= children@.len(),
            stack@.len() == rest.len() + (children@.len() - j),
            stack@.subrange(0, rest.len() as int) == rest,
            forall|t: int|
                rest.len() <= t < stack@.len() ==> #[trigger] stack@[t] == children@[children@.len() - 1
                    - (t - rest.len())],
        decreases j,
    {
        j = j - 1;
        let ghost prev = stack@;
        stack.push(children[j]);
        assert(stack@.subrange(0, rest.len() as int) =~= prev.subrange(0, rest.len() as int));
    }
    assert(stack@ =~= rest + children@.reverse());
}

/// Walks the subtree of one root: makes an entity for every node that is
/// reached and was not visited before.
fn visit_from(
    nodes: &Vec<SourceNode>,
    root: usize,
    ids: &mut IdAllocator,
    entities: &mut Vec<Entity>,
    order: &mut Vec<usize>,
    table: &mut Vec<Option<u32>>,
    Ghost(first): Ghost<int>,
) -> (r: Result<(), SceneError>)
    requires
        first_pass_state(nodes@, first, old(entities)@, old(order)@, old(table)@),
        old(ids).next_id() == first + old(order)@.len(),
    ensures
        r is Ok ==> {
            &&& first_pass_state(nodes@, first, final(entities)@, final(order)@, final(table)@)
            &&& final(order)@ == walk(nodes@, seq![root], old(order)@)
            &&& final(ids).next_id() == first + final(order)@.len()
        },
        r is Err ==> {
            &&& r == Err::<(), SceneError>(SceneError::IdsExhausted)
            &&& first + walk(nodes@, seq![root], old(order)@).len() > u32::MAX
            &&& final(ids).next_id() == u32::MAX
        },
{
    let ghost target = walk(nodes@, seq![root], order@);
    let mut stack: Vec<usize> = Vec::new();
    stack.push(root);
    assert(stack@ =~= seq![root]);
    while stack.len() > 0
        invariant
            first_pass_state(nodes@, first, entities@, order@, table@),
            ids.next_id() == first + order@.len(),
            walk(nodes@, stack@, order@) == target,
            target == walk(nodes@, seq![root], old(order)@),
        decreases unseen(nodes@.len(), order@), stack@.len(),
    {
        let ghost before = stack@;
        let ghost seen = order@;
        let popped = stack.pop();
        let idx: usize = popped.unwrap();
        proof {
            assert(idx == before.last());
            assert(stack@ =~= before.drop_last());
            lemma_state_visit_list(nodes@, first, entities@, order@, table@);
        }
        if idx < nodes.len() && table[idx].is_none() {
            proof {
                lemma_unseen_push(nodes@.len(), seen, idx);
                lemma_visit_list_push(nodes@, seen, idx);
                lemma_walk_extends(
                    nodes@,
                    stack@ + nodes@[idx as int].children@.reverse(),
                    seen.push(idx),
                );
                assert(!holds(seen, idx as int));
                assert(walk(nodes@, before, seen) == walk(
                    nodes@,
                    before.drop_last() + nodes@[idx as int].children@.reverse(),
                    seen.push(idx),
                ));
            }
            match process_node(&nodes[idx], ids) {
                Some(entity) => {
                    let id: u32 = entity.id;
                    let ghost old_entities = entities@;
                    let ghost old_table = table@;
                    entities.push(entity);
                    order.push(idx);
                    table.set(idx, Some(id));
                    push_children(&mut stack, &nodes[idx].children);
                    proof {
                        assert forall|k: int| 0 <= k < order@.len() implies #[trigger] order@[k]
                            < nodes@.len() && table@[order@[k] as int] == Some((first + k) as u32) by {
                            if k < seen.len() {
                                assert(old_table[seen[k] as int] == Some((first + k) as u32));
                            }
                        }
                        assert forall|i: int|
                            0 <= i < nodes@.len() && (#[trigger] table@[i]).is_some() implies holds(
                            order@,
                            i,
                        ) by {
                            lemma_holds_push(seen, idx, i);
                            if i != idx {
                                assert(old_table[i].is_some());
                            }
                        }
                        assert forall|k: int| 0 <= k < order@.len() implies (#[trigger] entities@[k]).well_formed()
                            && entities@[k]@ == fresh_entity(
                            nodes@[order@[k] as int],
                            (first + k) as u32,
                        ) by {
                            if k < seen.len() {
                                assert(entities@[k] == old_entities[k]);
                            }
                        }
                    }
                },
                None => {
                    return Err(SceneError::IdsExhausted);
                },
            }
        }
    }
    Ok(())
}

/// First pass: makes one entity for every node reachable from a scene root,
/// in visiting order, and the table from node index to entity id.
pub(crate) fn assign_entities(nodes: &Vec<SourceNode>, scenes: &Vec<Vec<usize>>, ids: &mut IdAllocator) -> (r:
    Result<(Vec<Entity>, Vec<usize>, Vec<Option<u32>>), SceneError>)
    ensures
        r matches Ok(t) ==> {
            &&& first_pass_state(nodes@, old(ids).next_id() as int, t.0@, t.1@, t.2@)
            &&& t.1@ == visit_order(nodes@, scenes@)
            &&& final(ids).next_id() == old(ids).next_id() + t.1@.len()
        },
        r matches Err(e) ==> {
            &&& e == SceneError::IdsExhausted
            &&& old(ids).next_id() + visit_order(nodes@, scenes@).len() > u32::MAX
            &&& final(ids).next_id() == u32::MAX
        },
{
    let ghost first: int = ids.next_id() as int;
    let mut entities: Vec<Entity> = Vec::new();
    let mut order: Vec<usize> = Vec::new();
    let mut table: Vec<Option<u32>> = Vec::new();
    let mut i: usize = 0;
    while i < nodes.len()
        invariant
            i <= nodes@.len(),
            table@.len() == i,
            forall|t: int| 0 <= t < i ==> (#[trigger] table@[t]).is_none(),
        decreases nodes@.len() - i,
    {
        table.push(None);
        i = i + 1;
    }
    let mut s: usize = 0;
    while s < scenes.len()
        invariant
            s <= scenes@.len(),
            first == old(ids).next_id(),
            first_pass_state(nodes@, first, entities@, order@, table@),
            ids.next_id() == first + order@.len(),
            order@ == visit_scenes(nodes@, scenes@, s as int),
        decreases scenes@.len() - s,
    {
        let roots = &scenes[s];
        let ghost start = order@;
        let mut r: usize = 0;
        while r < roots.len()
            invariant
                r <= roots@.len(),
                s < scenes@.len(),
                first == old(ids).next_id(),
                roots@ == scenes@[s as int]@,
                start == visit_scenes(nodes@, scenes@, s as int),
                first_pass_state(nodes@, first, entities@, order@, table@),
                ids.next_id() == first + order@.len(),
                order@ == visit_roots(nodes@, roots@, r as int, start),
            decreases roots@.len() - r,
        {
            match visit_from(
                nodes,
                roots[r],
                ids,
                &mut entities,
                &mut order,
                &mut table,
                Ghost(first),
            ) {
                Ok(()) => {},
                Err(e) => {
                    proof {
                        lemma_visit_scenes_extends(nodes@, scenes@, s as int);
                        lemma_visit_roots_extends(nodes@, roots@, roots@.len() as int, start);
                        lemma_visit_scenes_extends(nodes@, scenes@, scenes@.len() as int);
                        assert(visit_roots(nodes@, roots@, r as int + 1, start).len() <= visit_roots(
                            nodes@,
                            roots@,
                            roots@.len() as int,
                            start,
                        ).len());
                        assert(visit_scenes(nodes@, scenes@, s as int + 1).len() <= visit_scenes(
                            nodes@,
                            scenes@,
                            scenes@.len() as int,
                        ).len());
                    }
                    return Err(e);
                },
            }
            r = r + 1;
        }
        s = s + 1;
    }
    Ok((entities, order, table))
}

} // verus!
