//! Entities, the source nodes they are made from, and the components of a
//! node.

use crate::components::{ComponentSet, ComponentValue, ValueView};
use crate::ids::IdAllocator;
use crate::json::{entries_mapping, lemma_listed_members, object_members, parse_object_members};
use vstd::prelude::*;

verus! {

/// A node of the output scene graph.
#[derive(Debug)]
pub struct Entity {
    /// The entity's id.
    pub id: u32,
    /// The id of the parent entity, if the entity has one.
    pub parent: Option<u32>,
    /// The ids of the child entities, in the order in which they were linked.
    pub children: Vec<u32>,
    /// The entity's components, keyed by name.
    pub components: ComponentSet,
}

/// The mathematical value of an [`Entity`].
pub struct EntityView {
    pub id: u32,
    pub parent: Option<u32>,
    pub children: Seq<u32>,
    pub components: Map<Seq<char>, ValueView>,
}

impl View for Entity {
    type V = EntityView;

    open spec fn view(&self) -> EntityView {
        EntityView {
            id: self.id,
            parent: self.parent,
            children: self.children@,
            components: self.components@,
        }
    }
}

impl Entity {
    /// Whether the component store is well formed. Every entity that this
    /// module hands out is.
    pub open spec fn well_formed(&self) -> bool {
        self.components.well_formed()
    }

    /// A new entity with a fresh id, no parent, no children and no
    /// components; `None` if the allocator is exhausted.
    pub fn default(ids: &mut IdAllocator) -> (r: Option<Entity>)
        ensures
            r.is_some() <==> old(ids).next_id() < u32::MAX,
            r matches Some(e) ==> {
                &&& e.well_formed()
                &&& e@ == (EntityView {
                    id: old(ids).next_id(),
                    parent: None,
                    children: Seq::empty(),
                    components: Map::empty(),
                })
                &&& final(ids).next_id() == old(ids).next_id() + 1
            },
            r.is_none() ==> final(ids).next_id() == old(ids).next_id(),
    {
        match ids.allocate() {
            Some(id) => Some(
                Entity { id, parent: None, children: Vec::new(), components: ComponentSet::new() },
            ),
            None => None,
        }
    }
}

/// One node of the source document. The structured payloads (transform,
/// camera, light) arrive as JSON text and are carried through unread.
#[derive(Debug)]
pub struct SourceNode {
    /// Indices of the node's children in the document's node list.
    pub children: Vec<usize>,
    /// The node's local transform, decomposed, as JSON text.
    pub transform: String,
    /// Index of the mesh the node shows.
    pub mesh: Option<usize>,
    /// The node's name.
    pub name: Option<String>,
    /// The node's camera as JSON text.
    pub camera: Option<String>,
    /// The node's light as JSON text.
    pub light: Option<String>,
    /// The node's free-form extras, as the JSON text found in the source.
    pub extras: Option<String>,
}

/// The components that a node has whatever its extras hold: always
/// `Transform`; `Mesh`, `Name`, `Camera` and `Light` where the node has one.
pub open spec fn fixed_components(node: SourceNode) -> Map<Seq<char>, ValueView> {
    let m0 = Map::<Seq<char>, ValueView>::empty().insert(
        "Transform"@,
        ValueView::Json(node.transform@),
    );
    let m1 = match node.mesh {
        Some(i) => m0.insert("Mesh"@, ValueView::Index(i)),
        None => m0,
    };
    let m2 = match node.name {
        Some(s) => m1.insert("Name"@, ValueView::Text(s@)),
        None => m1,
    };
    let m3 = match node.camera {
        Some(s) => m2.insert("Camera"@, ValueView::Json(s@)),
        None => m2,
    };
    match node.light {
        Some(s) => m3.insert("Light"@, ValueView::Json(s@)),
        None => m3,
    }
}

/// `base` with every member stored as a JSON component under its name, in
/// place of what `base` holds there.
pub open spec fn with_members(
    base: Map<Seq<char>, ValueView>,
    members: Map<Seq<char>, Seq<char>>,
) -> Map<Seq<char>, ValueView> {
    Map::new(
        |k: Seq<char>| base.contains_key(k) || members.contains_key(k),
        |k: Seq<char>|
            if members.contains_key(k) {
                ValueView::Json(members[k])
            } else {
                base[k]
            },
    )
}

/// The members of a node's extras: those of the object that the extras text
/// spells. Extras that spell no object are ignored: they have no members,
/// as a node without extras has none.
pub open spec fn extras_members(node: SourceNode) -> Map<Seq<char>, Seq<char>> {
    match node.extras {
        Some(text) => match object_members(text@) {
            Some(members) => members,
            None => Map::empty(),
        },
        None => Map::empty(),
    }
}

/// The components of the entity made for `node`.
pub open spec fn node_components(node: SourceNode) -> Map<Seq<char>, ValueView> {
    with_members(fixed_components(node), extras_members(node))
}

/// Builds the components of a node from its fields and the listed members
/// of its extras. A member replaces a component of the same name; of two
/// members with one name the later stays.
pub fn build_components(node: &SourceNode, members: &Vec<(String, String)>) -> (set: ComponentSet)
    ensures
        set.well_formed(),
        set@ == with_members(fixed_components(*node), entries_mapping(members@, members@.len() as int)),
{
    let mut set = ComponentSet::new();
    set.insert("Transform".to_owned(), ComponentValue::Json(node.transform.clone()));
    match &node.mesh {
        Some(i) => {
            set.insert("Mesh".to_owned(), ComponentValue::Index(*i));
        },
        None => {},
    }
    match &node.name {
        Some(s) => {
            set.insert("Name".to_owned(), ComponentValue::Text(s.clone()));
        },
        None => {},
    }
    match &node.camera {
        Some(s) => {
            set.insert("Camera".to_owned(), ComponentValue::Json(s.clone()));
        },
        None => {},
    }
    match &node.light {
        Some(s) => {
            set.insert("Light".to_owned(), ComponentValue::Json(s.clone()));
        },
        None => {},
    }
    assert(set@ == fixed_components(*node));
    let ghost base = set@;
    let mut i: usize = 0;
    while i < members.len()
        invariant
            i <= members@.len(),
            set.well_formed(),
            set@ == with_members(base, entries_mapping(members@, i as int)),
        decreases members@.len() - i,
    {
        set.insert(members[i].0.clone(), ComponentValue::Json(members[i].1.clone()));
        assert(set@ =~= with_members(base, entries_mapping(members@, i as int + 1)));
        i = i + 1;
    }
    set
}

/// Makes the entity for one node: a fresh id, no parent, no children, and
/// the node's components. `None` if the allocator is exhausted.
pub fn process_node(node: &SourceNode, ids: &mut IdAllocator) -> (r: Option<Entity>)
    ensures
        r.is_some() <==> old(ids).next_id() < u32::MAX,
        r matches Some(e) ==> {
            &&& e.well_formed()
            &&& e@ == fresh_entity(*node, old(ids).next_id())
            &&& final(ids).next_id() == old(ids).next_id() + 1
        },
        r.is_none() ==> final(ids).next_id() == old(ids).next_id(),
{
    match ids.allocate() {
        Some(id) => {
            let parsed: Option<Vec<(String, String)>> = match &node.extras {
                Some(text) => parse_object_members(text.as_str()),
                None => None,
            };
            let members: Vec<(String, String)> = match parsed {
                Some(entries) => entries,
                None => Vec::new(),
            };
            proof {
                if parsed.is_some() {
                    lemma_listed_members(members@, extras_members(*node));
                } else {
                    assert(entries_mapping(members@, 0) =~= extras_members(*node));
                }
            }
            let components = build_components(node, &members);
            Some(Entity { id, parent: None, children: Vec::new(), components })
        },
        None => None,
    }
}

/// The entity made for `node` under `id`, before any link is recorded.
pub open spec fn fresh_entity(node: SourceNode, id: u32) -> EntityView {
    EntityView { id, parent: None, children: Seq::empty(), components: node_components(node) }
}

} // verus!
