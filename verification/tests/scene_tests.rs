use glb_converter::components::{Component, ComponentSet, ComponentValue};
use glb_converter::material::lighting_model;
use glb_converter::entity::{build_components, process_node, Entity, SourceNode};
use glb_converter::ids::IdAllocator;
use glb_converter::scene::{build_scene_graph, DanglingReference, SceneError, SceneGraph};

fn node(children: Vec<usize>) -> SourceNode {
    SourceNode {
        children,
        transform: "{\"translation\":[0.0,0.0,0.0]}".to_string(),
        mesh: None,
        name: None,
        camera: None,
        light: None,
        extras: None,
    }
}

fn names(set: &ComponentSet) -> Vec<String> {
    let mut out: Vec<String> = set.entries().iter().map(|c| c.name.clone()).collect();
    out.sort();
    out
}

fn json_of(set: &ComponentSet, name: &str) -> Option<serde_json::Value> {
    match set.get(&name.to_string()) {
        Some(ComponentValue::Json(text)) => Some(serde_json::from_str(text).unwrap()),
        _ => None,
    }
}

fn build(nodes: &Vec<SourceNode>, scenes: &Vec<Vec<usize>>, first: u32) -> SceneGraph {
    build_scene_graph(nodes, scenes, &mut IdAllocator::starting_at(first)).unwrap()
}

fn parse(text: &str) -> serde_json::Value {
    serde_json::from_str(text).unwrap()
}

#[test]
fn allocator_counts_up() {
    let mut ids = IdAllocator::new();
    assert_eq!(ids.peek(), 0);
    assert_eq!(ids.allocate(), Some(0));
    assert_eq!(ids.allocate(), Some(1));
    assert_eq!(ids.allocate(), Some(2));
    assert_eq!(ids.peek(), 3);
}

#[test]
fn allocator_never_reuses_an_id() {
    let mut ids = IdAllocator::starting_at(u32::MAX - 2);
    assert_eq!(ids.allocate(), Some(u32::MAX - 2));
    assert_eq!(ids.allocate(), Some(u32::MAX - 1));
    assert_eq!(ids.allocate(), None);
    assert_eq!(ids.allocate(), None);
    assert_eq!(ids.peek(), u32::MAX);
}

#[test]
fn default_entity_is_bare() {
    let mut ids = IdAllocator::starting_at(5);
    let e = Entity::default(&mut ids).unwrap();
    assert_eq!(e.id, 5);
    assert_eq!(e.parent, None);
    assert!(e.children.is_empty());
    assert!(e.components.entries().is_empty());
    let f = Entity::default(&mut ids).unwrap();
    assert_eq!(f.id, 6);
    let mut spent = IdAllocator::starting_at(u32::MAX);
    assert!(Entity::default(&mut spent).is_none());
}

#[test]
fn component_store_replaces_by_name() {
    let mut set = ComponentSet::new();
    set.insert("A".to_string(), ComponentValue::Index(1));
    set.insert("B".to_string(), ComponentValue::Text("b".to_string()));
    set.insert("A".to_string(), ComponentValue::Index(2));
    assert_eq!(names(&set), vec!["A", "B"]);
    assert!(matches!(set.get(&"A".to_string()), Some(ComponentValue::Index(2))));
    assert!(matches!(set.get(&"B".to_string()), Some(ComponentValue::Text(t)) if t == "b"));
    assert!(set.get(&"C".to_string()).is_none());
    let listed: &Vec<Component> = set.entries();
    assert_eq!(listed.len(), 2);
}

#[test]
fn plain_node_has_only_a_transform() {
    let mut ids = IdAllocator::new();
    let e = process_node(&node(vec![]), &mut ids).unwrap();
    assert_eq!(names(&e.components), vec!["Transform"]);
    assert_eq!(
        json_of(&e.components, "Transform"),
        Some(parse("{\"translation\":[0.0,0.0,0.0]}"))
    );
    assert_eq!(e.id, 0);
    assert_eq!(e.parent, None);
    assert!(e.children.is_empty());
}

#[test]
fn node_fields_become_components() {
    let mut n = node(vec![]);
    n.mesh = Some(4);
    n.name = Some("lamp".to_string());
    n.camera = Some("{\"type\":\"Perspective\",\"yfov\":0.5}".to_string());
    n.light = Some("{\"type\":\"Point\",\"intensity\":2.0}".to_string());
    let mut ids = IdAllocator::starting_at(9);
    let e = process_node(&n, &mut ids).unwrap();
    assert_eq!(e.id, 9);
    assert_eq!(names(&e.components), vec!["Camera", "Light", "Mesh", "Name", "Transform"]);
    assert!(matches!(e.components.get(&"Mesh".to_string()), Some(ComponentValue::Index(4))));
    assert!(
        matches!(e.components.get(&"Name".to_string()), Some(ComponentValue::Text(t)) if t == "lamp")
    );
    assert_eq!(json_of(&e.components, "Camera"), Some(parse("{\"type\":\"Perspective\",\"yfov\":0.5}")));
    assert_eq!(json_of(&e.components, "Light"), Some(parse("{\"type\":\"Point\",\"intensity\":2.0}")));
}

#[test]
fn extras_members_become_components() {
    let mut n = node(vec![]);
    n.extras = Some("{ \"health\": 10, \"tags\": [\"a\", \"b\"], \"nested\": {\"x\": null} }".to_string());
    let e = process_node(&n, &mut IdAllocator::new()).unwrap();
    assert_eq!(names(&e.components), vec!["Transform", "health", "nested", "tags"]);
    assert_eq!(json_of(&e.components, "health"), Some(parse("10")));
    assert_eq!(json_of(&e.components, "tags"), Some(parse("[\"a\",\"b\"]")));
    assert_eq!(json_of(&e.components, "nested"), Some(parse("{\"x\":null}")));
    match e.components.get(&"tags".to_string()) {
        Some(ComponentValue::Json(text)) => assert_eq!(text, "[\"a\",\"b\"]"),
        other => panic!("unexpected component {:?}", other),
    }
}

#[test]
fn extras_member_replaces_a_component_of_its_name() {
    let mut n = node(vec![]);
    n.name = Some("old".to_string());
    n.extras = Some("{\"Name\": \"new\", \"Transform\": 1}".to_string());
    let e = process_node(&n, &mut IdAllocator::new()).unwrap();
    assert_eq!(names(&e.components), vec!["Name", "Transform"]);
    assert_eq!(json_of(&e.components, "Name"), Some(parse("\"new\"")));
    assert_eq!(json_of(&e.components, "Transform"), Some(parse("1")));
}

#[test]
fn repeated_extras_member_keeps_its_last_value() {
    let mut n = node(vec![]);
    n.extras = Some("{\"k\": 1, \"k\": 2}".to_string());
    let e = process_node(&n, &mut IdAllocator::new()).unwrap();
    assert_eq!(names(&e.components), vec!["Transform", "k"]);
    assert_eq!(json_of(&e.components, "k"), Some(parse("2")));
}

#[test]
fn extras_that_are_no_object_are_ignored() {
    for text in ["[1, 2]", "\"text\"", "12", "null", "not json", "{\"open\": ", ""] {
        let mut n = node(vec![]);
        n.extras = Some(text.to_string());
        let e = process_node(&n, &mut IdAllocator::new()).unwrap();
        assert_eq!(names(&e.components), vec!["Transform"], "extras {:?}", text);
    }
}

#[test]
fn listed_members_are_stored_in_order() {
    let members = vec![
        ("a".to_string(), "1".to_string()),
        ("Mesh".to_string(), "2".to_string()),
        ("a".to_string(), "3".to_string()),
    ];
    let mut n = node(vec![]);
    n.mesh = Some(1);
    let set = build_components(&n, &members);
    assert_eq!(names(&set), vec!["Mesh", "Transform", "a"]);
    assert_eq!(json_of(&set, "a"), Some(parse("3")));
    assert_eq!(json_of(&set, "Mesh"), Some(parse("2")));
}

#[test]
fn process_node_fails_without_ids() {
    let mut ids = IdAllocator::starting_at(u32::MAX);
    assert!(process_node(&node(vec![]), &mut ids).is_none());
    assert_eq!(ids.peek(), u32::MAX);
}

#[test]
fn tree_is_linked_in_two_passes() {
    // 0 -> (1 -> 3, 2)
    let nodes = vec![node(vec![1, 2]), node(vec![3]), node(vec![]), node(vec![])];
    let mut ids = IdAllocator::new();
    let graph = build_scene_graph(&nodes, &vec![vec![0]], &mut ids).unwrap();
    assert!(graph.dangling.is_empty());
    let entities = graph.entities;
    assert_eq!(entities.len(), 4);
    let ids_seen: Vec<u32> = entities.iter().map(|e| e.id).collect();
    assert_eq!(ids_seen, vec![0, 1, 2, 3]);
    // visiting order is 0, 1, 3, 2
    assert_eq!(entities[0].parent, None);
    assert_eq!(entities[0].children, vec![1, 3]);
    assert_eq!(entities[1].parent, Some(0));
    assert_eq!(entities[1].children, vec![2]);
    assert_eq!(entities[2].parent, Some(1));
    assert!(entities[2].children.is_empty());
    assert_eq!(entities[3].parent, Some(0));
    assert!(entities[3].children.is_empty());
    assert_eq!(ids.peek(), 4);
}

#[test]
fn edges_may_point_backwards_in_the_node_list() {
    // node 2 is the root and lists nodes 0 and 1, which come before it
    let mut nodes = vec![node(vec![]), node(vec![]), node(vec![1, 0])];
    nodes[0].name = Some("zero".to_string());
    nodes[1].name = Some("one".to_string());
    nodes[2].name = Some("two".to_string());
    let entities = build(&nodes, &vec![vec![2]], 10).entities;
    let label = |e: &Entity| match e.components.get(&"Name".to_string()) {
        Some(ComponentValue::Text(t)) => t.clone(),
        _ => String::new(),
    };
    let labels: Vec<String> = entities.iter().map(label).collect();
    assert_eq!(labels, vec!["two", "one", "zero"]);
    assert_eq!(entities[0].id, 10);
    assert_eq!(entities[0].children, vec![11, 12]);
    assert_eq!(entities[1].parent, Some(10));
    assert_eq!(entities[2].parent, Some(10));
}

#[test]
fn forest_has_one_root_entity_per_root() {
    let nodes = vec![node(vec![1]), node(vec![]), node(vec![]), node(vec![4]), node(vec![])];
    let scenes = vec![vec![0, 2], vec![], vec![3]];
    let entities = build(&nodes, &scenes, 0).entities;
    assert_eq!(entities.len(), 5);
    let roots: Vec<u32> = entities.iter().filter(|e| e.parent.is_none()).map(|e| e.id).collect();
    assert_eq!(roots, vec![0, 2, 3]);
    assert_eq!(entities[1].parent, Some(0));
    assert_eq!(entities[4].parent, Some(3));
}

#[test]
fn unreachable_nodes_get_no_entity() {
    let nodes = vec![node(vec![]), node(vec![2]), node(vec![])];
    let entities = build(&nodes, &vec![vec![1]], 0).entities;
    assert_eq!(entities.len(), 2);
    assert_eq!(entities[0].children, vec![1]);
}

#[test]
fn node_named_by_two_roots_is_visited_once() {
    let nodes = vec![node(vec![]), node(vec![])];
    let graph = build(&nodes, &vec![vec![0, 1], vec![0, 1, 7]], 0);
    assert_eq!(graph.entities.len(), 2);
    assert!(graph.dangling.is_empty());
}

#[test]
fn document_without_scenes_has_no_entities() {
    let nodes = vec![node(vec![])];
    assert!(build(&nodes, &vec![], 0).entities.is_empty());
    assert!(build(&vec![], &vec![vec![]], 0).entities.is_empty());
    assert!(build(&vec![], &vec![vec![3]], 0).entities.is_empty());
}

#[test]
fn dangling_edge_is_skipped_and_reported() {
    let nodes = vec![node(vec![1, 9]), node(vec![])];
    let graph = build(&nodes, &vec![vec![0]], 0);
    assert_eq!(graph.dangling, vec![DanglingReference { parent: 0, child: 9 }]);
    assert_eq!(graph.entities.len(), 2);
    assert_eq!(graph.entities[0].children, vec![1]);
    assert_eq!(graph.entities[0].parent, None);
    assert_eq!(graph.entities[1].parent, Some(0));
    assert!(graph.entities[1].children.is_empty());
}

#[test]
fn edges_around_a_dangling_one_are_still_recorded() {
    // 0 lists 7 (no node), 1, 8 (no node), 2; 1 lists 9 (no node) and 3
    let nodes = vec![node(vec![7, 1, 8, 2]), node(vec![9, 3]), node(vec![]), node(vec![])];
    let graph = build(&nodes, &vec![vec![0]], 20);
    let e = &graph.entities;
    assert_eq!(e.len(), 4);
    // visiting order is 0, 1, 3, 2
    assert_eq!(e[0].children, vec![21, 23]);
    assert_eq!(e[1].children, vec![22]);
    assert_eq!(e[1].parent, Some(20));
    assert_eq!(e[2].parent, Some(21));
    assert_eq!(e[3].parent, Some(20));
    assert_eq!(e[0].parent, None);
}

#[test]
fn dangling_edges_are_listed_in_walking_order() {
    let nodes = vec![node(vec![7, 1, 8, 2]), node(vec![9, 3]), node(vec![]), node(vec![6, 5])];
    let graph = build(&nodes, &vec![vec![0]], 0);
    // edges are walked parent by parent in visiting order 0, 1, 3, 2
    assert_eq!(
        graph.dangling,
        vec![
            DanglingReference { parent: 0, child: 7 },
            DanglingReference { parent: 0, child: 8 },
            DanglingReference { parent: 1, child: 9 },
            DanglingReference { parent: 3, child: 6 },
            DanglingReference { parent: 3, child: 5 },
        ]
    );
}

#[test]
fn same_dangling_child_is_reported_for_each_edge() {
    let nodes = vec![node(vec![4, 4, 1]), node(vec![4])];
    let graph = build(&nodes, &vec![vec![0]], 0);
    assert_eq!(
        graph.dangling,
        vec![
            DanglingReference { parent: 0, child: 4 },
            DanglingReference { parent: 0, child: 4 },
            DanglingReference { parent: 1, child: 4 },
        ]
    );
    assert_eq!(graph.entities[0].children, vec![1]);
}

#[test]
fn skipped_edges_name_no_node() {
    let nodes = vec![node(vec![1, 2, 3, usize::MAX]), node(vec![0, 2]), node(vec![])];
    let graph = build(&nodes, &vec![vec![0]], 0);
    for edge in &graph.dangling {
        assert!(edge.child >= nodes.len());
    }
    assert_eq!(
        graph.dangling,
        vec![
            DanglingReference { parent: 0, child: 3 },
            DanglingReference { parent: 0, child: usize::MAX },
        ]
    );
}

#[test]
fn root_that_names_no_node_is_passed_over() {
    let nodes = vec![node(vec![])];
    let graph = build(&nodes, &vec![vec![5, 0]], 0);
    assert_eq!(graph.entities.len(), 1);
    assert!(graph.dangling.is_empty());
}

#[test]
fn graph_fails_when_ids_run_out() {
    let nodes = vec![node(vec![1]), node(vec![])];
    let mut ids = IdAllocator::starting_at(u32::MAX - 1);
    let r = build_scene_graph(&nodes, &vec![vec![0]], &mut ids);
    assert_eq!(r.err(), Some(SceneError::IdsExhausted));
    let mut enough = IdAllocator::starting_at(u32::MAX - 2);
    let entities = build_scene_graph(&nodes, &vec![vec![0]], &mut enough).unwrap().entities;
    assert_eq!(entities[1].id, u32::MAX - 1);
    assert_eq!(enough.peek(), u32::MAX);
}

#[test]
fn graph_with_a_dangling_edge_still_fails_when_ids_run_out() {
    let nodes = vec![node(vec![5]), node(vec![])];
    let mut ids = IdAllocator::starting_at(u32::MAX - 1);
    let r = build_scene_graph(&nodes, &vec![vec![0, 1]], &mut ids);
    assert_eq!(r.err(), Some(SceneError::IdsExhausted));
    assert_eq!(ids.peek(), u32::MAX);
}

#[test]
fn every_parent_lists_its_child_once_and_ids_are_unique() {
    let nodes = vec![
        node(vec![1, 2, 3]),
        node(vec![4, 5]),
        node(vec![]),
        node(vec![6]),
        node(vec![]),
        node(vec![]),
        node(vec![]),
        node(vec![8]),
        node(vec![]),
    ];
    let first = 100u32;
    let entities = build(&nodes, &vec![vec![0], vec![7]], first).entities;
    assert_eq!(entities.len(), 9);
    for (k, e) in entities.iter().enumerate() {
        assert_eq!(e.id, first + k as u32);
        if let Some(parent) = e.parent {
            let p = &entities[(parent - first) as usize];
            assert_eq!(p.id, parent);
            assert_eq!(p.children.iter().filter(|c| **c == e.id).count(), 1);
        }
        for c in &e.children {
            assert_eq!(entities[(*c - first) as usize].parent, Some(e.id));
        }
    }
    let mut seen: Vec<u32> = entities.iter().map(|e| e.id).collect();
    seen.sort();
    seen.dedup();
    assert_eq!(seen.len(), entities.len());
    assert_eq!(entities.iter().filter(|e| e.parent.is_none()).count(), 2);
}

#[test]
fn cycle_is_walked_once() {
    let nodes = vec![node(vec![1]), node(vec![0])];
    let entities = build(&nodes, &vec![vec![0]], 0).entities;
    assert_eq!(entities.len(), 2);
    assert_eq!(entities[0].children, vec![1]);
    assert_eq!(entities[1].children, vec![0]);
    assert_eq!(entities[0].parent, Some(1));
    assert_eq!(entities[1].parent, Some(0));
}

#[test]
fn parentless_entities_are_the_roots_that_no_node_lists() {
    // roots 0, 2 and 4; node 4 is also a child of node 0
    let nodes = vec![node(vec![1, 4]), node(vec![]), node(vec![3]), node(vec![]), node(vec![])];
    let scenes = vec![vec![0, 2], vec![4]];
    let entities = build(&nodes, &scenes, 0).entities;
    // visiting order is 0, 1, 4, 2, 3
    assert_eq!(entities.len(), 5);
    let parentless: Vec<u32> = entities.iter().filter(|e| e.parent.is_none()).map(|e| e.id).collect();
    assert_eq!(parentless, vec![0, 3]);
    assert_eq!(entities[2].parent, Some(0));
}

#[test]
fn node_with_two_parents_belongs_to_the_last() {
    let nodes = vec![node(vec![1, 2]), node(vec![2]), node(vec![])];
    let entities = build(&nodes, &vec![vec![0]], 0).entities;
    // visiting order is 0, 1, 2; both 0 and 1 list node 2
    assert_eq!(entities[0].children, vec![1, 2]);
    assert_eq!(entities[1].children, vec![2]);
    assert_eq!(entities[2].parent, Some(1));
}

#[test]
fn lighting_model_defaults_to_pbr() {
    assert_eq!(lighting_model(None), "Pbr");
    assert_eq!(lighting_model(Some("\"Toon\"".to_string())), "\"Toon\"");
}
