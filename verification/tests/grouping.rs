use nnvis::assignment::NodeAssignment;
use nnvis::assoc::StrMap;
use nnvis::config::LayerDef;
use nnvis::grouping::build_grouped_graph;
use nnvis::onnx::OnnxNode;

fn node(id: &str, op: &str, inputs: &[&str], outputs: &[&str]) -> OnnxNode {
    OnnxNode {
        id: id.to_string(),
        name: id.to_string(),
        op_type: op.to_string(),
        domain: "".to_string(),
        inputs: inputs.iter().map(|s| s.to_string()).collect(),
        outputs: outputs.iter().map(|s| s.to_string()).collect(),
        doc_string: "".to_string(),
        attributes: StrMap::new(),
        metadata_props: StrMap::new(),
    }
}

fn assign(map: &mut StrMap<NodeAssignment>, node: &str, layer: &str) {
    map.insert(
        node.to_string(),
        NodeAssignment {
            layer_id: layer.to_string(),
            scope: None,
            matched_prefix: None,
            matched_via: "match".to_string(),
        },
    );
}

fn layer(id: &str, description: &str) -> LayerDef {
    LayerDef { id: id.to_string(), aliases: vec![], description: description.to_string(), sub_components: vec![] }
}

#[test]
fn test_build_grouped_graph() {
    // Mock some nodes
    let n1 = OnnxNode {
        id: "node1".to_string(),
        name: "node1".to_string(),
        op_type: "MatMul".to_string(),
        domain: "".to_string(),
        inputs: vec!["in1".to_string()],
        outputs: vec!["out1".to_string()],
        doc_string: "".to_string(),
        attributes: StrMap::new(),
        metadata_props: StrMap::new(),
    };
    let n2 = OnnxNode {
        id: "node2".to_string(),
        name: "node2".to_string(),
        op_type: "Add".to_string(),
        domain: "".to_string(),
        inputs: vec!["out1".to_string()],
        outputs: vec!["out2".to_string()],
        doc_string: "".to_string(),
        attributes: StrMap::new(),
        metadata_props: StrMap::new(),
    };
    let onnx_nodes = vec![n1, n2];

    // Assignments
    let mut assignments = StrMap::new();
    assignments.insert(
        "node1".to_string(),
        NodeAssignment {
            layer_id: "layer1".to_string(),
            scope: None,
            matched_prefix: None,
            matched_via: "match".to_string(),
        },
    );
    assignments.insert(
        "node2".to_string(),
        NodeAssignment {
            layer_id: "layer2".to_string(),
            scope: None,
            matched_prefix: None,
            matched_via: "match".to_string(),
        },
    );

    // Layers
    let layer_defs = vec![
        LayerDef {
            id: "layer1".to_string(),
            aliases: vec![],
            description: "Layer 1".to_string(),
            sub_components: vec![],
        },
        LayerDef {
            id: "layer2".to_string(),
            aliases: vec![],
            description: "Layer 2".to_string(),
            sub_components: vec![],
        },
    ];

    let graph = build_grouped_graph(&onnx_nodes, &assignments, &layer_defs);

    assert_eq!(graph.group_nodes.len(), 2);

    let g1 = graph.group_nodes.iter().find(|g| g.id == "layer1").unwrap();
    assert_eq!(g1.member_count, 1);
    assert_eq!(g1.op_type_histogram.get("MatMul"), Some(&1));

    // Edge out1 connects layer1 -> layer2
    assert_eq!(graph.group_edges.len(), 1);
    assert_eq!(graph.group_edges[0].source, "layer1");
    assert_eq!(graph.group_edges[0].target, "layer2");
}

#[test]
fn groups_sorted_with_unassigned_group() {
    let nodes = vec![
        node("a", "MatMul", &[], &["t1"]),
        node("b", "MatMul", &["t1"], &["t2"]),
        node("c", "Add", &["t2", "t1"], &["t3"]),
        node("d", "Relu", &["t3"], &[]),
        node("e", "Relu", &[], &[]),
    ];
    let mut a = StrMap::new();
    assign(&mut a, "a", "zeta");
    assign(&mut a, "b", "zeta");
    assign(&mut a, "c", "alpha");
    assign(&mut a, "d", "unassigned");
    assign(&mut a, "e", "nowhere");
    let defs = vec![layer("zeta", ""), layer("alpha", "First"), layer("mid", "Middle")];
    let g = build_grouped_graph(&nodes, &a, &defs);
    let ids: Vec<&str> = g.group_nodes.iter().map(|x| x.id.as_str()).collect();
    assert_eq!(ids, vec!["alpha", "mid", "unassigned", "zeta"]);
    let zeta = &g.group_nodes[3];
    assert_eq!(zeta.label, "zeta");
    assert_eq!(zeta.description, "zeta");
    assert_eq!(zeta.members, vec!["a", "b"]);
    assert_eq!(zeta.member_count, 2);
    assert_eq!(zeta.op_type_histogram.get("MatMul"), Some(&2));
    assert_eq!(zeta.op_type_histogram.len(), 1);
    let alpha = &g.group_nodes[0];
    assert_eq!(alpha.label, "First");
    assert_eq!(alpha.members, vec!["c"]);
    let mid = &g.group_nodes[1];
    assert_eq!(mid.member_count, 0);
    assert!(mid.members.is_empty());
    assert!(mid.op_type_histogram.is_empty());
    let un = &g.group_nodes[2];
    assert_eq!(un.label, "Unassigned Nodes");
    assert_eq!(un.description, "Nodes that could not be mapped to a conceptual layer");
    assert_eq!(un.members, vec!["d"]);
    let edges: Vec<(&str, &str)> = g.group_edges.iter().map(|e| (e.source.as_str(), e.target.as_str())).collect();
    // zeta -> alpha twice (t2, t1), alpha -> unassigned once; zeta -> zeta dropped.
    assert_eq!(edges, vec![("alpha", "unassigned"), ("zeta", "alpha")]);
}

#[test]
fn no_unassigned_group_without_unassigned_nodes() {
    let nodes = vec![node("a", "X", &[], &[])];
    let mut a = StrMap::new();
    assign(&mut a, "a", "l");
    let g = build_grouped_graph(&nodes, &a, &[layer("l", "L")]);
    assert_eq!(g.group_nodes.len(), 1);
    assert!(g.group_edges.is_empty());
}

#[test]
fn last_producer_of_a_tensor_wins() {
    let nodes = vec![
        node("p1", "X", &[], &["t"]),
        node("p2", "X", &[], &["t"]),
        node("c", "X", &["t"], &[]),
    ];
    let mut a = StrMap::new();
    assign(&mut a, "p1", "one");
    assign(&mut a, "p2", "two");
    assign(&mut a, "c", "three");
    let defs = vec![layer("one", ""), layer("two", ""), layer("three", "")];
    let g = build_grouped_graph(&nodes, &a, &defs);
    let edges: Vec<(&str, &str)> = g.group_edges.iter().map(|e| (e.source.as_str(), e.target.as_str())).collect();
    assert_eq!(edges, vec![("two", "three")]);
}

#[test]
fn duplicate_layer_ids_give_one_group() {
    let g = build_grouped_graph(&[], &StrMap::new(), &[layer("x", "first"), layer("x", "second")]);
    assert_eq!(g.group_nodes.len(), 1);
    assert_eq!(g.group_nodes[0].label, "second");
}

#[test]
fn edges_ordered_by_source_then_target() {
    let nodes = vec![
        node("s1", "X", &[], &["a"]),
        node("s2", "X", &[], &["b"]),
        node("t1", "X", &["b", "a"], &[]),
        node("t2", "X", &["a"], &[]),
    ];
    let mut a = StrMap::new();
    assign(&mut a, "s1", "b");
    assign(&mut a, "s2", "a");
    assign(&mut a, "t1", "d");
    assign(&mut a, "t2", "c");
    let g = build_grouped_graph(&nodes, &a, &[]);
    assert!(g.group_nodes.is_empty());
    let edges: Vec<(&str, &str)> = g.group_edges.iter().map(|e| (e.source.as_str(), e.target.as_str())).collect();
    assert_eq!(edges, vec![("a", "d"), ("b", "c"), ("b", "d")]);
}
