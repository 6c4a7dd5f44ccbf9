use nnvis::assignment::matched_via;
use nnvis::assignment::{
    assign_nodes_to_layers, canonical_scope, guess_layer_from_text, match_layer_by_prefix, LayerRegex,
    LAYER_INDEX_PATTERN,
};
use nnvis::assoc::StrMap;
use nnvis::config::LayerDef;
use nnvis::onnx::OnnxNode;

fn make_simple_layers() -> Vec<LayerDef> {
    vec![
        LayerDef {
            id: "deberta.embeddings".to_string(),
            aliases: vec![
                "deberta.embeddings".to_string(),
                "model.embeddings".to_string(),
                "embeddings".to_string(),
            ],
            description: "Token Embeddings".to_string(),
            sub_components: vec![],
        },
        LayerDef {
            id: "deberta.encoder.layer.0".to_string(),
            aliases: vec![
                "deberta.encoder.layer.0".to_string(),
                "layer.0".to_string(),
                "layer_0".to_string(),
            ],
            description: "Encoder Block 0".to_string(),
            sub_components: vec!["attention".to_string()],
        },
        LayerDef {
            id: "pooler".to_string(),
            aliases: vec!["pooler".to_string(), "deberta.pooler".to_string()],
            description: "Pooler Layer".to_string(),
            sub_components: vec![],
        },
        LayerDef {
            id: "classifier".to_string(),
            aliases: vec![
                "classifier".to_string(),
                "cls".to_string(),
                "classification_head".to_string(),
            ],
            description: "Classification Head".to_string(),
            sub_components: vec![],
        },
    ]
}

fn re() -> LayerRegex {
    LayerRegex::new(r"(?:^|[./_])layer[./_](\d+)(?:$|[./_])").unwrap()
}

fn node(id: &str, name: &str, op: &str, inputs: &[&str], outputs: &[&str]) -> OnnxNode {
    OnnxNode {
        id: id.to_string(),
        name: name.to_string(),
        op_type: op.to_string(),
        domain: String::new(),
        inputs: inputs.iter().map(|s| s.to_string()).collect(),
        outputs: outputs.iter().map(|s| s.to_string()).collect(),
        attributes: StrMap::new(),
        doc_string: String::new(),
        metadata_props: StrMap::new(),
    }
}

#[test]
fn test_prefix_match_exact() {
    let layers = make_simple_layers();
    let m = match_layer_by_prefix("deberta.embeddings", &layers).unwrap();
    assert_eq!(m.layer_id, "deberta.embeddings");
    assert_eq!(m.matched_prefix, "deberta.embeddings");
}

#[test]
fn test_prefix_match_subpath() {
    let layers = make_simple_layers();
    let m = match_layer_by_prefix("deberta.embeddings.word_embeddings", &layers).unwrap();
    assert_eq!(m.layer_id, "deberta.embeddings");
}

#[test]
fn test_prefix_match_longest_wins() {
    // "deberta.embeddings" is longer than "embeddings" — should win.
    let layers = make_simple_layers();
    let m = match_layer_by_prefix("deberta.embeddings.weight", &layers).unwrap();
    assert_eq!(m.matched_prefix, "deberta.embeddings");
}

#[test]
fn test_prefix_match_no_match() {
    let layers = make_simple_layers();
    assert!(match_layer_by_prefix("unknown.stuff", &layers).is_none());
}

#[test]
fn test_prefix_match_empty() {
    let layers = make_simple_layers();
    assert!(match_layer_by_prefix("", &layers).is_none());
    assert!(match_layer_by_prefix(".", &layers).is_none());
}

#[test]
fn prefix_match_needs_dot_boundary_and_trims_dots() {
    let layers = make_simple_layers();
    assert!(match_layer_by_prefix("embeddingsx", &layers).is_none());
    let m = match_layer_by_prefix("..embeddings.word.", &layers).unwrap();
    assert_eq!(m.layer_id, "deberta.embeddings");
    assert_eq!(m.matched_prefix, "embeddings");
    // Of two aliases of equal length, the first found wins.
    let m = match_layer_by_prefix("layer.0.attention", &layers).unwrap();
    assert_eq!(m.layer_id, "deberta.encoder.layer.0");
    assert_eq!(m.matched_prefix, "layer.0");
}

#[test]
fn test_guess_layer_prefix_text() {
    let layers = make_simple_layers();
    let m = guess_layer_from_text("deberta.embeddings.weight", &layers, &re()).unwrap();
    assert_eq!(m.matched_via, matched_via::PREFIX_TEXT);
    assert_eq!(m.layer_id, "deberta.embeddings");
}

#[test]
fn test_guess_layer_embed_heuristic() {
    let layers = make_simple_layers();
    let m = guess_layer_from_text("token_embeddings_output", &layers, &re()).unwrap();
    assert_eq!(m.matched_via, matched_via::HEURISTIC_EMBEDDINGS);
    assert_eq!(m.layer_id, "deberta.embeddings");
}

#[test]
fn test_guess_layer_pool_heuristic() {
    let layers = make_simple_layers();
    let m = guess_layer_from_text("some_pooler_output", &layers, &re()).unwrap();
    assert_eq!(m.matched_via, matched_via::HEURISTIC_POOLER);
    assert_eq!(m.layer_id, "pooler");
}

#[test]
fn test_guess_layer_classifier_heuristic() {
    let layers = make_simple_layers();
    // Use strings that contain the keywords but don't match any alias by prefix.
    for text in &["logits_output", "pred_label", "label_ids"] {
        let m = guess_layer_from_text(text, &layers, &re()).unwrap();
        assert_eq!(m.matched_via, matched_via::HEURISTIC_CLASSIFIER, "text={}", text);
    }
}

#[test]
fn test_guess_layer_index_heuristic() {
    let layers = make_simple_layers();
    // Use strings that contain layer/0 but don't prefix-match any alias directly.
    for text in &["/layer/0/output", "encoder_layer_0_out"] {
        let m = guess_layer_from_text(text, &layers, &re()).unwrap();
        assert_eq!(m.matched_via, matched_via::HEURISTIC_LAYER_INDEX, "text={}", text);
        assert_eq!(m.layer_id, "deberta.encoder.layer.0");
    }
}

#[test]
fn test_guess_layer_no_match() {
    let layers = make_simple_layers();
    assert!(guess_layer_from_text("random_op_xyz", &layers, &re()).is_none());
    assert!(guess_layer_from_text("", &layers, &re()).is_none());
}

#[test]
fn guess_lowercases_text() {
    let layers = make_simple_layers();
    let m = guess_layer_from_text("DeBERTa.Embeddings.Weight", &layers, &re()).unwrap();
    assert_eq!(m.matched_via, matched_via::PREFIX_TEXT);
    let m = guess_layer_from_text("TOKEN_EMBED", &layers, &re()).unwrap();
    assert_eq!(m.matched_via, matched_via::HEURISTIC_EMBEDDINGS);
    assert_eq!(m.matched_prefix.as_deref(), Some("embed"));
    let m = guess_layer_from_text("Encoder/LAYER/0/x", &layers, &re()).unwrap();
    assert_eq!(m.matched_prefix.as_deref(), Some("layer.0"));
    // An index with no such block matches nothing.
    assert!(guess_layer_from_text("/layer/7/", &layers, &re()).is_none());
}

#[test]
fn layer_regex_captures_index() {
    let r = LayerRegex::new(LAYER_INDEX_PATTERN).unwrap();
    assert_eq!(r.group1("x/layer/12/y").as_deref(), Some("12"));
    assert_eq!(r.group1("layer_3"), Some("3".to_string()));
    assert_eq!(r.group1("mylayer_3"), None);
    assert!(LayerRegex::new("(").is_none());
}

#[test]
fn test_assign_empty_input() {
    let result = assign_nodes_to_layers(&[], &[]);
    assert!(result.assignments.is_empty());
    assert!(result.unmatched_nodes.is_empty());
}

#[test]
fn assign_by_scope_then_text_then_unassigned() {
    let layers = make_simple_layers();
    let mut scoped = node("n0", "whatever", "MatMul", &[], &[]);
    scoped.metadata_props.insert("pkg.torch.onnx.name_scopes".to_string(), r#"["Deberta", "Pooler", "dense"]"#.to_string());
    let by_input = node("n1", "", "Add", &["/layer/0/attn"], &["o1"]);
    let none = node("n2", "x", "Relu", &["y"], &["z"]);
    let result = assign_nodes_to_layers(&[scoped, by_input, none], &layers);
    assert_eq!(result.assignments.len(), 3);
    let a0 = result.assignments.get("n0").unwrap();
    assert_eq!(a0.layer_id, "pooler");
    assert_eq!(a0.scope.as_deref(), Some("Deberta.Pooler.dense"));
    assert_eq!(a0.matched_prefix.as_deref(), Some("deberta.pooler"));
    assert_eq!(a0.matched_via, matched_via::METADATA_SCOPE);
    let a1 = result.assignments.get("n1").unwrap();
    assert_eq!(a1.layer_id, "deberta.encoder.layer.0");
    assert_eq!(a1.matched_via, matched_via::HEURISTIC_LAYER_INDEX);
    assert_eq!(a1.scope, None);
    let a2 = result.assignments.get("n2").unwrap();
    assert_eq!(a2.layer_id, "unassigned");
    assert_eq!(a2.matched_prefix, None);
    assert_eq!(a2.matched_via, matched_via::UNMATCHED);
    assert_eq!(result.unmatched_nodes, vec!["n2"]);
}

#[test]
fn assignments_keyed_by_node_id_later_wins() {
    let layers = make_simple_layers();
    let a = node("same", "pooler", "A", &[], &[]);
    let b = node("same", "classifier", "B", &[], &[]);
    let result = assign_nodes_to_layers(&[a, b], &layers);
    assert_eq!(result.assignments.len(), 1);
    assert_eq!(result.assignments.get("same").unwrap().layer_id, "classifier");
}

#[test]
fn canonical_scope_tries_keys_in_order() {
    let mut n = node("n", "n", "Op", &[], &[]);
    assert_eq!(canonical_scope(&n), None);
    n.metadata_props.insert("scope".to_string(), "a/b".to_string());
    assert_eq!(canonical_scope(&n).as_deref(), Some("a.b"));
    n.metadata_props.insert("namespace".to_string(), "  ".to_string());
    assert_eq!(canonical_scope(&n).as_deref(), Some("a.b"));
    n.metadata_props.insert("pkg.torch.onnx.scope".to_string(), "x::y".to_string());
    assert_eq!(canonical_scope(&n).as_deref(), Some("x.y"));
    n.metadata_props.insert("pkg.torch.onnx.name_scopes".to_string(), String::new());
    assert_eq!(canonical_scope(&n).as_deref(), Some("x.y"));
    n.metadata_props.insert("pkg.torch.onnx.name_scopes".to_string(), r#"["", " .enc. "]"#.to_string());
    assert_eq!(canonical_scope(&n).as_deref(), Some("enc"));
}
