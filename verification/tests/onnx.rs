use nnvis::json::{JsonNumber, JsonValue};
use nnvis::onnx::{
    attr_value, bundle_from_model, empty_bundle, empty_model_metadata, metadata_props_to_map, node_from_record,
    tensor_shape_from_type_proto, AttrValue, AttributeRecord, DimRecord, GraphRecord, ModelRecord, NodeRecord,
    OnnxError, OpsetRecord, PropRecord, TensorRecord, TypeRecord, TypeValueRecord, ValueInfoRecord,
};

fn s(x: &str) -> Option<String> {
    Some(x.to_string())
}

fn prop(k: &str, v: &str) -> PropRecord {
    PropRecord { key: s(k), value: s(v) }
}

fn attr(name: &str, code: i32) -> AttributeRecord {
    AttributeRecord {
        name: s(name),
        attr_type: Some(code),
        f: None,
        i: None,
        s: None,
        t: None,
        floats: vec![],
        ints: vec![],
        strings: vec![],
    }
}

fn node_rec(name: Option<&str>, op: &str) -> NodeRecord {
    NodeRecord {
        name: name.map(|x| x.to_string()),
        op_type: s(op),
        domain: None,
        input: vec!["x".to_string()],
        output: vec!["y".to_string()],
        attribute: vec![],
        doc_string: None,
        metadata_props: vec![],
    }
}

fn vi(name: &str, dims: Option<Vec<DimRecord>>) -> ValueInfoRecord {
    ValueInfoRecord {
        name: s(name),
        value_type: Some(TypeRecord { value: Some(TypeValueRecord::Tensor { shape: dims }) }),
        metadata_props: vec![],
    }
}

fn empty_graph() -> GraphRecord {
    GraphRecord { node: vec![], initializer: vec![], input: vec![], output: vec![], value_info: vec![], metadata_props: vec![] }
}

fn model(graph: Option<GraphRecord>) -> ModelRecord {
    ModelRecord {
        ir_version: Some(8),
        producer_name: s("pytorch"),
        producer_version: None,
        domain: None,
        model_version: None,
        doc_string: None,
        metadata_props: vec![prop("k", "v")],
        opset_import: vec![OpsetRecord { domain: None, version: Some(17) }, OpsetRecord { domain: s("ai.onnx.ml"), version: None }],
        graph,
    }
}

#[test]
fn test_missing_model_returns_empty() {
    let bundle = empty_bundle();
    assert!(bundle.graph.is_empty());
    assert!(bundle.initializers.is_empty());
    assert!(bundle.value_info.is_empty());
    assert!(bundle.graph_metadata.is_empty());
    assert_eq!(bundle.model_metadata.ir_version, 0);
}

#[test]
fn model_without_graph_is_error() {
    assert!(matches!(bundle_from_model(&model(None)), Err(OnnxError::MissingGraph)));
}

#[test]
fn node_ids_default_to_op_type_and_index() {
    let mut g = empty_graph();
    g.node = vec![node_rec(Some("first"), "MatMul"), node_rec(None, "Add"), node_rec(Some(""), "Add")];
    let b = bundle_from_model(&model(Some(g))).ok().unwrap();
    let ids: Vec<&str> = b.graph.iter().map(|n| n.id.as_str()).collect();
    assert_eq!(ids, vec!["first", "Add_1", "Add_2"]);
    assert_eq!(b.graph[1].name, "");
    assert_eq!(b.graph[1].op_type, "Add");
    assert_eq!(b.graph[1].inputs, vec!["x"]);
    assert_eq!(b.graph[1].outputs, vec!["y"]);
    for n in &b.graph {
        assert!(!n.id.is_empty());
    }
    let n = node_from_record(&node_rec(None, "Gather"), 123);
    assert_eq!(n.id, "Gather_123");
}

#[test]
fn model_metadata_fields() {
    let b = bundle_from_model(&model(Some(empty_graph()))).ok().unwrap();
    let m = &b.model_metadata;
    assert_eq!(m.ir_version, 8);
    assert_eq!(m.producer_name, "pytorch");
    assert_eq!(m.producer_version, "");
    assert_eq!(m.model_version, 0);
    assert_eq!(m.metadata_props.get("k").map(|v| v.as_str()), Some("v"));
    assert_eq!(m.opset_import.len(), 2);
    assert_eq!((m.opset_import[0].domain.as_str(), m.opset_import[0].version), ("", 17));
    assert_eq!((m.opset_import[1].domain.as_str(), m.opset_import[1].version), ("ai.onnx.ml", 0));
    let e = empty_model_metadata();
    assert_eq!(e.producer_name, "");
    assert!(e.opset_import.is_empty());
}

#[test]
fn props_later_key_wins_and_absent_is_empty() {
    let m = metadata_props_to_map(&[prop("a", "1"), prop("b", "2"), prop("a", "3"), PropRecord { key: None, value: None }]);
    assert_eq!(m.len(), 3);
    assert_eq!(m.get("a").map(|v| v.as_str()), Some("3"));
    assert_eq!(m.get("").map(|v| v.as_str()), Some(""));
}

#[test]
fn initializers_and_value_info() {
    let mut g = empty_graph();
    g.initializer = vec![
        TensorRecord { name: s("w"), data_type: Some(1), dims: vec![2, 3] },
        TensorRecord { name: s("w"), data_type: None, dims: vec![4] },
    ];
    g.input = vec![vi("x", Some(vec![DimRecord::Param("batch".to_string()), DimRecord::Value(768)]))];
    g.output = vec![vi("x", None)];
    g.value_info = vec![vi("h", Some(vec![DimRecord::Unset]))];
    g.metadata_props = vec![prop("gk", "gv")];
    let b = bundle_from_model(&model(Some(g))).ok().unwrap();
    assert_eq!(b.initializers.len(), 1);
    let w = b.initializers.get("w").unwrap();
    assert_eq!((w.data_type, w.dims.clone()), (0, vec![4]));
    // The output record for "x" replaces the input record.
    assert!(b.value_info.get("x").unwrap().shape.is_none());
    let h = b.value_info.get("h").unwrap().shape.as_ref().unwrap();
    assert!(matches!(h.0[..], [JsonValue::Null]));
    assert_eq!(b.graph_metadata.get("gk").map(|v| v.as_str()), Some("gv"));
}

#[test]
fn tensor_shapes() {
    let t = TypeRecord {
        value: Some(TypeValueRecord::Tensor {
            shape: Some(vec![DimRecord::Value(-1), DimRecord::Value(4), DimRecord::Param("seq".to_string()), DimRecord::Unset]),
        }),
    };
    let shape = tensor_shape_from_type_proto(Some(&t)).unwrap();
    assert_eq!(shape.0.len(), 4);
    assert!(matches!(shape.0[0], JsonValue::Number(JsonNumber { as_u64: None, as_i64: Some(-1) })));
    assert!(matches!(shape.0[1], JsonValue::Number(JsonNumber { as_u64: Some(4), as_i64: Some(4) })));
    assert!(matches!(&shape.0[2], JsonValue::Str(x) if x == "seq"));
    assert!(matches!(shape.0[3], JsonValue::Null));
    assert!(tensor_shape_from_type_proto(None).is_none());
    assert!(tensor_shape_from_type_proto(Some(&TypeRecord { value: None })).is_none());
    assert!(tensor_shape_from_type_proto(Some(&TypeRecord { value: Some(TypeValueRecord::Other) })).is_none());
    let no_shape = TypeRecord { value: Some(TypeValueRecord::Tensor { shape: None }) };
    assert!(tensor_shape_from_type_proto(Some(&no_shape)).is_none());
}

#[test]
fn attribute_values_by_type() {
    let mut f = attr("alpha", 1);
    f.f = Some(1.5f32.to_bits());
    assert!(matches!(attr_value(&f), AttrValue::Float(b) if f32::from_bits(b) == 1.5));
    let mut i = attr("axis", 2);
    i.i = Some(-1);
    assert!(matches!(attr_value(&i), AttrValue::Int(-1)));
    assert!(matches!(attr_value(&attr("axis", 2)), AttrValue::Int(0)));
    let mut st = attr("mode", 3);
    st.s = Some(b"constant".to_vec());
    assert!(matches!(attr_value(&st), AttrValue::Text(x) if x == "constant"));
    let mut bad = attr("mode", 3);
    bad.s = Some(vec![b'a', 0xff, b'b']);
    assert!(matches!(attr_value(&bad), AttrValue::Text(x) if x == "a\u{FFFD}b"));
    let mut t = attr("value", 4);
    assert!(matches!(attr_value(&t), AttrValue::Null));
    t.t = Some(TensorRecord { name: None, data_type: Some(7), dims: vec![1] });
    assert!(matches!(attr_value(&t), AttrValue::Tensor { tensor_name, data_type: 7, dims } if tensor_name.is_empty() && dims == vec![1]));
    let mut fs = attr("scales", 6);
    fs.floats = vec![2.0f32.to_bits()];
    assert!(matches!(attr_value(&fs), AttrValue::Floats(v) if v == vec![2.0f32.to_bits()]));
    let mut is = attr("perm", 7);
    is.ints = vec![0, 2, 1];
    assert!(matches!(attr_value(&is), AttrValue::Ints(v) if v == vec![0, 2, 1]));
    let mut ss = attr("names", 8);
    ss.strings = vec![b"x".to_vec(), vec![0xc3]];
    assert!(matches!(attr_value(&ss), AttrValue::Texts(v) if v == vec!["x".to_string(), "\u{FFFD}".to_string()]));
    assert!(matches!(attr_value(&attr("g", 5)), AttrValue::Null));
    assert!(matches!(attr_value(&attr("u", 0)), AttrValue::Null));
    let mut none = attr("n", 0);
    none.attr_type = None;
    assert!(matches!(attr_value(&none), AttrValue::Null));
}

#[test]
fn node_attributes_by_name() {
    let mut n = node_rec(Some("n"), "Conv");
    let mut a1 = attr("k", 2);
    a1.i = Some(1);
    let mut a2 = attr("k", 2);
    a2.i = Some(2);
    n.attribute = vec![a1, a2];
    n.metadata_props = vec![prop("scope", "a/b")];
    let node = node_from_record(&n, 0);
    assert_eq!(node.attributes.len(), 1);
    assert!(matches!(node.attributes.get("k"), Some(AttrValue::Int(2))));
    assert_eq!(node.metadata_props.get("scope").map(|v| v.as_str()), Some("a/b"));
}
