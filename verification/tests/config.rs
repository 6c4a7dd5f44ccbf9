use nnvis::config::{config_summary_from_json, generate_layer_names, module_roots_for_model, ConfigSummary};
use nnvis::json::{JsonNumber, JsonValue};

fn s(x: &str) -> String {
    x.to_string()
}

fn num(v: u64) -> JsonValue {
    JsonValue::Number(JsonNumber { as_u64: Some(v), as_i64: i64::try_from(v).ok() })
}

fn deberta_config(layers: u32) -> ConfigSummary {
    ConfigSummary {
        model_type: s("deberta-v2"),
        architectures: vec![s("DebertaV2ForSequenceClassification")],
        num_hidden_layers: Some(layers),
        ..Default::default()
    }
}

#[test]
fn test_non_deberta_roots() {
    // Synthesise a GPT-like config summary.
    let cfg = ConfigSummary {
        model_type: "gpt2".to_string(),
        architectures: vec!["GPT2LMHeadModel".to_string()],
        num_hidden_layers: Some(3),
        ..Default::default()
    };
    let layers = generate_layer_names(&cfg);
    // Primary root should be "model" for non-deberta.
    assert_eq!(layers[0].id, "model.embeddings");
    assert_eq!(layers[1].id, "model.encoder.layer.0");
}

#[test]
fn roots_for_deberta_by_model_type_or_architecture() {
    assert_eq!(module_roots_for_model(&deberta_config(1)), vec!["deberta", "model", "bert", "roberta"]);
    let by_arch = ConfigSummary {
        model_type: s("custom"),
        architectures: vec![s("MyDeBERTaModel")],
        ..Default::default()
    };
    assert_eq!(module_roots_for_model(&by_arch), vec!["deberta", "model", "bert", "roberta"]);
    assert_eq!(module_roots_for_model(&ConfigSummary::default()), vec!["model", "encoder", "transformer"]);
}

#[test]
fn deberta_layer_names() {
    let layers = generate_layer_names(&deberta_config(12));
    assert_eq!(layers.len(), 15);
    assert_eq!(layers[0].id, "deberta.embeddings");
    assert_eq!(
        layers[0].aliases,
        vec![
            "deberta.embeddings",
            "model.embeddings",
            "bert.embeddings",
            "roberta.embeddings",
            "embeddings"
        ]
    );
    assert_eq!(layers[0].description, "Token Embeddings");
    assert_eq!(layers[1].id, "deberta.encoder.layer.0");
    assert_eq!(layers[12].id, "deberta.encoder.layer.11");
    assert_eq!(
        layers[12].aliases,
        vec![
            "deberta.encoder.layer.11",
            "model.encoder.layer.11",
            "bert.encoder.layer.11",
            "roberta.encoder.layer.11",
            "layer.11",
            "layer_11"
        ]
    );
    assert_eq!(layers[12].description, "Encoder Block 11");
    assert_eq!(layers[12].sub_components, vec!["attention", "intermediate", "output"]);
    assert_eq!(layers[13].id, "pooler");
    assert_eq!(layers[13].aliases, vec!["pooler", "deberta.pooler"]);
    assert_eq!(layers[14].id, "classifier");
    assert_eq!(layers[14].aliases, vec!["classifier", "cls", "classification_head", "head"]);
    for l in &layers {
        assert!(!l.aliases.is_empty());
    }
}

#[test]
fn non_deberta_block_aliases() {
    let cfg = ConfigSummary { num_hidden_layers: Some(1), ..Default::default() };
    let layers = generate_layer_names(&cfg);
    assert_eq!(layers.len(), 4);
    assert_eq!(
        layers[1].aliases,
        vec!["model.encoder.layer.0", "encoder.encoder.layer.0", "transformer.encoder.layer.0", "layer.0", "layer_0"]
    );
}

#[test]
fn no_hidden_layers_gives_three_layers() {
    let layers = generate_layer_names(&ConfigSummary::default());
    let ids: Vec<&str> = layers.iter().map(|l| l.id.as_str()).collect();
    assert_eq!(ids, vec!["model.embeddings", "pooler", "classifier"]);
}

#[test]
fn config_from_json_reads_fields() {
    let root = JsonValue::Object(vec![
        (s("architectures"), JsonValue::Array(vec![JsonValue::Str(s("DebertaV2ForSequenceClassification")), num(3)])),
        (s("hidden_size"), num(768)),
        (
            s("id2label"),
            JsonValue::Object(vec![
                (s("0"), JsonValue::Str(s("entailment"))),
                (s("1"), JsonValue::Str(s("neutral"))),
                (s("10"), JsonValue::Str(s("ten"))),
                (s("2"), JsonValue::Str(s("contradiction"))),
                (s("x"), JsonValue::Str(s("other"))),
                (s("3"), num(4)),
            ]),
        ),
        (s("intermediate_size"), num(3072)),
        (s("max_position_embeddings"), num(512)),
        (s("model_type"), JsonValue::Str(s("deberta-v2"))),
        (s("num_attention_heads"), num(12)),
        (s("num_hidden_layers"), num(12)),
        (s("vocab_size"), num(251000)),
    ]);
    let c = config_summary_from_json(&root);
    assert_eq!(c.model_type, "deberta-v2");
    assert_eq!(c.architectures, vec!["DebertaV2ForSequenceClassification"]);
    assert_eq!(c.vocab_size, Some(251000));
    assert_eq!(c.hidden_size, Some(768));
    assert_eq!(c.num_hidden_layers, Some(12));
    assert_eq!(c.num_attention_heads, Some(12));
    assert_eq!(c.intermediate_size, Some(3072));
    assert_eq!(c.max_position_embeddings, Some(512));
    let ids: Vec<(&str, &str)> = c.id2label.iter().map(|(a, b)| (a.as_str(), b.as_str())).collect();
    assert_eq!(
        ids,
        vec![("0", "entailment"), ("1", "neutral"), ("2", "contradiction"), ("10", "ten"), ("x", "other")]
    );
}

#[test]
fn config_from_json_defaults() {
    let c = config_summary_from_json(&JsonValue::Object(vec![(s("hidden_size"), JsonValue::Str(s("big")))]));
    assert_eq!(c.model_type, "unknown");
    assert!(c.architectures.is_empty());
    assert_eq!(c.hidden_size, None);
    assert!(c.id2label.is_empty());
    let d = ConfigSummary::default();
    assert_eq!(d.model_type, "");
    assert_eq!(d.num_hidden_layers, None);
}

#[test]
fn config_numbers_truncate_to_u32() {
    let c = config_summary_from_json(&JsonValue::Object(vec![(s("vocab_size"), num((1u64 << 32) + 5))]));
    assert_eq!(c.vocab_size, Some(5));
}
