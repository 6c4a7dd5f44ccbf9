use nnvis::scope::{parse_name_scopes, parse_name_scopes_raw};

#[test]
fn test_parse_name_scopes_json_array() {
    let result = parse_name_scopes(r#"["deberta", "encoder", "layer"]"#);
    assert_eq!(result, vec!["deberta", "encoder", "layer"]);
}

#[test]
fn test_parse_name_scopes_json_string() {
    let result = parse_name_scopes(r#""deberta.encoder.layer""#);
    assert_eq!(result, vec!["deberta", "encoder", "layer"]);
}

#[test]
fn test_parse_name_scopes_gt_separator() {
    let result = parse_name_scopes("deberta>encoder>layer");
    assert_eq!(result, vec!["deberta", "encoder", "layer"]);
}

#[test]
fn test_parse_name_scopes_slash_separator() {
    let result = parse_name_scopes("deberta/encoder/layer");
    assert_eq!(result, vec!["deberta", "encoder", "layer"]);
}

#[test]
fn test_parse_name_scopes_doublecolon_separator() {
    let result = parse_name_scopes("deberta::encoder::layer");
    assert_eq!(result, vec!["deberta", "encoder", "layer"]);
}

#[test]
fn test_parse_name_scopes_dot_separator() {
    let result = parse_name_scopes("deberta.encoder.layer");
    assert_eq!(result, vec!["deberta", "encoder", "layer"]);
}

#[test]
fn test_parse_name_scopes_single_word() {
    let result = parse_name_scopes("classifier");
    assert_eq!(result, vec!["classifier"]);
}

#[test]
fn test_parse_name_scopes_empty() {
    assert!(parse_name_scopes("").is_empty());
    assert!(parse_name_scopes("   ").is_empty());
}

#[test]
fn test_parse_name_scopes_json_array_empty_items_filtered() {
    let result = parse_name_scopes(r#"["deberta", "", "layer"]"#);
    assert_eq!(result, vec!["deberta", "layer"]);
}

#[test]
fn raw_scopes_trim_items() {
    assert_eq!(parse_name_scopes_raw(" a > b >> c "), vec!["a", "b", "c"]);
    assert_eq!(parse_name_scopes_raw("x"), vec!["x"]);
    assert_eq!(parse_name_scopes_raw("  "), vec!["  "]);
    assert!(parse_name_scopes_raw(" . ").is_empty());
}

#[test]
fn json_scopes_trim_and_keep_strings() {
    assert_eq!(parse_name_scopes(r#"[" a ", 3, "b"]"#), vec!["a", "b"]);
    assert_eq!(parse_name_scopes(r#""  a/b  ""#), vec!["a", "b"]);
}
