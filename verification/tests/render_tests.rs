use jilu::config::Config;
use jilu::render::{indent_text, lookup_header};

#[test]
fn lookup_maps_known_tokens() {
    let config = Config::default();
    assert_eq!(lookup_header(&config.type_headers, "fix"), "Bug Fixes");
    assert_eq!(lookup_header(&config.type_headers, "feat"), "Features");
    assert_eq!(lookup_header(&config.type_headers, "chore"), "Miscellaneous Tasks");
}

#[test]
fn lookup_passes_unknown_tokens_through() {
    let config = Config::default();
    assert_eq!(lookup_header(&config.type_headers, "wip"), "wip");
    assert_eq!(lookup_header(&config.scope_headers, "core"), "core");
}

#[test]
fn indent_prefixes_non_empty_lines() {
    assert_eq!(indent_text("a\n\nb", 2), "  a\n\n  b");
    assert_eq!(indent_text("one line", 4), "    one line");
    assert_eq!(indent_text("", 3), "");
    assert_eq!(indent_text("x\n", 1), " x");
}

#[test]
fn rendering_twice_is_byte_identical() {
    // the template layer, fed by the verified filters, is deterministic:
    // rendering one document twice gives the same bytes
    let config = Config::default();
    let headers = config.type_headers.clone();
    let mut doc = serde_json::Map::new();
    doc.insert("token".to_owned(), serde_json::Value::String("feat".to_owned()));
    doc.insert(
        "body".to_owned(),
        serde_json::Value::String("line one\n\nline two".to_owned()),
    );
    let context = tera::Context::from_value(serde_json::Value::Object(doc)).unwrap();
    let mut engine = tera::Tera::default();
    engine
        .add_raw_template("page", "{{ token | typeheader }}\n{{ body | indent(n=2) }}")
        .unwrap();
    engine.register_filter(
        "typeheader",
        move |value: &serde_json::Value, _: &std::collections::HashMap<String, serde_json::Value>| {
            let token = value.as_str().unwrap_or_default();
            Ok(serde_json::Value::String(lookup_header(&headers, token)))
        },
    );
    engine.register_filter(
        "indent",
        |value: &serde_json::Value, args: &std::collections::HashMap<String, serde_json::Value>| {
            let s = value.as_str().unwrap_or_default();
            let n = args.get("n").and_then(serde_json::Value::as_u64).unwrap_or(0) as usize;
            Ok(serde_json::Value::String(indent_text(s, n)))
        },
    );
    let first = engine.render("page", &context).unwrap();
    let second = engine.render("page", &context).unwrap();
    assert_eq!(first, second);
    assert_eq!(first, "Features\n  line one\n\n  line two");
}

#[test]
fn default_config_contents() {
    let config = Config::default();
    assert!(config.github.is_none());
    assert!(config.accept_types.is_none());
    assert!(config.template.is_none());
    assert!(config.metadata.is_none());
    assert_eq!(config.type_headers.len(), 8);
    assert_eq!(config.type_headers[0].0, "fix");
    assert_eq!(config.type_headers[0].1, "Bug Fixes");
    let footers: Vec<&str> = config.contributor_footers.iter().map(|f| f.as_str()).collect();
    assert_eq!(
        footers,
        vec![
            "co-authored-by",
            "signed-off-by",
            "reported-by",
            "tested-by",
            "reviewed-by",
            "suggested-by",
            "acked-by"
        ]
    );
}
