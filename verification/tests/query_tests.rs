use relate::query::{
    build_queue_inline, classify_statement, collect_param_refs, filter_by_stmt_name, parse_cypherdoc,
    parse_map_literal, parse_param_flag, resolve_query_source, statements_from_source, Classification, CypherDoc,
    ParamValue, QueryName, StatementEntry, StatementSource,
};
use std::path::Path;

fn joined(dir: &str, file: &str) -> String {
    Path::new(dir).join(file).to_string_lossy().into_owned()
}

#[test]
fn test_build_queue_inline() {
    let exprs = vec!["MATCH (n) RETURN n".to_string()];
    let queue = build_queue_inline(&exprs);
    assert_eq!(queue.len(), 1);
    assert_eq!(queue[0].text, "MATCH (n) RETURN n");
    assert!(matches!(queue[0].source, StatementSource::Inline));
}

#[test]
fn test_parse_param_flag() {
    let (k, v) = parse_param_flag("name=Alice").unwrap();
    assert_eq!(k, "name");
    assert!(matches!(v, ParamValue::String(_)));

    let (k, v) = parse_param_flag("age=30").unwrap();
    assert_eq!(k, "age");
    assert!(matches!(v, ParamValue::Integer(30)));

    let (k, v) = parse_param_flag("score=3.14").unwrap();
    assert_eq!(k, "score");
    assert!(matches!(v, ParamValue::Float(_)));

    let (k, v) = parse_param_flag("active=true").unwrap();
    assert_eq!(k, "active");
    assert!(matches!(v, ParamValue::Boolean(true)));

    let (k, v) = parse_param_flag("url=http://example.com/path?q=1").unwrap();
    assert_eq!(k, "url");
    assert!(matches!(v, ParamValue::String(ref s) if s == "http://example.com/path?q=1"));

    assert!(parse_param_flag("noequalssign").is_err());
}

#[test]
fn test_classify_read() {
    assert!(matches!(classify_statement("MATCH (n) RETURN n"), Classification::Read));
}

#[test]
fn test_classify_write() {
    assert!(matches!(
        classify_statement("CREATE (n:Person {name: 'Alice'})"),
        Classification::Write { .. }
    ));
    assert!(matches!(
        classify_statement("MERGE (n:Person {name: 'Alice'}) RETURN n"),
        Classification::Write { .. }
    ));
}

#[test]
fn test_collect_param_refs() {
    let refs = collect_param_refs("MATCH (n {name: $name, age: $age}) RETURN n");
    assert!(refs.iter().any(|r| r == "name"), "expected 'name' in {refs:?}");
    assert!(refs.iter().any(|r| r == "age"), "expected 'age' in {refs:?}");
}

#[test]
fn test_empty_file_error() {
    let err = match statements_from_source("empty.cypher", "") {
        Ok(_) => panic!("an empty file has no statements"),
        Err(e) => e,
    };
    assert!(err.contains("no statements found"));
}

#[test]
fn test_resolve_bare_name() {
    let result = resolve_query_source("find_person", "./cypher");
    assert!(matches!(result, QueryName::BareName { ref name, .. } if name == "find_person"));
    if let QueryName::BareName { resolved, .. } = result {
        assert_eq!(resolved, joined("./cypher", "find_person.cypher"));
    }
}

#[test]
fn test_resolve_explicit_path_with_extension() {
    let result = resolve_query_source("queries/find.cypher", "./cypher");
    assert!(matches!(result, QueryName::ExplicitPath(_)));
}

#[test]
fn test_resolve_explicit_path_with_separator() {
    let result = resolve_query_source("./find_person.cypher", "./cypher");
    assert!(matches!(result, QueryName::ExplicitPath(_)));
}

#[test]
fn test_resolve_dotcypher_extension() {
    let result = resolve_query_source("find_person.cypher", "./cypher");
    assert!(matches!(result, QueryName::ExplicitPath(_)));
}

#[test]
fn test_resolve_stmt_address() {
    let result = resolve_query_source("person/upsert", "./cypher");
    assert!(matches!(&result, QueryName::StmtAddress { stmt_name, .. } if stmt_name == "upsert"));
    if let QueryName::StmtAddress { file, stmt_name } = result {
        assert_eq!(file, joined("./cypher", "person.cypher"));
        assert_eq!(stmt_name, "upsert");
    }
}

#[test]
fn test_resolve_cypher_dir_override() {
    let result = resolve_query_source("find_person", "./queries");
    if let QueryName::BareName { resolved, .. } = result {
        assert_eq!(resolved, joined("./queries", "find_person.cypher"));
    } else {
        panic!("expected BareName");
    }
}

#[test]
fn test_parse_map_literal_unquoted_keys() {
    let map = parse_map_literal(r#"{name: "Alice", age: 30}"#).unwrap();
    assert!(matches!(map.get("name"), Some(ParamValue::String(s)) if s == "Alice"));
    assert!(matches!(map.get("age"), Some(ParamValue::Integer(30))));
}

#[test]
fn test_parse_map_literal_quoted_keys_accepted() {
    let map = parse_map_literal(r#"{"name": "Alice", "age": 30}"#).unwrap();
    assert!(matches!(map.get("name"), Some(ParamValue::String(s)) if s == "Alice"));
    assert!(matches!(map.get("age"), Some(ParamValue::Integer(30))));
}

#[test]
fn test_parse_map_literal_boolean_and_null() {
    let map = parse_map_literal(r#"{active: true, score: 3.14, nothing: null}"#).unwrap();
    assert!(matches!(map.get("active"), Some(ParamValue::Boolean(true))));
    assert!(matches!(map.get("score"), Some(ParamValue::Float(_))));
    assert!(matches!(map.get("nothing"), Some(ParamValue::Json(serde_json::Value::Null))));
}

#[test]
fn test_parse_map_literal_invalid() {
    assert!(parse_map_literal("name=Alice").is_err());
}

#[test]
fn test_parse_cypherdoc_full_block() {
    let raw = r#"/**
 * upsert
 *
 * Create or update a person node.
 *
 * @param {string} name - Unique name for the person
 * @param {string} [home=""] - Home city or region
 * @returns {[person: node<Person>][]} - The upserted node
 */"#;
    let doc = parse_cypherdoc(raw).unwrap();
    assert_eq!(doc.name, "upsert");
    assert!(doc.description.as_deref().unwrap_or("").contains("Create or update"));
    assert_eq!(doc.params.len(), 2);
    assert_eq!(doc.params[0].name, "name");
    assert!(doc.params[0].required);
    assert_eq!(doc.params[1].name, "home");
    assert!(!doc.params[1].required);
    assert_eq!(doc.params[1].default.as_deref(), Some(r#""""#));
    assert!(doc.returns_raw.is_some());
}

#[test]
fn test_parse_cypherdoc_name_only() {
    let doc = parse_cypherdoc("/** upsert */").unwrap();
    assert_eq!(doc.name, "upsert");
    assert!(doc.params.is_empty());
}

#[test]
fn test_parse_cypherdoc_invalid() {
    assert!(parse_cypherdoc("/* not a cypherdoc */").is_none());
    assert!(parse_cypherdoc("// line comment").is_none());
}

fn make_entry(name: &str) -> StatementEntry {
    StatementEntry {
        source: StatementSource::Inline,
        text: format!("MATCH (n:{name}) RETURN n"),
        doc: Some(CypherDoc { name: name.to_string(), description: None, params: vec![], returns_raw: None }),
    }
}

#[test]
fn test_filter_by_stmt_name_hit() {
    let entries = vec![make_entry("upsert"), make_entry("delete")];
    let result = match filter_by_stmt_name(entries, "upsert", "./cypher/person.cypher") {
        Ok(v) => v,
        Err(m) => panic!("{m}"),
    };
    assert_eq!(result.len(), 1);
    assert_eq!(result[0].doc.as_ref().unwrap().name, "upsert");
}

#[test]
fn test_filter_by_stmt_name_miss_lists_available() {
    let entries = vec![make_entry("upsert"), make_entry("delete")];
    let msg = match filter_by_stmt_name(entries, "by_age", "./cypher/person.cypher") {
        Ok(_) => panic!("by_age is not there"),
        Err(m) => m,
    };
    assert!(msg.contains("by_age"), "error should mention the name: {msg}");
    assert!(msg.contains("./cypher/person.cypher"), "error should mention the file path: {msg}");
    assert!(msg.contains("upsert"), "error should list available: {msg}");
    assert!(msg.contains("delete"), "error should list available: {msg}");
}

#[test]
fn test_cypher_dir_override_resolves_to_custom_dir() {
    if let QueryName::BareName { resolved, .. } = resolve_query_source("find_person", "/tmp/myqueries") {
        assert_eq!(resolved, joined("/tmp/myqueries", "find_person.cypher"));
    } else {
        panic!("expected BareName");
    }
}
