use relate::apply::{
    apply_format, apply_rows, commit_due, committed_summary, no_rows_report, row_params, rows_per_commit, ApplyFormat,
};
use relate::cli::QueryArgs;
use relate::graph::{build_graph, PatternTree, Subject};
use relate::plan::{shape_rows, start_query, QueryArgsError};
use relate::query::{classify_statement, Classification, ParamValue};
use relate::render::render_report_json;
use relate::cli::OutputFormat;
use relate::text::trim_str;

fn args() -> QueryArgs {
    QueryArgs {
        query: None,
        params_map: None,
        expr: vec![],
        param: vec![],
        params: None,
        write: false,
        list: false,
        describe: false,
        cypher_dir: "./cypher/".to_string(),
        apply: None,
        batch: None,
        atomic: false,
        json: false,
    }
}

fn text(v: &ParamValue) -> Option<&str> {
    match v {
        ParamValue::String(s) => Some(s.as_str()),
        _ => None,
    }
}

fn integer(v: &ParamValue) -> Option<i64> {
    match v {
        ParamValue::Integer(i) => Some(*i),
        _ => None,
    }
}

fn rows_of(format: ApplyFormat, content: &str) -> Vec<Vec<(String, ParamValue)>> {
    match apply_rows(format, content) {
        Ok(r) => r,
        Err(m) => panic!("unexpected error: {m}"),
    }
}

fn error_of(format: ApplyFormat, content: &str) -> String {
    match apply_rows(format, content) {
        Ok(_) => panic!("expected an error"),
        Err(m) => m,
    }
}

// ── Argument combinations ─────────────────────────────────────────────────────

#[test]
fn batch_without_apply_is_refused() {
    let mut a = args();
    a.expr = vec!["MATCH (n) RETURN n".to_string()];
    a.batch = Some(100);
    let e = start_query(&a).err().unwrap();
    assert!(matches!(e, QueryArgsError::NeedsApply));
    assert!(e.message().contains("require --apply"));
    let mut b = args();
    b.expr = vec!["MATCH (n) RETURN n".to_string()];
    b.atomic = true;
    assert!(matches!(start_query(&b), Err(QueryArgsError::NeedsApply)));
}

#[test]
fn batch_with_atomic_is_refused() {
    let mut a = args();
    a.query = Some("q.cypher".to_string());
    a.apply = Some("rows.csv".to_string());
    a.batch = Some(100);
    a.atomic = true;
    let e = start_query(&a).err().unwrap();
    assert_eq!(e.message(), "--batch and --atomic are mutually exclusive");
}

#[test]
fn apply_with_params_map_is_refused() {
    let mut a = args();
    a.query = Some("q.cypher".to_string());
    a.params_map = Some("{name: \"Bob\"}".to_string());
    a.apply = Some("rows.csv".to_string());
    let e = start_query(&a).err().unwrap();
    assert_eq!(e.message(), "--apply and [PARAMS] are mutually exclusive");
}

#[test]
fn apply_with_batch_starts_the_named_file() {
    let mut a = args();
    a.query = Some("q.cypher".to_string());
    a.apply = Some("rows.csv".to_string());
    a.batch = Some(10);
    assert!(start_query(&a).is_ok());
}

// ── The file's format ─────────────────────────────────────────────────────────

#[test]
fn apply_format_by_suffix() {
    assert!(matches!(apply_format("people.csv"), Ok(ApplyFormat::Csv)));
    assert!(matches!(apply_format("people.json"), Ok(ApplyFormat::Json)));
    assert!(matches!(apply_format("people.jsonl"), Ok(ApplyFormat::Jsonl)));
    let e = apply_format("people.txt").err().unwrap();
    assert_eq!(e, "--apply requires a .csv, .json, or .jsonl file, got: people.txt");
}

// ── CSV ───────────────────────────────────────────────────────────────────────

#[test]
fn csv_rows_are_typed_and_trimmed() {
    let rows = rows_of(ApplyFormat::Csv, "name, age\nAlice,30\n\n Bob , 41\n");
    assert_eq!(rows.len(), 2);
    assert_eq!(rows[0][0].0, "name");
    assert_eq!(rows[0][1].0, "age");
    assert_eq!(text(&rows[0][0].1), Some("Alice"));
    assert_eq!(integer(&rows[0][1].1), Some(30));
    assert_eq!(text(&rows[1][0].1), Some("Bob"));
    assert_eq!(integer(&rows[1][1].1), Some(41));
    assert_eq!(rows[1][0].0, "name");
    assert_eq!(rows[1][1].0, "age");
}

#[test]
fn csv_values_read_as_param_values() {
    let rows = rows_of(ApplyFormat::Csv, "a,b,c\ntrue,2.5,x\n");
    assert!(matches!(rows[0][0].1, ParamValue::Boolean(true)));
    assert!(matches!(&rows[0][1].1, ParamValue::Float(t) if t == "2.5"));
    assert_eq!(text(&rows[0][2].1), Some("x"));
}

#[test]
fn csv_empty_column_name_is_refused() {
    assert_eq!(error_of(ApplyFormat::Csv, "name,,age\nAlice,_,30\n"), "Empty column name in CSV header");
}

#[test]
fn csv_field_count_must_match() {
    assert_eq!(error_of(ApplyFormat::Csv, "name,age\nAlice,30\nBob\n"), "CSV line 3: expected 2 fields, found 1");
}

#[test]
fn csv_header_only_has_no_rows() {
    assert_eq!(rows_of(ApplyFormat::Csv, "name\n").len(), 0);
    assert_eq!(error_of(ApplyFormat::Csv, ""), "--apply CSV file has no header line");
}

// ── JSON and JSON Lines ───────────────────────────────────────────────────────

#[test]
fn json_array_of_objects() {
    let rows = rows_of(ApplyFormat::Json, r#"[{"name": "Alice", "age": 30}, {"name": "Bob"}]"#);
    assert_eq!(rows.len(), 2);
    let age = rows[0].iter().find(|p| p.0 == "age").unwrap();
    assert_eq!(integer(&age.1), Some(30));
    assert_eq!(rows[1].len(), 1);
    assert_eq!(text(&rows[1][0].1), Some("Bob"));
}

#[test]
fn json_top_level_must_be_an_array() {
    assert_eq!(
        error_of(ApplyFormat::Json, r#"{"name": "Alice"}"#),
        "--apply JSON must be a top-level array of objects"
    );
}

#[test]
fn json_elements_must_be_objects() {
    assert_eq!(
        error_of(ApplyFormat::Json, r#"[{"name": "Alice"}, "not an object"]"#),
        "--apply JSON element 1 must be an object"
    );
}

#[test]
fn json_that_does_not_parse() {
    assert!(error_of(ApplyFormat::Json, "[{").starts_with("invalid JSON in --apply file: "));
}

#[test]
fn jsonl_rows_skip_blank_lines() {
    let rows = rows_of(ApplyFormat::Jsonl, "{\"name\": \"Bob\"}\n\n{\"name\": \"Eve\", \"n\": 2}\n");
    assert_eq!(rows.len(), 2);
    let name = rows[1].iter().find(|p| p.0 == "name").unwrap();
    assert_eq!(text(&name.1), Some("Eve"));
}

#[test]
fn jsonl_bad_line_is_named() {
    let e = error_of(ApplyFormat::Jsonl, "this is not json\n{\"name\": \"Bob\"}\n");
    assert!(e.starts_with("line 1: invalid JSON: "), "{e}");
    let e2 = error_of(ApplyFormat::Jsonl, "{\"a\": 1}\n\n[1]\n");
    assert!(e2.starts_with("line 3: invalid JSON: "), "{e2}");
}

// ── Parameters and transactions ───────────────────────────────────────────────

#[test]
fn flags_override_row_values() {
    let row = vec![("name".to_string(), ParamValue::String("Alice".to_string())), ("age".to_string(), ParamValue::Integer(3))];
    let m = row_params(row, &vec!["name=Bob".to_string()]).ok().unwrap();
    assert_eq!(text(m.get("name").unwrap()), Some("Bob"));
    assert_eq!(integer(m.get("age").unwrap()), Some(3));
    let bad = row_params(vec![], &vec!["oops".to_string()]);
    assert!(bad.is_err());
}

#[test]
fn rows_per_transaction() {
    assert_eq!(rows_per_commit(None, false, 5), 1000);
    assert_eq!(rows_per_commit(Some(2), false, 5), 2);
    assert_eq!(rows_per_commit(None, true, 5), 5);
    assert_eq!(rows_per_commit(None, true, 0), 1);
    assert!(commit_due(2, 5, 2));
    assert!(!commit_due(3, 5, 2));
    assert!(commit_due(5, 5, 2));
}

#[test]
fn commit_reports() {
    assert_eq!(committed_summary(2, 1), "2 rows committed (1 batch)");
    assert_eq!(committed_summary(1, 2), "1 row committed (2 batches)");
    assert_eq!(no_rows_report("people.csv"), "no input rows found in people.csv; the statement requires parameters");
}

// ── Other points ──────────────────────────────────────────────────────────────

#[test]
fn call_is_a_read() {
    assert!(matches!(classify_statement("CALL db.labels()"), Classification::Read));
    assert!(matches!(classify_statement("CREATE (n)"), Classification::Write { .. }));
}

#[test]
fn result_rows_take_the_first_rows_columns() {
    let rows = vec![
        vec![("a".to_string(), serde_json::Value::from(1)), ("b".to_string(), serde_json::Value::from(2))],
        vec![("b".to_string(), serde_json::Value::from(3))],
    ];
    let (columns, table) = shape_rows(&rows);
    assert_eq!(columns, vec!["a".to_string(), "b".to_string()]);
    assert_eq!(table[0], vec![serde_json::Value::from(1), serde_json::Value::from(2)]);
    assert_eq!(table[1], vec![serde_json::Value::Null, serde_json::Value::from(3)]);
}

#[test]
fn render_report_escapes_the_path() {
    assert_eq!(
        render_report_json("a\"b\\c\n\u{1}.html", OutputFormat::Html),
        "{\"output\":\"a\\\"b\\\\c\\n\\u0001.html\",\"format\":\"html\"}"
    );
}

#[test]
fn unicode_whitespace_is_trimmed() {
    assert_eq!(trim_str("\u{3000}\u{a0}x y\u{85}\u{2029}\t"), "x y");
    assert_eq!(trim_str("\u{200b}x"), "\u{200b}x");
}

#[test]
fn every_edge_has_an_id() {
    let n = |id: &str| PatternTree {
        value: Subject { identity: id.to_string(), labels: vec![], properties: vec![] },
        elements: vec![],
    };
    let r = |l: PatternTree, rt: PatternTree| PatternTree {
        value: Subject { identity: String::new(), labels: vec!["R".to_string()], properties: vec![] },
        elements: vec![l, rt],
    };
    let g = build_graph(&vec![r(r(n("a"), n("b")), n("c"))]).ok().unwrap();
    assert!(g.edges.iter().all(|e| e.id.is_some()));
}

#[test]
fn cypherdoc_names_and_descriptions_are_trimmed() {
    let raw = "/**\n *   find_person   \n *\n * @param {string} name -   the name   \n * @param {int} [age=3]\n */";
    let doc = relate::query::parse_cypherdoc(raw).unwrap();
    assert_eq!(doc.name, "find_person");
    assert_eq!(doc.params[0].name, "name");
    assert!(doc.params[0].required && doc.params[0].default.is_none());
    assert_eq!(doc.params[0].description.as_deref(), Some("the name"));
    assert_eq!(doc.params[1].description, None);
}
