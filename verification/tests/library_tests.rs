use relate::cli::{CliError, Lang, Neo4jArgs, OutputFormat, QueryArgs, RenderArgs};
use relate::diagnostics::{Diagnostic, Position, Range, Severity};
use relate::external::{exec_failure_report, extension_binary, subcommand_name, ExecFailure};
use relate::graph::{build_graph, document_buildable, GramEdge, PatternTree, RenderError, Subject};
use relate::lint::{
    extract_snippets, has_exit_one, is_lintable_extension, json_file, lang_from_tag, lint_document,
    offset_diagnostic, plain_report, report_kind, report_span, severity_str, to_byte_offset, LintError, ReportKind,
};
use relate::listing::{
    collect_list_entries, format_cypherdoc_hint, format_summary, no_rows_caption, print_describe, print_list,
    totals_line, QuerySummary,
};
use relate::plan::{
    bind_value, cell_text, library_entries, missing_library_file, route_params, skip_warning_for, start_query,
    Binding, QueryArgsError, QueryStart,
};
use relate::query::{
    build_param_map, check_params, CypherDoc, ParamDecl, ParamMap, ParamValue, QueryName, StatementEntry,
    StatementSource,
};
use relate::render::{
    default_format, group_parallel_edges, node_label, path_band_colors, path_hue, render_format,
    render_report_json, resolve_output,
};

fn diag(severity: Severity, line: u32, character: u32) -> Diagnostic {
    Diagnostic {
        severity,
        rule: "syntax".to_string(),
        message: "bad".to_string(),
        code: None,
        range: Range { start: Position { line, character }, end: Position { line, character } },
    }
}

fn query_args() -> QueryArgs {
    QueryArgs {
        query: None,
        params_map: None,
        expr: vec![],
        param: vec![],
        params: None,
        write: false,
        list: false,
        describe: false,
        cypher_dir: "./cypher/".to_string(),
        apply: None,
        batch: None,
        atomic: false,
        json: false,
    }
}

fn documented(name: &str, text: &str) -> StatementEntry {
    StatementEntry {
        source: StatementSource::Inline,
        text: text.to_string(),
        doc: Some(CypherDoc { name: name.to_string(), description: None, params: vec![], returns_raw: None }),
    }
}

fn node(id: &str, labels: &[&str]) -> PatternTree {
    PatternTree {
        value: Subject {
            identity: id.to_string(),
            labels: labels.iter().map(|l| l.to_string()).collect(),
            properties: vec![],
        },
        elements: vec![],
    }
}

fn rel(label: &str, left: PatternTree, right: PatternTree) -> PatternTree {
    PatternTree {
        value: Subject { identity: String::new(), labels: vec![label.to_string()], properties: vec![] },
        elements: vec![left, right],
    }
}

// ── Byte offsets ──────────────────────────────────────────────────────────────

#[test]
fn byte_offset_counts_lines_and_characters() {
    assert_eq!(to_byte_offset("ab\ncd", 1, 1), 4);
    assert_eq!(to_byte_offset("ab\ncd", 0, 0), 0);
}

#[test]
fn byte_offset_keeps_carriage_return_in_its_line() {
    assert_eq!(to_byte_offset("ab\r\ncd", 1, 0), 4);
}

#[test]
fn byte_offset_is_clamped_to_the_length() {
    assert_eq!(to_byte_offset("ab", 5, 0), 2);
    assert_eq!(to_byte_offset("ab\ncd", 1, 40), 5);
}

#[test]
fn byte_offset_counts_bytes_of_wide_characters() {
    assert_eq!(to_byte_offset("héllo\nx", 1, 0), 7);
}

// ── Snippets ──────────────────────────────────────────────────────────────────

#[test]
fn snippet_tag_is_case_insensitive() {
    assert_eq!(lang_from_tag("GRAM"), Lang::Gram);
    assert_eq!(lang_from_tag("gram"), Lang::Gram);
    assert_eq!(lang_from_tag("openCypher"), Lang::Cypher);
    assert_eq!(lang_from_tag("grammar"), Lang::Cypher);
}

#[test]
fn markdown_snippet_starts_below_its_fence() {
    let doc = "# Doc\n```cypher\nMATCH (n) RETURN n\n```\n";
    let s = extract_snippets(doc);
    assert_eq!(s.len(), 1);
    assert_eq!(s[0].lang, Lang::Cypher);
    assert_eq!(s[0].source, "MATCH (n) RETURN n\n");
    assert_eq!(s[0].fence_start_line, 2);
}

#[test]
fn asciidoc_snippet_starts_two_lines_below() {
    let doc = "[source,gram]\n----\n(a)-->(b)\n----\n";
    let s = extract_snippets(doc);
    assert_eq!(s.len(), 1);
    assert_eq!(s[0].lang, Lang::Gram);
    assert_eq!(s[0].source, "(a)-->(b)");
    assert_eq!(s[0].fence_start_line, 2);
}

#[test]
fn snippets_are_sorted_by_line() {
    let doc = "[source,cypher]\n----\nRETURN 1\n----\n\n```gram\n(a)\n```\n";
    let s = extract_snippets(doc);
    assert_eq!(s.len(), 2);
    assert_eq!(s[0].fence_start_line, 2);
    assert_eq!(s[0].lang, Lang::Cypher);
    assert_eq!(s[1].fence_start_line, 6);
    assert_eq!(s[1].lang, Lang::Gram);
}

#[test]
fn untagged_fences_are_ignored() {
    assert!(extract_snippets("```\nRETURN 1\n```\n").is_empty());
}

// ── Linting ───────────────────────────────────────────────────────────────────

#[test]
fn unsupported_extension_is_refused() {
    assert!(matches!(lint_document("txt", "hello", false), Err(LintError::UnsupportedFileType)));
}

#[test]
fn markdown_without_snippets_has_no_findings() {
    match lint_document("md", "# Title\n\nNo code here.\n", false) {
        Ok(v) => assert!(v.is_empty()),
        Err(_) => panic!("markdown is supported"),
    }
}

#[test]
fn lintable_extensions() {
    assert!(is_lintable_extension(Some("cypher")));
    assert!(is_lintable_extension(Some("adoc")));
    assert!(!is_lintable_extension(Some("txt")));
    assert!(!is_lintable_extension(None));
}

#[test]
fn exit_status_depends_on_errors_and_strictness() {
    let warn = vec![diag(Severity::Warning, 0, 0)];
    assert!(!has_exit_one(&warn, false));
    assert!(has_exit_one(&warn, true));
    let err = vec![diag(Severity::Error, 0, 0)];
    assert!(has_exit_one(&err, false));
    assert!(!has_exit_one(&vec![], true));
}

#[test]
fn synthetic_file_names_are_null_in_json() {
    assert_eq!(json_file("<expr>"), None);
    assert_eq!(json_file("<stdin>"), None);
    assert_eq!(json_file("q.cypher"), Some("q.cypher"));
}

#[test]
fn severity_names() {
    assert_eq!(severity_str(Severity::Error), "error");
    assert_eq!(severity_str(Severity::Information), "information");
    assert_eq!(severity_str(Severity::Hint), "hint");
}

#[test]
fn report_span_is_at_least_one_byte() {
    assert_eq!(report_span("abc", &diag(Severity::Error, 0, 1)), (1, 2));
    let mut d = diag(Severity::Error, 0, 0);
    d.range.end = Position { line: 0, character: 3 };
    assert_eq!(report_span("abc", &d), (0, 3));
}

#[test]
fn report_kinds() {
    assert_eq!(report_kind(Severity::Error), ReportKind::Error);
    assert_eq!(report_kind(Severity::Warning), ReportKind::Warning);
    assert_eq!(report_kind(Severity::Hint), ReportKind::Advice);
}

#[test]
fn plain_report_counts_from_one() {
    assert_eq!(plain_report("q.cypher", &diag(Severity::Error, 0, 4)), "q.cypher:1:5: error [syntax] bad");
}

#[test]
fn offset_moves_lines_only() {
    let d = offset_diagnostic(diag(Severity::Warning, 2, 7), 3);
    assert_eq!(d.range.start, Position { line: 5, character: 7 });
    assert_eq!(d.range.end, Position { line: 5, character: 7 });
    assert_eq!(d.rule, "syntax");
}

// ── Summaries and listings ────────────────────────────────────────────────────

fn summary(nodes_created: u64, labels_added: u64) -> QuerySummary {
    QuerySummary {
        nodes_created,
        nodes_deleted: 0,
        relationships_created: 0,
        relationships_deleted: 0,
        properties_set: 0,
        labels_added,
    }
}

#[test]
fn summary_lists_nonzero_counters() {
    assert_eq!(format_summary(&summary(2, 1)), "created 2 node(s), added 1 label(s)");
    assert_eq!(format_summary(&QuerySummary::default()), "");
}

#[test]
fn no_rows_caption_variants() {
    assert_eq!(no_rows_caption(&summary(2, 1), false), "Created 2 node(s), added 1 label(s).");
    assert_eq!(no_rows_caption(&QuerySummary::default(), true), "(write completed)");
    assert_eq!(no_rows_caption(&QuerySummary::default(), false), "(no rows returned)");
}

#[test]
fn totals_line_text() {
    assert_eq!(totals_line(2, 5), "2 statement(s) executed, 5 row(s) returned.");
}

fn people_doc() -> CypherDoc {
    CypherDoc {
        name: "find".to_string(),
        description: Some("Find people\nby name".to_string()),
        params: vec![
            ParamDecl {
                name: "name".to_string(),
                type_: "string".to_string(),
                required: true,
                default: None,
                description: Some("the name".to_string()),
            },
            ParamDecl {
                name: "limit".to_string(),
                type_: "integer".to_string(),
                required: false,
                default: Some("10".to_string()),
                description: None,
            },
        ],
        returns_raw: Some("@returns {node}".to_string()),
    }
}

#[test]
fn cypherdoc_hint_text() {
    assert_eq!(
        format_cypherdoc_hint(&people_doc()),
        "Find people\nby name\n  @param {string} name - the name\n  @param {integer} [limit=10]"
    );
}

#[test]
fn list_entries_use_stem_and_first_line() {
    let entries = vec![
        StatementEntry { source: StatementSource::Inline, text: "RETURN 1".to_string(), doc: Some(people_doc()) },
        StatementEntry { source: StatementSource::Inline, text: "RETURN 2".to_string(), doc: None },
    ];
    let list = collect_list_entries(&entries, Some("person"));
    assert_eq!(list[0].name, "person/find");
    assert_eq!(list[0].description, "Find people");
    assert_eq!(list[1].name, "person/(unnamed)");
    assert_eq!(list[1].description, "");
}

#[test]
fn list_text_aligns_descriptions() {
    let entries = vec![
        StatementEntry { source: StatementSource::Inline, text: "RETURN 1".to_string(), doc: Some(people_doc()) },
        StatementEntry { source: StatementSource::Inline, text: "RETURN 2".to_string(), doc: None },
    ];
    assert_eq!(print_list(&entries), "find       Find people\n(unnamed)\n");
}

#[test]
fn describe_without_documentation() {
    let entries = vec![StatementEntry {
        source: StatementSource::Inline,
        text: "MATCH (n)\r\nRETURN n\n".to_string(),
        doc: None,
    }];
    let rule = "─".repeat(66);
    let expected = format!("── <inline> {rule}\n(no documentation)\n\n  MATCH (n)\n  RETURN n\n\n");
    assert_eq!(print_describe(&entries), expected);
}

#[test]
fn describe_names_the_statement_once() {
    let entries = vec![StatementEntry {
        source: StatementSource::LibraryStatement { path: "p.cypher".to_string(), stmt_name: "find".to_string() },
        text: "RETURN 1".to_string(),
        doc: Some(people_doc()),
    }];
    let text = print_describe(&entries);
    let first = text.lines().next().unwrap();
    assert!(first.starts_with("── p.cypher (find) ─"));
    assert!(text.contains("Find people\nby name\n\n@param {string} name - the name\n@param {integer} [limit=10]\n@returns {node}\n"));
}

// ── Rendering ─────────────────────────────────────────────────────────────────

#[test]
fn output_defaults_next_to_input() {
    let args = RenderArgs {
        file: "graphs/social.gram".to_string(),
        output: None,
        format: OutputFormat::Html,
        json: false,
        open: false,
    };
    assert_eq!(resolve_output(&args), "graphs/social.html");
    let args = RenderArgs { output: Some("x.svg".to_string()), ..args };
    assert_eq!(resolve_output(&args), "x.svg");
}

#[test]
fn tool_formats() {
    assert_eq!(default_format(), "html");
    assert!(matches!(render_format("SVG"), Ok(OutputFormat::Svg)));
    assert!(matches!(render_format("html"), Ok(OutputFormat::Html)));
    match render_format("PNG") {
        Err(m) => assert_eq!(m, "unknown format \"png\"; expected \"html\" or \"svg\""),
        Ok(_) => panic!("png is not a format"),
    }
}

#[test]
fn render_report_line() {
    assert_eq!(render_report_json("out/a.html", OutputFormat::Html), "{\"output\":\"out/a.html\",\"format\":\"html\"}");
}

fn edge(source: &str, target: &str) -> GramEdge {
    GramEdge {
        id: None,
        source: source.to_string(),
        target: target.to_string(),
        label: None,
        properties: vec![],
        directed: true,
    }
}

#[test]
fn parallel_edges_are_grouped_either_way() {
    let edges = vec![edge("a", "b"), edge("b", "a"), edge("a", "c")];
    assert_eq!(group_parallel_edges(&edges), vec![(2, 0), (2, 1), (1, 0)]);
}

#[test]
fn path_colors_cycle() {
    assert_eq!(path_hue(0), 200);
    assert_eq!(path_hue(7), 120);
    let (fill, border) = path_band_colors(40);
    assert_eq!(fill, "hsla(40,65%,60%,0.20)");
    assert_eq!(border, "hsla(40,65%,45%,0.40)");
}

#[test]
fn node_captions() {
    let g = match build_graph(&vec![node("a", &["Person"]), node("b", &[])]) {
        Ok(g) => g,
        Err(_) => panic!("two nodes"),
    };
    assert_eq!(node_label(&g.nodes[0]), "a:Person");
    assert_eq!(node_label(&g.nodes[1]), "b");
}

// ── Graphs ────────────────────────────────────────────────────────────────────

#[test]
fn parses_single_node() {
    let ps = vec![node("alice", &["Person"])];
    assert!(document_buildable(&ps));
    let g = build_graph(&ps).ok().unwrap();
    assert_eq!(g.nodes.len(), 1);
    assert_eq!(g.nodes[0].id, "alice");
    assert!(g.nodes[0].labels.contains(&"Person".to_string()));
}

#[test]
fn parses_directed_edge() {
    let ps = vec![rel("KNOWS", node("alice", &[]), node("bob", &[]))];
    let g = build_graph(&ps).ok().unwrap();
    assert_eq!(g.nodes.len(), 2);
    assert_eq!(g.edges.len(), 1);
    assert_eq!(g.edges[0].source, "alice");
    assert_eq!(g.edges[0].target, "bob");
    assert_eq!(g.edges[0].label.as_deref(), Some("KNOWS"));
    assert_eq!(g.edges[0].id.as_deref(), Some("_e0"));
}

#[test]
fn parses_chained_path() {
    let ps = vec![rel("R2", rel("R1", node("a", &[]), node("b", &[])), node("c", &[]))];
    let g = build_graph(&ps).ok().unwrap();
    assert_eq!(g.nodes.len(), 3);
    assert_eq!(g.edges.len(), 2);
    assert_eq!(g.edges[1].source, "b");
    assert_eq!(g.edges[1].target, "c");
}

#[test]
fn graph_anonymous_nodes_are_numbered() {
    let ps = vec![rel("R", node("", &[]), node("", &[]))];
    let g = build_graph(&ps).ok().unwrap();
    let ids: Vec<&str> = g.nodes.iter().map(|n| n.id.as_str()).collect();
    assert_eq!(ids, vec!["_n0", "_n1"]);
    assert_eq!(g.edges[0].source, "_n1");
    assert_eq!(g.edges[0].target, "_n0");
}

#[test]
fn graph_named_group_is_a_path() {
    let group = PatternTree {
        value: Subject { identity: "trip".to_string(), labels: vec![], properties: vec![] },
        elements: vec![node("x", &[]), node("y", &[]), node("x", &[])],
    };
    let g = build_graph(&vec![group]).ok().unwrap();
    assert_eq!(g.paths.len(), 1);
    assert_eq!(g.paths[0].id.as_deref(), Some("trip"));
    assert_eq!(g.paths[0].members.len(), 2);
}

#[test]
fn empty_gram_returns_error() {
    assert!(matches!(build_graph(&vec![]), Err(RenderError::EmptyGraph)));
    assert_eq!(RenderError::EmptyGraph.message(), "gram file contains no nodes");
    assert_eq!(RenderError::ParseError("x".to_string()).message(), "parse error: x");
}

// ── The query command ─────────────────────────────────────────────────────────

#[test]
fn positional_map_with_expr_becomes_params() {
    let mut a = query_args();
    a.expr = vec!["MATCH (n) RETURN n".to_string()];
    a.query = Some("  {name: 'A'}".to_string());
    route_params(&mut a);
    assert_eq!(a.query, None);
    assert_eq!(a.params_map.as_deref(), Some("  {name: 'A'}"));
    assert!(matches!(start_query(&a), Ok(QueryStart::Inline)));
}

#[test]
fn positional_name_with_expr_is_refused() {
    let mut a = query_args();
    a.expr = vec!["RETURN 1".to_string()];
    a.query = Some("find".to_string());
    route_params(&mut a);
    assert!(matches!(start_query(&a), Err(QueryArgsError::QueryWithExpr)));
}

#[test]
fn params_twice_is_refused() {
    let mut a = query_args();
    a.query = Some("find".to_string());
    a.params_map = Some("{a: 1}".to_string());
    a.params = Some("p.json".to_string());
    assert!(matches!(start_query(&a), Err(QueryArgsError::ParamsTwice)));
    assert!(QueryArgsError::ParamsTwice.message().starts_with("[PARAMS] and --params are mutually exclusive"));
}

#[test]
fn list_alone_lists_the_library_and_nothing_is_an_error() {
    let mut a = query_args();
    a.list = true;
    assert!(matches!(start_query(&a), Ok(QueryStart::ListLibrary)));
    assert!(matches!(start_query(&query_args()), Err(QueryArgsError::NoStatement)));
}

#[test]
fn named_query_resolves_in_the_library() {
    let mut a = query_args();
    a.query = Some("person/upsert".to_string());
    match start_query(&a) {
        Ok(QueryStart::Library(QueryName::StmtAddress { stmt_name, .. })) => assert_eq!(stmt_name, "upsert"),
        _ => panic!("expected a statement address"),
    }
}

#[test]
fn library_entries_relabel_sources() {
    let name = QueryName::BareName { name: "find".to_string(), resolved: "lib/find.cypher".to_string() };
    let v = library_entries(&name, vec![documented("find", "RETURN 1")]).ok().unwrap();
    assert!(matches!(&v[0].source, StatementSource::LibraryFile { path } if path == "lib/find.cypher"));

    let addr = QueryName::StmtAddress { file: "lib/person.cypher".to_string(), stmt_name: "upsert".to_string() };
    let v = library_entries(&addr, vec![documented("upsert", "RETURN 1"), documented("other", "RETURN 2")])
        .ok()
        .unwrap();
    assert_eq!(v.len(), 1);
    assert_eq!(v[0].source.label(), "lib/person.cypher (upsert)");
    assert!(library_entries(&addr, vec![documented("other", "RETURN 2")]).is_err());
}

#[test]
fn missing_library_file_messages() {
    let name = QueryName::BareName { name: "find".to_string(), resolved: "./cypher/find.cypher".to_string() };
    assert_eq!(
        missing_library_file(&name, "./cypher/").unwrap(),
        "query 'find' not found in ./cypher/\n  (looked for: ./cypher/find.cypher)"
    );
    let addr = QueryName::StmtAddress { file: "./cypher/person.cypher".to_string(), stmt_name: "x".to_string() };
    assert!(missing_library_file(&addr, "./cypher/").unwrap().starts_with("query 'person' not found"));
    assert_eq!(missing_library_file(&QueryName::ExplicitPath("a.cypher".to_string()), "."), None);
}

#[test]
fn json_values_bind_by_variant() {
    assert!(matches!(bind_value(&ParamValue::Json(serde_json::Value::from(5))), Binding::Integer(5)));
    assert!(matches!(bind_value(&ParamValue::Json(serde_json::Value::from(1.5))), Binding::Number(_)));
    assert!(matches!(bind_value(&ParamValue::Json(serde_json::Value::Null)), Binding::SkipNull));
    assert!(matches!(bind_value(&ParamValue::Json(serde_json::Value::Array(vec![]))), Binding::SkipComplex));
    assert!(matches!(bind_value(&ParamValue::Json(serde_json::Value::from("x"))), Binding::Text(ref s) if s == "x"));
    assert!(matches!(bind_value(&ParamValue::Float("2.5".to_string())), Binding::Float(ref s) if s == "2.5"));
    assert!(skip_warning_for("p", &Binding::SkipNull).unwrap().contains("is JSON null"));
    assert_eq!(skip_warning_for("p", &Binding::Integer(1)), None);
}

#[test]
fn cells_show_strings_bare() {
    assert_eq!(cell_text(&serde_json::Value::from("x")), "x");
    assert_eq!(cell_text(&serde_json::Value::Null), "null");
    assert_eq!(cell_text(&serde_json::Value::from(true)), "true");
    assert_eq!(cell_text(&serde_json::Value::from(3)), "3");
    assert_eq!(cell_text(&serde_json::Value::Array(vec![serde_json::Value::from(1)])), "[1]");
}

#[test]
fn flags_take_precedence_over_the_map() {
    let flags = vec!["name=Bob".to_string()];
    let m = build_param_map(Some("{name: \"Alice\", age: 30}"), None, &flags).ok().unwrap();
    assert!(matches!(m.get("name"), Some(ParamValue::String(s)) if s == "Bob"));
    assert!(matches!(m.get("age"), Some(ParamValue::Integer(30))));
}

#[test]
fn set_parameter_reads_back() {
    let mut m = ParamMap::new();
    m.insert("a".to_string(), ParamValue::Integer(1));
    m.insert("a".to_string(), ParamValue::Integer(2));
    assert!(matches!(m.get("a"), Some(ParamValue::Integer(2))));
    assert!(m.get("b").is_none());
    assert_eq!(m.keys(), vec!["a".to_string()]);
}

#[test]
fn parameter_check_reports_missing_and_unused() {
    let mut doc = people_doc();
    doc.params.truncate(1);
    let queue = vec![StatementEntry {
        source: StatementSource::Inline,
        text: "MATCH (n {name: $name, city: $city}) RETURN n".to_string(),
        doc: Some(doc),
    }];
    let mut params = ParamMap::new();
    params.insert("extra".to_string(), ParamValue::Integer(1));
    let r = check_params(&queue, &params);
    let missing: Vec<(&str, bool)> = r.missing.iter().map(|m| (m.name.as_str(), m.documented)).collect();
    assert_eq!(missing, vec![("name", true), ("city", false)]);
    assert_eq!(r.unused, vec!["extra".to_string()]);
}

#[test]
fn parameter_check_without_doc_requires_every_reference() {
    let queue = vec![StatementEntry {
        source: StatementSource::Inline,
        text: "MATCH (n {b: $b, a: $a}) RETURN n".to_string(),
        doc: None,
    }];
    let mut params = ParamMap::new();
    params.insert("b".to_string(), ParamValue::Integer(1));
    let r = check_params(&queue, &params);
    let missing: Vec<&str> = r.missing.iter().map(|m| m.name.as_str()).collect();
    assert_eq!(missing, vec!["a"]);
    assert!(r.unused.is_empty());
}

// ── Other commands ────────────────────────────────────────────────────────────

#[test]
fn password_is_required_when_missing() {
    let args = Neo4jArgs { uri: "bolt://localhost:7687".to_string(), user: "neo4j".to_string(), password: None };
    assert!(matches!(args.require_password(), Err(CliError::MissingPassword)));
    assert_eq!(CliError::MissingPassword.message(), "--password or NEO4J_PASSWORD is required");
    let args = Neo4jArgs { password: Some("secret".to_string()), ..args };
    assert_eq!(args.require_password().ok(), Some("secret"));
}

#[test]
fn external_subcommands() {
    assert_eq!(extension_binary("graph"), "relate-graph");
    assert_eq!(subcommand_name("relate-graph"), "graph");
    assert_eq!(subcommand_name("other"), "other");
    let (code, msg) = exec_failure_report("relate-graph", &ExecFailure::NotFound);
    assert_eq!(code, 127);
    assert_eq!(msg, "error: external subcommand `relate-graph` not found on PATH — install it to use `relate graph`");
    assert_eq!(exec_failure_report("relate-graph", &ExecFailure::PermissionDenied).0, 126);
    let (code, msg) = exec_failure_report("relate-graph", &ExecFailure::Other("boom".to_string()));
    assert_eq!(code, 1);
    assert_eq!(msg, "error: failed to execute `relate-graph`: boom");
}

#[test]
fn result_text_without_rows() {
    let t = relate::plan::result_text("<inline>", &vec![], &vec![], &summary(1, 0), true, None);
    assert_eq!(t, "-- <inline>\nCreated 1 node(s).\n");
}

#[test]
fn result_text_with_rows_counts_them() {
    let rows = vec![vec![serde_json::Value::from("x")], vec![serde_json::Value::Null]];
    let t = relate::plan::result_text("q.cypher", &vec!["n".to_string()], &rows, &QuerySummary::default(), false, None);
    assert!(t.starts_with("-- q.cypher\n"));
    assert!(t.ends_with("\n2 row(s)\n"));
    assert!(t.contains("null"));
}

#[test]
fn table_cells_follow_the_rows() {
    let rows = vec![vec![serde_json::Value::from(1), serde_json::Value::from("a")]];
    assert_eq!(relate::plan::table_cells(&rows), vec![vec!["1".to_string(), "a".to_string()]]);
}

#[test]
fn library_block_lists_under_the_stem() {
    let entries = vec![documented("find", "RETURN 1")];
    let list = collect_list_entries(&entries, None);
    assert_eq!(relate::listing::library_block("person", &list), "person\n  find\n\n");
}

#[test]
fn missing_parameter_report_with_documentation() {
    let entry = StatementEntry { source: StatementSource::Inline, text: "RETURN $name".to_string(), doc: Some(people_doc()) };
    let m = relate::query::MissingParam { entry: 0, name: "name".to_string(), documented: true };
    let text = relate::listing::missing_param_report(&m, &entry);
    assert!(text.starts_with("Error: missing required parameter '$name'\n  Source: <inline>\n  Hint: pass --param name=<value>\n"));
    assert!(text.contains("\n  --- Documentation ---\n  Find people\n"));
    let m = relate::query::MissingParam { entry: 0, name: "x".to_string(), documented: false };
    assert_eq!(
        relate::listing::missing_param_report(&m, &entry),
        "Error: missing required parameter '$x'\n  Source: <inline>\n  Hint: pass --param x=<value>\n"
    );
}

#[test]
fn write_refusal_report() {
    let entry = StatementEntry { source: StatementSource::Inline, text: "CREATE (n)\nRETURN n".to_string(), doc: None };
    assert_eq!(
        relate::listing::write_refusal(&entry, "CREATE"),
        "Error: write operation requires --write flag\n  Statement: CREATE (n)\n  Source: <inline>\n  Clause: CREATE\n\n  Re-run with --write to allow mutations.\n"
    );
}

#[test]
fn multi_statement_lint_error_exits_one() {
    let queue = relate::query::build_queue_inline(&vec![
        "MATCH (n) RETURN n".to_string(),
        "THIS IS NOT CYPHER !!!".to_string(),
    ]);
    let findings = relate::plan::lint_queue(&queue);
    assert_eq!(findings.len(), 2);
    assert!(relate::plan::has_lint_errors(&findings));
    let source = "MATCH (n) RETURN n\nTHIS IS NOT CYPHER !!!\n";
    match relate::query::statements_from_source("q.cypher", source) {
        Ok(entries) => assert!(relate::plan::has_lint_errors(&relate::plan::lint_queue(&entries))),
        Err(_) => {}
    }
}

#[test]
fn result_text_with_a_width_keeps_the_frame() {
    let rows = vec![vec![serde_json::Value::from("a long cell value that wraps")]];
    let t = relate::plan::result_text("q", &vec!["n".to_string()], &rows, &QuerySummary::default(), false, Some(20));
    assert!(t.starts_with("-- q\n"));
    assert!(t.ends_with("\n1 row(s)\n"));
    assert!(t.lines().filter(|l| l.starts_with('│')).all(|l| l.chars().count() <= 20));
}

fn syntax_node(kind: &str, text: &str, depth: u32) -> relate::syntax::SyntaxNode {
    relate::syntax::SyntaxNode {
        kind: kind.to_string(),
        named: true,
        field: None,
        text: text.to_string(),
        row: 0,
        depth,
        has_error: false,
    }
}

#[test]
fn classification_reads_the_first_write_node() {
    let read = vec![syntax_node("statement", "MATCH (n) RETURN n", 0), syntax_node("match_clause", "MATCH (n)", 1)];
    assert!(matches!(relate::query::classify_nodes(&read), relate::query::Classification::Read));
    let write = vec![
        syntax_node("statement", "MATCH (n) SET n.a = 1 DELETE n", 0),
        syntax_node("set_clause", "SET n.a = 1", 1),
        syntax_node("delete_clause", "DELETE n", 1),
    ];
    match relate::query::classify_nodes(&write) {
        relate::query::Classification::Write { first_write_kind } => assert_eq!(first_write_kind, "set_clause"),
        _ => panic!("expected a write"),
    }
}

#[test]
fn parameter_nodes_name_the_references() {
    let ns = vec![
        syntax_node("statement", "RETURN $b, $a, $b", 0),
        syntax_node("parameter", "$b", 1),
        syntax_node("parameter", "$a", 1),
        syntax_node("parameter", "$b", 1),
    ];
    assert_eq!(relate::query::param_refs_in_nodes(&ns), vec!["a".to_string(), "b".to_string()]);
}

#[test]
fn byte_offset_counts_the_carriage_return_of_a_line() {
    assert_eq!(to_byte_offset("ab\r\ncd", 1, 1), 5);
    assert_eq!(to_byte_offset("ab\ncd", 5, 0), 5);
}
