//! The decisions of `relate query` around its reads and its connection: how
//! the arguments are read, which statements run, the lint check before
//! connecting, how parameters are bound, and how result cells are shown.
use vstd::prelude::*;
use crate::cli::QueryArgs;
use crate::diagnostics::{cypher_lint, diagnostics_view, lint_cypher, Diagnostic, DiagnosticView, Severity};
use crate::json::{json_leaf, json_leaf_of, json_text, json_to_text, JsonLeaf, JsonLeafView};
use crate::query::{
    entries_named, filter_by_stmt_name, resolve_query, resolve_query_source, stmt_not_found_message, doc_names,
    ParamValue, ParamView, QueryName, QueryNameView, StatementEntry, StatementSource,
};
use crate::render::{file_stem_of, path_file_stem};
use crate::text::{char_is_whitespace, chars_of, concat, decimal, is_whitespace, parse_i64, parse_i64_chars, trim_start};

verus! {

// ── Reading the arguments ──────────────────────────────────────────────────────

/// The text starts with `{` once leading whitespace is skipped.
pub open spec fn opens_map(q: Seq<char>) -> bool {
    let t = trim_start(q);
    t.len() > 0 && t[0] == '{'
}

fn starts_map_literal(q: &str) -> (r: bool)
    ensures
        r == opens_map(q@),
{
    let cs = chars_of(q);
    let mut i: usize = 0;
    while i < cs.len() && char_is_whitespace(cs[i])
        invariant
            cs@ == q@,
            i <= cs@.len(),
            forall|k: int| 0 <= k < i ==> is_whitespace(#[trigger] cs@[k]),
        decreases cs@.len() - i,
    {
        i = i + 1;
    }
    proof {
        crate::text::lemma_trim_start_skip(q@, i as int);
    }
    i < cs.len() && cs[i] == '{'
}

/// With `-e`, a positional argument that opens a map literal is the
/// parameters, not a query: `relate query -e '...' '{...}'`.
pub open spec fn routes_params(a: QueryArgs) -> bool {
    &&& a.expr@.len() > 0
    &&& a.params_map is None
    &&& a.query matches Some(q) && opens_map(q@)
}

pub open spec fn routed(a: QueryArgs) -> QueryArgs {
    if routes_params(a) {
        QueryArgs { query: None, params_map: a.query, ..a }
    } else {
        a
    }
}

/// Moves a positional map literal given with `-e` to the parameters.
pub fn route_params(args: &mut QueryArgs)
    ensures
        *final(args) == routed(*old(args)),
{
    let moves = args.expr.len() > 0 && args.params_map.is_none() && match &args.query {
        Some(q) => starts_map_literal(q.as_str()),
        None => false,
    };
    if moves {
        let q = args.query.take();
        args.params_map = q;
    }
}

/// Arguments that cannot be used together, or that name nothing to run.
#[derive(Debug)]
pub enum QueryArgsError {
    /// `[QUERY]` and `-e`.
    QueryWithExpr,
    /// `[PARAMS]` and `--params`.
    ParamsTwice,
    /// Neither `[QUERY]` nor `-e`.
    NoStatement,
    /// `--batch` or `--atomic` without `--apply`.
    NeedsApply,
    /// `--batch` and `--atomic`.
    BatchWithAtomic,
    /// `--apply` and `[PARAMS]`.
    ApplyWithParams,
}

impl QueryArgsError {
    pub open spec fn spec_message(self) -> Seq<char> {
        match self {
            QueryArgsError::QueryWithExpr => "[QUERY] and --expr (-e) are mutually exclusive\n       provide either a file path or one or more -e flags, not both"@,
            QueryArgsError::ParamsTwice => "[PARAMS] and --params are mutually exclusive\n       provide inline parameters or a --params file, not both"@,
            QueryArgsError::NoStatement => "provide a .cypher file or use -e/--expr for an inline statement\n       run 'relate query --help' for usage"@,
            QueryArgsError::NeedsApply => "--batch and --atomic require --apply"@,
            QueryArgsError::BatchWithAtomic => "--batch and --atomic are mutually exclusive"@,
            QueryArgsError::ApplyWithParams => "--apply and [PARAMS] are mutually exclusive"@,
        }
    }

    /// The two lines printed after `Error: `.
    pub fn message(&self) -> (r: String)
        ensures
            r@ == self.spec_message(),
    {
        match self {
            QueryArgsError::QueryWithExpr => "[QUERY] and --expr (-e) are mutually exclusive\n       provide either a file path or one or more -e flags, not both".to_string(),
            QueryArgsError::ParamsTwice => "[PARAMS] and --params are mutually exclusive\n       provide inline parameters or a --params file, not both".to_string(),
            QueryArgsError::NoStatement => "provide a .cypher file or use -e/--expr for an inline statement\n       run 'relate query --help' for usage".to_string(),
            QueryArgsError::NeedsApply => "--batch and --atomic require --apply".to_string(),
            QueryArgsError::BatchWithAtomic => "--batch and --atomic are mutually exclusive".to_string(),
            QueryArgsError::ApplyWithParams => "--apply and [PARAMS] are mutually exclusive".to_string(),
        }
    }
}

/// Where the statements of a run come from.
#[derive(Debug)]
pub enum QueryStart {
    /// `--list` alone: every named statement of the library.
    ListLibrary,
    /// The `-e` statements.
    Inline,
    /// The file that `[QUERY]` names.
    Library(QueryName),
}

pub enum QueryStartView {
    ListLibrary,
    Inline,
    Library(QueryNameView),
}

impl View for QueryStart {
    type V = QueryStartView;

    open spec fn view(&self) -> QueryStartView {
        match self {
            QueryStart::ListLibrary => QueryStartView::ListLibrary,
            QueryStart::Inline => QueryStartView::Inline,
            QueryStart::Library(n) => QueryStartView::Library(n@),
        }
    }
}

/// How a run starts, after `route_params`: the exclusions first (`[QUERY]`
/// and `-e`, `[PARAMS]` and `--params`, `--batch` or `--atomic` without
/// `--apply`, `--batch` and `--atomic`, `--apply` and `[PARAMS]`), then a
/// library listing, the inline statements, or the named file.
pub open spec fn start_of(a: QueryArgs) -> Result<QueryStartView, QueryArgsError> {
    if a.query is Some && a.expr@.len() > 0 {
        Err(QueryArgsError::QueryWithExpr)
    } else if a.params_map is Some && a.params is Some {
        Err(QueryArgsError::ParamsTwice)
    } else if (a.batch is Some || a.atomic) && a.apply is None {
        Err(QueryArgsError::NeedsApply)
    } else if a.batch is Some && a.atomic {
        Err(QueryArgsError::BatchWithAtomic)
    } else if a.apply is Some && a.params_map is Some {
        Err(QueryArgsError::ApplyWithParams)
    } else if a.list && a.query is None && a.expr@.len() == 0 {
        Ok(QueryStartView::ListLibrary)
    } else if a.expr@.len() > 0 {
        Ok(QueryStartView::Inline)
    } else {
        match a.query {
            Some(q) => Ok(QueryStartView::Library(resolve_query(q@, a.cypher_dir@))),
            None => Err(QueryArgsError::NoStatement),
        }
    }
}

pub fn start_query(args: &QueryArgs) -> (r: Result<QueryStart, QueryArgsError>)
    ensures
        match r {
            Ok(s) => start_of(*args) == Ok::<QueryStartView, QueryArgsError>(s@),
            Err(e) => start_of(*args) == Err::<QueryStartView, QueryArgsError>(e),
        },
{
    if args.query.is_some() && args.expr.len() > 0 {
        return Err(QueryArgsError::QueryWithExpr);
    }
    if args.params_map.is_some() && args.params.is_some() {
        return Err(QueryArgsError::ParamsTwice);
    }
    if (args.batch.is_some() || args.atomic) && args.apply.is_none() {
        return Err(QueryArgsError::NeedsApply);
    }
    if args.batch.is_some() && args.atomic {
        return Err(QueryArgsError::BatchWithAtomic);
    }
    if args.apply.is_some() && args.params_map.is_some() {
        return Err(QueryArgsError::ApplyWithParams);
    }
    if args.list && args.query.is_none() && args.expr.len() == 0 {
        return Ok(QueryStart::ListLibrary);
    }
    if args.expr.len() > 0 {
        return Ok(QueryStart::Inline);
    }
    match &args.query {
        Some(q) => Ok(QueryStart::Library(resolve_query_source(q.as_str(), args.cypher_dir.as_str()))),
        None => Err(QueryArgsError::NoStatement),
    }
}

// ── The statements of a library file ───────────────────────────────────────────

pub open spec fn relabelled(es: Seq<StatementEntry>, s: StatementSource) -> Seq<StatementEntry> {
    es.map_values(|e: StatementEntry| StatementEntry { source: s, ..e })
}

/// The statements that a resolved name runs, given the statements of its
/// file: all of them for a path; all of them, shown as the library file, for
/// a bare name; the ones documented under the statement's name, shown as that
/// statement, for a `file/stmt` address (an error listing the names there
/// are when none is).
pub open spec fn library_run(n: QueryName, es: Seq<StatementEntry>) -> Result<Seq<StatementEntry>, Seq<char>> {
    match n {
        QueryName::ExplicitPath(_) => Ok(es),
        QueryName::BareName { name: _, resolved } => Ok(
            relabelled(es, StatementSource::LibraryFile { path: resolved }),
        ),
        QueryName::StmtAddress { file, stmt_name } => {
            let named = entries_named(es, stmt_name@);
            if named.len() > 0 {
                Ok(relabelled(named, StatementSource::LibraryStatement { path: file, stmt_name: stmt_name }))
            } else {
                Err(stmt_not_found_message(stmt_name@, file@, doc_names(es)))
            }
        },
    }
}

fn relabel(es: Vec<StatementEntry>, s: &StatementSource) -> (r: Vec<StatementEntry>)
    ensures
        r@ == relabelled(es@, *s),
{
    let ghost all = es@;
    let mut rest = es;
    let mut out: Vec<StatementEntry> = Vec::new();
    let mut i: usize = 0;
    let n = rest.len();
    while rest.len() > 0
        invariant
            n == all.len(),
            i <= n,
            rest@ == all.skip(i as int),
            out@ == relabelled(all.take(i as int), *s),
        decreases rest@.len(),
    {
        let e = rest.remove(0);
        assert(all[i as int] == e);
        let ne = StatementEntry { source: s.duplicate(), text: e.text, doc: e.doc };
        out.push(ne);
        assert(all.take(i + 1) =~= all.take(i as int).push(e));
        assert(out@ =~= relabelled(all.take(i + 1), *s));
        i = i + 1;
        assert(rest@ =~= all.skip(i as int));
    }
    assert(all.take(i as int) =~= all);
    out
}

pub fn library_entries(name: &QueryName, entries: Vec<StatementEntry>) -> (r: Result<
    Vec<StatementEntry>,
    String,
>)
    ensures
        match r {
            Ok(v) => library_run(*name, entries@) == Ok::<Seq<StatementEntry>, Seq<char>>(v@),
            Err(m) => library_run(*name, entries@) == Err::<Seq<StatementEntry>, Seq<char>>(m@),
        },
{
    match name {
        QueryName::ExplicitPath(_) => Ok(entries),
        QueryName::BareName { name: _, resolved } => {
            let s = StatementSource::LibraryFile { path: resolved.clone() };
            Ok(relabel(entries, &s))
        },
        QueryName::StmtAddress { file, stmt_name } => {
            match filter_by_stmt_name(entries, stmt_name.as_str(), file.as_str()) {
                Ok(v) => {
                    let s = StatementSource::LibraryStatement { path: file.clone(), stmt_name: stmt_name.clone() };
                    Ok(relabel(v, &s))
                },
                Err(m) => Err(m),
            }
        },
    }
}

/// The error for a library name whose file is not there: the name (for a
/// `file/stmt` address, the file's stem, `?` without one), the library
/// directory and the path looked for. A path given outright has none.
pub open spec fn missing_file_message(n: QueryNameView, dir: Seq<char>) -> Option<Seq<char>> {
    match n {
        QueryNameView::ExplicitPath(_) => None,
        QueryNameView::BareName { name, resolved } => Some(
            "query '"@ + name + "' not found in "@ + dir + "\n  (looked for: "@ + resolved + ")"@,
        ),
        QueryNameView::StmtAddress { file, stmt_name: _ } => {
            let bare = match file_stem_of(file) {
                Some(s) => s,
                None => "?"@,
            };
            Some("query '"@ + bare + "' not found in "@ + dir + "\n  (looked for: "@ + file + ")"@)
        },
    }
}

fn not_found(name: &str, dir: &str, looked: &str) -> (r: String)
    ensures
        r@ == "query '"@ + name@ + "' not found in "@ + dir@ + "\n  (looked for: "@ + looked@ + ")"@,
{
    let mut m = concat("query '", name);
    m = concat(m.as_str(), "' not found in ");
    m = concat(m.as_str(), dir);
    m = concat(m.as_str(), "\n  (looked for: ");
    m = concat(m.as_str(), looked);
    concat(m.as_str(), ")")
}

pub fn missing_library_file(name: &QueryName, cypher_dir: &str) -> (r: Option<String>)
    ensures
        crate::graph::opt_view(r) == missing_file_message(name@, cypher_dir@),
{
    match name {
        QueryName::ExplicitPath(_) => None,
        QueryName::BareName { name, resolved } => Some(not_found(name.as_str(), cypher_dir, resolved.as_str())),
        QueryName::StmtAddress { file, stmt_name: _ } => {
            let bare = match path_file_stem(file.as_str()) {
                Some(s) => s,
                None => "?".to_string(),
            };
            Some(not_found(bare.as_str(), cypher_dir, file.as_str()))
        },
    }
}

// ── Linting before connecting ──────────────────────────────────────────────────

/// The findings of each statement, in order.
pub fn lint_queue(queue: &Vec<StatementEntry>) -> (r: Vec<Vec<Diagnostic>>)
    ensures
        r@.len() == queue@.len(),
        forall|i: int| 0 <= i < r@.len() ==> diagnostics_view(#[trigger] r@[i]@).to_multiset() == cypher_lint(
            queue@[i].text@,
        ),
{
    let mut out: Vec<Vec<Diagnostic>> = Vec::new();
    let mut i: usize = 0;
    while i < queue.len()
        invariant
            i <= queue@.len(),
            out@.len() == i,
            forall|k: int| 0 <= k < i ==> diagnostics_view(#[trigger] out@[k]@).to_multiset() == cypher_lint(
                queue@[k].text@,
            ),
        decreases queue@.len() - i,
    {
        out.push(lint_cypher(queue[i].text.as_str(), false));
        i = i + 1;
    }
    out
}

/// Some finding of some statement is an error: the run stops before connecting.
pub open spec fn any_error(fs: Seq<Seq<DiagnosticView>>) -> bool {
    exists|i: int, j: int| 0 <= i < fs.len() && 0 <= j < fs[i].len() && (#[trigger] fs[i][j]).severity == Severity::Error
}

pub fn has_lint_errors(findings: &Vec<Vec<Diagnostic>>) -> (r: bool)
    ensures
        r == any_error(findings@.map_values(|v: Vec<Diagnostic>| diagnostics_view(v@))),
{
    let ghost fs = findings@.map_values(|v: Vec<Diagnostic>| diagnostics_view(v@));
    let mut i: usize = 0;
    while i < findings.len()
        invariant
            i <= findings@.len(),
            fs == findings@.map_values(|v: Vec<Diagnostic>| diagnostics_view(v@)),
            forall|a: int, b: int| 0 <= a < i && 0 <= b < fs[a].len() ==> fs[a][b].severity != Severity::Error,
        decreases findings@.len() - i,
    {
        let v = &findings[i];
        assert(fs[i as int] == diagnostics_view(v@));
        let mut j: usize = 0;
        while j < v.len()
            invariant
                i < findings@.len(),
                fs == findings@.map_values(|v: Vec<Diagnostic>| diagnostics_view(v@)),
                v@ == findings@[i as int]@,
                fs[i as int] == diagnostics_view(v@),
                j <= v@.len(),
                forall|b: int| 0 <= b < j ==> fs[i as int][b].severity != Severity::Error,
            decreases v@.len() - j,
        {
            assert(fs[i as int][j as int] == v@[j as int]@);
            if v[j].severity == Severity::Error {
                assert(fs[i as int].len() == v@.len());
                assert(0 <= i < fs.len() && 0 <= j < fs[i as int].len() && fs[i as int][j as int].severity
                    == Severity::Error);
                assert(any_error(fs));
                return true;
            }
            j = j + 1;
        }
        i = i + 1;
    }
    false
}

/// Whether the lint before connecting stops a run does not depend on the
/// order of the findings: it stops exactly when some statement's linter
/// reports an error.
pub proof fn lemma_lint_errors_by_statement(fs: Seq<Seq<DiagnosticView>>, texts: Seq<Seq<char>>)
    requires
        fs.len() == texts.len(),
        forall|i: int| 0 <= i < fs.len() ==> (#[trigger] fs[i]).to_multiset() == cypher_lint(texts[i]),
    ensures
        any_error(fs) <==> exists|i: int, d: DiagnosticView|
            0 <= i < texts.len() && #[trigger] cypher_lint(texts[i]).count(d) > 0 && d.severity == Severity::Error,
{
    broadcast use vstd::seq_lib::to_multiset_contains;
    if any_error(fs) {
        let (i, j) = choose|i: int, j: int|
            0 <= i < fs.len() && 0 <= j < fs[i].len() && (#[trigger] fs[i][j]).severity == Severity::Error;
        let d = fs[i][j];
        assert(fs[i].contains(d));
        assert(fs[i].to_multiset().count(d) > 0);
        assert(cypher_lint(texts[i]).count(d) > 0);
    }
    if exists|i: int, d: DiagnosticView|
        0 <= i < texts.len() && #[trigger] cypher_lint(texts[i]).count(d) > 0 && d.severity == Severity::Error {
        let (i, d) = choose|i: int, d: DiagnosticView|
            0 <= i < texts.len() && #[trigger] cypher_lint(texts[i]).count(d) > 0 && d.severity == Severity::Error;
        assert(fs[i].to_multiset().count(d) > 0);
        assert(fs[i].contains(d));
        let j = choose|j: int| 0 <= j < fs[i].len() && fs[i][j] == d;
        assert(fs[i][j].severity == Severity::Error);
    }
}

/// The severity word of the one-line form of a finding before connecting.
pub open spec fn short_severity(s: Severity) -> Seq<char> {
    match s {
        Severity::Error => "error"@,
        Severity::Warning => "warning"@,
        _ => "info"@,
    }
}

pub fn short_severity_str(s: Severity) -> (r: &'static str)
    ensures
        r@ == short_severity(s),
{
    match s {
        Severity::Error => "error",
        Severity::Warning => "warning",
        _ => "info",
    }
}

// ── Binding parameters ─────────────────────────────────────────────────────────

/// How a parameter is handed to the driver.
#[derive(Debug)]
pub enum Binding {
    Integer(i64),
    /// A float, as the text that `str::parse::<f64>` reads.
    Float(String),
    Boolean(bool),
    Text(String),
    /// A JSON number that is no `i64`: bound as an `f64` when it is one.
    Number(serde_json::Value),
    /// JSON `null`: not bound.
    SkipNull,
    /// A JSON array or object, or a nested map or list literal: not bound.
    SkipComplex,
}

pub enum BindingView {
    Integer(i64),
    Float(Seq<char>),
    Boolean(bool),
    Text(Seq<char>),
    Number(serde_json::Value),
    SkipNull,
    SkipComplex,
}

impl View for Binding {
    type V = BindingView;

    open spec fn view(&self) -> BindingView {
        match self {
            Binding::Integer(i) => BindingView::Integer(*i),
            Binding::Float(t) => BindingView::Float(t@),
            Binding::Boolean(b) => BindingView::Boolean(*b),
            Binding::Text(t) => BindingView::Text(t@),
            Binding::Number(v) => BindingView::Number(*v),
            Binding::SkipNull => BindingView::SkipNull,
            Binding::SkipComplex => BindingView::SkipComplex,
        }
    }
}

/// Scalars are bound as they are; a JSON value by its variant, an integral
/// number as an integer.
pub open spec fn binding_of(v: ParamView) -> BindingView {
    match v {
        ParamView::Integer(i) => BindingView::Integer(i),
        ParamView::Float(t) => BindingView::Float(t),
        ParamView::Boolean(b) => BindingView::Boolean(b),
        ParamView::Text(t) => BindingView::Text(t),
        ParamView::Literal(_) => BindingView::SkipComplex,
        ParamView::Json(j) => match json_leaf_of(j) {
            JsonLeafView::Text(s) => BindingView::Text(s),
            JsonLeafView::Boolean(b) => BindingView::Boolean(b),
            JsonLeafView::Number(t, w) => match parse_i64(t) {
                Some(i) => BindingView::Integer(i),
                None => BindingView::Number(w),
            },
            JsonLeafView::Null(_) => BindingView::SkipNull,
            JsonLeafView::Other(_) => BindingView::SkipComplex,
        },
    }
}

pub fn bind_value(v: &ParamValue) -> (r: Binding)
    ensures
        r@ == binding_of(v@),
{
    match v {
        ParamValue::Integer(i) => Binding::Integer(*i),
        ParamValue::Float(t) => Binding::Float(t.clone()),
        ParamValue::Boolean(b) => Binding::Boolean(*b),
        ParamValue::String(t) => Binding::Text(t.clone()),
        ParamValue::Literal(_) => Binding::SkipComplex,
        ParamValue::Json(j) => match json_leaf(j.clone()) {
            JsonLeaf::Text(s) => Binding::Text(s),
            JsonLeaf::Boolean(b) => Binding::Boolean(b),
            JsonLeaf::Number(t, w) => {
                let cs = chars_of(t.as_str());
                match parse_i64_chars(cs.as_slice()) {
                    Some(i) => Binding::Integer(i),
                    None => Binding::Number(w),
                }
            },
            JsonLeaf::Null(_) => Binding::SkipNull,
            JsonLeaf::Other(_) => Binding::SkipComplex,
        },
    }
}

/// The warning for a parameter that is not bound.
pub open spec fn skip_warning(name: Seq<char>, b: BindingView) -> Option<Seq<char>> {
    match b {
        BindingView::SkipNull => Some(
            "Warning: parameter '"@ + name
                + "' is JSON null — null parameters are not yet supported via --params and will not be bound"@,
        ),
        BindingView::SkipComplex => Some(
            "Warning: parameter '"@ + name
                + "' is a JSON array or object — complex types are not yet supported via --params and will not be bound"@,
        ),
        _ => None,
    }
}

pub fn skip_warning_for(name: &str, b: &Binding) -> (r: Option<String>)
    ensures
        crate::graph::opt_view(r) == skip_warning(name@, b@),
{
    match b {
        Binding::SkipNull => {
            let m = concat("Warning: parameter '", name);
            Some(concat(
                m.as_str(),
                "' is JSON null — null parameters are not yet supported via --params and will not be bound",
            ))
        },
        Binding::SkipComplex => {
            let m = concat("Warning: parameter '", name);
            Some(concat(
                m.as_str(),
                "' is a JSON array or object — complex types are not yet supported via --params and will not be bound",
            ))
        },
        _ => None,
    }
}

/// The warning for a JSON number that is neither an `i64` nor an `f64`.
pub open spec fn unrepresentable_warning(name: Seq<char>) -> Seq<char> {
    "Warning: parameter '"@ + name + "' has an unrepresentable numeric value — skipped"@
}

pub fn unrepresentable_number_warning(name: &str) -> (r: String)
    ensures
        r@ == unrepresentable_warning(name@),
{
    let m = concat("Warning: parameter '", name);
    concat(m.as_str(), "' has an unrepresentable numeric value — skipped")
}

// ── Result cells ───────────────────────────────────────────────────────────────

/// How a value shows in a table cell: a string as itself, `null` as `null`,
/// anything else as its JSON text.
pub open spec fn cell_of(v: serde_json::Value) -> Seq<char> {
    match json_leaf_of(v) {
        JsonLeafView::Text(s) => s,
        JsonLeafView::Null(_) => "null"@,
        _ => json_text(v),
    }
}

pub fn cell_text(v: &serde_json::Value) -> (r: String)
    ensures
        r@ == cell_of(*v),
{
    match json_leaf(v.clone()) {
        JsonLeaf::Text(s) => s,
        JsonLeaf::Null(_) => "null".to_string(),
        _ => json_to_text(v),
    }
}

/// The cells of the rows, each as `cell_of` shows its value.
pub fn table_cells(rows: &Vec<Vec<serde_json::Value>>) -> (r: Vec<Vec<String>>)
    ensures
        r@.len() == rows@.len(),
        forall|i: int|
            0 <= i < r@.len() ==> (#[trigger] r@[i])@.len() == rows@[i]@.len() && forall|j: int|
                0 <= j < r@[i]@.len() ==> (#[trigger] r@[i]@[j])@ == cell_of(rows@[i]@[j]),
{
    let mut out: Vec<Vec<String>> = Vec::new();
    let mut i: usize = 0;
    while i < rows.len()
        invariant
            i <= rows@.len(),
            out@.len() == i,
            forall|k: int|
                0 <= k < i ==> (#[trigger] out@[k])@.len() == rows@[k]@.len() && forall|j: int|
                    0 <= j < out@[k]@.len() ==> (#[trigger] out@[k]@[j])@ == cell_of(rows@[k]@[j]),
        decreases rows@.len() - i,
    {
        let row = &rows[i];
        let mut cells: Vec<String> = Vec::new();
        let mut j: usize = 0;
        while j < row.len()
            invariant
                j <= row@.len(),
                cells@.len() == j,
                forall|q: int| 0 <= q < j ==> (#[trigger] cells@[q])@ == cell_of(row@[q]),
            decreases row@.len() - j,
        {
            cells.push(cell_text(&row[j]));
            j = j + 1;
        }
        out.push(cells);
        i = i + 1;
    }
    out
}

/// What comfy-table draws for a header and rows of cells: UTF-8 borders, the
/// header, one line per row, the columns fitted by its dynamic arrangement
/// to `width` when one is given.
pub uninterp spec fn table_drawing(header: Seq<Seq<char>>, rows: Seq<Seq<Seq<char>>>, width: Option<u16>) -> Seq<
    char,
>;

/// The cells of rows of text, as text.
pub open spec fn text_rows(v: Seq<Vec<String>>) -> Seq<Seq<Seq<char>>> {
    v.map_values(|r: Vec<String>| r@.map_values(|s: String| s@))
}

/// Draws a table with comfy-table (`Table::to_string`), told not to look at
/// the terminal, so that what it draws depends on the header, the rows and
/// the width alone: the contract names the drawing.
#[verifier::external_body]
fn draw_table(header: &Vec<String>, rows: &Vec<Vec<String>>, width: Option<u16>) -> (r: String)
    ensures
        r@ == table_drawing(crate::listing::strings_view(header@), text_rows(rows@), width),
{
    let mut t = comfy_table::Table::new();
    t.force_no_tty().load_style(comfy_table::presets::UTF8_FULL);
    t.set_content_arrangement(comfy_table::ContentArrangement::Dynamic);
    if let Some(w) = width {
        t.set_width(w);
    }
    t.set_header(header.clone()).add_rows(rows.clone());
    t.to_string()
}

/// The cells of result rows, each as `cell_of` shows its value.
pub open spec fn cells_view(rows: Seq<Vec<serde_json::Value>>) -> Seq<Seq<Seq<char>>> {
    Seq::new(rows.len(), |i: int| Seq::new(rows[i]@.len(), |j: int| cell_of(rows[i]@[j])))
}

/// What is printed for one statement's result: a `-- source` line, then the
/// no-rows caption, or the table and the number of rows.
pub open spec fn result_text_with(
    label: Seq<char>,
    rows: nat,
    summary: crate::listing::QuerySummary,
    is_write: bool,
    table: Seq<char>,
) -> Seq<char> {
    "-- "@ + label + "\n"@ + if rows == 0 {
        crate::listing::no_rows_text(summary, is_write) + "\n"@
    } else {
        table + "\n"@ + decimal(rows) + " row(s)\n"@
    }
}

/// What is printed for one statement's result, its table drawn within
/// `width` columns when a width is given (the terminal's, on a terminal).
pub fn result_text(
    label: &str,
    columns: &Vec<String>,
    rows: &Vec<Vec<serde_json::Value>>,
    summary: &crate::listing::QuerySummary,
    is_write: bool,
    width: Option<u16>,
) -> (r: String)
    ensures
        rows@.len() == 0 ==> r@ == result_text_with(label@, 0, *summary, is_write, seq![]),
        rows@.len() > 0 ==> r@ == result_text_with(
            label@,
            rows@.len(),
            *summary,
            is_write,
            table_drawing(crate::listing::strings_view(columns@), cells_view(rows@), width),
        ),
{
    let mut out = concat("-- ", label);
    out = concat(out.as_str(), "\n");
    if rows.len() == 0 {
        let c = crate::listing::no_rows_caption(summary, is_write);
        out = concat(out.as_str(), c.as_str());
        out = concat(out.as_str(), "\n");
        assert(out@ == result_text_with(label@, 0, *summary, is_write, seq![]));
        out
    } else {
        let cells = table_cells(rows);
        assert(text_rows(cells@) =~= cells_view(rows@)) by {
            assert forall|i: int| 0 <= i < rows@.len() implies #[trigger] text_rows(cells@)[i] =~= cells_view(
                rows@,
            )[i] by {
                assert(cells@[i]@.len() == rows@[i]@.len());
            }
        }
        let t = draw_table(columns, &cells, width);
        out = concat(out.as_str(), t.as_str());
        out = concat(out.as_str(), "\n");
        let n = crate::text::decimal_string(rows.len() as u64);
        out = concat(out.as_str(), n.as_str());
        out = concat(out.as_str(), " row(s)\n");
        assert(out@ == result_text_with(label@, rows@.len(), *summary, is_write, t@));
        out
    }
}

// ── Result rows ────────────────────────────────────────────────────────────────

/// The value under the name `k` among a row's entries, the first if the name
/// occurs twice.
pub open spec fn entry_value(es: Seq<(Seq<char>, serde_json::Value)>, k: Seq<char>) -> Option<serde_json::Value>
    decreases es.len(),
{
    if es.len() == 0 {
        None
    } else if es[0].0 == k {
        Some(es[0].1)
    } else {
        entry_value(es.drop_first(), k)
    }
}

pub open spec fn row_entries(r: Vec<(String, serde_json::Value)>) -> Seq<(Seq<char>, serde_json::Value)> {
    r@.map_values(|p: (String, serde_json::Value)| (p.0@, p.1))
}

/// The columns of a result: the names of its first row, in that row's order.
pub open spec fn result_columns(rows: Seq<Vec<(String, serde_json::Value)>>) -> Seq<Seq<char>> {
    if rows.len() == 0 {
        seq![]
    } else {
        row_entries(rows[0]).map_values(|e: (Seq<char>, serde_json::Value)| e.0)
    }
}

/// A cell is the row's value under its column's name, or JSON `null` where
/// the row has no such name.
pub open spec fn cell_is(cell: serde_json::Value, es: Seq<(Seq<char>, serde_json::Value)>, column: Seq<char>) -> bool {
    match entry_value(es, column) {
        Some(v) => cell == v,
        None => json_leaf_of(cell) is Null,
    }
}

fn cell_for(es: &Vec<(String, serde_json::Value)>, column: &str) -> (r: serde_json::Value)
    ensures
        cell_is(r, es@.map_values(|p: (String, serde_json::Value)| (p.0@, p.1)), column@),
{
    let ghost ev = es@.map_values(|p: (String, serde_json::Value)| (p.0@, p.1));
    let mut i: usize = 0;
    assert(ev.skip(0) =~= ev);
    while i < es.len()
        invariant
            i <= ev.len(),
            ev == es@.map_values(|p: (String, serde_json::Value)| (p.0@, p.1)),
            entry_value(ev, column@) == entry_value(ev.skip(i as int), column@),
        decreases ev.len() - i,
    {
        assert(ev.skip(i as int).drop_first() =~= ev.skip(i + 1));
        assert(ev.skip(i as int)[0] == (es@[i as int].0@, es@[i as int].1));
        if crate::text::str_eq(es[i].0.as_str(), column) {
            return es[i].1.clone();
        }
        i = i + 1;
    }
    crate::json::json_null()
}

/// The table of a result: the columns that its first row names, and each
/// row's cells in that order.
pub fn shape_rows(rows: &Vec<Vec<(String, serde_json::Value)>>) -> (r: (Vec<String>, Vec<Vec<serde_json::Value>>))
    ensures
        crate::listing::strings_view(r.0@) == result_columns(rows@),
        r.1@.len() == rows@.len(),
        forall|i: int| 0 <= i < rows@.len() ==> (#[trigger] r.1@[i])@.len() == r.0@.len(),
        forall|i: int, j: int|
            0 <= i < rows@.len() && 0 <= j < r.0@.len() ==> cell_is(
                #[trigger] r.1@[i]@[j],
                row_entries(rows@[i]),
                result_columns(rows@)[j],
            ),
{
    let mut columns: Vec<String> = Vec::new();
    if rows.len() > 0 {
        let first = &rows[0];
        let mut k: usize = 0;
        while k < first.len()
            invariant
                k <= first@.len(),
                rows@.len() > 0,
                first == rows@[0],
                crate::listing::strings_view(columns@) == result_columns(rows@).take(k as int),
            decreases first@.len() - k,
        {
            let ghost before = crate::listing::strings_view(columns@);
            let c = first[k].0.clone();
            let ghost cv = c@;
            assert(cv == first@[k as int].0@);
            assert(row_entries(rows@[0])[k as int] == (first@[k as int].0@, first@[k as int].1));
            assert(result_columns(rows@)[k as int] == cv);
            columns.push(c);
            assert(crate::listing::strings_view(columns@) =~= before.push(cv));
            k = k + 1;
            assert(crate::listing::strings_view(columns@) =~= result_columns(rows@).take(k as int));
        }
        assert(result_columns(rows@).take(k as int) =~= result_columns(rows@));
    } else {
        assert(crate::listing::strings_view(columns@) =~= result_columns(rows@));
    }
    let mut table: Vec<Vec<serde_json::Value>> = Vec::new();
    let mut i: usize = 0;
    while i < rows.len()
        invariant
            i <= rows@.len(),
            crate::listing::strings_view(columns@) == result_columns(rows@),
            table@.len() == i,
            forall|a: int| 0 <= a < i ==> (#[trigger] table@[a])@.len() == columns@.len(),
            forall|a: int, j: int|
                0 <= a < i && 0 <= j < columns@.len() ==> cell_is(
                    #[trigger] table@[a]@[j],
                    row_entries(rows@[a]),
                    result_columns(rows@)[j],
                ),
        decreases rows@.len() - i,
    {
        let mut cells: Vec<serde_json::Value> = Vec::new();
        let mut j: usize = 0;
        while j < columns.len()
            invariant
                i < rows@.len(),
                j <= columns@.len(),
                crate::listing::strings_view(columns@) == result_columns(rows@),
                cells@.len() == j,
                forall|b: int|
                    0 <= b < j ==> cell_is(#[trigger] cells@[b], row_entries(rows@[i as int]), result_columns(rows@)[b]),
            decreases columns@.len() - j,
        {
            assert(crate::listing::strings_view(columns@)[j as int] == columns@[j as int]@);
            let cell = cell_for(&rows[i], columns[j].as_str());
            cells.push(cell);
            j = j + 1;
        }
        table.push(cells);
        i = i + 1;
    }
    (columns, table)
}

} // verus!
