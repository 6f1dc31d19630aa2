//! Statements to run against Neo4j: where they come from, their cypherdoc,
//! their parameters, and the checks made before a connection is opened.
use vstd::prelude::*;
use crate::syntax::{
    children, children_of, cypher_syntax, cypherdoc_syntax, field_child, field_child_of, index_seq, named_child, named_child_of,
    named_children, named_children_of, parse_cypher, parse_cypherdoc_syntax, SyntaxNode,
};
use crate::text::{
    lemma_less_asymmetric, lemma_less_irreflexive, lemma_less_total, lemma_less_transitive, seq_less, str_eq,
    str_less, trim, trim_str,
    chars_of, concat, contains_char, debug_quoted, debug_str, decimal, decimal_string, ends_with,
    find_char, has_suffix, index_of, is_alphabetic, is_alphanumeric, is_ascii_letter, char_is_alphabetic,
    char_is_alphanumeric, parse_i64, parse_i64_chars, string_of, is_float_text, float_text,
};

verus! {

// ── Where a statement comes from ───────────────────────────────────────────────

#[derive(Debug)]
pub enum StatementSource {
    Inline,
    File { path: String, line: u32, statement_idx: usize },
    /// Bare-name resolution: `<cypher_dir>/<name>.cypher`.
    LibraryFile { path: String },
    /// `file/stmt` addressing: one named statement within a library file.
    LibraryStatement { path: String, stmt_name: String },
}

/// How a source is shown: `<inline>`, the path (with `:line` past the first
/// statement of a file), or `path (stmt)`.
pub open spec fn source_label(s: StatementSource) -> Seq<char> {
    match s {
        StatementSource::Inline => "<inline>"@,
        StatementSource::File { path, line, statement_idx } => if statement_idx == 0 {
            path@
        } else {
            path@ + ":"@ + decimal(line as nat)
        },
        StatementSource::LibraryFile { path } => path@,
        StatementSource::LibraryStatement { path, stmt_name } => path@ + " ("@ + stmt_name@ + ")"@,
    }
}

impl StatementSource {
    /// The text the source displays as.
    pub fn label(&self) -> (r: String)
        ensures
            r@ == source_label(*self),
    {
        match self {
            StatementSource::Inline => "<inline>".to_owned(),
            StatementSource::File { path, line, statement_idx } => {
                if *statement_idx == 0 {
                    path.clone()
                } else {
                    let mut s = concat(path.as_str(), ":");
                    let n = decimal_string(*line as u64);
                    s.append(n.as_str());
                    s
                }
            },
            StatementSource::LibraryFile { path } => path.clone(),
            StatementSource::LibraryStatement { path, stmt_name } => {
                let mut s = concat(path.as_str(), " (");
                s.append(stmt_name.as_str());
                s.append(")");
                s
            },
        }
    }

    /// A copy of the source.
    pub fn duplicate(&self) -> (r: StatementSource)
        ensures
            r == *self,
    {
        match self {
            StatementSource::Inline => StatementSource::Inline,
            StatementSource::File { path, line, statement_idx } => StatementSource::File {
                path: path.clone(),
                line: *line,
                statement_idx: *statement_idx,
            },
            StatementSource::LibraryFile { path } => StatementSource::LibraryFile { path: path.clone() },
            StatementSource::LibraryStatement { path, stmt_name } => StatementSource::LibraryStatement {
                path: path.clone(),
                stmt_name: stmt_name.clone(),
            },
        }
    }
}

// ── Statements and their documentation ─────────────────────────────────────────

#[derive(Debug)]
pub struct ParamDecl {
    pub name: String,
    pub type_: String,
    pub required: bool,
    pub default: Option<String>,
    pub description: Option<String>,
}

#[derive(Debug)]
pub struct CypherDoc {
    pub name: String,
    pub description: Option<String>,
    pub params: Vec<ParamDecl>,
    pub returns_raw: Option<String>,
}

#[derive(Debug)]
pub struct StatementEntry {
    pub source: StatementSource,
    pub text: String,
    pub doc: Option<CypherDoc>,
}

/// One statement per inline expression, in order, each without documentation.
pub fn build_queue_inline(exprs: &Vec<String>) -> (r: Vec<StatementEntry>)
    ensures
        r@.len() == exprs@.len(),
        forall|i: int|
            0 <= i < r@.len() ==> {
                &&& (#[trigger] r@[i]).source is Inline
                &&& r@[i].text == exprs@[i]
                &&& r@[i].doc is None
            },
{
    let mut out: Vec<StatementEntry> = Vec::new();
    let mut i: usize = 0;
    while i < exprs.len()
        invariant
            i <= exprs@.len(),
            out@.len() == i,
            forall|k: int|
                0 <= k < i ==> {
                    &&& (#[trigger] out@[k]).source is Inline
                    &&& out@[k].text == exprs@[k]
                    &&& out@[k].doc is None
                },
        decreases exprs@.len() - i,
    {
        out.push(StatementEntry { source: StatementSource::Inline, text: exprs[i].clone(), doc: None });
        i = i + 1;
    }
    out
}

// ── Choosing a named statement ─────────────────────────────────────────────────

/// The entry has a cypherdoc named `n`.
pub open spec fn doc_named(e: StatementEntry, n: Seq<char>) -> bool {
    e.doc matches Some(d) && d.name@ == n
}

/// The entries documented under the name `n`, in order.
pub open spec fn entries_named(es: Seq<StatementEntry>, n: Seq<char>) -> Seq<StatementEntry>
    decreases es.len(),
{
    if es.len() == 0 {
        seq![]
    } else {
        let rest = entries_named(es.drop_last(), n);
        if doc_named(es.last(), n) {
            rest.push(es.last())
        } else {
            rest
        }
    }
}

/// Every entry that a statement name selects is documented under that name,
/// and none is left out.
pub proof fn lemma_entries_named(es: Seq<StatementEntry>, n: Seq<char>)
    ensures
        forall|i: int| 0 <= i < entries_named(es, n).len() ==> doc_named(#[trigger] entries_named(es, n)[i], n),
        entries_named(es, n).len() <= es.len(),
        (exists|i: int| 0 <= i < es.len() && doc_named(#[trigger] es[i], n)) <==> entries_named(es, n).len() > 0,
    decreases es.len(),
{
    if es.len() > 0 {
        lemma_entries_named(es.drop_last(), n);
        let r = entries_named(es, n);
        let p = entries_named(es.drop_last(), n);
        assert forall|i: int| 0 <= i < r.len() implies doc_named(#[trigger] r[i], n) by {
            if i < p.len() {
                assert(r[i] == p[i]);
            }
        }
        if exists|i: int| 0 <= i < es.len() && doc_named(#[trigger] es[i], n) {
            let w = choose|i: int| 0 <= i < es.len() && doc_named(#[trigger] es[i], n);
            if w < es.len() - 1 {
                assert(doc_named(es.drop_last()[w], n));
            }
        }
        if p.len() > 0 {
            let w = choose|i: int| 0 <= i < es.drop_last().len() && doc_named(#[trigger] es.drop_last()[i], n);
            assert(doc_named(es[w], n));
        }
    }
}

/// The cypherdoc names of the entries that have one, in order.
pub open spec fn doc_names(es: Seq<StatementEntry>) -> Seq<Seq<char>>
    decreases es.len(),
{
    if es.len() == 0 {
        seq![]
    } else {
        let rest = doc_names(es.drop_last());
        match es.last().doc {
            Some(d) => rest.push(d.name@),
            None => rest,
        }
    }
}

/// The error for a statement name that no entry documents.
pub open spec fn stmt_not_found_message(stmt: Seq<char>, file: Seq<char>, names: Seq<Seq<char>>) -> Seq<char> {
    let listed = if names.len() == 0 {
        "(none — no cypherdoc found in file)"@
    } else {
        crate::text::join(names, ", "@)
    };
    "statement '"@ + stmt + "' not found in "@ + file + "\n  Available statements: "@ + listed
        + "\n  Hint: use 'relate query --describe <file>' to see full documentation"@
}

/// The entries whose cypherdoc is named `stmt_name`; an error that lists the
/// available names when there is none.
pub fn filter_by_stmt_name(entries: Vec<StatementEntry>, stmt_name: &str, file: &str) -> (r: Result<
    Vec<StatementEntry>,
    String,
>)
    ensures
        entries_named(entries@, stmt_name@).len() > 0 ==> (r matches Ok(v) && v@ == entries_named(
            entries@,
            stmt_name@,
        )),
        entries_named(entries@, stmt_name@).len() == 0 ==> (r matches Err(m) && m@ == stmt_not_found_message(
            stmt_name@,
            file@,
            doc_names(entries@),
        )),
{
    let total = entries.len();
    let ghost es = entries@;
    let mut rest = entries;
    let mut kept: Vec<StatementEntry> = Vec::new();
    let mut names: Vec<String> = Vec::new();
    let mut i: usize = 0;
    while rest.len() > 0
        invariant
            i <= es.len(),
            es.len() == total,
            rest@ == es.skip(i as int),
            kept@ == entries_named(es.take(i as int), stmt_name@),
            names@.map_values(|s: String| s@) == doc_names(es.take(i as int)),
        decreases rest@.len(),
    {
        let e = rest.remove(0);
        assert(es.take(i + 1).drop_last() =~= es.take(i as int));
        assert(es.take(i + 1).last() == e);
        let ghost before = names@;
        let hit = match &e.doc {
            Some(d) => {
                names.push(d.name.clone());
                assert(names@.map_values(|s: String| s@) =~= before.map_values(|s: String| s@).push(d.name@));
                crate::text::str_eq(d.name.as_str(), stmt_name)
            },
            None => false,
        };
        if hit {
            kept.push(e);
        }
        i = i + 1;
        assert(rest@ =~= es.skip(i as int));
    }
    assert(es.take(i as int) =~= es);
    if kept.len() == 0 {
        let listed = if names.len() == 0 {
            "(none — no cypherdoc found in file)".to_owned()
        } else {
            crate::text::join_strings(&names, ", ")
        };
        let mut m = "statement '".to_owned();
        m.append(stmt_name);
        m.append("' not found in ");
        m.append(file);
        m.append("\n  Available statements: ");
        m.append(listed.as_str());
        m.append("\n  Hint: use 'relate query --describe <file>' to see full documentation");
        return Err(m);
    }
    Ok(kept)
}

// ── Resolving the [QUERY] argument ─────────────────────────────────────────────

#[derive(Debug)]
pub enum QueryName {
    /// Explicit path: contains a separator, starts with `.`, or ends with `.cypher`.
    ExplicitPath(String),
    /// Bare name: resolves to `<cypher_dir>/<name>.cypher`.
    BareName { name: String, resolved: String },
    /// `file/stmt` address: one named statement inside a library file.
    StmtAddress { file: String, stmt_name: String },
}

pub enum QueryNameView {
    ExplicitPath(Seq<char>),
    BareName { name: Seq<char>, resolved: Seq<char> },
    StmtAddress { file: Seq<char>, stmt_name: Seq<char> },
}

impl View for QueryName {
    type V = QueryNameView;

    open spec fn view(&self) -> QueryNameView {
        match self {
            QueryName::ExplicitPath(p) => QueryNameView::ExplicitPath(p@),
            QueryName::BareName { name, resolved } => QueryNameView::BareName { name: name@, resolved: resolved@ },
            QueryName::StmtAddress { file, stmt_name } => QueryNameView::StmtAddress {
                file: file@,
                stmt_name: stmt_name@,
            },
        }
    }
}

/// What `Path::new(dir).join(file)` gives, as text.
pub uninterp spec fn path_join(dir: Seq<char>, file: Seq<char>) -> Seq<char>;

/// `std::path::Path::join`, on paths given and returned as text; the contract
/// only names the joined path.
#[verifier::external_body]
pub(crate) fn join_path(dir: &str, file: &str) -> (r: String)
    ensures
        r@ == path_join(dir@, file@),
{
    std::path::Path::new(dir).join(file).to_string_lossy().into_owned()
}

/// A non-empty name that starts with a letter or `_` and goes on with
/// letters, digits or `_`, letters and digits as `char::is_alphabetic` and
/// `char::is_alphanumeric` tell them (which every ASCII letter and digit is).
pub open spec fn bare_identifier_text(s: Seq<char>) -> bool {
    &&& s.len() > 0
    &&& is_ascii_letter(s[0]) || is_alphabetic(s[0]) || s[0] == '_'
    &&& forall|i: int|
        0 <= i < s.len() ==> is_ascii_letter(#[trigger] s[i]) || ('0' <= s[i] && s[i] <= '9') || is_alphanumeric(s[i])
            || s[i] == '_'
}

/// Whether `s` is a bare identifier.
pub fn is_bare_identifier(s: &str) -> (r: bool)
    ensures
        r == bare_identifier_text(s@),
{
    let cs = chars_of(s);
    bare_identifier(cs.as_slice())
}

fn bare_identifier(s: &[char]) -> (r: bool)
    ensures
        r == bare_identifier_text(s@),
{
    if s.len() == 0 {
        return false;
    }
    if !(char_is_alphabetic(s[0]) || s[0] == '_') {
        return false;
    }
    let mut i: usize = 0;
    while i < s.len()
        invariant
            i <= s@.len(),
            forall|k: int| 0 <= k < i ==> is_alphanumeric(#[trigger] s@[k]) || s@[k] == '_',
        decreases s@.len() - i,
    {
        if !(char_is_alphanumeric(s[i]) || s[i] == '_') {
            return false;
        }
        i = i + 1;
    }
    true
}

/// How a [QUERY] argument is read: `file/stmt` when it has a `/` with bare
/// identifiers on both sides and does not end with `.cypher`; an explicit path
/// when it holds `/` or `\`, starts with `.` or ends with `.cypher`; a bare
/// name in `cypher_dir` otherwise.
pub open spec fn resolve_query(q: Seq<char>, dir: Seq<char>) -> QueryNameView {
    let ends_cypher = has_suffix(q, ".cypher"@);
    let slash = index_of(q, '/');
    if !ends_cypher && slash is Some && bare_identifier_text(q.take(slash->0)) && !q.skip(slash->0 + 1).contains('/')
        && bare_identifier_text(q.skip(slash->0 + 1)) {
        QueryNameView::StmtAddress {
            file: path_join(dir, q.take(slash->0) + ".cypher"@),
            stmt_name: q.skip(slash->0 + 1),
        }
    } else if q.contains('/') || q.contains('\\') || (q.len() > 0 && q[0] == '.') || ends_cypher {
        QueryNameView::ExplicitPath(q)
    } else {
        QueryNameView::BareName { name: q, resolved: path_join(dir, q + ".cypher"@) }
    }
}

/// Classifies a [QUERY] argument into an explicit path, a bare name or a
/// `file/stmt` address.
pub fn resolve_query_source(query: &str, cypher_dir: &str) -> (r: QueryName)
    ensures
        r@ == resolve_query(query@, cypher_dir@),
{
    let q = chars_of(query);
    let n = q.len();
    let suffix = chars_of(".cypher");
    let ends_cypher = ends_with(q.as_slice(), suffix.as_slice());
    if !ends_cypher {
        if let Some(k) = find_char(q.as_slice(), '/') {
            let file_part = &q.as_slice()[0..k];
            let stmt_part = &q.as_slice()[k + 1..n];
            assert(file_part@ =~= query@.take(k as int));
            assert(stmt_part@ =~= query@.skip(k + 1));
            if !contains_char(stmt_part, '/') && bare_identifier(file_part) && bare_identifier(stmt_part) {
                let file_name = concat(string_of(file_part).as_str(), ".cypher");
                return QueryName::StmtAddress {
                    file: join_path(cypher_dir, file_name.as_str()),
                    stmt_name: string_of(stmt_part),
                };
            }
        }
    }
    let has_separator = contains_char(q.as_slice(), '/') || contains_char(q.as_slice(), '\\') || (q.len() > 0
        && q[0] == '.');
    if has_separator || ends_cypher {
        return QueryName::ExplicitPath(query.to_owned());
    }
    let file_name = concat(query, ".cypher");
    QueryName::BareName { name: query.to_owned(), resolved: join_path(cypher_dir, file_name.as_str()) }
}

// ── --param NAME=VALUE ─────────────────────────────────────────────────────────

/// A literal of a Cypher map or list, flattened in preorder like a syntax tree.
#[derive(Debug)]
pub enum LiteralKind {
    Null,
    Boolean(bool),
    Integer(i64),
    /// A float, as its text (which `str::parse::<f64>` reads to a finite value).
    Float(String),
    Text(String),
    Array,
    Object,
}

/// One value of a nested literal: a list or map item sits one level deeper
/// than its container; an item of a map carries its key.
#[derive(Debug)]
pub struct LiteralItem {
    pub depth: usize,
    pub key: Option<String>,
    pub kind: LiteralKind,
}

/// A query parameter. Floats are kept as the text that `str::parse::<f64>`
/// reads; values from JSON sources that are not scalars stay JSON.
#[derive(Debug)]
pub enum ParamValue {
    Integer(i64),
    Float(String),
    Boolean(bool),
    String(String),
    Json(serde_json::Value),
    Literal(Vec<LiteralItem>),
}

#[derive(Debug)]
pub enum ParamFlagError {
    /// `--param` without `=`; holds the argument.
    MissingEquals(String),
}

/// What a `--param` value becomes: an integer, a float, `true`/`false`, or text.
pub open spec fn flag_value(raw: Seq<char>) -> ParamView {
    match parse_i64(raw) {
        Some(i) => ParamView::Integer(i),
        None => if is_float_text(raw) {
            ParamView::Float(raw)
        } else if raw == "true"@ {
            ParamView::Boolean(true)
        } else if raw == "false"@ {
            ParamView::Boolean(false)
        } else {
            ParamView::Text(raw)
        },
    }
}

/// A `--param` value reads as a boolean exactly when it is spelled `true` or
/// `false`, and then as that boolean.
pub proof fn lemma_flag_booleans(raw: Seq<char>)
    ensures
        flag_value(raw) is Boolean <==> (raw == "true"@ || raw == "false"@),
        raw == "true"@ ==> flag_value(raw) == ParamView::Boolean(true),
        raw == "false"@ ==> flag_value(raw) == ParamView::Boolean(false),
{
    if raw == "true"@ || raw == "false"@ {
        reveal_strlit("true");
        reveal_strlit("false");
        reveal_strlit("inf");
        reveal_strlit("infinity");
        reveal_strlit("nan");
        reveal_with_fuel(index_of, 6);
        assert(!crate::text::is_digit(raw[0]));
        assert(crate::text::unsigned_part(raw) == raw);
        assert(parse_i64(raw) is None);
        let k = if raw == "true"@ { 3int } else { 4int };
        assert(index_of(raw, 'E') is None);
        assert(index_of(raw, 'e') == Some(k));
        assert(index_of(raw.take(k), '.') is None);
        assert(raw.take(k)[0] == raw[0]);
        assert(!crate::text::all_digits(raw.take(k)));
        assert(!is_float_text(raw));
    }
}

/// A `--param NAME=VALUE` argument: split at the first `=`.
pub open spec fn param_flag(s: Seq<char>) -> Option<(Seq<char>, ParamView)> {
    match index_of(s, '=') {
        None => None,
        Some(k) => Some((s.take(k), flag_value(s.skip(k + 1)))),
    }
}

/// The message for a `--param` argument without `=`.
pub open spec fn param_flag_message(s: Seq<char>) -> Seq<char> {
    "--param must be NAME=VALUE, got: "@ + debug_quoted(s)
}

impl ParamFlagError {
    pub fn message(&self) -> (r: String)
        ensures
            r@ == match self {
                ParamFlagError::MissingEquals(s) => param_flag_message(s@),
            },
    {
        match self {
            ParamFlagError::MissingEquals(s) => {
                let mut m = "--param must be NAME=VALUE, got: ".to_owned();
                let q = debug_str(s.as_str());
                m.append(q.as_str());
                m
            },
        }
    }
}

/// Splits `NAME=VALUE` at the first `=` and reads the value: an `i64`, else a
/// float, else `true`/`false`, else the text itself.
pub fn parse_param_flag(s: &str) -> (r: Result<(String, ParamValue), ParamFlagError>)
    ensures
        match param_flag(s@) {
            None => r matches Err(ParamFlagError::MissingEquals(t)) && t@ == s@,
            Some((n, v)) => r matches Ok((name, value)) && name@ == n && value@ == v,
        },
{
    let cs = chars_of(s);
    let n = cs.len();
    let eq = match find_char(cs.as_slice(), '=') {
        Some(k) => k,
        None => {
            return Err(ParamFlagError::MissingEquals(s.to_owned()));
        },
    };
    let name = string_of(&cs.as_slice()[0..eq]);
    let raw_chars = &cs.as_slice()[eq + 1..n];
    let raw = string_of(raw_chars);
    assert(name@ =~= s@.take(eq as int));
    assert(raw@ =~= s@.skip(eq + 1));
    Ok((name, typed_value(raw)))
}

/// Reads a value given as text: an `i64`, else a float, else `true`/`false`,
/// else the text itself.
pub fn typed_value(raw: String) -> (r: ParamValue)
    ensures
        r@ == flag_value(raw@),
{
    let cs = chars_of(raw.as_str());
    if let Some(i) = parse_i64_chars(cs.as_slice()) {
        ParamValue::Integer(i)
    } else if float_text(cs.as_slice()) {
        ParamValue::Float(raw)
    } else if crate::text::str_eq(raw.as_str(), "true") {
        ParamValue::Boolean(true)
    } else if crate::text::str_eq(raw.as_str(), "false") {
        ParamValue::Boolean(false)
    } else {
        ParamValue::String(raw)
    }
}


// ── Write classification ───────────────────────────────────────────────────────

#[derive(Debug)]
pub enum Classification {
    Read,
    Write { first_write_kind: String },
}

/// The clause kinds that make a statement a write: CREATE, MERGE, SET,
/// DELETE, REMOVE and FOREACH. A procedure `CALL` is not among them.
pub open spec fn is_write_kind(k: Seq<char>) -> bool {
    ||| k == "create_clause"@
    ||| k == "merge_clause"@
    ||| k == "set_clause"@
    ||| k == "delete_clause"@
    ||| k == "remove_clause"@
    ||| k == "foreach_clause"@
}

/// The first node, from index `j` on in preorder, whose kind is a write clause.
pub open spec fn first_write_from(ns: Seq<SyntaxNode>, j: int) -> Option<int>
    decreases ns.len() - j,
{
    if j < 0 || j >= ns.len() {
        None
    } else if is_write_kind(ns[j].kind@) {
        Some(j)
    } else {
        first_write_from(ns, j + 1)
    }
}

/// The kind of the first write clause among a syntax tree's nodes, in preorder.
pub open spec fn first_write_kind(ns: Seq<SyntaxNode>) -> Option<Seq<char>> {
    match first_write_from(ns, 0) {
        Some(j) => Some(ns[j].kind@),
        None => None,
    }
}

/// A statement is a write when its syntax tree holds a write clause; the
/// first such clause in preorder is reported. Without a tree it is a read.
pub open spec fn classify(text: Seq<char>) -> Option<Seq<char>> {
    match cypher_syntax(text) {
        None => None,
        Some(ns) => first_write_kind(ns),
    }
}

fn write_kind(k: &str) -> (r: bool)
    ensures
        r == is_write_kind(k@),
{
    str_eq(k, "create_clause") || str_eq(k, "merge_clause") || str_eq(k, "set_clause") || str_eq(
        k,
        "delete_clause",
    ) || str_eq(k, "remove_clause") || str_eq(k, "foreach_clause")
}

/// Whether the statement whose syntax tree has the nodes `ns` writes, and
/// with which clause first.
pub fn classify_nodes(ns: &Vec<SyntaxNode>) -> (r: Classification)
    ensures
        match r {
            Classification::Read => first_write_kind(ns@) is None,
            Classification::Write { first_write_kind: k } => first_write_kind(ns@) == Some(k@),
        },
{
    let mut j: usize = 0;
    while j < ns.len()
        invariant
            j <= ns@.len(),
            first_write_from(ns@, 0) == first_write_from(ns@, j as int),
        decreases ns@.len() - j,
    {
        if write_kind(ns[j].kind.as_str()) {
            return Classification::Write { first_write_kind: ns[j].kind.clone() };
        }
        j = j + 1;
    }
    Classification::Read
}

/// Whether a statement writes, and with which clause first.
pub fn classify_statement(text: &str) -> (r: Classification)
    ensures
        match r {
            Classification::Read => classify(text@) is None,
            Classification::Write { first_write_kind } => classify(text@) == Some(first_write_kind@),
        },
{
    match parse_cypher(text) {
        Some(ns) => classify_nodes(&ns),
        None => Classification::Read,
    }
}

/// The clauses that the documentation lists as write operations: CREATE,
/// MERGE, SET, DELETE, REMOVE and FOREACH.
pub open spec fn documented_write_clause(k: Seq<char>) -> bool {
    k == "create_clause"@ || k == "merge_clause"@ || k == "set_clause"@ || k == "delete_clause"@ || k
        == "remove_clause"@ || k == "foreach_clause"@
}

proof fn lemma_first_write_from(ns: Seq<SyntaxNode>, j: int)
    requires
        0 <= j,
    ensures
        match first_write_from(ns, j) {
            Some(i) => j <= i < ns.len() && is_write_kind(ns[i].kind@) && forall|t: int|
                j <= t < i ==> !is_write_kind(#[trigger] ns[t].kind@),
            None => forall|t: int| j <= t < ns.len() ==> !is_write_kind(#[trigger] ns[t].kind@),
        },
    decreases ns.len() - j,
{
    if j < ns.len() && !is_write_kind(ns[j].kind@) {
        lemma_first_write_from(ns, j + 1);
    }
}

/// A statement writes exactly when its syntax tree holds a CREATE, MERGE,
/// SET, DELETE, REMOVE or FOREACH clause, and the clause reported is the
/// first of them in preorder.
pub proof fn lemma_writes_are_documented_clauses(ns: Seq<SyntaxNode>)
    ensures
        first_write_kind(ns) is None <==> forall|j: int|
            0 <= j < ns.len() ==> !documented_write_clause(#[trigger] ns[j].kind@),
        first_write_kind(ns) matches Some(k) ==> documented_write_clause(k) && exists|i: int|
            0 <= i < ns.len() && #[trigger] ns[i].kind@ == k && forall|t: int|
                0 <= t < i ==> !documented_write_clause(#[trigger] ns[t].kind@),
{
    lemma_first_write_from(ns, 0);
    assert forall|k: Seq<char>| is_write_kind(k) <==> documented_write_clause(k) by {}
    if let Some(i) = first_write_from(ns, 0) {
        assert(ns[i].kind@ == first_write_kind(ns)->0);
    }
}

/// The Cypher keyword of a clause kind; other kinds stand for themselves.
pub open spec fn clause_keyword(kind: Seq<char>) -> Seq<char> {
    if kind == "create_clause"@ {
        "CREATE"@
    } else if kind == "merge_clause"@ {
        "MERGE"@
    } else if kind == "set_clause"@ {
        "SET"@
    } else if kind == "delete_clause"@ {
        "DELETE"@
    } else if kind == "remove_clause"@ {
        "REMOVE"@
    } else if kind == "foreach_clause"@ {
        "FOREACH"@
    } else if kind == "call_clause"@ {
        "CALL"@
    } else {
        kind
    }
}

pub fn clause_kind_to_keyword(kind: &str) -> (r: String)
    ensures
        r@ == clause_keyword(kind@),
{
    if str_eq(kind, "create_clause") {
        "CREATE".to_owned()
    } else if str_eq(kind, "merge_clause") {
        "MERGE".to_owned()
    } else if str_eq(kind, "set_clause") {
        "SET".to_owned()
    } else if str_eq(kind, "delete_clause") {
        "DELETE".to_owned()
    } else if str_eq(kind, "remove_clause") {
        "REMOVE".to_owned()
    } else if str_eq(kind, "foreach_clause") {
        "FOREACH".to_owned()
    } else if str_eq(kind, "call_clause") {
        "CALL".to_owned()
    } else {
        kind.to_owned()
    }
}

/// The first statement that writes, with its clause kind, when writes are
/// not allowed.
pub open spec fn first_unallowed_write(texts: Seq<Seq<char>>, allow_write: bool) -> Option<(int, Seq<char>)>
    decreases texts.len(),
{
    if allow_write || texts.len() == 0 {
        None
    } else {
        match first_unallowed_write(texts.drop_last(), allow_write) {
            Some(x) => Some(x),
            None => match classify(texts.last()) {
                Some(k) => Some((texts.len() - 1, k)),
                None => None,
            },
        }
    }
}

pub open spec fn entry_texts(queue: Seq<StatementEntry>) -> Seq<Seq<char>> {
    queue.map_values(|e: StatementEntry| e.text@)
}

/// The write check made before connecting: the index and clause of the first
/// statement that writes when `allow_write` is off.
pub fn preflight_write(queue: &Vec<StatementEntry>, allow_write: bool) -> (r: Option<(usize, String)>)
    ensures
        match r {
            Some((i, k)) => first_unallowed_write(entry_texts(queue@), allow_write) == Some((i as int, k@)),
            None => first_unallowed_write(entry_texts(queue@), allow_write) is None,
        },
{
    if allow_write {
        return None;
    }
    let ghost ts = entry_texts(queue@);
    let mut i: usize = 0;
    while i < queue.len()
        invariant
            i <= queue@.len(),
            !allow_write,
            ts == entry_texts(queue@),
            first_unallowed_write(ts.take(i as int), allow_write) is None,
        decreases queue@.len() - i,
    {
        assert(ts.take(i + 1).drop_last() =~= ts.take(i as int));
        assert(ts.take(i + 1).last() == queue@[i as int].text@);
        match classify_statement(queue[i].text.as_str()) {
            Classification::Write { first_write_kind } => {
                proof {
                    lemma_first_write_prefix(ts, i as int + 1);
                }
                return Some((i, first_write_kind));
            },
            Classification::Read => {},
        }
        i = i + 1;
    }
    assert(ts.take(queue@.len() as int) =~= ts);
    None
}

proof fn lemma_first_write_prefix(ts: Seq<Seq<char>>, k: int)
    requires
        0 <= k <= ts.len(),
        first_unallowed_write(ts.take(k), false) is Some,
    ensures
        first_unallowed_write(ts, false) == first_unallowed_write(ts.take(k), false),
    decreases ts.len(),
{
    if k < ts.len() {
        assert(ts.drop_last().take(k) =~= ts.take(k));
        lemma_first_write_prefix(ts.drop_last(), k);
    } else {
        assert(ts.take(k) =~= ts);
    }
}

// ── Parameter references ───────────────────────────────────────────────────────

/// `s` without its leading `c`s, as `str::trim_start_matches(c)` gives it.
pub open spec fn strip_leading(s: Seq<char>, c: char) -> Seq<char>
    decreases s.len(),
{
    if s.len() > 0 && s[0] == c {
        strip_leading(s.drop_first(), c)
    } else {
        s
    }
}

fn strip_leading_char(s: &str, c: char) -> (r: String)
    ensures
        r@ == strip_leading(s@, c),
{
    let cs = chars_of(s);
    let mut a: usize = 0;
    assert(cs@.skip(0) =~= cs@);
    while a < cs.len() && cs[a] == c
        invariant
            a <= cs@.len(),
            cs@ == s@,
            strip_leading(s@, c) == strip_leading(cs@.skip(a as int), c),
        decreases cs@.len() - a,
    {
        assert(cs@.skip(a as int).drop_first() =~= cs@.skip(a + 1));
        a = a + 1;
    }
    let r = string_of(&cs.as_slice()[a..cs.len()]);
    assert(r@ =~= cs@.skip(a as int));
    r
}

/// The names of the parameters (`$name`) that a syntax tree refers to.
pub open spec fn param_names_in(ns: Seq<SyntaxNode>) -> Set<Seq<char>> {
    Set::new(
        |n: Seq<char>|
            exists|j: int|
                0 <= j < ns.len() && ns[j].kind@ == "parameter"@ && #[trigger] strip_leading(ns[j].text@, '$') == n
                    && n.len() > 0,
    )
}

/// The parameters that a statement refers to; none when it has no tree.
pub open spec fn param_refs(text: Seq<char>) -> Set<Seq<char>> {
    match cypher_syntax(text) {
        Some(ns) => param_names_in(ns),
        None => Set::empty(),
    }
}

pub open spec fn strings_set(v: Seq<String>) -> Set<Seq<char>> {
    Set::new(|x: Seq<char>| exists|i: int| 0 <= i < v.len() && #[trigger] v[i]@ == x)
}

/// Strictly increasing in the order of `seq_less`.
pub open spec fn strictly_sorted(v: Seq<String>) -> bool {
    forall|i: int, j: int| 0 <= i < j < v.len() ==> seq_less(v[i]@, v[j]@)
}

/// Adds `x` to a sorted list of distinct strings unless it is there.
pub fn insert_sorted(v: &mut Vec<String>, x: String)
    requires
        strictly_sorted(old(v)@),
    ensures
        strictly_sorted(final(v)@),
        strings_set(final(v)@) == strings_set(old(v)@).insert(x@),
{
    let ghost s = v@;
    let mut i: usize = 0;
    while i < v.len() && str_less(v[i].as_str(), x.as_str())
        invariant
            s == v@,
            i <= s.len(),
            forall|j: int| 0 <= j < i ==> seq_less(#[trigger] s[j]@, x@),
        decreases s.len() - i,
    {
        i = i + 1;
    }
    if i < v.len() && str_eq(v[i].as_str(), x.as_str()) {
        assert(strings_set(s).insert(x@) =~= strings_set(s)) by {
            assert(s[i as int]@ == x@);
        }
        return;
    }
    proof {
        assert forall|j: int| i <= j < s.len() implies seq_less(x@, #[trigger] s[j]@) by {
            lemma_less_total(s[i as int]@, x@);
            if j > i {
                lemma_less_transitive(x@, s[i as int]@, s[j]@);
            }
        }
    }
    v.insert(i, x);
    proof {
        let t = v@;
        assert forall|a: int, b: int| 0 <= a < b < t.len() implies seq_less(t[a]@, t[b]@) by {
            if a < i && b > i {
                lemma_less_transitive(t[a]@, x@, t[b]@);
            }
        }
        assert forall|y: Seq<char>| strings_set(t).contains(y) <==> strings_set(s).insert(x@).contains(y) by {
            if strings_set(t).contains(y) {
                let k = choose|k: int| 0 <= k < t.len() && t[k]@ == y;
                if k < i {
                    assert(s[k]@ == y);
                } else if k > i {
                    assert(s[k - 1]@ == y);
                }
            }
            if strings_set(s).contains(y) {
                let k = choose|k: int| 0 <= k < s.len() && s[k]@ == y;
                if k < i {
                    assert(t[k]@ == y);
                } else {
                    assert(t[k + 1]@ == y);
                }
            }
            if y == x@ {
                assert(t[i as int]@ == y);
            }
        }
        assert(strings_set(t) =~= strings_set(s).insert(x@));
    }
}

/// The parameters a statement refers to, sorted, each once.
pub fn collect_param_refs(text: &str) -> (r: Vec<String>)
    ensures
        strictly_sorted(r@),
        strings_set(r@) == param_refs(text@),
{
    match parse_cypher(text) {
        Some(ns) => param_refs_in_nodes(&ns),
        None => {
            let out: Vec<String> = Vec::new();
            assert(strings_set(out@) =~= Set::<Seq<char>>::empty());
            out
        },
    }
}

/// The parameters that the `parameter` nodes of a syntax tree name, sorted,
/// each once.
pub fn param_refs_in_nodes(ns: &Vec<SyntaxNode>) -> (r: Vec<String>)
    ensures
        strictly_sorted(r@),
        strings_set(r@) == param_names_in(ns@),
{
    let mut out: Vec<String> = Vec::new();
    assert(strings_set(out@) =~= Set::<Seq<char>>::empty());
    assert(param_names_in(ns@.take(0)) =~= Set::<Seq<char>>::empty());
    let mut j: usize = 0;
    while j < ns.len()
        invariant
            j <= ns@.len(),
            strictly_sorted(out@),
            strings_set(out@) == param_names_in(ns@.take(j as int)),
        decreases ns@.len() - j,
    {
        let ghost before = strings_set(out@);
        let ghost nm = strip_leading(ns@[j as int].text@, '$');
        let ghost hit = ns@[j as int].kind@ == "parameter"@ && nm.len() > 0;
        if str_eq(ns[j].kind.as_str(), "parameter") {
            let name = strip_leading_char(ns[j].text.as_str(), '$');
            if !name.as_str().is_empty() {
                insert_sorted(&mut out, name);
            }
        }
        proof {
            let t = ns@.take(j + 1);
            let p = ns@.take(j as int);
            assert(hit ==> strings_set(out@) == before.insert(nm));
            assert(!hit ==> strings_set(out@) == before);
            assert forall|n: Seq<char>| param_names_in(t).contains(n) <==> strings_set(out@).contains(n) by {
                if param_names_in(t).contains(n) {
                    let k = choose|k: int|
                        0 <= k < t.len() && t[k].kind@ == "parameter"@ && #[trigger] strip_leading(t[k].text@, '$')
                            == n && n.len() > 0;
                    if k < j {
                        assert(p[k] == t[k]);
                        assert(param_names_in(p).contains(n));
                    } else {
                        assert(t[k] == ns@[j as int]);
                        assert(hit && n == nm);
                    }
                }
                if before.contains(n) {
                    let k = choose|k: int|
                        0 <= k < p.len() && p[k].kind@ == "parameter"@ && #[trigger] strip_leading(p[k].text@, '$')
                            == n && n.len() > 0;
                    assert(t[k] == p[k]);
                    assert(param_names_in(t).contains(n));
                }
                if hit && n == nm {
                    assert(t[j as int] == ns@[j as int]);
                    assert(param_names_in(t).contains(n));
                }
            }
            assert(param_names_in(t) =~= strings_set(out@));
        }
        j = j + 1;
    }
    assert(ns@.take(ns@.len() as int) =~= ns@);
    out
}


// ── Cypherdoc ──────────────────────────────────────────────────────────────────

pub struct ParamDeclView {
    pub name: Seq<char>,
    pub type_: Seq<char>,
    pub required: bool,
    pub default: Option<Seq<char>>,
    pub description: Option<Seq<char>>,
}

pub struct CypherDocView {
    pub name: Seq<char>,
    pub description: Option<Seq<char>>,
    pub params: Seq<ParamDeclView>,
    pub returns_raw: Option<Seq<char>>,
}

impl View for ParamDecl {
    type V = ParamDeclView;

    open spec fn view(&self) -> ParamDeclView {
        ParamDeclView {
            name: self.name@,
            type_: self.type_@,
            required: self.required,
            default: crate::graph::opt_view(self.default),
            description: crate::graph::opt_view(self.description),
        }
    }
}

pub open spec fn decls_view(v: Seq<ParamDecl>) -> Seq<ParamDeclView> {
    v.map_values(|d: ParamDecl| d@)
}

impl View for CypherDoc {
    type V = CypherDocView;

    open spec fn view(&self) -> CypherDocView {
        CypherDocView {
            name: self.name@,
            description: crate::graph::opt_view(self.description),
            params: decls_view(self.params@),
            returns_raw: crate::graph::opt_view(self.returns_raw),
        }
    }
}

/// What the cypherdoc fields read so far hold.
pub struct DocAcc {
    pub name: Seq<char>,
    pub lines: Seq<Seq<char>>,
    pub params: Seq<ParamDeclView>,
    pub returns_raw: Option<Seq<char>>,
}

/// The text of a node found by `pick`, or empty.
pub open spec fn text_or_empty(ns: Seq<SyntaxNode>, pick: Option<int>) -> Seq<char> {
    match pick {
        Some(j) => ns[j].text@,
        None => seq![],
    }
}

/// The type of a `@param` tag: the `name` of the first named child of its `type`.
pub open spec fn param_type(ns: Seq<SyntaxNode>, c: int) -> Seq<char> {
    match field_child(ns, c, "type"@) {
        Some(t) => match named_child(ns, t, 0) {
            Some(sc) => text_or_empty(ns, field_child(ns, sc, "name"@)),
            None => seq![],
        },
        None => seq![],
    }
}

/// The description of a `@param` tag without surrounding spaces and leading dashes.
pub open spec fn param_description(ns: Seq<SyntaxNode>, c: int) -> Option<Seq<char>> {
    match field_child(ns, c, "description"@) {
        Some(d) => {
            let t = trim(strip_leading(trim(ns[d].text@), '-'));
            if t.len() > 0 {
                Some(t)
            } else {
                None
            }
        },
        None => None,
    }
}

/// The parameter a `@param` tag declares; none when it has no `param`, or one
/// that is neither required nor optional.
pub open spec fn param_of(ns: Seq<SyntaxNode>, c: int) -> Option<ParamDeclView> {
    match field_child(ns, c, "param"@) {
        None => None,
        Some(pn) => {
            let nm = trim(text_or_empty(ns, field_child(ns, pn, "name"@)));
            if ns[pn].kind@ == "required_param"@ {
                Some(
                    ParamDeclView {
                        name: nm,
                        type_: param_type(ns, c),
                        required: true,
                        default: None,
                        description: param_description(ns, c),
                    },
                )
            } else if ns[pn].kind@ == "optional_param"@ {
                let default = match field_child(ns, pn, "default"@) {
                    Some(dn) => match named_child(ns, dn, 0) {
                        Some(v) => Some(ns[v].text@),
                        None => None,
                    },
                    None => None,
                };
                Some(
                    ParamDeclView {
                        name: nm,
                        type_: param_type(ns, c),
                        required: false,
                        default: default,
                        description: param_description(ns, c),
                    },
                )
            } else {
                None
            }
        },
    }
}

/// The trimmed lines of a description node.
pub open spec fn description_lines(ns: Seq<SyntaxNode>, c: int) -> Seq<Seq<char>> {
    named_children(ns, c).map_values(|j: int| trim(ns[j].text@))
}

/// Reads one named child of a cypherdoc document.
pub open spec fn doc_step(ns: Seq<SyntaxNode>, acc: DocAcc, c: int) -> DocAcc {
    let k = ns[c].kind@;
    if k == "name"@ {
        DocAcc { name: trim(ns[c].text@), ..acc }
    } else if k == "description"@ {
        DocAcc { lines: acc.lines + description_lines(ns, c), ..acc }
    } else if k == "param_tag"@ {
        match param_of(ns, c) {
            Some(p) => DocAcc { params: acc.params.push(p), ..acc },
            None => acc,
        }
    } else if k == "returns_tag"@ {
        DocAcc { returns_raw: Some(trim(ns[c].text@)), ..acc }
    } else {
        acc
    }
}

pub open spec fn doc_fold(ns: Seq<SyntaxNode>, cs: Seq<int>) -> DocAcc
    decreases cs.len(),
{
    if cs.len() == 0 {
        DocAcc { name: seq![], lines: seq![], params: seq![], returns_raw: None }
    } else {
        doc_step(ns, doc_fold(ns, cs.drop_last()), cs.last())
    }
}

/// The cypherdoc that a `/** ... */` block holds: none when it does not parse
/// as a document or has no name.
pub open spec fn cypherdoc_of(raw: Seq<char>) -> Option<CypherDocView> {
    match cypherdoc_syntax(raw) {
        None => None,
        Some(ns) => cypherdoc_from(ns),
    }
}

/// The cypherdoc that the syntax tree of a `/** ... */` block describes: none
/// when the root is not an error-free `document` or names nothing.
pub open spec fn cypherdoc_from(ns: Seq<SyntaxNode>) -> Option<CypherDocView> {
    if ns.len() == 0 || ns[0].has_error || ns[0].kind@ != "document"@ {
        None
    } else {
        let acc = doc_fold(ns, named_children(ns, 0));
        if acc.name.len() == 0 {
            None
        } else {
            Some(
                CypherDocView {
                    name: acc.name,
                    description: if acc.lines.len() == 0 {
                        None
                    } else {
                        Some(crate::text::join(acc.lines, "\n"@))
                    },
                    params: acc.params,
                    returns_raw: acc.returns_raw,
                },
            )
        }
    }
}

/// A parameter declaration as a cypherdoc block gives it: its name trimmed,
/// no default when it is required, and a description, when there is one,
/// trimmed and not empty.
pub open spec fn param_decl_ok(p: ParamDeclView) -> bool {
    &&& trim(p.name) == p.name
    &&& p.required ==> p.default is None
    &&& p.description matches Some(t) ==> t.len() > 0 && trim(t) == t
}

spec fn doc_acc_ok(a: DocAcc) -> bool {
    &&& trim(a.name) == a.name
    &&& forall|i: int| 0 <= i < a.params.len() ==> param_decl_ok(#[trigger] a.params[i])
}

proof fn lemma_param_of_ok(ns: Seq<SyntaxNode>, c: int)
    ensures
        param_of(ns, c) matches Some(p) ==> param_decl_ok(p),
{
    if let Some(pn) = field_child(ns, c, "param"@) {
        crate::text::lemma_trim_idempotent(text_or_empty(ns, field_child(ns, pn, "name"@)));
    }
    if let Some(d) = field_child(ns, c, "description"@) {
        crate::text::lemma_trim_idempotent(strip_leading(trim(ns[d].text@), '-'));
    }
}

proof fn lemma_doc_fold_ok(ns: Seq<SyntaxNode>, cs: Seq<int>)
    ensures
        doc_acc_ok(doc_fold(ns, cs)),
    decreases cs.len(),
{
    if cs.len() == 0 {
        assert(trim(Seq::<char>::empty()) == Seq::<char>::empty());
    } else {
        lemma_doc_fold_ok(ns, cs.drop_last());
        let acc = doc_fold(ns, cs.drop_last());
        let c = cs.last();
        crate::text::lemma_trim_idempotent(ns[c].text@);
        lemma_param_of_ok(ns, c);
        if ns[c].kind@ == "param_tag"@ {
            if let Some(p) = param_of(ns, c) {
                let ps = acc.params.push(p);
                assert forall|i: int| 0 <= i < ps.len() implies param_decl_ok(#[trigger] ps[i]) by {
                    if i < acc.params.len() {
                        assert(ps[i] == acc.params[i]);
                    }
                }
            }
        }
    }
}

/// A cypherdoc block's name is not empty and has no surrounding whitespace;
/// each of its parameters has a trimmed name, no default when it is
/// required, and a description that, when there is one, is trimmed and not
/// empty.
pub proof fn lemma_cypherdoc_shape(raw: Seq<char>)
    ensures
        cypherdoc_of(raw) matches Some(d) ==> {
            &&& d.name.len() > 0
            &&& trim(d.name) == d.name
            &&& forall|i: int| 0 <= i < d.params.len() ==> param_decl_ok(#[trigger] d.params[i])
        },
{
    if let Some(ns) = cypherdoc_syntax(raw) {
        if ns.len() > 0 {
            lemma_doc_fold_ok(ns, named_children(ns, 0));
        }
    }
}

fn node_text_or_empty(ns: &Vec<SyntaxNode>, pick: Option<usize>) -> (r: String)
    requires
        pick matches Some(j) ==> j < ns@.len(),
    ensures
        r@ == text_or_empty(ns@, match pick {
            Some(j) => Some(j as int),
            None => None,
        }),
{
    match pick {
        Some(j) => ns[j].text.clone(),
        None => String::new(),
    }
}

fn read_param_type(ns: &Vec<SyntaxNode>, c: usize) -> (r: String)
    requires
        c < ns@.len(),
    ensures
        r@ == param_type(ns@, c as int),
{
    match field_child_of(ns, c, "type") {
        Some(t) => match named_child_of(ns, t, 0) {
            Some(sc) => node_text_or_empty(ns, field_child_of(ns, sc, "name")),
            None => String::new(),
        },
        None => String::new(),
    }
}

fn read_param_description(ns: &Vec<SyntaxNode>, c: usize) -> (r: Option<String>)
    requires
        c < ns@.len(),
    ensures
        crate::graph::opt_view(r) == param_description(ns@, c as int),
{
    match field_child_of(ns, c, "description") {
        Some(d) => {
            let t1 = trim_str(ns[d].text.as_str());
            let t2 = strip_leading_char(t1.as_str(), '-');
            let t = trim_str(t2.as_str());
            if t.as_str().is_empty() {
                None
            } else {
                Some(t)
            }
        },
        None => None,
    }
}

fn read_param(ns: &Vec<SyntaxNode>, c: usize) -> (r: Option<ParamDecl>)
    requires
        c < ns@.len(),
    ensures
        match r {
            Some(d) => param_of(ns@, c as int) == Some(d@),
            None => param_of(ns@, c as int) is None,
        },
{
    let pn = match field_child_of(ns, c, "param") {
        Some(pn) => pn,
        None => return None,
    };
    let raw_name = node_text_or_empty(ns, field_child_of(ns, pn, "name"));
    let nm = trim_str(raw_name.as_str());
    if str_eq(ns[pn].kind.as_str(), "required_param") {
        Some(
            ParamDecl {
                name: nm,
                type_: read_param_type(ns, c),
                required: true,
                default: None,
                description: read_param_description(ns, c),
            },
        )
    } else if str_eq(ns[pn].kind.as_str(), "optional_param") {
        let default = match field_child_of(ns, pn, "default") {
            Some(dn) => match named_child_of(ns, dn, 0) {
                Some(v) => Some(ns[v].text.clone()),
                None => None,
            },
            None => None,
        };
        Some(
            ParamDecl {
                name: nm,
                type_: read_param_type(ns, c),
                required: false,
                default: default,
                description: read_param_description(ns, c),
            },
        )
    } else {
        None
    }
}

/// Parses a `/** ... */` cypherdoc block.
pub fn parse_cypherdoc(raw: &str) -> (r: Option<CypherDoc>)
    ensures
        match r {
            Some(d) => cypherdoc_of(raw@) == Some(d@),
            None => cypherdoc_of(raw@) is None,
        },
{
    match parse_cypherdoc_syntax(raw) {
        Some(ns) => cypherdoc_from_nodes(&ns),
        None => None,
    }
}

/// Reads a cypherdoc block from the nodes of its syntax tree.
pub fn cypherdoc_from_nodes(ns: &Vec<SyntaxNode>) -> (r: Option<CypherDoc>)
    ensures
        match r {
            Some(d) => cypherdoc_from(ns@) == Some(d@),
            None => cypherdoc_from(ns@) is None,
        },
{
    if ns.len() == 0 || ns[0].has_error || !str_eq(ns[0].kind.as_str(), "document") {
        return None;
    }
    let cs = named_children_of(&ns, 0);
    let ghost ci = index_seq(cs@);
    let mut name = String::new();
    let mut lines: Vec<String> = Vec::new();
    let mut params: Vec<ParamDecl> = Vec::new();
    let mut returns_raw: Option<String> = None;
    let mut k: usize = 0;
    while k < cs.len()
        invariant
            k <= cs@.len(),
            ci == index_seq(cs@),
            ci == named_children(ns@, 0),
            forall|m: int| 0 <= m < cs@.len() ==> 0 < #[trigger] cs@[m] < ns@.len(),
            ({
                let acc = doc_fold(ns@, ci.take(k as int));
                &&& name@ == acc.name
                &&& lines@.map_values(|s: String| s@) == acc.lines
                &&& decls_view(params@) == acc.params
                &&& crate::graph::opt_view(returns_raw) == acc.returns_raw
            }),
        decreases cs@.len() - k,
    {
        let c = cs[k];
        assert(ci.take(k + 1).drop_last() =~= ci.take(k as int));
        assert(ci.take(k + 1).last() == c as int);
        let kind = ns[c].kind.as_str();
        if str_eq(kind, "name") {
            name = trim_str(ns[c].text.as_str());
        } else if str_eq(kind, "description") {
            let ls = named_children_of(&ns, c);
            let ghost lines0 = lines@.map_values(|s: String| s@);
            let mut m: usize = 0;
            while m < ls.len()
                invariant
                    m <= ls@.len(),
                    c < ns@.len(),
                    index_seq(ls@) == named_children(ns@, c as int),
                    forall|q: int| 0 <= q < ls@.len() ==> c < #[trigger] ls@[q] < ns@.len(),
                    lines@.map_values(|s: String| s@) == lines0 + description_lines(ns@, c as int).take(m as int),
                decreases ls@.len() - m,
            {
                let ghost before = lines@;
                let t = trim_str(ns[ls[m]].text.as_str());
                lines.push(t);
                assert(lines@.map_values(|s: String| s@) =~= lines0 + description_lines(ns@, c as int).take(
                    m + 1,
                )) by {
                    assert(before.map_values(|s: String| s@) == lines0 + description_lines(ns@, c as int).take(
                        m as int,
                    ));
                    let dl = description_lines(ns@, c as int);
                    assert(index_seq(ls@)[m as int] == ls@[m as int] as int);
                    assert(named_children(ns@, c as int)[m as int] == ls@[m as int] as int);
                    assert(dl[m as int] == t@);
                    assert(dl.take(m + 1) =~= dl.take(m as int).push(t@));
                    assert(lines@.map_values(|s: String| s@) =~= before.map_values(|s: String| s@).push(t@));
                }
                m = m + 1;
            }
            assert(description_lines(ns@, c as int).take(ls@.len() as int) =~= description_lines(ns@, c as int));
        } else if str_eq(kind, "param_tag") {
            match read_param(&ns, c) {
                Some(d) => {
                    let ghost before = params@;
                    params.push(d);
                    assert(decls_view(params@) =~= decls_view(before).push(d@));
                },
                None => {},
            }
        } else if str_eq(kind, "returns_tag") {
            returns_raw = Some(trim_str(ns[c].text.as_str()));
        }
        k = k + 1;
    }
    assert(ci.take(cs@.len() as int) =~= ci);
    if name.as_str().is_empty() {
        return None;
    }
    let description = if lines.len() == 0 {
        None
    } else {
        Some(crate::text::join_strings(&lines, "\n"))
    };
    Some(CypherDoc { name: name, description: description, params: params, returns_raw: returns_raw })
}


// ── Statements of a .cypher file ───────────────────────────────────────────────

pub enum SourceView {
    Inline,
    File { path: Seq<char>, line: u32, statement_idx: usize },
    LibraryFile { path: Seq<char> },
    LibraryStatement { path: Seq<char>, stmt_name: Seq<char> },
}

impl View for StatementSource {
    type V = SourceView;

    open spec fn view(&self) -> SourceView {
        match self {
            StatementSource::Inline => SourceView::Inline,
            StatementSource::File { path, line, statement_idx } => SourceView::File {
                path: path@,
                line: *line,
                statement_idx: *statement_idx,
            },
            StatementSource::LibraryFile { path } => SourceView::LibraryFile { path: path@ },
            StatementSource::LibraryStatement { path, stmt_name } => SourceView::LibraryStatement {
                path: path@,
                stmt_name: stmt_name@,
            },
        }
    }
}

pub struct EntryView {
    pub source: SourceView,
    pub text: Seq<char>,
    pub doc: Option<CypherDocView>,
}

pub open spec fn doc_view(d: Option<CypherDoc>) -> Option<CypherDocView> {
    match d {
        Some(d) => Some(d@),
        None => None,
    }
}

impl View for StatementEntry {
    type V = EntryView;

    open spec fn view(&self) -> EntryView {
        EntryView { source: self.source@, text: self.text@, doc: doc_view(self.doc) }
    }
}

pub open spec fn entries_view(v: Seq<StatementEntry>) -> Seq<EntryView> {
    v.map_values(|e: StatementEntry| e@)
}

/// The 1-based line of a node that starts at `row` (kept at `u32::MAX` past it).
pub open spec fn line_of_row(row: usize) -> u32 {
    if row < u32::MAX {
        (row + 1) as u32
    } else {
        u32::MAX
    }
}

/// The statements of a file read so far, and the cypherdoc waiting for the
/// next statement.
pub struct SplitAcc {
    pub entries: Seq<EntryView>,
    pub doc: Option<CypherDocView>,
}

/// Reads one top-level node: a doc comment is held for the next statement, a
/// statement takes it, and any other named node but `;` drops it.
pub open spec fn split_step(ns: Seq<SyntaxNode>, path: Seq<char>, acc: SplitAcc, c: int) -> SplitAcc {
    let k = ns[c].kind@;
    if k == "doc_comment"@ {
        SplitAcc { doc: cypherdoc_of(ns[c].text@), ..acc }
    } else if k == "statement"@ {
        SplitAcc {
            entries: acc.entries.push(
                EntryView {
                    source: SourceView::File {
                        path: path,
                        line: line_of_row(ns[c].row),
                        statement_idx: acc.entries.len() as usize,
                    },
                    text: trim(ns[c].text@),
                    doc: acc.doc,
                },
            ),
            doc: None,
        }
    } else if ns[c].named && k != ";"@ {
        SplitAcc { doc: None, ..acc }
    } else {
        acc
    }
}

pub open spec fn split_fold(ns: Seq<SyntaxNode>, path: Seq<char>, cs: Seq<int>) -> SplitAcc
    decreases cs.len(),
{
    if cs.len() == 0 {
        SplitAcc { entries: seq![], doc: None }
    } else {
        split_step(ns, path, split_fold(ns, path, cs.drop_last()), cs.last())
    }
}

/// The positions, among the top-level nodes `cs`, of the statements.
pub open spec fn statement_positions(ns: Seq<SyntaxNode>, cs: Seq<int>) -> Seq<int>
    decreases cs.len(),
{
    if cs.len() == 0 {
        seq![]
    } else {
        let r = statement_positions(ns, cs.drop_last());
        if ns[cs.last()].kind@ == "statement"@ {
            r.push(cs.len() - 1)
        } else {
            r
        }
    }
}

/// Some doc comment among the top-level nodes strictly between positions
/// `lo` and `hi` holds the cypherdoc `d`.
pub open spec fn doc_between(ns: Seq<SyntaxNode>, cs: Seq<int>, lo: int, hi: int, d: CypherDocView) -> bool {
    exists|t: int|
        lo < t < hi && 0 <= t < cs.len() && ns[cs[t]].kind@ == "doc_comment"@ && #[trigger] cypherdoc_of(
            ns[cs[t]].text@,
        ) == Some(d)
}

/// Where the statement before the `j`-th one stands, or -1 for the first.
pub open spec fn previous_position(pos: Seq<int>, j: int) -> int {
    if j == 0 {
        -1
    } else {
        pos[j - 1]
    }
}

proof fn lemma_doc_between_grow(ns: Seq<SyntaxNode>, cs: Seq<int>, lo: int, hi: int, hi2: int, d: CypherDocView)
    requires
        cs.len() > 0,
        hi <= hi2,
        doc_between(ns, cs.drop_last(), lo, hi, d),
    ensures
        doc_between(ns, cs, lo, hi2, d),
{
    let t = choose|t: int|
        lo < t < hi && 0 <= t < cs.drop_last().len() && ns[cs.drop_last()[t]].kind@ == "doc_comment"@
            && #[trigger] cypherdoc_of(ns[cs.drop_last()[t]].text@) == Some(d);
    assert(cs.drop_last()[t] == cs[t]);
}

#[verifier::spinoff_prover]
#[verifier::rlimit(50)]
proof fn lemma_split_docs(ns: Seq<SyntaxNode>, path: Seq<char>, cs: Seq<int>)
    ensures
        ({
            let acc = split_fold(ns, path, cs);
            let pos = statement_positions(ns, cs);
            &&& acc.entries.len() == pos.len()
            &&& forall|j: int| 0 <= j < pos.len() ==> -1 < #[trigger] pos[j] < cs.len()
            &&& forall|j: int| 0 < j < pos.len() ==> pos[j - 1] < #[trigger] pos[j]
            &&& forall|j: int|
                0 <= j < acc.entries.len() ==> ((#[trigger] acc.entries[j]).doc matches Some(d) ==> doc_between(
                    ns,
                    cs,
                    previous_position(pos, j),
                    pos[j],
                    d,
                ))
            &&& acc.doc matches Some(d) ==> doc_between(ns, cs, previous_position(pos, pos.len() as int), cs.len() as int, d)
            &&& forall|j: int|
                0 <= j < acc.entries.len() && 0 < pos[j] && ns[cs[pos[j] - 1]].kind@ == "doc_comment"@ ==> (
                #[trigger] acc.entries[j]).doc == cypherdoc_of(ns[cs[pos[j] - 1]].text@)
            &&& cs.len() > 0 && ns[cs.last()].kind@ == "doc_comment"@ ==> acc.doc == cypherdoc_of(ns[cs.last()].text@)
        }),
    decreases cs.len(),
{
    if cs.len() > 0 {
        let cs0 = cs.drop_last();
        lemma_split_docs(ns, path, cs0);
        let acc0 = split_fold(ns, path, cs0);
        let pos0 = statement_positions(ns, cs0);
        let acc = split_fold(ns, path, cs);
        let pos = statement_positions(ns, cs);
        let c = cs.last();
        let n0 = cs0.len() as int;
        let k = ns[c].kind@;
        reveal_strlit("doc_comment");
        reveal_strlit("statement");
        assert("doc_comment"@[0] != "statement"@[0]);
        assert("doc_comment"@ != "statement"@);
        assert forall|j: int| 0 <= j < acc0.entries.len() && (#[trigger] acc0.entries[j]).doc is Some implies doc_between(
            ns,
            cs,
            previous_position(pos0, j),
            pos0[j],
            acc0.entries[j].doc->0,
        ) by {
            lemma_doc_between_grow(ns, cs, previous_position(pos0, j), pos0[j], pos0[j], acc0.entries[j].doc->0);
        }
        assert forall|j: int|
            0 <= j < acc0.entries.len() && 0 < pos0[j] && ns[cs0[pos0[j] - 1]].kind@ == "doc_comment"@ implies ns[cs[
            pos0[j] - 1]].kind@ == "doc_comment"@ && (#[trigger] acc0.entries[j]).doc == cypherdoc_of(
            ns[cs[pos0[j] - 1]].text@,
        ) by {
            assert(cs[pos0[j] - 1] == cs0[pos0[j] - 1]);
        }
        if k == "doc_comment"@ {
            assert(pos == pos0);
            if let Some(d) = cypherdoc_of(ns[c].text@) {
                assert(cs[n0] == c);
                assert(cypherdoc_of(ns[cs[n0]].text@) == Some(d));
                assert(previous_position(pos, pos.len() as int) < n0);
            }
        } else if k == "statement"@ {
            assert(pos == pos0.push(n0));
            let e = acc.entries;
            assert forall|j: int| 0 <= j < e.len() && (#[trigger] e[j]).doc is Some implies doc_between(
                ns,
                cs,
                previous_position(pos, j),
                pos[j],
                e[j].doc->0,
            ) by {
                if j < acc0.entries.len() {
                    assert(e[j] == acc0.entries[j]);
                    assert(pos[j] == pos0[j]);
                    if j > 0 {
                        assert(pos[j - 1] == pos0[j - 1]);
                    }
                } else {
                    assert(e[j].doc == acc0.doc);
                    assert(pos[j] == n0);
                    if n0 > 0 {
                        assert(cs[n0 - 1] == cs0.last());
                    }
                    lemma_doc_between_grow(
                        ns,
                        cs,
                        previous_position(pos0, pos0.len() as int),
                        n0,
                        n0,
                        acc0.doc->0,
                    );
                    if j > 0 {
                        assert(pos[j - 1] == pos0[j - 1]);
                    }
                }
            }
        } else {
            assert(pos == pos0);
            if let Some(d) = acc.doc {
                assert(acc.doc == acc0.doc);
                lemma_doc_between_grow(ns, cs, previous_position(pos0, pos0.len() as int), n0, n0 + 1, d);
            }
        }
    }
}

/// A cypherdoc comment documents at most the one statement that follows it:
/// a statement carries a cypherdoc only when a doc comment holding it stands
/// after the statement before it (or the file's start) and before it; and a
/// statement right after a doc comment carries that comment's cypherdoc.
pub proof fn lemma_doc_belongs_to_next_statement(path: Seq<char>, ns: Seq<SyntaxNode>)
    ensures
        statements_in(path, ns) matches Ok(es) ==> {
            let cs = children(ns, 0);
            let pos = statement_positions(ns, cs);
            &&& es.len() == pos.len()
            &&& forall|j: int|
                0 <= j < es.len() ==> ((#[trigger] es[j]).doc matches Some(d) ==> doc_between(
                    ns,
                    cs,
                    previous_position(pos, j),
                    pos[j],
                    d,
                ))
            &&& forall|j: int|
                0 <= j < es.len() && 0 < pos[j] && ns[cs[pos[j] - 1]].kind@ == "doc_comment"@ ==> (
                #[trigger] es[j]).doc == cypherdoc_of(ns[cs[pos[j] - 1]].text@)
        },
{
    if ns.len() > 0 {
        lemma_split_docs(ns, path, children(ns, 0));
    }
}

/// The statements of a `.cypher` file, each with the cypherdoc comment just
/// before it; an error when the source does not parse or holds no statement.
pub open spec fn statements_of(path: Seq<char>, source: Seq<char>) -> Result<Seq<EntryView>, Seq<char>> {
    match cypher_syntax(source) {
        None => Err("failed to parse "@ + path),
        Some(ns) => statements_in(path, ns),
    }
}

/// The statements that the syntax tree of a `.cypher` file holds: the
/// children of its root, each with the cypherdoc just before it; a file
/// without statements is an error.
pub open spec fn statements_in(path: Seq<char>, ns: Seq<SyntaxNode>) -> Result<Seq<EntryView>, Seq<char>> {
    let es = if ns.len() == 0 { seq![] } else { split_fold(ns, path, children(ns, 0)).entries };
    if es.len() == 0 {
        Err("no statements found in "@ + path)
    } else {
        Ok(es)
    }
}

/// Splits the source of a `.cypher` file into its statements.
pub fn statements_from_source(path: &str, source: &str) -> (r: Result<Vec<StatementEntry>, String>)
    ensures
        match r {
            Ok(v) => statements_of(path@, source@) == Ok::<Seq<EntryView>, Seq<char>>(entries_view(v@)),
            Err(m) => statements_of(path@, source@) == Err::<Seq<EntryView>, Seq<char>>(m@),
        },
{
    match parse_cypher(source) {
        Some(ns) => statements_from_nodes(path, &ns),
        None => Err(concat("failed to parse ", path)),
    }
}

/// Splits the syntax tree of a `.cypher` file into its statements.
pub fn statements_from_nodes(path: &str, ns: &Vec<SyntaxNode>) -> (r: Result<Vec<StatementEntry>, String>)
    ensures
        match r {
            Ok(v) => statements_in(path@, ns@) == Ok::<Seq<EntryView>, Seq<char>>(entries_view(v@)),
            Err(m) => statements_in(path@, ns@) == Err::<Seq<EntryView>, Seq<char>>(m@),
        },
{
    let mut entries: Vec<StatementEntry> = Vec::new();
    if ns.len() > 0 {
        let cs = children_of(&ns, 0);
        let ghost ci = index_seq(cs@);
        let mut last_doc: Option<CypherDoc> = None;
        let mut k: usize = 0;
        while k < cs.len()
            invariant
                k <= cs@.len(),
                ns@.len() > 0,
                ci == index_seq(cs@),
                ci == children(ns@, 0),
                forall|m: int| 0 <= m < cs@.len() ==> 0 < #[trigger] cs@[m] < ns@.len(),
                ({
                    let acc = split_fold(ns@, path@, ci.take(k as int));
                    &&& entries_view(entries@) == acc.entries
                    &&& doc_view(last_doc) == acc.doc
                }),
            decreases cs@.len() - k,
        {
            let c = cs[k];
            assert(ci.take(k + 1).drop_last() =~= ci.take(k as int));
            assert(ci.take(k + 1).last() == c as int);
            let kind = ns[c].kind.as_str();
            if str_eq(kind, "doc_comment") {
                last_doc = parse_cypherdoc(ns[c].text.as_str());
            } else if str_eq(kind, "statement") {
                let row = ns[c].row;
                let line: u32 = if row < 4294967295 { (row + 1) as u32 } else { 4294967295 };
                let idx = entries.len();
                let doc = last_doc;
                last_doc = None;
                let entry = StatementEntry {
                    source: StatementSource::File { path: path.to_owned(), line: line, statement_idx: idx },
                    text: trim_str(ns[c].text.as_str()),
                    doc: doc,
                };
                let ghost before = entries@;
                entries.push(entry);
                assert(entries_view(entries@) =~= entries_view(before).push(entry@));
            } else if ns[c].named && !str_eq(kind, ";") {
                last_doc = None;
            }
            k = k + 1;
        }
        assert(ci.take(cs@.len() as int) =~= ci);
    }
    if entries.len() == 0 {
        return Err(concat("no statements found in ", path));
    }
    Ok(entries)
}


// ── Parameter values ───────────────────────────────────────────────────────────

pub enum LiteralKindView {
    Null,
    Boolean(bool),
    Integer(i64),
    Float(Seq<char>),
    Text(Seq<char>),
    Array,
    Object,
}

pub struct LiteralView {
    pub depth: usize,
    pub key: Option<Seq<char>>,
    pub kind: LiteralKindView,
}

impl View for LiteralItem {
    type V = LiteralView;

    open spec fn view(&self) -> LiteralView {
        LiteralView {
            depth: self.depth,
            key: crate::graph::opt_view(self.key),
            kind: match self.kind {
                LiteralKind::Null => LiteralKindView::Null,
                LiteralKind::Boolean(b) => LiteralKindView::Boolean(b),
                LiteralKind::Integer(i) => LiteralKindView::Integer(i),
                LiteralKind::Float(t) => LiteralKindView::Float(t@),
                LiteralKind::Text(t) => LiteralKindView::Text(t@),
                LiteralKind::Array => LiteralKindView::Array,
                LiteralKind::Object => LiteralKindView::Object,
            },
        }
    }
}

pub open spec fn literal_view(v: Seq<LiteralItem>) -> Seq<LiteralView> {
    v.map_values(|x: LiteralItem| x@)
}

pub enum ParamView {
    Integer(i64),
    Float(Seq<char>),
    Boolean(bool),
    Text(Seq<char>),
    Json(serde_json::Value),
    Literal(Seq<LiteralView>),
}

impl View for ParamValue {
    type V = ParamView;

    open spec fn view(&self) -> ParamView {
        match self {
            ParamValue::Integer(i) => ParamView::Integer(*i),
            ParamValue::Float(t) => ParamView::Float(t@),
            ParamValue::Boolean(b) => ParamView::Boolean(*b),
            ParamValue::String(t) => ParamView::Text(t@),
            ParamValue::Json(v) => ParamView::Json(*v),
            ParamValue::Literal(items) => ParamView::Literal(literal_view(items@)),
        }
    }
}

/// A string literal without one matching pair of surrounding quotes.
pub open spec fn strip_quotes(t: Seq<char>) -> Seq<char> {
    if t.len() >= 2 && ((t[0] == '"' && t.last() == '"') || (t[0] == '\'' && t.last() == '\'')) {
        t.subrange(1, t.len() - 1)
    } else {
        t
    }
}

fn strip_quotes_of(t: &String) -> (r: String)
    ensures
        r@ == strip_quotes(t@),
{
    let cs = chars_of(t.as_str());
    let n = cs.len();
    if n >= 2 && ((cs[0] == '"' && cs[n - 1] == '"') || (cs[0] == '\'' && cs[n - 1] == '\'')) {
        let r = string_of(&cs.as_slice()[1..n - 1]);
        assert(r@ =~= t@.subrange(1, t@.len() - 1));
        r
    } else {
        t.clone()
    }
}

pub open spec fn item(depth: usize, key: Option<Seq<char>>, kind: LiteralKindView) -> LiteralView {
    LiteralView { depth: depth, key: key, kind: kind }
}

/// A literal nested in a map or list, in preorder: its own item, then its
/// items (one level deeper) for a map or list. An integer or float that does
/// not parse becomes `0`.
pub open spec fn literal_items(ns: Seq<SyntaxNode>, i: int, depth: usize, key: Option<Seq<char>>) -> Seq<LiteralView>
    decreases ns.len() - i, 1nat, 0int,
{
    if i < 0 || i >= ns.len() {
        seq![]
    } else {
        let text = trim(ns[i].text@);
        let k = ns[i].kind@;
        if k == "integer_literal"@ {
            seq![item(depth, key, LiteralKindView::Integer(match parse_i64(text) {
                Some(v) => v,
                None => 0,
            }))]
        } else if k == "float_literal"@ {
            seq![item(depth, key, if is_float_text(text) {
                LiteralKindView::Float(text)
            } else {
                LiteralKindView::Integer(0)
            })]
        } else if k == "boolean_literal"@ {
            seq![item(depth, key, LiteralKindView::Boolean(text == "true"@))]
        } else if k == "null_literal"@ {
            seq![item(depth, key, LiteralKindView::Null)]
        } else if k == "string_literal"@ {
            seq![item(depth, key, LiteralKindView::Text(strip_quotes(text)))]
        } else if k == "map_literal"@ {
            seq![item(depth, key, LiteralKindView::Object)] + map_entry_items(
                ns,
                i,
                named_children(ns, i),
                0,
                (depth + 1) as usize,
            )
        } else if k == "list_literal"@ {
            seq![item(depth, key, LiteralKindView::Array)] + list_element_items(
                ns,
                i,
                named_children(ns, i),
                0,
                (depth + 1) as usize,
            )
        } else {
            seq![item(depth, key, LiteralKindView::Text(text))]
        }
    }
}

/// The items of a map's entries from the `k`-th named child on: each
/// `property_key_value` gives its key and the literal inside its value
/// expression (null when there is none).
pub open spec fn map_entry_items(ns: Seq<SyntaxNode>, parent: int, cs: Seq<int>, k: int, depth: usize) -> Seq<
    LiteralView,
>
    decreases ns.len() - parent, 0nat, cs.len() - k,
{
    if k < 0 || k >= cs.len() {
        seq![]
    } else {
        let e = cs[k];
        let this = if 0 <= e < ns.len() && ns[e].kind@ == "property_key_value"@ {
            let key = trim(text_or_empty(ns, named_child(ns, e, 0)));
            let v = match named_child(ns, e, 1) {
                Some(x) => named_child(ns, x, 0),
                None => None,
            };
            match v {
                Some(v) => if parent < v < ns.len() {
                    literal_items(ns, v, depth, Some(key))
                } else {
                    seq![]
                },
                None => seq![item(depth, Some(key), LiteralKindView::Null)],
            }
        } else {
            seq![]
        };
        this + map_entry_items(ns, parent, cs, k + 1, depth)
    }
}

/// The items of a list's elements from the `k`-th named child on: an
/// `expression` stands for its first named child (null when there is none).
pub open spec fn list_element_items(ns: Seq<SyntaxNode>, parent: int, cs: Seq<int>, k: int, depth: usize) -> Seq<
    LiteralView,
>
    decreases ns.len() - parent, 0nat, cs.len() - k,
{
    if k < 0 || k >= cs.len() {
        seq![]
    } else {
        let c = cs[k];
        let this = if 0 <= c < ns.len() && ns[c].kind@ == "expression"@ {
            match named_child(ns, c, 0) {
                Some(v) => if parent < v < ns.len() {
                    literal_items(ns, v, depth, None)
                } else {
                    seq![]
                },
                None => seq![item(depth, None, LiteralKindView::Null)],
            }
        } else if parent < c < ns.len() {
            literal_items(ns, c, depth, None)
        } else {
            seq![]
        };
        this + list_element_items(ns, parent, cs, k + 1, depth)
    }
}

fn one_item(depth: usize, key: Option<String>, kind: LiteralKind) -> (r: Vec<LiteralItem>)
    ensures
        r@.len() == 1,
        r@[0] == (LiteralItem { depth: depth, key: key, kind: kind }),
{
    let mut v = Vec::new();
    v.push(LiteralItem { depth: depth, key: key, kind: kind });
    v
}

/// The items of the literal at node `i`.
fn literal_items_of(ns: &Vec<SyntaxNode>, i: usize, depth: usize, key: Option<String>) -> (r: Vec<LiteralItem>)
    requires
        i < ns@.len(),
        depth <= i,
    ensures
        literal_view(r@) == literal_items(ns@, i as int, depth, crate::graph::opt_view(key)),
    decreases ns@.len() - i,
{
    let count = ns.len();
    assert(i < count);
    let ghost kv = crate::graph::opt_view(key);
    let text = trim_str(ns[i].text.as_str());
    let kind = ns[i].kind.as_str();
    if str_eq(kind, "integer_literal") {
        let tc = chars_of(text.as_str());
        let v = match parse_i64_chars(tc.as_slice()) {
            Some(v) => v,
            None => 0,
        };
        let r = one_item(depth, key, LiteralKind::Integer(v));
        assert(literal_view(r@) =~= seq![item(depth, kv, LiteralKindView::Integer(v))]);
        r
    } else if str_eq(kind, "float_literal") {
        let tc = chars_of(text.as_str());
        let k = if float_text(tc.as_slice()) {
            LiteralKind::Float(text)
        } else {
            LiteralKind::Integer(0)
        };
        let r = one_item(depth, key, k);
        assert(literal_view(r@) =~= seq![r@[0]@]);
        r
    } else if str_eq(kind, "boolean_literal") {
        let b = str_eq(text.as_str(), "true");
        let r = one_item(depth, key, LiteralKind::Boolean(b));
        assert(literal_view(r@) =~= seq![r@[0]@]);
        r
    } else if str_eq(kind, "null_literal") {
        let r = one_item(depth, key, LiteralKind::Null);
        assert(literal_view(r@) =~= seq![r@[0]@]);
        r
    } else if str_eq(kind, "string_literal") {
        let r = one_item(depth, key, LiteralKind::Text(strip_quotes_of(&text)));
        assert(literal_view(r@) =~= seq![r@[0]@]);
        r
    } else if str_eq(kind, "map_literal") || str_eq(kind, "list_literal") {
        let is_map = str_eq(kind, "map_literal");
        let mut out = one_item(depth, key, if is_map {
            LiteralKind::Object
        } else {
            LiteralKind::Array
        });
        let cs = named_children_of(ns, i);
        let ghost ci = index_seq(cs@);
        let ghost head = literal_view(out@);
        let ghost full = literal_items(ns@, i as int, depth, kv);
        assert(head =~= seq![out@[0]@]);
        let mut k: usize = 0;
        while k < cs.len()
            invariant
                k <= cs@.len(),
                i < ns@.len(),
                depth <= i,
                ci == index_seq(cs@),
                ci == named_children(ns@, i as int),
                forall|m: int| 0 <= m < cs@.len() ==> i < #[trigger] cs@[m] < ns@.len(),
                is_map == (ns@[i as int].kind@ == "map_literal"@),
                full == literal_items(ns@, i as int, depth, kv),
                is_map ==> full == literal_view(out@) + map_entry_items(ns@, i as int, ci, k as int, (depth + 1) as usize),
                !is_map ==> full == literal_view(out@) + list_element_items(ns@, i as int, ci, k as int, (depth + 1) as usize),
            decreases cs@.len() - k,
        {
            let c = cs[k];
            let ghost before = literal_view(out@);
            let part: Vec<LiteralItem> = if is_map {
                if str_eq(ns[c].kind.as_str(), "property_key_value") {
                    let kn = named_child_of(ns, c, 0);
                    let raw_key = node_text_or_empty(ns, kn);
                    let kt = trim_str(raw_key.as_str());
                    let v = match named_child_of(ns, c, 1) {
                        Some(x) => named_child_of(ns, x, 0),
                        None => None,
                    };
                    match v {
                        Some(v) => literal_items_of(ns, v, depth + 1, Some(kt)),
                        None => {
                            let r = one_item(depth + 1, Some(kt), LiteralKind::Null);
                            assert(literal_view(r@) =~= seq![r@[0]@]);
                            r
                        },
                    }
                } else {
                    let r: Vec<LiteralItem> = Vec::new();
                    assert(literal_view(r@) =~= Seq::<LiteralView>::empty());
                    r
                }
            } else if str_eq(ns[c].kind.as_str(), "expression") {
                match named_child_of(ns, c, 0) {
                    Some(v) => literal_items_of(ns, v, depth + 1, None),
                    None => {
                        let r = one_item(depth + 1, None, LiteralKind::Null);
                        assert(literal_view(r@) =~= seq![r@[0]@]);
                        r
                    },
                }
            } else {
                literal_items_of(ns, c, depth + 1, None)
            };
            let mut part = part;
            let ghost pv = part@;
            let ghost ov = out@;
            out.append(&mut part);
            assert(literal_view(out@) =~= before + literal_view(pv)) by {
                assert(out@ =~= ov + pv);
            }
            k = k + 1;
        }
        out
    } else {
        let r = one_item(depth, key, LiteralKind::Text(text));
        assert(literal_view(r@) =~= seq![r@[0]@]);
        r
    }
}


// ── Parameter maps ─────────────────────────────────────────────────────────────

/// Named query parameters. A later insertion under a name replaces an earlier one.
#[derive(Debug)]
pub struct ParamMap {
    entries: Vec<(String, ParamValue)>,
}

/// The map that a sequence of insertions leaves.
pub open spec fn pairs_map(ps: Seq<(Seq<char>, ParamView)>) -> Map<Seq<char>, ParamView>
    decreases ps.len(),
{
    if ps.len() == 0 {
        Map::empty()
    } else {
        pairs_map(ps.drop_last()).insert(ps.last().0, ps.last().1)
    }
}

impl View for ParamMap {
    type V = Map<Seq<char>, ParamView>;

    open spec fn view(&self) -> Map<Seq<char>, ParamView> {
        pairs_map(self.pairs())
    }
}

impl ParamMap {
    /// The insertions made, in order.
    pub closed spec fn pairs(&self) -> Seq<(Seq<char>, ParamView)> {
        self.entries@.map_values(|p: (String, ParamValue)| (p.0@, p.1@))
    }

    pub fn new() -> (r: ParamMap)
        ensures
            r.pairs() == Seq::<(Seq<char>, ParamView)>::empty(),
    {
        let r = ParamMap { entries: Vec::new() };
        assert(r.pairs() =~= Seq::<(Seq<char>, ParamView)>::empty());
        r
    }

    /// Sets the parameter `k` to `v`.
    pub fn insert(&mut self, k: String, v: ParamValue)
        ensures
            final(self).pairs() == old(self).pairs().push((k@, v@)),
    {
        let ghost before = self.pairs();
        self.entries.push((k, v));
        assert(self.pairs() =~= before.push((k@, v@)));
    }

    fn last_index_of(&self, key: &str) -> (r: Option<usize>)
        ensures
            match r {
                Some(i) => i < self.pairs().len() && self.pairs()[i as int].0 == key@ && self@.contains_key(key@)
                    && self@[key@] == self.pairs()[i as int].1,
                None => !self@.contains_key(key@),
            },
    {
        let ghost ps = self.pairs();
        let mut i = self.entries.len();
        assert(ps.take(i as int) =~= ps);
        while i > 0
            invariant
                i <= ps.len(),
                ps == self.pairs(),
                pairs_map(ps).contains_key(key@) == pairs_map(ps.take(i as int)).contains_key(key@),
                pairs_map(ps).contains_key(key@) ==> pairs_map(ps)[key@] == pairs_map(ps.take(i as int))[key@],
            decreases i,
        {
            assert(ps.take(i as int).drop_last() =~= ps.take(i - 1));
            assert(ps.take(i as int).last() == ps[i - 1]);
            if str_eq(self.entries[i - 1].0.as_str(), key) {
                return Some(i - 1);
            }
            i = i - 1;
        }
        None
    }

    /// The value of parameter `key`, if it is set.
    pub fn get(&self, key: &str) -> (r: Option<&ParamValue>)
        ensures
            match r {
                Some(v) => self@.contains_key(key@) && self@[key@] == v@,
                None => !self@.contains_key(key@),
            },
    {
        match self.last_index_of(key) {
            Some(i) => {
                assert(self.pairs()[i as int].1 == self.entries@[i as int].1@);
                Some(&self.entries[i].1)
            },
            None => None,
        }
    }

    /// Whether parameter `key` is set.
    pub fn contains_key(&self, key: &str) -> (r: bool)
        ensures
            r == self@.contains_key(key@),
    {
        self.last_index_of(key).is_some()
    }

    /// The names of the set parameters, sorted, each once.
    pub fn keys(&self) -> (r: Vec<String>)
        ensures
            strictly_sorted(r@),
            strings_set(r@) == self@.dom(),
    {
        let ghost ps = self.pairs();
        let mut out: Vec<String> = Vec::new();
        assert(strings_set(out@) =~= Set::<Seq<char>>::empty());
        assert(pairs_map(ps.take(0)).dom() =~= Set::<Seq<char>>::empty());
        let mut i: usize = 0;
        while i < self.entries.len()
            invariant
                i <= ps.len(),
                ps == self.pairs(),
                strictly_sorted(out@),
                strings_set(out@) == pairs_map(ps.take(i as int)).dom(),
            decreases ps.len() - i,
        {
            assert(ps.take(i + 1).drop_last() =~= ps.take(i as int));
            assert(ps[i as int].0 == self.entries@[i as int].0@);
            insert_sorted(&mut out, self.entries[i].0.clone());
            i = i + 1;
        }
        assert(ps.take(ps.len() as int) =~= ps);
        out
    }
}

// ── Cypher map literals ────────────────────────────────────────────────────────

/// What a map value becomes: `Ok(None)` stands for JSON `null`.
pub open spec fn coerced(ns: Seq<SyntaxNode>, i: int) -> Result<Option<ParamView>, Seq<char>> {
    let text = trim(ns[i].text@);
    let k = ns[i].kind@;
    if k == "integer_literal"@ {
        match parse_i64(text) {
            Some(v) => Ok(Some(ParamView::Integer(v))),
            None => Err("cannot parse integer: "@ + debug_quoted(text)),
        }
    } else if k == "float_literal"@ {
        if is_float_text(text) {
            Ok(Some(ParamView::Float(text)))
        } else {
            Err("cannot parse float: "@ + debug_quoted(text))
        }
    } else if k == "boolean_literal"@ {
        Ok(Some(ParamView::Boolean(text == "true"@)))
    } else if k == "null_literal"@ {
        Ok(None)
    } else if k == "string_literal"@ {
        Ok(Some(ParamView::Text(strip_quotes(text))))
    } else if k == "map_literal"@ || k == "list_literal"@ {
        Ok(Some(ParamView::Literal(literal_items(ns, i, 0, None))))
    } else {
        Ok(Some(ParamView::Text(text)))
    }
}

/// `v` is what `expected` describes; `None` stands for JSON `null`.
pub open spec fn value_matches(v: ParamView, expected: Option<ParamView>) -> bool {
    match expected {
        Some(e) => v == e,
        None => v matches ParamView::Json(j) && crate::json::json_leaf_of(j) is Null,
    }
}

fn coerce_map_value(ns: &Vec<SyntaxNode>, i: usize) -> (r: Result<ParamValue, String>)
    requires
        i < ns@.len(),
    ensures
        match coerced(ns@, i as int) {
            Ok(e) => r matches Ok(v) && value_matches(v@, e),
            Err(m) => r matches Err(x) && x@ == m,
        },
{
    let text = trim_str(ns[i].text.as_str());
    let kind = ns[i].kind.as_str();
    if str_eq(kind, "integer_literal") {
        let tc = chars_of(text.as_str());
        match parse_i64_chars(tc.as_slice()) {
            Some(v) => Ok(ParamValue::Integer(v)),
            None => Err(concat("cannot parse integer: ", debug_str(text.as_str()).as_str())),
        }
    } else if str_eq(kind, "float_literal") {
        let tc = chars_of(text.as_str());
        if float_text(tc.as_slice()) {
            Ok(ParamValue::Float(text))
        } else {
            Err(concat("cannot parse float: ", debug_str(text.as_str()).as_str()))
        }
    } else if str_eq(kind, "boolean_literal") {
        Ok(ParamValue::Boolean(str_eq(text.as_str(), "true")))
    } else if str_eq(kind, "null_literal") {
        Ok(ParamValue::Json(crate::json::json_null()))
    } else if str_eq(kind, "string_literal") {
        Ok(ParamValue::String(strip_quotes_of(&text)))
    } else if str_eq(kind, "map_literal") || str_eq(kind, "list_literal") {
        Ok(ParamValue::Literal(literal_items_of(ns, i, 0, None)))
    } else {
        Ok(ParamValue::String(text))
    }
}

/// The first node from index `j` on, in preorder, of kind `map_literal`.
pub open spec fn first_map_literal_from(ns: Seq<SyntaxNode>, j: int) -> Option<int>
    decreases ns.len() - j,
{
    if j < 0 || j >= ns.len() {
        None
    } else if ns[j].kind@ == "map_literal"@ {
        Some(j)
    } else {
        first_map_literal_from(ns, j + 1)
    }
}

/// The insertions that the entries of a map literal make, from its `k`-th named
/// child on; the first value that cannot be read makes it an error.
pub open spec fn map_literal_pairs(ns: Seq<SyntaxNode>, cs: Seq<int>, k: int) -> Result<
    Seq<(Seq<char>, Option<ParamView>)>,
    Seq<char>,
>
    decreases cs.len() - k,
{
    if k < 0 || k >= cs.len() {
        Ok(seq![])
    } else {
        let e = cs[k];
        let rest = map_literal_pairs(ns, cs, k + 1);
        if !(0 <= e < ns.len()) || ns[e].kind@ != "property_key_value"@ {
            rest
        } else {
            match (named_child(ns, e, 0), named_child(ns, e, 1)) {
                (Some(kn), Some(x)) => {
                    let key = trim(ns[kn].text@);
                    let v = match named_child(ns, x, 0) {
                        Some(v) => v,
                        None => x,
                    };
                    match coerced(ns, v) {
                        Err(m) => Err(m),
                        Ok(val) => match rest {
                            Ok(ps) => Ok(seq![(key, val)] + ps),
                            Err(m) => Err(m),
                        },
                    }
                },
                _ => rest,
            }
        }
    }
}

/// The message for a map argument that is neither a Cypher map nor a JSON object.
pub open spec fn invalid_map_message(s: Seq<char>) -> Seq<char> {
    "invalid parameter map — expected a Cypher map literal like '{name: \"Alice\", age: 30}'\n  Got: "@
        + debug_quoted(s) + "\n  Hint: use --param name=value for key=value syntax"@
}

/// What a JSON value becomes as a parameter: strings, booleans, integers and
/// floats by their value, anything else as JSON.
pub open spec fn json_param(leaf: crate::json::JsonLeafView) -> ParamView {
    match leaf {
        crate::json::JsonLeafView::Text(s) => ParamView::Text(s),
        crate::json::JsonLeafView::Boolean(b) => ParamView::Boolean(b),
        crate::json::JsonLeafView::Number(t, v) => match parse_i64(t) {
            Some(i) => ParamView::Integer(i),
            None => if is_float_text(t) {
                ParamView::Float(t)
            } else {
                ParamView::Json(v)
            },
        },
        crate::json::JsonLeafView::Null(v) => ParamView::Json(v),
        crate::json::JsonLeafView::Other(v) => ParamView::Json(v),
    }
}

/// A JSON value as a parameter, as `json_param` describes it.
pub fn json_param_value(v: serde_json::Value) -> (r: ParamValue)
    ensures
        r@ == json_param(crate::json::json_leaf_of(v)),
{
    match crate::json::json_leaf(v) {
        crate::json::JsonLeaf::Text(t) => ParamValue::String(t),
        crate::json::JsonLeaf::Boolean(b) => ParamValue::Boolean(b),
        crate::json::JsonLeaf::Number(t, w) => {
            let tc = chars_of(t.as_str());
            match parse_i64_chars(tc.as_slice()) {
                Some(n) => ParamValue::Integer(n),
                None => if float_text(tc.as_slice()) {
                    ParamValue::Float(t)
                } else {
                    ParamValue::Json(w)
                },
            }
        },
        crate::json::JsonLeaf::Null(w) => ParamValue::Json(w),
        crate::json::JsonLeaf::Other(w) => ParamValue::Json(w),
    }
}

/// What a `[PARAMS]` argument sets: the entries of the first Cypher map
/// literal in `RETURN <s>`, or else those of `s` read as a JSON object.
pub open spec fn map_argument_pairs(s: Seq<char>) -> Result<Seq<(Seq<char>, Option<ParamView>)>, Seq<char>> {
    match cypher_syntax("RETURN "@ + s) {
        None => Err("failed to parse parameter map"@),
        Some(ns) => match first_map_literal_from(ns, 0) {
            Some(m) => map_literal_pairs(ns, named_children(ns, m), 0),
            None => match crate::json::json_object(s) {
                Ok(es) => Ok(
                    es.map_values(
                        |e: (Seq<char>, serde_json::Value)| (e.0, Some(json_param(crate::json::json_leaf_of(e.1)))),
                    ),
                ),
                Err(_) => Err(invalid_map_message(s)),
            },
        },
    }
}

/// The map's insertions are those `expected` lists, in order.
pub open spec fn pairs_match(ps: Seq<(Seq<char>, ParamView)>, expected: Seq<(Seq<char>, Option<ParamView>)>) -> bool {
    ps.len() == expected.len() && forall|i: int|
        0 <= i < ps.len() ==> #[trigger] ps[i].0 == expected[i].0 && value_matches(ps[i].1, expected[i].1)
}

/// A parameter reads back as it was last set, and setting it leaves the
/// others as they were.
pub proof fn lemma_set_then_read(ps: Seq<(Seq<char>, ParamView)>, k: Seq<char>, v: ParamView)
    ensures
        pairs_map(ps.push((k, v))) == pairs_map(ps).insert(k, v),
        pairs_map(ps.push((k, v)))[k] == v,
{
    assert(ps.push((k, v)).drop_last() =~= ps);
}

/// In a sequence of insertions, a name takes the value of the last insertion
/// of it.
pub proof fn lemma_last_insertion_wins(ps: Seq<(Seq<char>, ParamView)>, j: int)
    requires
        0 <= j < ps.len(),
        forall|k: int| j < k < ps.len() ==> #[trigger] ps[k].0 != ps[j].0,
    ensures
        pairs_map(ps).contains_key(ps[j].0),
        pairs_map(ps)[ps[j].0] == ps[j].1,
    decreases ps.len(),
{
    if j < ps.len() - 1 {
        assert(ps.drop_last()[j] == ps[j]);
        assert forall|k: int| j < k < ps.drop_last().len() implies #[trigger] ps.drop_last()[k].0 != ps.drop_last()[j].0 by {
            assert(ps.drop_last()[k] == ps[k]);
        }
        lemma_last_insertion_wins(ps.drop_last(), j);
        assert(ps.last().0 != ps[j].0);
    }
}

/// A `--param` flag takes precedence over `[PARAMS]` and `--params`: when the
/// parameters of a run are those of `base` followed by those of the flags, a
/// name that a flag sets takes the value of the last flag that sets it.
pub proof fn lemma_flags_take_precedence(
    ps: Seq<(Seq<char>, ParamView)>,
    base: Seq<(Seq<char>, Option<ParamView>)>,
    flags: Seq<(Seq<char>, Option<ParamView>)>,
    j: int,
)
    requires
        pairs_match(ps, base + flags),
        0 <= j < flags.len(),
        flags[j].1 is Some,
        forall|k: int| j < k < flags.len() ==> #[trigger] flags[k].0 != flags[j].0,
    ensures
        pairs_map(ps).contains_key(flags[j].0),
        pairs_map(ps)[flags[j].0] == flags[j].1->0,
{
    let all = base + flags;
    let i = base.len() + j;
    assert(all[i] == flags[j]);
    assert(ps[i].0 == all[i].0 && value_matches(ps[i].1, all[i].1));
    assert forall|k: int| i < k < ps.len() implies #[trigger] ps[k].0 != ps[i].0 by {
        assert(ps[k].0 == all[k].0);
        assert(all[k] == flags[k - base.len()]);
    }
    lemma_last_insertion_wins(ps, i);
}

/// Parses a `[PARAMS]` argument: a Cypher map literal such as
/// `{name: "Alice", age: 30}`, or a JSON object.
pub fn parse_map_literal(s: &str) -> (r: Result<ParamMap, String>)
    ensures
        match map_argument_pairs(s@) {
            Ok(expected) => r matches Ok(m) && pairs_match(m.pairs(), expected),
            Err(msg) => r matches Err(x) && x@ == msg,
        },
{
    let wrapped = concat("RETURN ", s);
    let ns = match parse_cypher(wrapped.as_str()) {
        Some(ns) => ns,
        None => return Err("failed to parse parameter map".to_owned()),
    };
    match map_literal_in_nodes(&ns) {
        Some(r) => r,
        None => parse_json_object_as_param_map(s),
    }
}

/// The parameters of the first Cypher map literal among a syntax tree's
/// nodes, in preorder; none when the tree holds no map literal.
pub fn map_literal_in_nodes(ns: &Vec<SyntaxNode>) -> (r: Option<Result<ParamMap, String>>)
    ensures
        match first_map_literal_from(ns@, 0) {
            None => r is None,
            Some(m) => match map_literal_pairs(ns@, named_children(ns@, m), 0) {
                Ok(expected) => r matches Some(Ok(p)) && pairs_match(p.pairs(), expected),
                Err(msg) => r matches Some(Err(x)) && x@ == msg,
            },
        },
{
    let mut j: usize = 0;
    while j < ns.len() && !str_eq(ns[j].kind.as_str(), "map_literal")
        invariant
            j <= ns@.len(),
            first_map_literal_from(ns@, 0) == first_map_literal_from(ns@, j as int),
        decreases ns@.len() - j,
    {
        j = j + 1;
    }
    if j == ns.len() {
        return None;
    }
    let cs = named_children_of(&ns, j);
    let ghost ci = index_seq(cs@);
    let mut result = ParamMap::new();
    let mut k: usize = 0;
    while k < cs.len()
        invariant
            k <= cs@.len(),
            j < ns@.len(),
            ci == index_seq(cs@),
            ci == named_children(ns@, j as int),
            first_map_literal_from(ns@, 0) == Some(j as int),
            forall|m: int| 0 <= m < cs@.len() ==> j < #[trigger] cs@[m] < ns@.len(),
            map_literal_pairs(ns@, ci, 0) matches Ok(all) ==> (map_literal_pairs(ns@, ci, k as int) matches Ok(
                rest,
            ) && all.len() == result.pairs().len() + rest.len() && pairs_match(
                result.pairs(),
                all.take(result.pairs().len() as int),
            ) && all.skip(result.pairs().len() as int) == rest),
            map_literal_pairs(ns@, ci, 0) is Err ==> map_literal_pairs(ns@, ci, 0) == map_literal_pairs(
                ns@,
                ci,
                k as int,
            ),
        decreases cs@.len() - k,
    {
        let e = cs[k];
        if str_eq(ns[e].kind.as_str(), "property_key_value") {
            let kn = named_child_of(&ns, e, 0);
            let xn = named_child_of(&ns, e, 1);
            match (kn, xn) {
                (Some(kn), Some(x)) => {
                    let key = trim_str(ns[kn].text.as_str());
                    let v = match named_child_of(&ns, x, 0) {
                        Some(v) => v,
                        None => x,
                    };
                    match coerce_map_value(&ns, v) {
                        Err(m) => {
                            proof {
                                assert(ci[k as int] == e as int);
                                assert(map_literal_pairs(ns@, ci, k as int) == Err::<
                                    Seq<(Seq<char>, Option<ParamView>)>,
                                    Seq<char>,
                                >(m@));
                            }
                            return Some(Err(m));
                        },
                        Ok(val) => {
                            let ghost before = result.pairs();
                            result.insert(key, val);
                            proof {
                                if map_literal_pairs(ns@, ci, 0) is Ok {
                                    let all = map_literal_pairs(ns@, ci, 0)->Ok_0;
                                    let rest = map_literal_pairs(ns@, ci, k as int)->Ok_0;
                                    assert(all.take(result.pairs().len() as int) =~= all.take(
                                        before.len() as int,
                                    ).push(rest[0]));
                                    assert(all.skip(result.pairs().len() as int) =~= rest.drop_first());
                                }
                            }
                        },
                    }
                },
                _ => {},
            }
        }
        k = k + 1;
    }
    proof {
        if map_literal_pairs(ns@, ci, 0) is Ok {
            let all = map_literal_pairs(ns@, ci, 0)->Ok_0;
            assert(all.take(result.pairs().len() as int) =~= all);
        }
    }
    Some(Ok(result))
}

/// Reads a JSON object as parameters: strings, booleans, integers and floats
/// by their value, anything else as JSON.
#[verifier::spinoff_prover]
pub fn parse_json_object_as_param_map(s: &str) -> (r: Result<ParamMap, String>)
    ensures
        match map_argument_pairs(s@) {
            Ok(expected) => cypher_syntax("RETURN "@ + s@) matches Some(ns) && first_map_literal_from(ns, 0) is None
                ==> (r matches Ok(m) && pairs_match(m.pairs(), expected)),
            Err(msg) => cypher_syntax("RETURN "@ + s@) matches Some(ns) && first_map_literal_from(ns, 0) is None
                ==> (r matches Err(x) && x@ == msg),
        },
        match crate::json::json_object(s@) {
            Ok(es) => r matches Ok(m) && pairs_match(
                m.pairs(),
                es.map_values(
                    |e: (Seq<char>, serde_json::Value)| (e.0, Some(json_param(crate::json::json_leaf_of(e.1)))),
                ),
            ),
            Err(_) => r matches Err(x) && x@ == invalid_map_message(s@),
        },
{
    let entries = match crate::json::parse_json_object(s) {
        Ok(es) => es,
        Err(_) => {
            let mut m = "invalid parameter map — expected a Cypher map literal like '{name: \"Alice\", age: 30}'\n  Got: ".to_owned();
            m.append(debug_str(s).as_str());
            m.append("\n  Hint: use --param name=value for key=value syntax");
            return Err(m);
        },
    };
    let ghost es = crate::json::json_object(s@)->Ok_0;
    let ghost expected = es.map_values(
        |e: (Seq<char>, serde_json::Value)| (e.0, Some(json_param(crate::json::json_leaf_of(e.1)))),
    );
    let mut result = ParamMap::new();
    let mut rest = entries;
    let total = rest.len();
    let mut i: usize = 0;
    while rest.len() > 0
        invariant
            i <= total,
            total == es.len(),
            rest@.map_values(|p: (String, serde_json::Value)| (p.0@, p.1)) == es.skip(i as int),
            expected == es.map_values(
                |e: (Seq<char>, serde_json::Value)| (e.0, Some(json_param(crate::json::json_leaf_of(e.1)))),
            ),
            result.pairs().len() == i,
            pairs_match(result.pairs(), expected.take(i as int)),
        decreases rest@.len(),
    {
        let ghost rv = rest@;
        let ghost rvm = rv.map_values(|p: (String, serde_json::Value)| (p.0@, p.1));
        let (k, v) = rest.remove(0);
        assert(rvm[0] == es.skip(i as int)[0]);
        assert(rest@ =~= rv.drop_first());
        assert(rest@.map_values(|p: (String, serde_json::Value)| (p.0@, p.1)) =~= rvm.drop_first());
        assert(rvm.drop_first() =~= es.skip(i + 1));
        let ghost ev = es[i as int];
        assert(k@ == ev.0 && v == ev.1);
        let val = json_param_value(v);
        let ghost before = result.pairs();
        let ghost pk = (k@, val@);
        let ghost done = expected.take(i as int);
        assert(pairs_match(before, done));
        assert(pk.1 == json_param(crate::json::json_leaf_of(ev.1)));
        result.insert(k, val);
        assert(result.pairs() == before.push(pk));
        i = i + 1;
        proof {
            let ex = expected.take(i as int);
            assert(ex[i - 1] == expected[i - 1]);
            assert(expected[i - 1] == (ev.0, Some(json_param(crate::json::json_leaf_of(ev.1)))));
            assert forall|q: int| 0 <= q < result.pairs().len() implies #[trigger] result.pairs()[q].0 == ex[q].0
                && value_matches(result.pairs()[q].1, ex[q].1) by {
                if q < i - 1 {
                    assert(result.pairs()[q] == before[q]);
                    assert(ex[q] == done[q]);
                    assert(0 <= q < before.len());
                    assert(before.len() == done.len());
                    assert(before[q].0 == done[q].0 && value_matches(before[q].1, done[q].1));
                } else {
                    assert(result.pairs()[q] == pk);
                    assert(ex[q] == expected[i - 1]);
                }
            }
        }
    }
    assert(expected.take(i as int) =~= expected);
    Ok(result)
}


// ── Building the parameters of a run ───────────────────────────────────────────

/// The message for a `--params` file that is not a JSON object.
pub open spec fn params_file_message(e: Seq<char>) -> Seq<char> {
    "--params file is not a valid JSON object: "@ + e
}

/// The parameters of a `--params` file: every value of the JSON object as JSON.
pub fn params_from_json_file(content: &str) -> (r: Result<ParamMap, String>)
    ensures
        match crate::json::json_object(content@) {
            Ok(es) => r matches Ok(m) && m.pairs() == es.map_values(
                |e: (Seq<char>, serde_json::Value)| (e.0, ParamView::Json(e.1)),
            ),
            Err(e) => r matches Err(x) && x@ == params_file_message(e),
        },
{
    let entries = match crate::json::parse_json_object(content) {
        Ok(es) => es,
        Err(e) => return Err(concat("--params file is not a valid JSON object: ", e.as_str())),
    };
    let ghost es = crate::json::json_object(content@)->Ok_0;
    let ghost expected = es.map_values(|e: (Seq<char>, serde_json::Value)| (e.0, ParamView::Json(e.1)));
    let mut result = ParamMap::new();
    let mut rest = entries;
    let total = rest.len();
    let mut i: usize = 0;
    while rest.len() > 0
        invariant
            i <= total,
            total == es.len(),
            rest@.map_values(|p: (String, serde_json::Value)| (p.0@, p.1)) == es.skip(i as int),
            expected == es.map_values(|e: (Seq<char>, serde_json::Value)| (e.0, ParamView::Json(e.1))),
            result.pairs() == expected.take(i as int),
        decreases rest@.len(),
    {
        let ghost rv = rest@;
        let ghost rvm = rv.map_values(|p: (String, serde_json::Value)| (p.0@, p.1));
        let (k, v) = rest.remove(0);
        assert(rvm[0] == es.skip(i as int)[0]);
        assert(rest@ =~= rv.drop_first());
        assert(rest@.map_values(|p: (String, serde_json::Value)| (p.0@, p.1)) =~= rvm.drop_first());
        assert(rvm.drop_first() =~= es.skip(i + 1));
        result.insert(k, ParamValue::Json(v));
        i = i + 1;
        assert(result.pairs() =~= expected.take(i as int));
    }
    assert(expected.take(i as int) =~= expected);
    Ok(result)
}

/// The insertions that `[PARAMS]`, or else the `--params` file's content, make.
pub open spec fn base_pairs(params_map: Option<Seq<char>>, params_file: Option<Seq<char>>) -> Result<
    Seq<(Seq<char>, Option<ParamView>)>,
    Seq<char>,
> {
    match params_map {
        Some(s) => map_argument_pairs(s),
        None => match params_file {
            Some(c) => match crate::json::json_object(c) {
                Ok(es) => Ok(es.map_values(|e: (Seq<char>, serde_json::Value)| (e.0, Some(ParamView::Json(e.1))))),
                Err(e) => Err(params_file_message(e)),
            },
            None => Ok(seq![]),
        },
    }
}

/// The insertions that the `--param` flags make, in order; the first flag
/// without `=` makes it an error.
pub open spec fn flag_pairs(flags: Seq<Seq<char>>) -> Result<Seq<(Seq<char>, Option<ParamView>)>, Seq<char>>
    decreases flags.len(),
{
    if flags.len() == 0 {
        Ok(seq![])
    } else {
        match flag_pairs(flags.drop_last()) {
            Err(m) => Err(m),
            Ok(ps) => match param_flag(flags.last()) {
                None => Err(param_flag_message(flags.last())),
                Some((n, v)) => Ok(ps.push((n, Some(v)))),
            },
        }
    }
}

/// The insertions that make the parameters of a run.
pub open spec fn run_param_pairs(
    params_map: Option<Seq<char>>,
    params_file: Option<Seq<char>>,
    flags: Seq<Seq<char>>,
) -> Result<Seq<(Seq<char>, Option<ParamView>)>, Seq<char>> {
    match base_pairs(params_map, params_file) {
        Err(m) => Err(m),
        Ok(b) => match flag_pairs(flags) {
            Err(m) => Err(m),
            Ok(f) => Ok(b + f),
        },
    }
}

pub open spec fn opt_text(o: Option<&str>) -> Option<Seq<char>> {
    match o {
        Some(s) => Some(s@),
        None => None,
    }
}

proof fn lemma_flag_pairs_error(flags: Seq<Seq<char>>, k: int)
    requires
        0 <= k <= flags.len(),
        flag_pairs(flags.take(k)) is Err,
    ensures
        flag_pairs(flags) == flag_pairs(flags.take(k)),
    decreases flags.len(),
{
    if k < flags.len() {
        assert(flags.drop_last().take(k) =~= flags.take(k));
        lemma_flag_pairs_error(flags.drop_last(), k);
    } else {
        assert(flags.take(k) =~= flags);
    }
}

/// The parameters of a run: those of `[PARAMS]`, or else of the `--params`
/// file's content, then each `--param` in order (a later one wins).
pub fn build_param_map(params_map: Option<&str>, params_file: Option<&str>, flags: &Vec<String>) -> (r: Result<
    ParamMap,
    String,
>)
    ensures
        match run_param_pairs(opt_text(params_map), opt_text(params_file), flags@.map_values(|f: String| f@)) {
            Ok(expected) => r matches Ok(m) && pairs_match(m.pairs(), expected),
            Err(msg) => r matches Err(x) && x@ == msg,
        },
{
    let mut params = match params_map {
        Some(s) => parse_map_literal(s)?,
        None => match params_file {
            Some(c) => {
                let m = params_from_json_file(c)?;
                proof {
                    let es = crate::json::json_object(c@)->Ok_0;
                    let b = es.map_values(|e: (Seq<char>, serde_json::Value)| (e.0, Some(ParamView::Json(e.1))));
                    assert forall|q: int| 0 <= q < m.pairs().len() implies #[trigger] m.pairs()[q].0 == b[q].0
                        && value_matches(m.pairs()[q].1, b[q].1) by {}
                }
                m
            },
            None => {
                let m = ParamMap::new();
                m
            },
        },
    };
    let ghost base = base_pairs(opt_text(params_map), opt_text(params_file))->Ok_0;
    push_flags(&mut params, flags, Ghost(base))?;
    Ok(params)
}

/// Sets each `--param` in order, after the insertions `base` already made.
pub(crate) fn push_flags(params: &mut ParamMap, flags: &Vec<String>, base: Ghost<Seq<(Seq<char>, Option<ParamView>)>>) -> (r:
    Result<(), String>)
    requires
        pairs_match(old(params).pairs(), base@),
    ensures
        match flag_pairs(flags@.map_values(|f: String| f@)) {
            Ok(f) => r is Ok && pairs_match(final(params).pairs(), base@ + f),
            Err(msg) => r matches Err(x) && x@ == msg,
        },
{
    let ghost fs = flags@.map_values(|f: String| f@);
    assert(flag_pairs(fs.take(0)) == Ok::<Seq<(Seq<char>, Option<ParamView>)>, Seq<char>>(seq![])) by {
        assert(fs.take(0) =~= Seq::<Seq<char>>::empty());
    }
    assert(base@ + seq![] =~= base@);
    let mut i: usize = 0;
    while i < flags.len()
        invariant
            i <= flags@.len(),
            fs == flags@.map_values(|f: String| f@),
            flag_pairs(fs.take(i as int)) matches Ok(f) && pairs_match(params.pairs(), base@ + f),
        decreases flags@.len() - i,
    {
        assert(fs.take(i + 1).drop_last() =~= fs.take(i as int));
        assert(fs.take(i + 1).last() == flags@[i as int]@);
        match parse_param_flag(flags[i].as_str()) {
            Ok((k, v)) => {
                let ghost before = params.pairs();
                let ghost f = flag_pairs(fs.take(i as int))->Ok_0;
                params.insert(k, v);
                proof {
                    let f2 = flag_pairs(fs.take(i + 1))->Ok_0;
                    assert(f2 == f.push((k@, Some(v@))));
                    assert(base@ + f2 =~= (base@ + f).push((k@, Some(v@))));
                    assert forall|q: int| 0 <= q < params.pairs().len() implies #[trigger] params.pairs()[q].0 == (
                    base@ + f2)[q].0 && value_matches(params.pairs()[q].1, (base@ + f2)[q].1) by {
                        if q < before.len() {
                            assert(params.pairs()[q] == before[q]);
                        }
                    }
                }
            },
            Err(e) => {
                let m = e.message();
                proof {
                    lemma_flag_pairs_error(fs, i + 1);
                }
                return Err(m);
            },
        }
        i = i + 1;
    }
    assert(fs.take(flags@.len() as int) =~= fs);
    Ok(())
}


// ── The parameter check made before connecting ─────────────────────────────────

/// Strictly increasing in the order of `seq_less`.
pub open spec fn sorted_views(q: Seq<Seq<char>>) -> bool {
    forall|i: int, j: int| 0 <= i < j < q.len() ==> seq_less(q[i], q[j])
}

/// The elements of a finite set of names in increasing order.
pub open spec fn sorted_list_of(s: Set<Seq<char>>) -> Seq<Seq<char>> {
    choose|q: Seq<Seq<char>>| sorted_views(q) && q.to_set() == s
}

proof fn lemma_sorted_unique(a: Seq<Seq<char>>, b: Seq<Seq<char>>)
    requires
        sorted_views(a),
        sorted_views(b),
        a.to_set() == b.to_set(),
    ensures
        a == b,
    decreases a.len(),
{
    if a.len() == 0 {
        if b.len() > 0 {
            assert(b.to_set().contains(b[0]));
        }
        assert(a =~= b);
    } else {
        assert(a.to_set().contains(a[0]));
        assert(b.len() > 0);
        assert(b.to_set().contains(b[0]));
        let j = choose|j: int| 0 <= j < b.len() && b[j] == a[0];
        let i = choose|i: int| 0 <= i < a.len() && a[i] == b[0];
        if j > 0 {
            if i > 0 {
                lemma_less_asymmetric(a[0], a[i]);
            } else {
                lemma_less_irreflexive(b[0]);
            }
        }
        assert(a[0] == b[0]);
        let a1 = a.drop_first();
        let b1 = b.drop_first();
        assert forall|x: Seq<char>| a1.to_set().contains(x) <==> b1.to_set().contains(x) by {
            if a1.to_set().contains(x) {
                let k = choose|k: int| 0 <= k < a1.len() && a1[k] == x;
                assert(a[k + 1] == x);
                lemma_less_irreflexive(x);
                assert(b.to_set().contains(x));
                let m = choose|m: int| 0 <= m < b.len() && b[m] == x;
                if m == 0 {
                    assert(seq_less(a[0], a[k + 1]));
                }
                assert(b1[m - 1] == x);
            }
            if b1.to_set().contains(x) {
                let k = choose|k: int| 0 <= k < b1.len() && b1[k] == x;
                assert(b[k + 1] == x);
                lemma_less_irreflexive(x);
                assert(a.to_set().contains(x));
                let m = choose|m: int| 0 <= m < a.len() && a[m] == x;
                if m == 0 {
                    assert(seq_less(b[0], b[k + 1]));
                }
                assert(a1[m - 1] == x);
            }
        }
        assert(a1.to_set() =~= b1.to_set());
        lemma_sorted_unique(a1, b1);
        assert(a =~= seq![a[0]] + a1);
        assert(b =~= seq![b[0]] + b1);
    }
}

pub open spec fn views_of(v: Seq<String>) -> Seq<Seq<char>> {
    v.map_values(|s: String| s@)
}

proof fn lemma_strings_set_push(v: Seq<String>, x: String)
    ensures
        strings_set(v.push(x)) == strings_set(v).insert(x@),
{
    let w = v.push(x);
    assert forall|y: Seq<char>| strings_set(w).contains(y) <==> strings_set(v).insert(x@).contains(y) by {
        if strings_set(w).contains(y) {
            let k = choose|k: int| 0 <= k < w.len() && #[trigger] w[k]@ == y;
            if k < v.len() {
                assert(v[k]@ == y);
            }
        }
        if strings_set(v).contains(y) {
            let k = choose|k: int| 0 <= k < v.len() && #[trigger] v[k]@ == y;
            assert(w[k]@ == y);
        }
        if y == x@ {
            assert(w[v.len() as int]@ == y);
        }
    }
    assert(strings_set(w) =~= strings_set(v).insert(x@));
}

proof fn lemma_strings_set_take(v: Seq<String>, k: int)
    requires
        0 <= k < v.len(),
    ensures
        strings_set(v.take(k + 1)) == strings_set(v.take(k)).insert(v[k]@),
{
    assert(v.take(k + 1) =~= v.take(k).push(v[k]));
    lemma_strings_set_push(v.take(k), v[k]);
}

proof fn lemma_sorted_list_of(v: Seq<String>, s: Set<Seq<char>>)
    requires
        strictly_sorted(v),
        strings_set(v) == s,
    ensures
        views_of(v) == sorted_list_of(s),
{
    let q = views_of(v);
    assert(sorted_views(q));
    assert forall|y: Seq<char>| q.to_set().contains(y) <==> s.contains(y) by {
        if q.to_set().contains(y) {
            let k = choose|k: int| 0 <= k < q.len() && q[k] == y;
            assert(v[k]@ == y);
        }
        if s.contains(y) {
            let k = choose|k: int| 0 <= k < v.len() && #[trigger] v[k]@ == y;
            assert(q[k] == y);
        }
    }
    assert(q.to_set() =~= s);
    let c = sorted_list_of(s);
    assert(sorted_views(c) && c.to_set() == s);
    lemma_sorted_unique(q, c);
}

/// A parameter that a statement needs and the run does not set: by its
/// cypherdoc (`documented`), or by a `$name` reference.
#[derive(Debug)]
pub struct MissingParam {
    pub entry: usize,
    pub name: String,
    pub documented: bool,
}

pub struct MissingView {
    pub entry: int,
    pub name: Seq<char>,
    pub documented: bool,
}

impl View for MissingParam {
    type V = MissingView;

    open spec fn view(&self) -> MissingView {
        MissingView { entry: self.entry as int, name: self.name@, documented: self.documented }
    }
}

/// The outcome of the parameter check: what is missing, and which set
/// parameters no statement refers to.
#[derive(Debug)]
pub struct ParamCheck {
    pub missing: Vec<MissingParam>,
    pub unused: Vec<String>,
}

pub open spec fn declared(d: CypherDocView, n: Seq<char>) -> bool {
    exists|k: int| 0 <= k < d.params.len() && #[trigger] d.params[k].name == n
}

/// The missing parameters of statement `i`: with a cypherdoc, its required
/// parameters that are not set, then the references it does not declare that
/// are not set; without one, every reference that is not set. References come
/// in increasing order.
pub open spec fn missing_of(i: int, e: EntryView, set: Set<Seq<char>>) -> Seq<MissingView> {
    let refs = sorted_list_of(param_refs(e.text));
    match e.doc {
        Some(d) => d.params.filter(|p: ParamDeclView| p.required && !set.contains(p.name)).map_values(
            |p: ParamDeclView| MissingView { entry: i, name: p.name, documented: true },
        ) + refs.filter(|n: Seq<char>| !declared(d, n) && !set.contains(n)).map_values(
            |n: Seq<char>| MissingView { entry: i, name: n, documented: false },
        ),
        None => refs.filter(|n: Seq<char>| !set.contains(n)).map_values(
            |n: Seq<char>| MissingView { entry: i, name: n, documented: false },
        ),
    }
}

pub open spec fn missing_all(es: Seq<EntryView>, set: Set<Seq<char>>) -> Seq<MissingView>
    decreases es.len(),
{
    if es.len() == 0 {
        seq![]
    } else {
        missing_all(es.drop_last(), set) + missing_of(es.len() - 1, es.last(), set)
    }
}

proof fn lemma_split_point(q: Seq<Seq<char>>, x: Seq<char>) -> (k: int)
    requires
        sorted_views(q),
        !q.contains(x),
    ensures
        0 <= k <= q.len(),
        forall|i: int| 0 <= i < k ==> seq_less(#[trigger] q[i], x),
        forall|i: int| k <= i < q.len() ==> seq_less(x, #[trigger] q[i]),
    decreases q.len(),
{
    if q.len() == 0 {
        0
    } else if seq_less(q.last(), x) {
        assert forall|i: int| 0 <= i < q.len() implies seq_less(#[trigger] q[i], x) by {
            if i < q.len() - 1 {
                lemma_less_transitive(q[i], q.last(), x);
            }
        }
        q.len() as int
    } else {
        lemma_less_total(q.last(), x);
        assert(q.last() != x);
        let p = q.drop_last();
        assert forall|i: int, j: int| 0 <= i < j < p.len() implies seq_less(p[i], p[j]) by {
            assert(p[i] == q[i] && p[j] == q[j]);
        }
        assert(!p.contains(x)) by {
            if p.contains(x) {
                let i = choose|i: int| 0 <= i < p.len() && p[i] == x;
                assert(q[i] == x);
            }
        }
        let k = lemma_split_point(p, x);
        assert forall|i: int| k <= i < q.len() implies seq_less(x, #[trigger] q[i]) by {
            if i < q.len() - 1 {
                assert(q[i] == p[i]);
            }
        }
        assert forall|i: int| 0 <= i < k implies seq_less(#[trigger] q[i], x) by {
            assert(q[i] == p[i]);
        }
        k
    }
}

proof fn lemma_sorted_list_exists(s: Set<Seq<char>>)
    requires
        s.finite(),
    ensures
        exists|q: Seq<Seq<char>>| sorted_views(q) && q.to_set() == s,
    decreases s.len(),
{
    if s.len() == 0 {
        let q = Seq::<Seq<char>>::empty();
        assert(q.to_set() =~= s);
        assert(sorted_views(q));
    } else {
        let x = s.choose();
        let r = s.remove(x);
        lemma_sorted_list_exists(r);
        let q = choose|q: Seq<Seq<char>>| sorted_views(q) && q.to_set() == r;
        assert(!q.contains(x)) by {
            if q.contains(x) {
                assert(q.to_set().contains(x));
            }
        }
        let k = lemma_split_point(q, x);
        let q2 = q.insert(k, x);
        assert forall|i: int, j: int| 0 <= i < j < q2.len() implies seq_less(q2[i], q2[j]) by {
            if j < k {
                assert(q2[i] == q[i] && q2[j] == q[j]);
            } else if j == k {
                assert(q2[i] == q[i] && q2[j] == x);
            } else if i < k {
                assert(q2[i] == q[i] && q2[j] == q[j - 1]);
            } else if i == k {
                assert(q2[i] == x && q2[j] == q[j - 1]);
            } else {
                assert(q2[i] == q[i - 1] && q2[j] == q[j - 1]);
            }
        }
        assert forall|y: Seq<char>| q2.to_set().contains(y) <==> s.contains(y) by {
            if q2.to_set().contains(y) {
                let i = choose|i: int| 0 <= i < q2.len() && q2[i] == y;
                if i < k {
                    assert(q[i] == y && q.to_set().contains(y));
                } else if i > k {
                    assert(q[i - 1] == y && q.to_set().contains(y));
                }
            }
            if s.contains(y) {
                if y == x {
                    assert(q2[k] == y);
                } else {
                    assert(r.contains(y));
                    assert(q.to_set().contains(y));
                    let i = choose|i: int| 0 <= i < q.len() && q[i] == y;
                    if i < k {
                        assert(q2[i] == y);
                    } else {
                        assert(q2[i + 1] == y);
                    }
                }
            }
        }
        assert(q2.to_set() =~= s);
    }
}

proof fn lemma_param_refs_listed(text: Seq<char>)
    ensures
        sorted_views(sorted_list_of(param_refs(text))),
        forall|n: Seq<char>| #[trigger] sorted_list_of(param_refs(text)).contains(n) <==> param_refs(text).contains(n),
{
    let s = param_refs(text);
    if let Some(ns) = cypher_syntax(text) {
        let all = Seq::new(ns.len(), |j: int| strip_leading(ns[j].text@, '$'));
        assert(s.subset_of(all.to_set())) by {
            assert forall|n: Seq<char>| s.contains(n) implies all.to_set().contains(n) by {
                let j = choose|j: int|
                    0 <= j < ns.len() && ns[j].kind@ == "parameter"@ && #[trigger] strip_leading(ns[j].text@, '$') == n
                        && n.len() > 0;
                assert(all[j] == n);
            }
        }
        vstd::seq_lib::seq_to_set_is_finite(all);
        vstd::set_lib::lemma_set_subset_finite(all.to_set(), s);
    } else {
        assert(s =~= Set::<Seq<char>>::empty());
    }
    lemma_sorted_list_exists(s);
    let q = sorted_list_of(s);
    assert forall|n: Seq<char>| #[trigger] q.contains(n) <==> s.contains(n) by {
        assert(q.to_set().contains(n) <==> q.contains(n));
    }
}

/// A statement lacks a parameter when, with a cypherdoc, a required
/// parameter is not set or a reference that it does not declare is not set;
/// without one, when a reference is not set.
pub open spec fn lacks_param(e: EntryView, set: Set<Seq<char>>) -> bool {
    match e.doc {
        Some(d) => (exists|k: int|
            0 <= k < d.params.len() && (#[trigger] d.params[k]).required && !set.contains(d.params[k].name)) || (
        exists|n: Seq<char>| #[trigger] param_refs(e.text).contains(n) && !declared(d, n) && !set.contains(n)),
        None => exists|n: Seq<char>| #[trigger] param_refs(e.text).contains(n) && !set.contains(n),
    }
}

proof fn lemma_filter_nonempty<A>(s: Seq<A>, pred: spec_fn(A) -> bool)
    ensures
        s.filter(pred).len() > 0 <==> exists|i: int| 0 <= i < s.len() && pred(#[trigger] s[i]),
{
    broadcast use vstd::seq_lib::group_filter_ensures;

    if s.filter(pred).len() > 0 {
        let y = s.filter(pred)[0];
        assert(s.filter(pred).contains(y));
        s.lemma_filter_contains_rev(pred, y);
        let i = choose|i: int| 0 <= i < s.len() && s[i] == y;
        assert(pred(s[i]));
    }
    if exists|i: int| 0 <= i < s.len() && pred(#[trigger] s[i]) {
        let i = choose|i: int| 0 <= i < s.len() && pred(#[trigger] s[i]);
        s.lemma_filter_contains(pred, i);
    }
}

proof fn lemma_missing_of_nonempty(i: int, e: EntryView, set: Set<Seq<char>>)
    ensures
        missing_of(i, e, set).len() > 0 <==> lacks_param(e, set),
{
    let refs = sorted_list_of(param_refs(e.text));
    lemma_param_refs_listed(e.text);
    match e.doc {
        Some(d) => {
            let pp = |p: ParamDeclView| p.required && !set.contains(p.name);
            let pn = |n: Seq<char>| !declared(d, n) && !set.contains(n);
            lemma_filter_nonempty(d.params, pp);
            lemma_filter_nonempty(refs, pn);
            if exists|n: Seq<char>| #[trigger] param_refs(e.text).contains(n) && !declared(d, n) && !set.contains(n) {
                let n = choose|n: Seq<char>| #[trigger] param_refs(e.text).contains(n) && !declared(d, n) && !set.contains(n);
                assert(refs.contains(n));
                let j = choose|j: int| 0 <= j < refs.len() && refs[j] == n;
                assert(pn(refs[j]));
            }
            if exists|j: int| 0 <= j < refs.len() && pn(#[trigger] refs[j]) {
                let j = choose|j: int| 0 <= j < refs.len() && pn(#[trigger] refs[j]);
                assert(refs.contains(refs[j]));
                assert(param_refs(e.text).contains(refs[j]));
            }
        },
        None => {
            let pn = |n: Seq<char>| !set.contains(n);
            lemma_filter_nonempty(refs, pn);
            if exists|n: Seq<char>| #[trigger] param_refs(e.text).contains(n) && !set.contains(n) {
                let n = choose|n: Seq<char>| #[trigger] param_refs(e.text).contains(n) && !set.contains(n);
                assert(refs.contains(n));
                let j = choose|j: int| 0 <= j < refs.len() && refs[j] == n;
                assert(pn(refs[j]));
            }
            if exists|j: int| 0 <= j < refs.len() && pn(#[trigger] refs[j]) {
                let j = choose|j: int| 0 <= j < refs.len() && pn(#[trigger] refs[j]);
                assert(refs.contains(refs[j]));
                assert(param_refs(e.text).contains(refs[j]));
            }
        },
    }
}

/// The check made before connecting reports a missing parameter exactly when
/// some statement lacks one: optional parameters that are not set, and
/// references that are set, are no miss.
pub proof fn lemma_missing_iff(es: Seq<EntryView>, set: Set<Seq<char>>)
    ensures
        missing_all(es, set).len() > 0 <==> exists|i: int| 0 <= i < es.len() && lacks_param(#[trigger] es[i], set),
    decreases es.len(),
{
    if es.len() > 0 {
        let p = es.drop_last();
        lemma_missing_iff(p, set);
        lemma_missing_of_nonempty(es.len() - 1, es.last(), set);
        if exists|i: int| 0 <= i < p.len() && lacks_param(#[trigger] p[i], set) {
            let i = choose|i: int| 0 <= i < p.len() && lacks_param(#[trigger] p[i], set);
            assert(es[i] == p[i]);
        }
        if exists|i: int| 0 <= i < es.len() && lacks_param(#[trigger] es[i], set) {
            let i = choose|i: int| 0 <= i < es.len() && lacks_param(#[trigger] es[i], set);
            if i < es.len() - 1 {
                assert(p[i] == es[i]);
            }
        }
    }
}

/// Every parameter that some statement refers to.
pub open spec fn all_refs(es: Seq<EntryView>) -> Set<Seq<char>>
    decreases es.len(),
{
    if es.len() == 0 {
        Set::empty()
    } else {
        all_refs(es.drop_last()).union(param_refs(es.last().text))
    }
}

fn push_filtered_decls(
    out: &mut Vec<MissingParam>,
    i: usize,
    decls: &Vec<ParamDecl>,
    params: &ParamMap,
)
    ensures
        missing_views(final(out)@) == missing_views(old(out)@) + decls_view(decls@).filter(
            |p: ParamDeclView| p.required && !params@.contains_key(p.name),
        ).map_values(|p: ParamDeclView| MissingView { entry: i as int, name: p.name, documented: true }),
{
    let ghost o = missing_views(out@);
    let ghost ds = decls_view(decls@);
    let ghost pred = |p: ParamDeclView| p.required && !params@.contains_key(p.name);
    let ghost f = |p: ParamDeclView| MissingView { entry: i as int, name: p.name, documented: true };
    let mut k: usize = 0;
    assert(ds.take(0).filter(pred) =~= Seq::<ParamDeclView>::empty()) by {
        reveal_with_fuel(Seq::filter, 1);
    }
    assert(missing_views(out@) =~= o + ds.take(0).filter(pred).map_values(f));
    while k < decls.len()
        invariant
            k <= decls@.len(),
            ds == decls_view(decls@),
            pred == (|p: ParamDeclView| p.required && !params@.contains_key(p.name)),
            f == (|p: ParamDeclView| MissingView { entry: i as int, name: p.name, documented: true }),
            missing_views(out@) == o + ds.take(k as int).filter(pred).map_values(f),
        decreases decls@.len() - k,
    {
        let ghost before = missing_views(out@);
        assert(ds.take(k + 1).drop_last() =~= ds.take(k as int));
        assert(ds.take(k + 1).last() == ds[k as int]);
        assert(ds.take(k + 1).filter(pred) == if pred(ds[k as int]) {
            ds.take(k as int).filter(pred).push(ds[k as int])
        } else {
            ds.take(k as int).filter(pred)
        }) by {
            reveal_with_fuel(Seq::filter, 1);
        }
        if decls[k].required && !params.contains_key(decls[k].name.as_str()) {
            out.push(MissingParam { entry: i, name: decls[k].name.clone(), documented: true });
            assert(missing_views(out@) =~= o + ds.take(k + 1).filter(pred).map_values(f)) by {
                assert(missing_views(out@) =~= before.push(f(ds[k as int])));
                assert(ds.take(k + 1).filter(pred).map_values(f) =~= ds.take(k as int).filter(pred).map_values(
                    f,
                ).push(f(ds[k as int])));
            }
        }
        k = k + 1;
    }
    assert(ds.take(decls@.len() as int) =~= ds);
}

pub open spec fn missing_views(v: Seq<MissingParam>) -> Seq<MissingView> {
    v.map_values(|m: MissingParam| m@)
}

fn decl_names_contain(decls: &Vec<ParamDecl>, n: &str) -> (r: bool)
    ensures
        r == (exists|k: int| 0 <= k < decls@.len() && #[trigger] decls_view(decls@)[k].name == n@),
{
    let mut k: usize = 0;
    while k < decls.len()
        invariant
            k <= decls@.len(),
            forall|q: int| 0 <= q < k ==> #[trigger] decls_view(decls@)[q].name != n@,
        decreases decls@.len() - k,
    {
        if str_eq(decls[k].name.as_str(), n) {
            assert(decls_view(decls@)[k as int].name == n@);
            return true;
        }
        k = k + 1;
    }
    false
}

fn push_filtered_refs(
    out: &mut Vec<MissingParam>,
    i: usize,
    refs: &Vec<String>,
    decls: Option<&Vec<ParamDecl>>,
    params: &ParamMap,
)
    ensures
        ({
            let pred = match decls {
                Some(ds) => |n: Seq<char>|
                    !(exists|k: int| 0 <= k < ds@.len() && #[trigger] decls_view(ds@)[k].name == n)
                        && !params@.contains_key(n),
                None => |n: Seq<char>| !params@.contains_key(n),
            };
            missing_views(final(out)@) == missing_views(old(out)@) + views_of(refs@).filter(pred).map_values(
                |n: Seq<char>| MissingView { entry: i as int, name: n, documented: false },
            )
        }),
{
    let ghost o = missing_views(out@);
    let ghost rs = views_of(refs@);
    let ghost pred = match decls {
        Some(ds) => |n: Seq<char>|
            !(exists|k: int| 0 <= k < ds@.len() && #[trigger] decls_view(ds@)[k].name == n) && !params@.contains_key(n),
        None => |n: Seq<char>| !params@.contains_key(n),
    };
    let ghost f = |n: Seq<char>| MissingView { entry: i as int, name: n, documented: false };
    assert(rs.take(0).filter(pred) =~= Seq::<Seq<char>>::empty()) by {
        reveal_with_fuel(Seq::filter, 1);
    }
    assert(missing_views(out@) =~= o + rs.take(0).filter(pred).map_values(f));
    let mut k: usize = 0;
    while k < refs.len()
        invariant
            k <= refs@.len(),
            rs == views_of(refs@),
            pred == match decls {
                Some(ds) => |n: Seq<char>|
                    !(exists|k: int| 0 <= k < ds@.len() && #[trigger] decls_view(ds@)[k].name == n)
                        && !params@.contains_key(n),
                None => |n: Seq<char>| !params@.contains_key(n),
            },
            f == (|n: Seq<char>| MissingView { entry: i as int, name: n, documented: false }),
            missing_views(out@) == o + rs.take(k as int).filter(pred).map_values(f),
        decreases refs@.len() - k,
    {
        let ghost before = missing_views(out@);
        assert(rs.take(k + 1).drop_last() =~= rs.take(k as int));
        assert(rs.take(k + 1).last() == rs[k as int]);
        assert(rs.take(k + 1).filter(pred) == if pred(rs[k as int]) {
            rs.take(k as int).filter(pred).push(rs[k as int])
        } else {
            rs.take(k as int).filter(pred)
        }) by {
            reveal_with_fuel(Seq::filter, 1);
        }
        let n = refs[k].as_str();
        let keep = match decls {
            Some(ds) => !decl_names_contain(ds, n) && !params.contains_key(n),
            None => !params.contains_key(n),
        };
        assert(keep == pred(rs[k as int]));
        if keep {
            out.push(MissingParam { entry: i, name: refs[k].clone(), documented: false });
            assert(missing_views(out@) =~= o + rs.take(k + 1).filter(pred).map_values(f)) by {
                assert(missing_views(out@) =~= before.push(f(rs[k as int])));
                assert(rs.take(k + 1).filter(pred).map_values(f) =~= rs.take(k as int).filter(pred).map_values(
                    f,
                ).push(f(rs[k as int])));
            }
        }
        k = k + 1;
    }
    assert(rs.take(refs@.len() as int) =~= rs);
}

/// The parameter check made before connecting: the missing parameters of
/// every statement, in order, and the set parameters (sorted) that no
/// statement refers to.
pub fn check_params(queue: &Vec<StatementEntry>, params: &ParamMap) -> (r: ParamCheck)
    ensures
        missing_views(r.missing@) == missing_all(entries_view(queue@), params@.dom()),
        strictly_sorted(r.unused@),
        strings_set(r.unused@) == params@.dom().filter(|k: Seq<char>| !all_refs(entries_view(queue@)).contains(k)),
{
    let ghost es = entries_view(queue@);
    let mut missing: Vec<MissingParam> = Vec::new();
    let mut refs_all: Vec<String> = Vec::new();
    assert(missing_views(missing@) =~= missing_all(es.take(0), params@.dom()));
    assert(strings_set(refs_all@) =~= all_refs(es.take(0)));
    let mut i: usize = 0;
    while i < queue.len()
        invariant
            i <= queue@.len(),
            es == entries_view(queue@),
            missing_views(missing@) == missing_all(es.take(i as int), params@.dom()),
            strictly_sorted(refs_all@),
            strings_set(refs_all@) == all_refs(es.take(i as int)),
        decreases queue@.len() - i,
    {
        assert(es.take(i + 1).drop_last() =~= es.take(i as int));
        assert(es.take(i + 1).last() == es[i as int]);
        let refs = collect_param_refs(queue[i].text.as_str());
        proof {
            lemma_sorted_list_of(refs@, param_refs(queue@[i as int].text@));
        }
        let ghost before_all = strings_set(refs_all@);
        let mut k: usize = 0;
        while k < refs.len()
            invariant
                k <= refs@.len(),
                strictly_sorted(refs_all@),
                strings_set(refs_all@) == before_all.union(strings_set(refs@.take(k as int))),
            decreases refs@.len() - k,
        {
            insert_sorted(&mut refs_all, refs[k].clone());
            proof {
                lemma_strings_set_take(refs@, k as int);
            }
            k = k + 1;
        }
        assert(refs@.take(refs@.len() as int) =~= refs@);
        let ghost mbefore = missing_views(missing@);
        match &queue[i].doc {
            Some(d) => {
                push_filtered_decls(&mut missing, i, &d.params, params);
                push_filtered_refs(&mut missing, i, &refs, Some(&d.params), params);
                proof {
                    let dv = d@;
                    let p1 = |n: Seq<char>|
                        !(exists|k: int| 0 <= k < d.params@.len() && #[trigger] decls_view(d.params@)[k].name == n)
                            && !params@.contains_key(n);
                    let p2 = |n: Seq<char>| !declared(dv, n) && !params@.dom().contains(n);
                    assert(p1 =~= p2);
                    let q1 = |p: ParamDeclView| p.required && !params@.contains_key(p.name);
                    let q2 = |p: ParamDeclView| p.required && !params@.dom().contains(p.name);
                    assert(q1 =~= q2);
                }
            },
            None => {
                push_filtered_refs(&mut missing, i, &refs, None, params);
                proof {
                    let p1 = |n: Seq<char>| !params@.contains_key(n);
                    let p2 = |n: Seq<char>| !params@.dom().contains(n);
                    assert(p1 =~= p2);
                }
            },
        }
        assert(missing_views(missing@) =~= missing_all(es.take(i + 1), params@.dom()));
        i = i + 1;
    }
    assert(es.take(queue@.len() as int) =~= es);
    let keys = params.keys();
    let mut unused: Vec<String> = Vec::new();
    let ghost allr = all_refs(es);
    assert(strings_set(unused@) =~= strings_set(keys@.take(0)).filter(|k: Seq<char>| !allr.contains(k)));
    let mut k: usize = 0;
    while k < keys.len()
        invariant
            k <= keys@.len(),
            strictly_sorted(keys@),
            strictly_sorted(unused@),
            strings_set(refs_all@) == allr,
            strings_set(unused@) == strings_set(keys@.take(k as int)).filter(|x: Seq<char>| !allr.contains(x)),
            forall|a: int, b: int| 0 <= a < unused@.len() && k <= b < keys@.len() ==> seq_less(unused@[a]@, keys@[b]@),
        decreases keys@.len() - k,
    {
        let name = keys[k].as_str();
        let mut found = false;
        let mut m: usize = 0;
        while m < refs_all.len()
            invariant
                m <= refs_all@.len(),
                found == (exists|q: int| 0 <= q < m && #[trigger] refs_all@[q]@ == name@),
            decreases refs_all@.len() - m,
        {
            if str_eq(refs_all[m].as_str(), name) {
                found = true;
            }
            m = m + 1;
        }
        let ghost before = unused@;
        if !found {
            unused.push(keys[k].clone());
            proof {
                assert forall|a: int, b: int| 0 <= a < b < unused@.len() implies seq_less(unused@[a]@, unused@[b]@) by {
                    if b == unused@.len() - 1 {
                        assert(unused@[b]@ == keys@[k as int]@);
                    }
                }
            }
        }
        proof {
            lemma_strings_set_take(keys@, k as int);
            if !found {
                assert(unused@ =~= before.push(unused@.last()));
                lemma_strings_set_push(before, unused@.last());
            }
            assert(found == allr.contains(name@));
            assert forall|a: int, b: int| 0 <= a < unused@.len() && k + 1 <= b < keys@.len() implies seq_less(
                unused@[a]@,
                keys@[b]@,
            ) by {
                if a < before.len() {
                    assert(unused@[a] == before[a]);
                } else {
                    assert(unused@[a]@ == keys@[k as int]@);
                }
            }
            assert(strings_set(unused@) =~= strings_set(keys@.take(k + 1)).filter(|x: Seq<char>| !allr.contains(x)));
        }
        k = k + 1;
    }
    assert(keys@.take(keys@.len() as int) =~= keys@);
    ParamCheck { missing: missing, unused: unused }
}

} // verus!
