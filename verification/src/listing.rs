//! The text that `relate query` shows without running anything: cypherdoc
//! hints, statement lists, documentation, and the summaries of results.
use vstd::prelude::*;
use crate::query::{CypherDoc, CypherDocView, EntryView, ParamDecl, ParamDeclView, StatementEntry, entries_view, decls_view};
use vstd::string::StringSliceAdditionalSpecFns;
use crate::text::{concat, decimal, decimal_string, first_line, first_line_of, join, join_strings};

verus! {

// ── Write summaries ────────────────────────────────────────────────────────────

/// The counters that a statement's execution reports.
#[derive(PartialEq, Eq, Structural, Clone, Copy, Debug)]
pub struct QuerySummary {
    pub nodes_created: u64,
    pub nodes_deleted: u64,
    pub relationships_created: u64,
    pub relationships_deleted: u64,
    pub properties_set: u64,
    pub labels_added: u64,
}

impl Default for QuerySummary {
    fn default() -> (r: QuerySummary)
        ensures
            r == (QuerySummary {
                nodes_created: 0,
                nodes_deleted: 0,
                relationships_created: 0,
                relationships_deleted: 0,
                properties_set: 0,
                labels_added: 0,
            }),
    {
        QuerySummary {
            nodes_created: 0,
            nodes_deleted: 0,
            relationships_created: 0,
            relationships_deleted: 0,
            properties_set: 0,
            labels_added: 0,
        }
    }
}

/// `verb n noun` when `n` is not zero, nothing otherwise.
pub open spec fn count_part(n: u64, verb: Seq<char>, noun: Seq<char>) -> Seq<Seq<char>> {
    if n > 0 {
        seq![verb + " "@ + decimal(n as nat) + " "@ + noun]
    } else {
        seq![]
    }
}

/// The non-zero counters, in a fixed order, in words.
pub open spec fn summary_parts(s: QuerySummary) -> Seq<Seq<char>> {
    count_part(s.nodes_created, "created"@, "node(s)"@) + count_part(s.nodes_deleted, "deleted"@, "node(s)"@)
        + count_part(s.relationships_created, "created"@, "relationship(s)"@) + count_part(
        s.relationships_deleted,
        "deleted"@,
        "relationship(s)"@,
    ) + count_part(s.properties_set, "set"@, "property(ies)"@) + count_part(s.labels_added, "added"@, "label(s)"@)
}

pub open spec fn summary_text(s: QuerySummary) -> Seq<char> {
    join(summary_parts(s), ", "@)
}

pub open spec fn strings_view(v: Seq<String>) -> Seq<Seq<char>> {
    v.map_values(|s: String| s@)
}

fn push_count(parts: &mut Vec<String>, n: u64, verb: &str, noun: &str)
    ensures
        strings_view(final(parts)@) == strings_view(old(parts)@) + count_part(n, verb@, noun@),
{
    if n > 0 {
        let mut s = concat(verb, " ");
        let d = decimal_string(n);
        s = concat(s.as_str(), d.as_str());
        s = concat(s.as_str(), " ");
        s = concat(s.as_str(), noun);
        let ghost before = parts@;
        parts.push(s);
        proof {
            reveal_strlit(" ");
        }
        assert(strings_view(parts@) =~= strings_view(before) + count_part(n, verb@, noun@));
    } else {
        assert(strings_view(parts@) =~= strings_view(parts@) + count_part(n, verb@, noun@));
    }
}

/// The counters in words, joined by `, `; empty when all are zero.
pub fn format_summary(s: &QuerySummary) -> (r: String)
    ensures
        r@ == summary_text(*s),
{
    let mut parts: Vec<String> = Vec::new();
    assert(strings_view(parts@) =~= seq![]);
    push_count(&mut parts, s.nodes_created, "created", "node(s)");
    push_count(&mut parts, s.nodes_deleted, "deleted", "node(s)");
    push_count(&mut parts, s.relationships_created, "created", "relationship(s)");
    push_count(&mut parts, s.relationships_deleted, "deleted", "relationship(s)");
    push_count(&mut parts, s.properties_set, "set", "property(ies)");
    push_count(&mut parts, s.labels_added, "added", "label(s)");
    assert(strings_view(parts@) =~= summary_parts(*s));
    let r = join_strings(&parts, ", ");
    assert(parts@.map_values(|s: String| s@) =~= strings_view(parts@));
    r
}

/// The ASCII uppercase of a letter `a` to `z`; any other character unchanged.
pub open spec fn ascii_upper(c: char) -> char {
    if 'a' <= c && c <= 'z' {
        ((c as u32) - 32) as char
    } else {
        c
    }
}

/// The ASCII uppercase of a character, as `char::to_ascii_uppercase` gives it.
fn upper_ascii(c: char) -> (r: char)
    ensures
        r == ascii_upper(c),
{
    if 'a' <= c && c <= 'z' {
        let b = c as u8;
        assert(b == c as u32);
        (b - 32) as char
    } else {
        c
    }
}

/// The line shown for a statement that returned no rows: its summary with a
/// capital and a full stop, else whether it wrote.
pub open spec fn no_rows_text(s: QuerySummary, is_write: bool) -> Seq<char> {
    let t = summary_text(s);
    if t.len() > 0 {
        seq![ascii_upper(t[0])] + t.skip(1) + "."@
    } else if is_write {
        "(write completed)"@
    } else {
        "(no rows returned)"@
    }
}

pub fn no_rows_caption(s: &QuerySummary, is_write: bool) -> (r: String)
    ensures
        r@ == no_rows_text(*s, is_write),
{
    let t = format_summary(s);
    let cs = crate::text::chars_of(t.as_str());
    if cs.len() > 0 {
        let mut out = String::new();
        crate::text::push_char(&mut out, upper_ascii(cs[0]));
        let mut i: usize = 1;
        while i < cs.len()
            invariant
                1 <= i <= cs@.len(),
                cs@ == t@,
                out@ == seq![ascii_upper(t@[0])] + t@.subrange(1, i as int),
            decreases cs@.len() - i,
        {
            crate::text::push_char(&mut out, cs[i]);
            i = i + 1;
            assert(out@ =~= seq![ascii_upper(t@[0])] + t@.subrange(1, i as int));
        }
        assert(t@.subrange(1, t@.len() as int) =~= t@.skip(1));
        out.append(".");
        proof {
            reveal_strlit(".");
        }
        out
    } else if is_write {
        "(write completed)".to_string()
    } else {
        "(no rows returned)".to_string()
    }
}

/// The closing line of a run.
pub open spec fn totals_text(statements: nat, rows: nat) -> Seq<char> {
    decimal(statements) + " statement(s) executed, "@ + decimal(rows) + " row(s) returned."@
}

pub fn totals_line(statements: u64, rows: u64) -> (r: String)
    ensures
        r@ == totals_text(statements as nat, rows as nat),
{
    let a = decimal_string(statements);
    let b = decimal_string(rows);
    let mut out = concat(a.as_str(), " statement(s) executed, ");
    out = concat(out.as_str(), b.as_str());
    out = concat(out.as_str(), " row(s) returned.");
    out
}

// ── Cypherdoc hints ────────────────────────────────────────────────────────────

/// How a parameter is declared: `@param {type} name`, or for an optional one
/// `@param {type} [name=default]`.
pub open spec fn param_signature(p: ParamDeclView) -> Seq<char> {
    if p.required {
        "@param {"@ + p.type_ + "} "@ + p.name
    } else {
        "@param {"@ + p.type_ + "} ["@ + p.name + "="@ + match p.default {
            Some(d) => d,
            None => seq![],
        } + "]"@
    }
}

/// ` - description`, or nothing.
pub open spec fn description_suffix(p: ParamDeclView) -> Seq<char> {
    match p.description {
        Some(d) => " - "@ + d,
        None => seq![],
    }
}

fn signature_of(p: &ParamDecl) -> (r: String)
    ensures
        r@ == param_signature(p@),
{
    let mut s = concat("@param {", p.type_.as_str());
    if p.required {
        s = concat(s.as_str(), "} ");
        s = concat(s.as_str(), p.name.as_str());
    } else {
        s = concat(s.as_str(), "} [");
        s = concat(s.as_str(), p.name.as_str());
        s = concat(s.as_str(), "=");
        match &p.default {
            Some(d) => {
                s = concat(s.as_str(), d.as_str());
            },
            None => {},
        }
        s = concat(s.as_str(), "]");
    }
    proof {
        if !p.required && p.default is None {
            assert(s@ =~= param_signature(p@));
        }
    }
    s
}

fn suffix_of(p: &ParamDecl) -> (r: String)
    ensures
        r@ == description_suffix(p@),
{
    match &p.description {
        Some(d) => concat(" - ", d.as_str()),
        None => String::new(),
    }
}

/// The lines of a hint: the description, then each parameter, indented.
pub open spec fn hint_lines(d: CypherDocView) -> Seq<Seq<char>> {
    (match d.description {
        Some(x) => seq![x],
        None => seq![],
    }) + d.params.map_values(|p: ParamDeclView| "  "@ + param_signature(p) + description_suffix(p))
}

/// The documentation shown with a missing parameter.
pub fn format_cypherdoc_hint(doc: &CypherDoc) -> (r: String)
    ensures
        r@ == join(hint_lines(doc@), "\n"@),
{
    let mut lines: Vec<String> = Vec::new();
    match &doc.description {
        Some(d) => lines.push(d.clone()),
        None => {},
    }
    let ghost head = strings_view(lines@);
    assert(head =~= match doc@.description {
        Some(x) => seq![x],
        None => seq![],
    });
    let ghost ps = decls_view(doc.params@);
    let ghost f = |p: ParamDeclView| "  "@ + param_signature(p) + description_suffix(p);
    let mut i: usize = 0;
    while i < doc.params.len()
        invariant
            i <= doc.params@.len(),
            ps == decls_view(doc.params@),
            f == (|p: ParamDeclView| "  "@ + param_signature(p) + description_suffix(p)),
            strings_view(lines@) == head + ps.take(i as int).map_values(f),
        decreases doc.params@.len() - i,
    {
        let p = &doc.params[i];
        let sig = signature_of(p);
        let suf = suffix_of(p);
        let mut line = concat("  ", sig.as_str());
        line = concat(line.as_str(), suf.as_str());
        let ghost before = lines@;
        lines.push(line);
        proof {
            assert(ps[i as int] == p@);
            assert(ps.take(i + 1) =~= ps.take(i as int).push(ps[i as int]));
            assert(strings_view(lines@) =~= strings_view(before).push(line@));
            assert(ps.take(i + 1).map_values(f) =~= ps.take(i as int).map_values(f).push(f(ps[i as int])));
        }
        i = i + 1;
    }
    assert(ps.take(doc.params@.len() as int) =~= ps);
    assert(strings_view(lines@) =~= hint_lines(doc@));
    let r = join_strings(&lines, "\n");
    assert(lines@.map_values(|s: String| s@) =~= strings_view(lines@));
    r
}

// ── Statement lists ────────────────────────────────────────────────────────────

/// One line of `--list`: a statement's address and the first line of its
/// description.
#[derive(Debug)]
pub struct ListEntry {
    /// `file/stmt` across the library, `stmt` within one file.
    pub name: String,
    pub description: String,
}

pub open spec fn list_view(v: Seq<ListEntry>) -> Seq<(Seq<char>, Seq<char>)> {
    v.map_values(|e: ListEntry| (e.name@, e.description@))
}

/// The list line of one statement: its cypherdoc name (`(unnamed)` without
/// one), prefixed by `stem/` when a file stem is given, and the first line of
/// its description (empty without one).
pub open spec fn list_line_of(e: EntryView, stem: Option<Seq<char>>) -> (Seq<char>, Seq<char>) {
    let stmt = match e.doc {
        Some(d) => d.name,
        None => "(unnamed)"@,
    };
    let name = match stem {
        Some(st) => st + "/"@ + stmt,
        None => stmt,
    };
    let description = match e.doc {
        Some(d) => match d.description {
            Some(x) => first_line(x),
            None => seq![],
        },
        None => seq![],
    };
    (name, description)
}

fn list_entry_of(e: &StatementEntry, file_stem: Option<&str>) -> (r: ListEntry)
    ensures
        (r.name@, r.description@) == list_line_of(e@, crate::graph::opt_str_view(file_stem)),
{
    let stmt = match &e.doc {
        Some(d) => d.name.clone(),
        None => "(unnamed)".to_string(),
    };
    let name = match file_stem {
        Some(st) => {
            let a = concat(st, "/");
            concat(a.as_str(), stmt.as_str())
        },
        None => stmt,
    };
    let description = match &e.doc {
        Some(d) => match &d.description {
            Some(x) => first_line_of(x.as_str()),
            None => String::new(),
        },
        None => String::new(),
    };
    ListEntry { name, description }
}

/// The list lines of the statements, in order.
pub fn collect_list_entries(entries: &Vec<StatementEntry>, file_stem: Option<&str>) -> (r: Vec<ListEntry>)
    ensures
        list_view(r@) == entries_view(entries@).map_values(
            |e: EntryView| list_line_of(e, crate::graph::opt_str_view(file_stem)),
        ),
{
    let ghost es = entries_view(entries@);
    let ghost f = |e: EntryView| list_line_of(e, crate::graph::opt_str_view(file_stem));
    let mut out: Vec<ListEntry> = Vec::new();
    let mut i: usize = 0;
    while i < entries.len()
        invariant
            i <= entries@.len(),
            es == entries_view(entries@),
            f == (|e: EntryView| list_line_of(e, crate::graph::opt_str_view(file_stem))),
            list_view(out@) == es.take(i as int).map_values(f),
        decreases entries@.len() - i,
    {
        let le = list_entry_of(&entries[i], file_stem);
        let ghost before = out@;
        out.push(le);
        proof {
            assert(es[i as int] == entries@[i as int]@);
            assert(es.take(i + 1) =~= es.take(i as int).push(es[i as int]));
            assert(list_view(out@) =~= list_view(before).push((le.name@, le.description@)));
            assert(es.take(i + 1).map_values(f) =~= es.take(i as int).map_values(f).push(f(es[i as int])));
        }
        i = i + 1;
    }
    assert(es.take(entries@.len() as int) =~= es);
    out
}

/// The UTF-8 length of a text.
pub open spec fn byte_len(s: Seq<char>) -> nat {
    vstd::utf8::encode_utf8(s).len()
}

/// The longest name, in bytes.
pub open spec fn widest(list: Seq<(Seq<char>, Seq<char>)>) -> nat
    decreases list.len(),
{
    if list.len() == 0 {
        0
    } else {
        let w = widest(list.drop_last());
        let b = byte_len(list.last().0);
        if b > w { b } else { w }
    }
}

/// `count` spaces.
pub open spec fn spaces(count: nat) -> Seq<char> {
    Seq::new(count, |i: int| ' ')
}

/// `name` left-aligned in a column of `width` characters, as `{:<width$}`
/// pads it.
pub open spec fn padded(name: Seq<char>, width: nat) -> Seq<char> {
    if name.len() < width {
        name + spaces((width - name.len()) as nat)
    } else {
        name
    }
}

/// The line of one entry, each indented by `indent`: the bare name when there
/// is no description, else the name padded to the column and the description.
pub open spec fn list_row(e: (Seq<char>, Seq<char>), indent: Seq<char>, width: nat) -> Seq<char> {
    if e.1.len() == 0 {
        indent + e.0 + "\n"@
    } else {
        indent + padded(e.0, width) + e.1 + "\n"@
    }
}

pub open spec fn list_rows(list: Seq<(Seq<char>, Seq<char>)>, indent: Seq<char>, width: nat) -> Seq<char>
    decreases list.len(),
{
    if list.len() == 0 {
        seq![]
    } else {
        list_rows(list.drop_last(), indent, width) + list_row(list.last(), indent, width)
    }
}

/// The lines of a list, names in a column two wider than the longest name.
pub open spec fn list_text(list: Seq<(Seq<char>, Seq<char>)>, indent: Seq<char>) -> Seq<char> {
    list_rows(list, indent, widest(list) + 2)
}

fn pad_to(s: &mut String, name: &str, width: usize)
    ensures
        final(s)@ == old(s)@ + padded(name@, width as nat),
{
    let ghost start = s@;
    s.append(name);
    let n = crate::text::chars_of(name).len();
    if n < width {
        let mut k: usize = n;
        while k < width
            invariant
                n <= k <= width,
                n == name@.len(),
                s@ == start + name@ + spaces((k - n) as nat),
            decreases width - k,
        {
            crate::text::push_char(s, ' ');
            k = k + 1;
            assert(s@ =~= start + name@ + spaces((k - n) as nat));
        }
    } else {
        assert(s@ =~= start + padded(name@, width as nat));
    }
}

/// The text of a statement list, each line indented by `indent`.
pub fn list_lines(list: &Vec<ListEntry>, indent: &str) -> (r: String)
    requires
        widest(list_view(list@)) + 2 <= usize::MAX,
    ensures
        r@ == list_text(list_view(list@), indent@),
{
    let ghost lv = list_view(list@);
    let mut w: usize = 0;
    let mut i: usize = 0;
    while i < list.len()
        invariant
            i <= list@.len(),
            lv == list_view(list@),
            w == widest(lv.take(i as int)),
            widest(lv) + 2 <= usize::MAX,
        decreases list@.len() - i,
    {
        proof {
            lemma_widest_prefix(lv, i as int + 1);
        }
        let b = list[i].name.as_str().len();
        assert(lv.take(i + 1).drop_last() =~= lv.take(i as int));
        assert(lv[i as int].0 == list@[i as int].name@);
        if b > w {
            w = b;
        }
        i = i + 1;
    }
    assert(lv.take(list@.len() as int) =~= lv);
    let width = w + 2;
    let mut out = String::new();
    let mut j: usize = 0;
    while j < list.len()
        invariant
            j <= list@.len(),
            lv == list_view(list@),
            width == widest(lv) + 2,
            out@ == list_rows(lv.take(j as int), indent@, width as nat),
        decreases list@.len() - j,
    {
        let e = &list[j];
        assert(lv[j as int] == (e.name@, e.description@));
        assert(lv.take(j + 1).drop_last() =~= lv.take(j as int));
        out.append(indent);
        if e.description.as_str().is_empty() {
            out.append(e.name.as_str());
        } else {
            pad_to(&mut out, e.name.as_str(), width);
            out.append(e.description.as_str());
        }
        out.append("\n");
        proof {
            reveal_strlit("\n");
        }
        j = j + 1;
        assert(out@ =~= list_rows(lv.take(j as int), indent@, width as nat));
    }
    assert(lv.take(list@.len() as int) =~= lv);
    out
}

proof fn lemma_widest_prefix(lv: Seq<(Seq<char>, Seq<char>)>, k: int)
    requires
        0 <= k <= lv.len(),
    ensures
        widest(lv.take(k)) <= widest(lv),
    decreases lv.len(),
{
    if k < lv.len() {
        assert(lv.drop_last().take(k) =~= lv.take(k));
        lemma_widest_prefix(lv.drop_last(), k);
    } else {
        assert(lv.take(k) =~= lv);
    }
}

/// What `--list` prints for the statements of one file.
pub fn print_list(entries: &Vec<StatementEntry>) -> (r: String)
    requires
        widest(entries_view(entries@).map_values(|e: EntryView| list_line_of(e, None))) + 2 <= usize::MAX,
    ensures
        r@ == list_text(entries_view(entries@).map_values(|e: EntryView| list_line_of(e, None)), seq![]),
{
    let list = collect_list_entries(entries, None);
    assert(list_view(list@) =~= entries_view(entries@).map_values(|e: EntryView| list_line_of(e, None)));
    let r = list_lines(&list, "");
    proof {
        reveal_strlit("");
        assert(""@ =~= Seq::<char>::empty());
    }
    r
}

// ── Documentation ──────────────────────────────────────────────────────────────

/// The lines of a text as `str::lines` yields them: split at `\n`, a `\r`
/// before it dropped, no empty line after a final `\n`.
pub open spec fn text_lines(s: Seq<char>) -> Seq<Seq<char>>
    decreases s.len(),
{
    if s.len() == 0 {
        seq![]
    } else {
        match crate::text::index_of(s, '\n') {
            Some(k) => {
                proof {
                    crate::text::lemma_index_of_facts(s, '\n');
                }
                seq![first_line(s)] + text_lines(s.skip(k + 1))
            },
            None => seq![s],
        }
    }
}

/// Each line followed by `\n`.
pub open spec fn terminated(lines: Seq<Seq<char>>) -> Seq<char>
    decreases lines.len(),
{
    if lines.len() == 0 {
        seq![]
    } else {
        terminated(lines.drop_last()) + lines.last() + "\n"@
    }
}

proof fn lemma_terminated_append(a: Seq<Seq<char>>, b: Seq<Seq<char>>)
    ensures
        terminated(a + b) == terminated(a) + terminated(b),
    decreases b.len(),
{
    if b.len() == 0 {
        assert(a + b =~= a);
        assert(terminated(b) =~= seq![]);
        assert(terminated(a) + terminated(b) =~= terminated(a));
    } else {
        assert((a + b).drop_last() =~= a + b.drop_last());
        lemma_terminated_append(a, b.drop_last());
        assert(terminated(a + b) =~= terminated(a) + terminated(b));
    }
}

/// `s` repeated `n` times.
pub open spec fn repeated(s: Seq<char>, n: nat) -> Seq<char>
    decreases n,
{
    if n == 0 {
        seq![]
    } else {
        repeated(s, (n - 1) as nat) + s
    }
}

/// The heading of a statement's documentation: its source, and its cypherdoc
/// name unless the source already names the statement.
pub open spec fn entry_heading(e: StatementEntry) -> Seq<char> {
    match e.doc {
        None => crate::query::source_label(e.source),
        Some(d) => match e.source {
            crate::query::StatementSource::LibraryStatement { .. } => crate::query::source_label(e.source),
            _ => crate::query::source_label(e.source) + " ("@ + d.name@ + ")"@,
        },
    }
}

/// The heading line: `── heading ` and a rule that fills it to 78 bytes.
pub open spec fn heading_line(h: Seq<char>) -> Seq<char> {
    let fill: nat = if byte_len(h) + 4 <= 78 { (78 - (byte_len(h) + 4)) as nat } else { 0 };
    "── "@ + h + " "@ + repeated("─"@, fill)
}

/// The documented part: the description and a blank line, the parameter
/// declarations, and the `@returns` text; or a note that there is none.
pub open spec fn doc_lines(d: Option<CypherDocView>) -> Seq<Seq<char>> {
    match d {
        None => seq!["(no documentation)"@],
        Some(d) => (match d.description {
            Some(x) => seq![x, seq![]],
            None => seq![],
        }) + d.params.map_values(|p: ParamDeclView| param_signature(p) + description_suffix(p)) + (
        match d.returns_raw {
            Some(r) => seq![r],
            None => seq![],
        }),
    }
}

/// What `--describe` shows for one statement: heading, documentation, a blank
/// line, the statement indented by two spaces, and a blank line.
pub open spec fn entry_lines(e: StatementEntry) -> Seq<Seq<char>> {
    seq![heading_line(entry_heading(e))] + doc_lines(crate::query::doc_view(e.doc)) + seq![seq![]]
        + text_lines(e.text@).map_values(|l: Seq<char>| "  "@ + l) + seq![seq![]]
}

pub open spec fn describe_text(es: Seq<StatementEntry>) -> Seq<char>
    decreases es.len(),
{
    if es.len() == 0 {
        seq![]
    } else {
        describe_text(es.drop_last()) + terminated(entry_lines(es.last()))
    }
}

fn push_line(out: &mut String, lines: Ghost<Seq<Seq<char>>>, line: &str)
    requires
        old(out)@ == terminated(lines@),
    ensures
        final(out)@ == terminated(lines@.push(line@)),
{
    out.append(line);
    out.append("\n");
    proof {
        reveal_strlit("\n");
        assert(lines@.push(line@).drop_last() =~= lines@);
    }
}

fn heading_of(e: &StatementEntry) -> (r: String)
    ensures
        r@ == entry_heading(*e),
{
    let label = e.source.label();
    match &e.doc {
        None => label,
        Some(d) => match &e.source {
            crate::query::StatementSource::LibraryStatement { .. } => label,
            _ => {
                let mut h = concat(label.as_str(), " (");
                h = concat(h.as_str(), d.name.as_str());
                concat(h.as_str(), ")")
            },
        },
    }
}

fn heading_line_of(h: &str) -> (r: String)
    ensures
        r@ == heading_line(h@),
{
    let b = h.as_bytes().len();
    let fill: usize = if b <= 74 { 74 - b } else { 0 };
    let mut out = concat("── ", h);
    out = concat(out.as_str(), " ");
    let mut k: usize = 0;
    let ghost start = out@;
    while k < fill
        invariant
            k <= fill,
            out@ == start + repeated("─"@, k as nat),
        decreases fill - k,
    {
        out.append("─");
        k = k + 1;
    }
    proof {
        let f: nat = if byte_len(h@) + 4 <= 78 { (78 - (byte_len(h@) + 4)) as nat } else { 0 };
        assert(h.spec_bytes() == vstd::utf8::encode_utf8(h@));
        assert(b == byte_len(h@));
        assert(fill == f);
    }
    out
}

proof fn lemma_text_lines_step(s: Seq<char>, pos: int, k: int)
    requires
        0 <= pos < s.len(),
        crate::text::index_of(s.skip(pos), '\n') == Some(k),
    ensures
        text_lines(s.skip(pos)) == seq![first_line(s.skip(pos))] + text_lines(s.skip(pos + k + 1)),
{
    crate::text::lemma_index_of_facts(s.skip(pos), '\n');
    assert(s.skip(pos).skip(k + 1) =~= s.skip(pos + k + 1));
}

/// The lines of a text, as `str::lines` yields them.
pub fn text_lines_of(text: &str) -> (r: Vec<String>)
    ensures
        strings_view(r@) == text_lines(text@),
{
    let cs = crate::text::chars_of(text);
    let ghost s = text@;
    let mut out: Vec<String> = Vec::new();
    let mut pos: usize = 0;
    assert(s.skip(0) =~= s);
    assert(strings_view(out@) + text_lines(s) =~= text_lines(s));
    while pos < cs.len()
        invariant
            cs@ == s,
            pos <= s.len(),
            text_lines(s) == strings_view(out@) + text_lines(s.skip(pos as int)),
        decreases s.len() - pos,
    {
        let rest = &cs.as_slice()[pos..cs.len()];
        assert(rest@ =~= s.skip(pos as int));
        let (line_end, next) = match crate::text::find_char(rest, '\n') {
            Some(k) => {
                proof {
                    lemma_text_lines_step(s, pos as int, k as int);
                }
                let e = if k > 0 && rest[k - 1] == '\r' { k - 1 } else { k };
                (pos + e, pos + k + 1)
            },
            None => (cs.len(), cs.len()),
        };
        let piece = crate::text::string_of(&cs.as_slice()[pos..line_end]);
        assert(piece@ =~= first_line(s.skip(pos as int)));
        let ghost before = strings_view(out@);
        out.push(piece);
        proof {
            assert(strings_view(out@) =~= before.push(piece@));
            if next == cs.len() && line_end == cs.len() {
                assert(text_lines(s.skip(pos as int)) =~= seq![s.skip(pos as int)]);
            }
            assert(s.skip(next as int).len() == 0 ==> text_lines(s.skip(next as int)) =~= seq![]);
            assert(text_lines(s.skip(pos as int)) =~= seq![first_line(s.skip(pos as int))] + text_lines(
                s.skip(next as int),
            ));
            assert(before + text_lines(s.skip(pos as int)) =~= strings_view(out@) + text_lines(s.skip(next as int)));
        }
        pos = next;
    }
    assert(s.skip(pos as int) =~= seq![]);
    assert(strings_view(out@) + text_lines(s.skip(pos as int)) =~= strings_view(out@));
    out
}

/// Appends the lines of `text`, each indented by two spaces.
fn push_text_lines(out: &mut String, lines: Ghost<Seq<Seq<char>>>, text: &str) -> (r: Ghost<Seq<Seq<char>>>)
    requires
        old(out)@ == terminated(lines@),
    ensures
        r@ == lines@ + text_lines(text@).map_values(|l: Seq<char>| "  "@ + l),
        final(out)@ == terminated(r@),
{
    let cs = crate::text::chars_of(text);
    let ghost s = text@;
    let ghost f = |l: Seq<char>| "  "@ + l;
    let ghost mut acc = lines@;
    let mut pos: usize = 0;
    assert(s.skip(0) =~= s);
    while pos < cs.len()
        invariant
            cs@ == s,
            pos <= s.len(),
            f == (|l: Seq<char>| "  "@ + l),
            out@ == terminated(acc),
            lines@ + text_lines(s).map_values(f) == acc + text_lines(s.skip(pos as int)).map_values(f),
        decreases s.len() - pos,
    {
        let rest = &cs.as_slice()[pos..cs.len()];
        assert(rest@ =~= s.skip(pos as int));
        let (line_end, next) = match crate::text::find_char(rest, '\n') {
            Some(k) => {
                proof {
                    lemma_text_lines_step(s, pos as int, k as int);
                }
                let e = if k > 0 && rest[k - 1] == '\r' { k - 1 } else { k };
                (pos + e, pos + k + 1)
            },
            None => (cs.len(), cs.len()),
        };
        let piece = crate::text::string_of(&cs.as_slice()[pos..line_end]);
        assert(piece@ =~= first_line(s.skip(pos as int)));
        let line = concat("  ", piece.as_str());
        let ghost before = acc;
        push_line(out, Ghost(acc), line.as_str());
        proof {
            acc = acc.push(line@);
            assert(line@ == f(first_line(s.skip(pos as int))));
            if next == cs.len() && line_end == cs.len() {
                assert(text_lines(s.skip(pos as int)) =~= seq![s.skip(pos as int)]);
            }
            assert(s.skip(next as int).len() == 0 ==> text_lines(s.skip(next as int)) =~= seq![]);
            assert(text_lines(s.skip(pos as int)).map_values(f) =~= seq![f(first_line(s.skip(pos as int)))]
                + text_lines(s.skip(next as int)).map_values(f));
            assert(before + text_lines(s.skip(pos as int)).map_values(f) =~= acc + text_lines(
                s.skip(next as int),
            ).map_values(f));
        }
        pos = next;
    }
    assert(s.skip(pos as int) =~= seq![]);
    assert(text_lines(s.skip(pos as int)).map_values(f) =~= seq![]);
    assert(lines@ + text_lines(s).map_values(f) =~= acc);
    Ghost(acc)
}

fn push_doc_lines(out: &mut String, lines: Ghost<Seq<Seq<char>>>, doc: &Option<CypherDoc>) -> (r: Ghost<
    Seq<Seq<char>>,
>)
    requires
        old(out)@ == terminated(lines@),
    ensures
        r@ == lines@ + doc_lines(crate::query::doc_view(*doc)),
        final(out)@ == terminated(r@),
{
    let ghost mut acc = lines@;
    match doc {
        None => {
            push_line(out, Ghost(acc), "(no documentation)");
            proof {
                acc = acc.push("(no documentation)"@);
            }
            assert(acc =~= lines@ + doc_lines(crate::query::doc_view(*doc)));
        },
        Some(d) => {
            let ghost dv = d@;
            match &d.description {
                Some(x) => {
                    push_line(out, Ghost(acc), x.as_str());
                    proof {
                        acc = acc.push(x@);
                    }
                    push_line(out, Ghost(acc), "");
                    proof {
                        reveal_strlit("");
                        acc = acc.push(""@);
                        assert(""@ =~= Seq::<char>::empty());
                    }
                },
                None => {},
            }
            let ghost head = acc;
            assert(head =~= lines@ + match dv.description {
                Some(x) => seq![x, seq![]],
                None => seq![],
            });
            let ghost ps = decls_view(d.params@);
            let ghost g = |p: ParamDeclView| param_signature(p) + description_suffix(p);
            let mut i: usize = 0;
            while i < d.params.len()
                invariant
                    i <= d.params@.len(),
                    ps == decls_view(d.params@),
                    g == (|p: ParamDeclView| param_signature(p) + description_suffix(p)),
                    out@ == terminated(acc),
                    acc == head + ps.take(i as int).map_values(g),
                decreases d.params@.len() - i,
            {
                let p = &d.params[i];
                let sig = signature_of(p);
                let suf = suffix_of(p);
                let line = concat(sig.as_str(), suf.as_str());
                push_line(out, Ghost(acc), line.as_str());
                proof {
                    assert(ps[i as int] == p@);
                    assert(ps.take(i + 1) =~= ps.take(i as int).push(ps[i as int]));
                    assert(ps.take(i + 1).map_values(g) =~= ps.take(i as int).map_values(g).push(g(ps[i as int])));
                    acc = acc.push(line@);
                }
                i = i + 1;
            }
            assert(ps.take(d.params@.len() as int) =~= ps);
            match &d.returns_raw {
                Some(rr) => {
                    push_line(out, Ghost(acc), rr.as_str());
                    proof {
                        acc = acc.push(rr@);
                    }
                },
                None => {},
            }
            assert(acc =~= lines@ + doc_lines(crate::query::doc_view(*doc)));
        },
    }
    Ghost(acc)
}

/// What `--describe` prints: for each statement its heading, documentation
/// and text.
pub fn print_describe(entries: &Vec<StatementEntry>) -> (r: String)
    ensures
        r@ == describe_text(entries@),
{
    let mut out = String::new();
    let mut i: usize = 0;
    assert(out@ =~= describe_text(entries@.take(0)));
    while i < entries.len()
        invariant
            i <= entries@.len(),
            out@ == describe_text(entries@.take(i as int)),
        decreases entries@.len() - i,
    {
        let e = &entries[i];
        let ghost prefix = out@;
        let mut block = String::new();
        let ghost l0: Seq<Seq<char>> = seq![];
        assert(block@ =~= terminated(l0));
        let h = heading_of(e);
        let hl = heading_line_of(h.as_str());
        push_line(&mut block, Ghost(l0), hl.as_str());
        let ghost l1 = seq![hl@];
        assert(l0.push(hl@) =~= l1);
        let Ghost(l2) = push_doc_lines(&mut block, Ghost(l1), &e.doc);
        push_line(&mut block, Ghost(l2), "");
        let ghost l3 = l2.push(""@);
        let Ghost(l4) = push_text_lines(&mut block, Ghost(l3), e.text.as_str());
        push_line(&mut block, Ghost(l4), "");
        let ghost l5 = l4.push(""@);
        proof {
            reveal_strlit("");
            assert(""@ =~= Seq::<char>::empty());
            assert(l5 =~= entry_lines(*e));
        }
        out.append(block.as_str());
        assert(entries@.take(i + 1).drop_last() =~= entries@.take(i as int));
        assert(entries@.take(i + 1).last() == *e);
        i = i + 1;
    }
    assert(entries@.take(entries@.len() as int) =~= entries@);
    out
}

// ── Messages before connecting ─────────────────────────────────────────────────

/// The block that `--list` prints for one file of the library: its stem, its
/// statements indented by two spaces, and a blank line.
pub open spec fn library_block_text(stem: Seq<char>, list: Seq<(Seq<char>, Seq<char>)>) -> Seq<char> {
    stem + "\n"@ + list_text(list, "  "@) + "\n"@
}

pub fn library_block(stem: &str, list: &Vec<ListEntry>) -> (r: String)
    requires
        widest(list_view(list@)) + 2 <= usize::MAX,
    ensures
        r@ == library_block_text(stem@, list_view(list@)),
{
    let body = list_lines(list, "  ");
    let mut out = concat(stem, "\n");
    out = concat(out.as_str(), body.as_str());
    concat(out.as_str(), "\n")
}

/// The report of a missing parameter: its name, where the statement comes
/// from, how to set it, and the statement's documentation when the parameter
/// was declared there.
pub open spec fn missing_param_text(name: Seq<char>, source: Seq<char>, hint: Option<Seq<char>>) -> Seq<char> {
    "Error: missing required parameter '$"@ + name + "'\n  Source: "@ + source + "\n  Hint: pass --param "@ + name
        + "=<value>\n"@ + match hint {
        Some(h) => "\n  --- Documentation ---\n  "@ + h + "\n"@,
        None => seq![],
    }
}

pub open spec fn missing_hint(m: crate::query::MissingView, e: StatementEntry) -> Option<Seq<char>> {
    if m.documented {
        match crate::query::doc_view(e.doc) {
            Some(d) => Some(join(hint_lines(d), "\n"@)),
            None => None,
        }
    } else {
        None
    }
}

pub fn missing_param_report(m: &crate::query::MissingParam, entry: &StatementEntry) -> (r: String)
    ensures
        r@ == missing_param_text(m.name@, crate::query::source_label(entry.source), missing_hint(m@, *entry)),
{
    let label = entry.source.label();
    let mut out = concat("Error: missing required parameter '$", m.name.as_str());
    out = concat(out.as_str(), "'\n  Source: ");
    out = concat(out.as_str(), label.as_str());
    out = concat(out.as_str(), "\n  Hint: pass --param ");
    out = concat(out.as_str(), m.name.as_str());
    out = concat(out.as_str(), "=<value>\n");
    if m.documented {
        match &entry.doc {
            Some(d) => {
                let h = format_cypherdoc_hint(d);
                out = concat(out.as_str(), "\n  --- Documentation ---\n  ");
                out = concat(out.as_str(), h.as_str());
                out = concat(out.as_str(), "\n");
                return out;
            },
            None => {},
        }
    }
    let r = out;
    assert(r@ =~= missing_param_text(m.name@, crate::query::source_label(entry.source), missing_hint(m@, *entry)));
    r
}

/// The report of a statement that writes without `--write`: its first line,
/// where it comes from, and its first writing clause.
pub open spec fn write_refusal_text(text: Seq<char>, source: Seq<char>, clause: Seq<char>) -> Seq<char> {
    "Error: write operation requires --write flag\n  Statement: "@ + first_line(text) + "\n  Source: "@ + source
        + "\n  Clause: "@ + clause + "\n\n  Re-run with --write to allow mutations.\n"@
}

pub fn write_refusal(entry: &StatementEntry, keyword: &str) -> (r: String)
    ensures
        r@ == write_refusal_text(entry.text@, crate::query::source_label(entry.source), keyword@),
{
    let line = first_line_of(entry.text.as_str());
    let label = entry.source.label();
    let mut out = concat("Error: write operation requires --write flag\n  Statement: ", line.as_str());
    out = concat(out.as_str(), "\n  Source: ");
    out = concat(out.as_str(), label.as_str());
    out = concat(out.as_str(), "\n  Clause: ");
    out = concat(out.as_str(), keyword);
    concat(out.as_str(), "\n\n  Re-run with --write to allow mutations.\n")
}

} // verus!
