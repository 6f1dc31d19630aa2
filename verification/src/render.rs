//! Rendering a gram graph: where the output goes, which format is asked for,
//! and the parts of the SVG drawing that are decided without geometry.
use vstd::prelude::*;
use crate::cli::{OutputFormat, RenderArgs};
use crate::graph::{opt_view, EdgeView, GramEdge, GramNode};
use crate::text::{concat, debug_quoted, debug_str, decimal, decimal_string, str_eq};

verus! {

// ── Paths ──────────────────────────────────────────────────────────────────────

/// What `Path::file_stem` gives for a path, as text.
pub uninterp spec fn file_stem_of(path: Seq<char>) -> Option<Seq<char>>;

/// What `Path::with_file_name` gives for a path and a file name, as text.
pub uninterp spec fn with_file_name_of(path: Seq<char>, name: Seq<char>) -> Seq<char>;

/// `std::path::Path::file_stem`, on a path given as text; the stem of a text
/// path is text.
#[verifier::external_body]
pub(crate) fn path_file_stem(path: &str) -> (r: Option<String>)
    ensures
        opt_view(r) == file_stem_of(path@),
{
    std::path::Path::new(path).file_stem().and_then(|s| s.to_str()).map(String::from)
}

/// `std::path::Path::with_file_name`, on paths given and returned as text.
#[verifier::external_body]
pub(crate) fn path_with_file_name(path: &str, name: &str) -> (r: String)
    ensures
        r@ == with_file_name_of(path@, name@),
{
    std::path::Path::new(path).with_file_name(name).to_string_lossy().into_owned()
}

// ── Output ─────────────────────────────────────────────────────────────────────

pub open spec fn format_extension(f: OutputFormat) -> Seq<char> {
    match f {
        OutputFormat::Html => "html"@,
        OutputFormat::Svg => "svg"@,
    }
}

/// The name of a format, which is also the extension of its files.
pub fn format_name(f: OutputFormat) -> (r: &'static str)
    ensures
        r@ == format_extension(f),
{
    match f {
        OutputFormat::Html => "html",
        OutputFormat::Svg => "svg",
    }
}

/// Where a rendering is written: the path given, or the input's path with its
/// file name replaced by its stem (`output` when it has none) and the
/// format's extension.
pub open spec fn output_path(args: RenderArgs) -> Seq<char> {
    match args.output {
        Some(p) => p@,
        None => {
            let stem = match file_stem_of(args.file@) {
                Some(s) => s,
                None => "output"@,
            };
            with_file_name_of(args.file@, stem + "."@ + format_extension(args.format))
        },
    }
}

pub fn resolve_output(args: &RenderArgs) -> (r: String)
    ensures
        r@ == output_path(*args),
{
    match &args.output {
        Some(p) => p.clone(),
        None => {
            let stem = match path_file_stem(args.file.as_str()) {
                Some(s) => s,
                None => "output".to_string(),
            };
            let mut name = concat(stem.as_str(), ".");
            name = concat(name.as_str(), format_name(args.format));
            path_with_file_name(args.file.as_str(), name.as_str())
        },
    }
}

/// A lowercase hexadecimal digit.
pub open spec fn hex_digit(n: nat) -> char {
    if n < 10 {
        ('0' as nat + n) as char
    } else {
        ('a' as nat + n - 10) as char
    }
}

/// How a character stands in a JSON string: a quote, a backslash and the
/// control characters below U+0020 are escaped (`\b`, `\t`, `\n`, `\f`, `\r`
/// by name, the others as `\u00` and two lowercase hex digits); every other
/// character stands for itself.
pub open spec fn json_char(c: char) -> Seq<char> {
    if c == '"' {
        seq!['\\', '"']
    } else if c == '\\' {
        seq!['\\', '\\']
    } else if c == '\u{8}' {
        seq!['\\', 'b']
    } else if c == '\t' {
        seq!['\\', 't']
    } else if c == '\n' {
        seq!['\\', 'n']
    } else if c == '\u{c}' {
        seq!['\\', 'f']
    } else if c == '\r' {
        seq!['\\', 'r']
    } else if '\u{1f}' >= c {
        seq!['\\', 'u', '0', '0', hex_digit(c as nat / 16), hex_digit(c as nat % 16)]
    } else {
        seq![c]
    }
}

pub open spec fn json_escaped(s: Seq<char>) -> Seq<char>
    decreases s.len(),
{
    if s.len() == 0 {
        seq![]
    } else {
        json_escaped(s.drop_last()) + json_char(s.last())
    }
}

/// What `serde_json::to_string` writes for a string: the characters,
/// escaped, between double quotes.
pub open spec fn json_quoted(s: Seq<char>) -> Seq<char> {
    seq!['"'] + json_escaped(s) + seq!['"']
}

/// `serde_json::to_string` on a `&str`, which cannot fail: the contract
/// claims the quoting and escaping that serde_json's string serializer does.
#[verifier::external_body]
fn json_quote(s: &str) -> (r: String)
    ensures
        r@ == json_quoted(s@),
{
    serde_json::to_string(s).unwrap_or_default()
}

/// The line that `render --json` prints: `{"output":<path>,"format":"<name>"}`.
pub open spec fn render_report(path: Seq<char>, f: OutputFormat) -> Seq<char> {
    "{\"output\":"@ + json_quoted(path) + ",\"format\":\""@ + format_extension(f) + "\"}"@
}

pub fn render_report_json(path: &str, f: OutputFormat) -> (r: String)
    ensures
        r@ == render_report(path@, f),
{
    let q = json_quote(path);
    let mut out = concat("{\"output\":", q.as_str());
    out = concat(out.as_str(), ",\"format\":\"");
    out = concat(out.as_str(), format_name(f));
    concat(out.as_str(), "\"}")
}

// ── The render_gram tool ───────────────────────────────────────────────────────

/// The arguments of the MCP tool `render_gram`.
#[derive(Debug)]
pub struct RenderGramParams {
    /// The gram source text to render.
    pub gram_source: String,
    /// `html` (the default) or `svg`, in any case.
    pub format: String,
}

/// The format used when the tool is given none.
pub fn default_format() -> (r: String)
    ensures
        r@ == "html"@,
{
    "html".to_string()
}

/// What `str::to_lowercase` gives (Unicode lowercase mapping).
pub uninterp spec fn lowercase(s: Seq<char>) -> Seq<char>;

/// `str::to_lowercase`; the contract only names its answer.
#[verifier::external_body]
fn to_lowercase(s: &str) -> (r: String)
    ensures
        r@ == lowercase(s@),
{
    s.to_lowercase()
}

/// The format a tool call asks for, by its lowercased name; an error that
/// quotes the lowercased name otherwise.
pub open spec fn requested_format(format: Seq<char>) -> Result<OutputFormat, Seq<char>> {
    let l = lowercase(format);
    if l == "html"@ {
        Ok(OutputFormat::Html)
    } else if l == "svg"@ {
        Ok(OutputFormat::Svg)
    } else {
        Err("unknown format "@ + debug_quoted(l) + "; expected \"html\" or \"svg\""@)
    }
}

pub fn render_format(format: &str) -> (r: Result<OutputFormat, String>)
    ensures
        match r {
            Ok(f) => requested_format(format@) == Ok::<OutputFormat, Seq<char>>(f),
            Err(m) => requested_format(format@) == Err::<OutputFormat, Seq<char>>(m@),
        },
{
    let l = to_lowercase(format);
    if str_eq(l.as_str(), "html") {
        Ok(OutputFormat::Html)
    } else if str_eq(l.as_str(), "svg") {
        Ok(OutputFormat::Svg)
    } else {
        let q = debug_str(l.as_str());
        let m = concat("unknown format ", q.as_str());
        Err(concat(m.as_str(), "; expected \"html\" or \"svg\""))
    }
}

// ── SVG decisions ──────────────────────────────────────────────────────────────

/// Two edges join the same two nodes, in either direction.
pub open spec fn same_pair(a: EdgeView, b: EdgeView) -> bool {
    (a.source == b.source && a.target == b.target) || (a.source == b.target && a.target == b.source)
}

/// How many of the first `n` edges join the same two nodes as `x`.
pub open spec fn pair_count(es: Seq<EdgeView>, x: EdgeView, n: int) -> nat
    decreases n,
{
    if n <= 0 || n > es.len() {
        0
    } else {
        pair_count(es, x, n - 1) + if same_pair(es[n - 1], x) { 1nat } else { 0nat }
    }
}

/// For edge `i`: how many edges join its two nodes, and how many of them come
/// before it.
pub open spec fn parallel_info(es: Seq<EdgeView>, i: int) -> (nat, nat) {
    (pair_count(es, es[i], es.len() as int), pair_count(es, es[i], i))
}

proof fn lemma_pair_count_mono(es: Seq<EdgeView>, x: EdgeView, m: int, n: int)
    requires
        0 <= m <= n <= es.len(),
    ensures
        pair_count(es, x, m) <= pair_count(es, x, n),
    decreases n - m,
{
    if m < n {
        lemma_pair_count_mono(es, x, m, n - 1);
    }
}

/// Every edge is in its own group, so a group has at least one edge and an
/// edge's place in its group is below the group's size.
pub proof fn lemma_parallel_info(es: Seq<EdgeView>, i: int)
    requires
        0 <= i < es.len(),
    ensures
        parallel_info(es, i).1 < parallel_info(es, i).0,
        parallel_info(es, i).0 >= 1,
{
    assert(same_pair(es[i], es[i]));
    assert(pair_count(es, es[i], i + 1) == pair_count(es, es[i], i) + 1);
    lemma_pair_count_mono(es, es[i], i + 1, es.len() as int);
}

proof fn lemma_pair_count_same_group(es: Seq<EdgeView>, x: EdgeView, y: EdgeView, n: int)
    requires
        same_pair(x, y),
    ensures
        pair_count(es, x, n) == pair_count(es, y, n),
    decreases n,
{
    if 0 < n <= es.len() {
        lemma_pair_count_same_group(es, x, y, n - 1);
    }
}

/// Two edges that join the same two nodes are in one group: they agree on its
/// size, and the later one has the later place.
pub proof fn lemma_parallel_group(es: Seq<EdgeView>, i: int, j: int)
    requires
        0 <= i < j < es.len(),
        same_pair(es[i], es[j]),
    ensures
        parallel_info(es, i).0 == parallel_info(es, j).0,
        parallel_info(es, i).1 < parallel_info(es, j).1,
{
    lemma_pair_count_same_group(es, es[i], es[j], es.len() as int);
    lemma_pair_count_same_group(es, es[i], es[j], i);
    lemma_pair_count_same_group(es, es[i], es[j], i + 1);
    assert(same_pair(es[i], es[i]));
    assert(pair_count(es, es[i], i + 1) == pair_count(es, es[i], i) + 1);
    lemma_pair_count_mono(es, es[j], i + 1, j);
}

fn same_pair_of(a: &GramEdge, b: &GramEdge) -> (r: bool)
    ensures
        r == same_pair(a@, b@),
{
    (str_eq(a.source.as_str(), b.source.as_str()) && str_eq(a.target.as_str(), b.target.as_str())) || (str_eq(
        a.source.as_str(),
        b.target.as_str(),
    ) && str_eq(a.target.as_str(), b.source.as_str()))
}

/// Groups the edges that join the same two nodes: for each edge, the size of
/// its group and its place in it, in the order of the edges.
pub fn group_parallel_edges(edges: &Vec<GramEdge>) -> (r: Vec<(usize, usize)>)
    ensures
        r@.len() == edges@.len(),
        forall|i: int|
            0 <= i < r@.len() ==> (#[trigger] r@[i].0 as nat, r@[i].1 as nat) == parallel_info(
                crate::graph::edges_view(edges@),
                i,
            ),
{
    let ghost es = crate::graph::edges_view(edges@);
    let mut out: Vec<(usize, usize)> = Vec::new();
    let mut i: usize = 0;
    while i < edges.len()
        invariant
            i <= edges@.len(),
            es == crate::graph::edges_view(edges@),
            out@.len() == i,
            forall|k: int|
                0 <= k < i ==> (#[trigger] out@[k].0 as nat, out@[k].1 as nat) == parallel_info(es, k),
        decreases edges@.len() - i,
    {
        let mut count: usize = 0;
        let mut before: usize = 0;
        let mut j: usize = 0;
        while j < edges.len()
            invariant
                i < edges@.len(),
                j <= edges@.len(),
                es == crate::graph::edges_view(edges@),
                count == pair_count(es, es[i as int], j as int),
                before == pair_count(es, es[i as int], if j < i { j as int } else { i as int }),
                count <= j,
            decreases edges@.len() - j,
        {
            assert(es[j as int] == edges@[j as int]@);
            assert(es[i as int] == edges@[i as int]@);
            if same_pair_of(&edges[j], &edges[i]) {
                count = count + 1;
                if j < i {
                    before = before + 1;
                }
            }
            j = j + 1;
        }
        out.push((count, before));
        i = i + 1;
    }
    out
}

/// The hue of the `idx`-th path's band, cycling through six.
pub open spec fn hue_of(idx: nat) -> u16 {
    let k = idx % 6;
    if k == 0 {
        200
    } else if k == 1 {
        120
    } else if k == 2 {
        40
    } else if k == 3 {
        300
    } else if k == 4 {
        0
    } else {
        160
    }
}

pub fn path_hue(idx: usize) -> (r: u16)
    ensures
        r == hue_of(idx as nat),
{
    let hues: [u16; 6] = [200, 120, 40, 300, 0, 160];
    hues[idx % 6]
}

/// The fill and the border of a path's band: `hsla(hue,65%,60%,0.20)` and
/// `hsla(hue,65%,45%,0.40)`.
pub open spec fn band_colors(hue: u16) -> (Seq<char>, Seq<char>) {
    (
        "hsla("@ + decimal(hue as nat) + ",65%,60%,0.20)"@,
        "hsla("@ + decimal(hue as nat) + ",65%,45%,0.40)"@,
    )
}

pub fn path_band_colors(hue: u16) -> (r: (String, String))
    ensures
        (r.0@, r.1@) == band_colors(hue),
{
    let h = decimal_string(hue as u64);
    let a = concat("hsla(", h.as_str());
    let b = a.clone();
    (concat(a.as_str(), ",65%,60%,0.20)"), concat(b.as_str(), ",65%,45%,0.40)"))
}

/// The text under a node: `id:label` with its first label, else its id.
pub open spec fn node_caption(id: Seq<char>, labels: Seq<Seq<char>>) -> Seq<char> {
    if labels.len() > 0 {
        id + ":"@ + labels[0]
    } else {
        id
    }
}

pub fn node_label(node: &GramNode) -> (r: String)
    ensures
        r@ == node_caption(node.id@, node.labels@.map_values(|s: String| s@)),
{
    if node.labels.len() > 0 {
        let a = concat(node.id.as_str(), ":");
        concat(a.as_str(), node.labels[0].as_str())
    } else {
        node.id.clone()
    }
}

/// The fill and stroke of a node: bluish-grey for a node that stands for a
/// nested pattern, light blue otherwise.
pub open spec fn node_colors(is_nested: bool) -> (Seq<char>, Seq<char>) {
    if is_nested {
        ("#e8e8f8"@, "#9999cc"@)
    } else {
        ("#e8f4fb"@, "#3399cc"@)
    }
}

pub fn node_fill_and_stroke(is_nested: bool) -> (r: (&'static str, &'static str))
    ensures
        (r.0@, r.1@) == node_colors(is_nested),
{
    if is_nested {
        ("#e8e8f8", "#9999cc")
    } else {
        ("#e8f4fb", "#3399cc")
    }
}

} // verus!
