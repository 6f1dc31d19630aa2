//! Linting .cypher and .gram sources, and the Cypher and gram snippets fenced
//! in Markdown and AsciiDoc documents.
use vstd::prelude::*;
use vstd::string::StringSliceAdditionalSpecFns;
use crate::cli::Lang;
use crate::diagnostics::{
    cypher_lint, diagnostics_view, gram_lint, lint_cypher, lint_gram, Diagnostic, DiagnosticView, Position, Range,
    Severity,
};
use crate::text::{ascii_lower_eq, chars_of, concat, decimal, decimal_string, lower_equals};

verus! {

// ── Severity names ─────────────────────────────────────────────────────────────

pub open spec fn severity_name(s: Severity) -> Seq<char> {
    match s {
        Severity::Error => "error"@,
        Severity::Warning => "warning"@,
        Severity::Information => "information"@,
        Severity::Hint => "hint"@,
    }
}

/// The lowercase name of a severity, as the JSON output spells it.
pub fn severity_str(s: Severity) -> (r: &'static str)
    ensures
        r@ == severity_name(s),
{
    match s {
        Severity::Error => "error",
        Severity::Warning => "warning",
        Severity::Information => "information",
        Severity::Hint => "hint",
    }
}

// ── Byte offsets ───────────────────────────────────────────────────────────────

/// The index of the first `\n` byte at or after `from`, or the length.
pub open spec fn next_newline(b: Seq<u8>, from: nat) -> int
    decreases b.len() - from,
{
    if from >= b.len() {
        b.len() as int
    } else if b[from as int] == 10u8 {
        from as int
    } else {
        next_newline(b, from + 1)
    }
}

/// Where line `k` starts, counting lines from the one that starts at `from`:
/// just past the `k`-th `\n`, or one past the end when there are fewer.
pub open spec fn line_start(b: Seq<u8>, from: nat, k: nat) -> int
    decreases k,
{
    if k == 0 {
        from as int
    } else {
        let n = next_newline(b, from);
        if n >= b.len() {
            b.len() as int + 1
        } else {
            line_start(b, (n + 1) as nat, (k - 1) as nat)
        }
    }
}

/// The byte offset of (`line`, `character`), clamped to the length.
pub open spec fn byte_offset(b: Seq<u8>, line: nat, character: nat) -> int {
    let s = line_start(b, 0, line) + character;
    if s < b.len() {
        s
    } else {
        b.len() as int
    }
}

/// An offset never lies past the end of the text.
pub proof fn lemma_byte_offset_within(b: Seq<u8>, line: nat, character: nat)
    ensures
        0 <= byte_offset(b, line, character) <= b.len(),
{
    lemma_line_start_nonnegative(b, 0, line);
}

proof fn lemma_line_start_nonnegative(b: Seq<u8>, from: nat, k: nat)
    ensures
        line_start(b, from, k) >= 0,
    decreases k,
{
    if k > 0 {
        let n = next_newline(b, from);
        lemma_next_newline_at_least(b, from);
        if n < b.len() {
            lemma_line_start_nonnegative(b, (n + 1) as nat, (k - 1) as nat);
        }
    }
}

/// The next `\n` is never before the start.
pub proof fn lemma_next_newline_at_least(b: Seq<u8>, from: nat)
    ensures
        next_newline(b, from) >= 0,
    decreases b.len() - from,
{
    if from < b.len() && b[from as int] != 10u8 {
        lemma_next_newline_at_least(b, from + 1);
    }
}

proof fn lemma_next_newline_from(b: Seq<u8>, from: nat, j: nat)
    requires
        from <= j,
        j <= b.len(),
        forall|t: int| from <= t < j ==> #[trigger] b[t] != 10u8,
    ensures
        next_newline(b, from) == next_newline(b, j),
    decreases j - from,
{
    if from < j {
        lemma_next_newline_from(b, from + 1, j);
    }
}

/// The pieces of `b` between `\n` bytes, as `str::split('\n')` yields them.
pub open spec fn split_lines(b: Seq<u8>) -> Seq<Seq<u8>>
    decreases b.len(),
{
    let n = next_newline(b, 0);
    if n >= b.len() {
        seq![b]
    } else {
        proof {
            lemma_next_newline_at_least(b, 0);
        }
        seq![b.take(n)] + split_lines(b.skip(n + 1))
    }
}

/// The sum, over the first `k` pieces (or all, when there are fewer), of
/// each piece's length plus one for its `\n`.
pub open spec fn pieces_len(pieces: Seq<Seq<u8>>, k: nat) -> int
    decreases k,
{
    if k == 0 || pieces.len() == 0 {
        0
    } else {
        pieces[0].len() + 1 + pieces_len(pieces.drop_first(), (k - 1) as nat)
    }
}

proof fn lemma_next_newline_shift(b: Seq<u8>, from: nat, j: nat)
    requires
        from <= b.len(),
    ensures
        next_newline(b.skip(from as int), j) + from == next_newline(b, from + j),
    decreases b.len() - from - j,
{
    if from + j < b.len() {
        assert(b.skip(from as int)[j as int] == b[(from + j) as int]);
        if b[(from + j) as int] != 10u8 {
            lemma_next_newline_shift(b, from, j + 1);
        }
    }
}

proof fn lemma_line_start_pieces(b: Seq<u8>, from: nat, k: nat)
    requires
        from <= b.len(),
    ensures
        line_start(b, from, k) == from + pieces_len(split_lines(b.skip(from as int)), k),
    decreases k,
{
    if k > 0 {
        let c = b.skip(from as int);
        let n = next_newline(b, from);
        lemma_next_newline_shift(b, from, 0);
        lemma_next_newline_at_least(c, 0);
        let m = next_newline(c, 0);
        assert(n == from + m);
        if n >= b.len() {
            assert(line_start(b, from, k) == b.len() + 1);
            assert(split_lines(c) == seq![c]);
            assert(seq![c].drop_first() =~= Seq::<Seq<u8>>::empty());
            assert(pieces_len(Seq::<Seq<u8>>::empty(), (k - 1) as nat) == 0);
            assert(pieces_len(seq![c], k) == c.len() + 1);
        } else {
            assert(line_start(b, from, k) == line_start(b, (n + 1) as nat, (k - 1) as nat));
            lemma_line_start_pieces(b, (n + 1) as nat, (k - 1) as nat);
            assert(c.skip(m + 1) =~= b.skip(n + 1));
            let rest = split_lines(b.skip(n + 1));
            let ps = seq![c.take(m)] + rest;
            assert(split_lines(c) == ps);
            assert(ps.drop_first() =~= rest);
            assert(ps[0] == c.take(m));
            assert(pieces_len(ps, k) == m + 1 + pieces_len(rest, (k - 1) as nat));
        }
    }
}

/// The offset is the sum, over the first `line` pieces of the text between
/// `\n` bytes, of each piece's length plus one, then `character` more,
/// clamped to the length: a `\r` before a `\n` counts in its piece.
pub proof fn lemma_byte_offset_pieces(b: Seq<u8>, line: nat, character: nat)
    ensures
        byte_offset(b, line, character) == if pieces_len(split_lines(b), line) + character < b.len() {
            pieces_len(split_lines(b), line) + character
        } else {
            b.len() as int
        },
{
    lemma_line_start_pieces(b, 0, line);
    assert(b.skip(0) =~= b);
}

/// The UTF-8 byte offset of a zero-based (`line`, `character`) position in
/// `source`. Lines are split at `\n` only, so a `\r` before it counts as a
/// byte of its line; a position past the end gives the length.
pub fn to_byte_offset(source: &str, line: u32, character: u32) -> (r: usize)
    ensures
        r == byte_offset(source.spec_bytes(), line as nat, character as nat),
{
    let b = source.as_bytes();
    let n = b.len();
    let mut pos: usize = 0;
    let mut k: u32 = 0;
    while k < line
        invariant
            b@ == source.spec_bytes(),
            n == b@.len(),
            pos <= n,
            k <= line,
            line_start(b@, 0, line as nat) == line_start(b@, pos as nat, (line - k) as nat),
        decreases line - k,
    {
        let mut j: usize = pos;
        while j < n && b[j] != 10u8
            invariant
                b@ == source.spec_bytes(),
                n == b@.len(),
                pos <= j <= n,
                forall|t: int| pos <= t < j ==> b@[t] != 10u8,
            decreases n - j,
        {
            j = j + 1;
        }
        proof {
            lemma_next_newline_from(b@, pos as nat, j as nat);
        }
        if j >= n {
            return n;
        }
        pos = j + 1;
        k = k + 1;
    }
    if (character as usize) >= n - pos {
        n
    } else {
        pos + character as usize
    }
}

proof fn lemma_next_newline_facts(b: Seq<u8>, from: nat)
    ensures
        from <= next_newline(b, from) || (from > b.len() && next_newline(b, from) == b.len()),
        next_newline(b, from) <= b.len() || next_newline(b, from) == from,
        forall|t: int| from <= t < next_newline(b, from) ==> #[trigger] b[t] != 10u8,
        0 <= next_newline(b, from) < b.len() ==> b[next_newline(b, from)] == 10u8,
    decreases b.len() - from,
{
    if from < b.len() && b[from as int] != 10u8 {
        lemma_next_newline_facts(b, from + 1);
    }
}

proof fn lemma_no_newlines(b: Seq<u8>, from: int, to: int)
    requires
        0 <= from <= to <= b.len(),
        forall|t: int| from <= t < to ==> #[trigger] b[t] != 10u8,
    ensures
        newlines_before(b, to) == newlines_before(b, from),
    decreases to - from,
{
    if from < to {
        lemma_no_newlines(b, from, to - 1);
    }
}

proof fn lemma_newlines_mono(b: Seq<u8>, from: int, to: int)
    requires
        0 <= from <= to <= b.len(),
    ensures
        newlines_before(b, from) <= newlines_before(b, to),
    decreases to - from,
{
    if from < to {
        lemma_newlines_mono(b, from, to - 1);
    }
}

proof fn lemma_line_start_at(b: Seq<u8>, from: nat, j: int, m: nat)
    requires
        from <= j < b.len(),
        b[j] == 10u8,
        newlines_before(b, j) == newlines_before(b, from as int) + m,
    ensures
        line_start(b, from, m + 1) == j + 1,
    decreases m,
{
    lemma_next_newline_facts(b, from);
    let n = next_newline(b, from);
    assert(n <= j) by {
        if n > j {
            assert(b[j] != 10u8);
        }
    }
    lemma_no_newlines(b, from as int, n);
    assert(line_start(b, from, m + 1) == line_start(b, (n + 1) as nat, m));
    if m == 0 {
        if n < j {
            assert(newlines_before(b, n + 1) == newlines_before(b, n) + 1);
            lemma_newlines_mono(b, n + 1, j);
        }
        assert(n == j);
    } else {
        assert(n < j) by {
            if n == j {
                assert(newlines_before(b, j) == newlines_before(b, from as int));
            }
        }
        assert(newlines_before(b, n + 1) == newlines_before(b, n) + 1);
        lemma_line_start_at(b, (n + 1) as nat, j, (m - 1) as nat);
    }
}

/// Lines split at `\n` only: the position (line, 0) of the line that follows
/// a `\n` byte is just past that byte, whatever comes before it (a `\r`
/// included), so line numbers counted by newlines before an offset and byte
/// offsets of positions agree.
pub proof fn lemma_line_follows_newline(b: Seq<u8>, j: int)
    requires
        0 <= j < b.len(),
        b[j] == 10u8,
    ensures
        byte_offset(b, newlines_before(b, j) + 1, 0) == j + 1,
{
    assert(newlines_before(b, 0) == 0);
    lemma_line_start_at(b, 0, j, newlines_before(b, j));
}

// ── Snippet languages ──────────────────────────────────────────────────────────

/// A fence tagged `gram` in any ASCII case holds gram; any other holds Cypher.
pub open spec fn lang_for_tag(tag: Seq<char>) -> Lang {
    if ascii_lower_eq(tag, "gram"@) {
        Lang::Gram
    } else {
        Lang::Cypher
    }
}

/// The language of a fenced snippet by its tag.
pub fn lang_from_tag(tag: &str) -> (r: Lang)
    ensures
        r == lang_for_tag(tag@),
{
    let t = chars_of(tag);
    let g = chars_of("gram");
    if lower_equals(t.as_slice(), g.as_slice()) {
        Lang::Gram
    } else {
        Lang::Cypher
    }
}

// ── Fenced snippets ────────────────────────────────────────────────────────────

/// A Markdown fence: ```` ```cypher ````, ```` ```openCypher ```` or
/// ```` ```gram ```` (any case) on a line of its own, the body, and a closing
/// ```` ``` ```` line.
pub open spec fn md_fence_pattern() -> Seq<char> {
    "(?ms)^```[ \\t]*(?P<tag>(?i:cypher|openCypher|gram))[ \\t]*\\n(?P<body>.*?)^```[ \\t]*$"@
}

/// An AsciiDoc listing: `[source,cypher]` (or openCypher, gram), a `----`
/// line, the body, and a closing `----` line.
pub open spec fn adoc_fence_pattern() -> Seq<char> {
    "(?ms)^\\[source,[ \\t]*(?P<tag>(?i:cypher|openCypher|gram))\\]\\n----\\n(?P<body>.*?)\\n----"@
}

fn md_fence() -> (r: &'static str)
    ensures
        r@ == md_fence_pattern(),
{
    "(?ms)^```[ \\t]*(?P<tag>(?i:cypher|openCypher|gram))[ \\t]*\\n(?P<body>.*?)^```[ \\t]*$"
}

fn adoc_fence() -> (r: &'static str)
    ensures
        r@ == adoc_fence_pattern(),
{
    "(?ms)^\\[source,[ \\t]*(?P<tag>(?i:cypher|openCypher|gram))\\]\\n----\\n(?P<body>.*?)\\n----"
}

/// From position `q` to the end of its line (or of the text) there are only
/// spaces and tabs.
pub open spec fn blank_to_line_end(t: Seq<char>, q: int) -> bool
    decreases t.len() - q,
{
    if q < 0 || q >= t.len() {
        true
    } else if t[q] == '\n' {
        true
    } else {
        (t[q] == ' ' || t[q] == '\t') && blank_to_line_end(t, q + 1)
    }
}

/// A closing Markdown fence line starts at `p`: at a line's start, three
/// backticks followed by nothing but spaces and tabs.
pub open spec fn closing_fence_at(t: Seq<char>, p: int) -> bool {
    &&& 0 <= p
    &&& p + 3 <= t.len()
    &&& p == 0 || t[p - 1] == '\n'
    &&& t[p] == '`' && t[p + 1] == '`' && t[p + 2] == '`'
    &&& blank_to_line_end(t, p + 3)
}

/// The text holds a closing Markdown fence line.
pub open spec fn has_closing_fence_line(t: Seq<char>) -> bool {
    exists|p: int| closing_fence_at(t, p)
}

/// The text holds a `\n----` that would close an AsciiDoc listing.
pub open spec fn has_listing_close(t: Seq<char>) -> bool {
    exists|p: int|
        0 <= p && p + 5 <= t.len() && #[trigger] t[p] == '\n' && t[p + 1] == '-' && t[p + 2] == '-' && t[p + 3] == '-'
            && t[p + 4] == '-'
}

/// One match of a regular expression: the byte offset where it starts, and
/// the text of each group (group 0 is the whole match), `None` for a group
/// that took no part.
#[derive(Debug)]
pub struct Capture {
    pub start: usize,
    pub groups: Vec<Option<String>>,
}

pub struct CaptureView {
    pub start: int,
    pub groups: Seq<Option<Seq<char>>>,
}

impl View for Capture {
    type V = CaptureView;

    open spec fn view(&self) -> CaptureView {
        CaptureView {
            start: self.start as int,
            groups: self.groups@.map_values(|g: Option<String>| match g {
                Some(t) => Some(t@),
                None => None,
            }),
        }
    }
}

pub open spec fn captures_view(v: Seq<Capture>) -> Seq<CaptureView> {
    v.map_values(|c: Capture| c@)
}

/// The matches, left to right and not overlapping, that the `regex` crate
/// finds for `pattern` in `text`; `None` when the pattern does not compile.
pub uninterp spec fn regex_captures(pattern: Seq<char>, text: Seq<char>) -> Option<Seq<CaptureView>>;

/// Compiles `pattern` with `regex::Regex::new` and lists `captures_iter`
/// over `text`. The contract names the matches, and states two facts the
/// crate's documented semantics give: every match starts at a byte offset
/// within `text`; for the Markdown fence pattern, whose body is the lazy
/// `.*?` before the first line that is three backticks and blanks, no body
/// holds such a line; and for the AsciiDoc listing pattern, whose body is the
/// lazy `.*?` before the first `\n----`, no body holds `\n----` (a lazy
/// repetition under leftmost-first matching takes the shortest body after
/// which the rest of the pattern matches).
#[verifier::external_body]
fn captures_of(pattern: &str, text: &str) -> (r: Option<Vec<Capture>>)
    ensures
        match r {
            Some(v) => regex_captures(pattern@, text@) == Some(captures_view(v@)),
            None => regex_captures(pattern@, text@) is None,
        },
        r matches Some(v) ==> forall|i: int| 0 <= i < v@.len() ==> #[trigger] v@[i].start <= text.spec_bytes().len(),
        pattern@ == "(?ms)^```[ \\t]*(?P<tag>(?i:cypher|openCypher|gram))[ \\t]*\\n(?P<body>.*?)^```[ \\t]*$"@ ==> (
        r matches Some(v) ==> forall|i: int|
            0 <= i < v@.len() && 2 < (#[trigger] v@[i]).groups@.len() ==> (v@[i].groups@[2] matches Some(t)
                ==> !has_closing_fence_line(t@))),
        pattern@ == "(?ms)^\\[source,[ \\t]*(?P<tag>(?i:cypher|openCypher|gram))\\]\\n----\\n(?P<body>.*?)\\n----"@ ==> (
        r matches Some(v) ==> forall|i: int|
            0 <= i < v@.len() && 2 < (#[trigger] v@[i]).groups@.len() ==> (v@[i].groups@[2] matches Some(t)
                ==> !has_listing_close(t@))),
{
    let re = regex::Regex::new(pattern).ok()?;
    Some(re.captures_iter(text).map(|c| Capture {
        start: c.get_match().start(),
        groups: c.iter().map(|g| g.map(|m| m.as_str().to_string())).collect(),
    }).collect())
}

/// A snippet of Cypher or gram found in a document.
#[derive(Debug)]
pub struct Snippet {
    pub lang: Lang,
    pub source: String,
    /// Zero-based line of the snippet's first line in the document.
    pub fence_start_line: u32,
}

pub struct SnippetView {
    pub lang: Lang,
    pub source: Seq<char>,
    pub fence_start_line: u32,
}

impl View for Snippet {
    type V = SnippetView;

    open spec fn view(&self) -> SnippetView {
        SnippetView { lang: self.lang, source: self.source@, fence_start_line: self.fence_start_line }
    }
}

pub open spec fn snippets_view(v: Seq<Snippet>) -> Seq<SnippetView> {
    v.map_values(|s: Snippet| s@)
}

/// How many `\n` bytes come before offset `end`.
pub open spec fn newlines_before(b: Seq<u8>, end: int) -> nat
    decreases end,
{
    if end <= 0 || end > b.len() {
        0
    } else {
        newlines_before(b, end - 1) + if b[end - 1] == 10u8 { 1nat } else { 0nat }
    }
}

/// A match that the snippet patterns can give: both groups took part, and it
/// starts within the text.
pub open spec fn capture_ok(c: CaptureView, len: int) -> bool {
    &&& c.groups.len() >= 3
    &&& c.groups[1] is Some
    &&& c.groups[2] is Some
    &&& 0 <= c.start <= len
}

pub open spec fn captures_ok(cs: Seq<CaptureView>, len: int) -> bool {
    forall|i: int| 0 <= i < cs.len() ==> capture_ok(#[trigger] cs[i], len)
}

/// The snippet of one match: its tag decides the language, its body is the
/// source, and it starts `skip` lines below the line where the match starts.
pub open spec fn snippet_of(c: CaptureView, b: Seq<u8>, skip: nat) -> SnippetView {
    SnippetView {
        lang: lang_for_tag(c.groups[1]->0),
        source: c.groups[2]->0,
        fence_start_line: (newlines_before(b, c.start) + skip) as u32,
    }
}

pub open spec fn snippets_in(cs: Seq<CaptureView>, b: Seq<u8>, skip: nat) -> Seq<SnippetView> {
    cs.map_values(|c: CaptureView| snippet_of(c, b, skip))
}

/// Where a snippet on `line` goes in a list sorted by line: after the last
/// one whose line is not greater.
pub open spec fn insertion_point(s: Seq<SnippetView>, line: u32) -> int
    decreases s.len(),
{
    if s.len() == 0 {
        0
    } else if s.last().fence_start_line <= line {
        s.len() as int
    } else {
        insertion_point(s.drop_last(), line)
    }
}

pub open spec fn insert_by_line(s: Seq<SnippetView>, x: SnippetView) -> Seq<SnippetView> {
    let p = insertion_point(s, x.fence_start_line);
    s.take(p).push(x) + s.skip(p)
}

/// The stable sort by line: each snippet goes after every earlier one whose
/// line is not greater.
pub open spec fn sort_by_line(s: Seq<SnippetView>) -> Seq<SnippetView>
    decreases s.len(),
{
    if s.len() == 0 {
        s
    } else {
        insert_by_line(sort_by_line(s.drop_last()), s.last())
    }
}

pub open spec fn sorted_by_line(s: Seq<SnippetView>) -> bool {
    forall|i: int, j: int| 0 <= i < j < s.len() ==> s[i].fence_start_line <= s[j].fence_start_line
}

/// The snippets of a document: the Markdown ones (one line below the opening
/// fence) and the AsciiDoc ones (two lines below), stably sorted by line.
pub open spec fn document_snippets(b: Seq<u8>, md: Seq<CaptureView>, adoc: Seq<CaptureView>) -> Seq<SnippetView> {
    sort_by_line(snippets_in(md, b, 1) + snippets_in(adoc, b, 2))
}

proof fn lemma_insertion_point(s: Seq<SnippetView>, line: u32)
    ensures
        0 <= insertion_point(s, line) <= s.len(),
        forall|j: int| insertion_point(s, line) <= j < s.len() ==> s[j].fence_start_line > line,
        sorted_by_line(s) ==> forall|j: int|
            0 <= j < insertion_point(s, line) ==> s[j].fence_start_line <= line,
    decreases s.len(),
{
    if s.len() > 0 && s.last().fence_start_line > line {
        lemma_insertion_point(s.drop_last(), line);
        assert forall|j: int| insertion_point(s, line) <= j < s.len() implies s[j].fence_start_line > line by {
            if j < s.len() - 1 {
                assert(s[j] == s.drop_last()[j]);
            }
        }
        if sorted_by_line(s) {
            assert(sorted_by_line(s.drop_last()));
            assert forall|j: int| 0 <= j < insertion_point(s, line) implies s[j].fence_start_line <= line by {
                assert(s[j] == s.drop_last()[j]);
            }
        }
    } else if s.len() > 0 && sorted_by_line(s) {
        assert forall|j: int| 0 <= j < insertion_point(s, line) implies s[j].fence_start_line <= line by {
            if j < s.len() - 1 {
                assert(s[j].fence_start_line <= s[s.len() - 1].fence_start_line);
            }
        }
    }
}

proof fn lemma_insert_sorted(s: Seq<SnippetView>, x: SnippetView)
    requires
        sorted_by_line(s),
    ensures
        sorted_by_line(insert_by_line(s, x)),
        insert_by_line(s, x).len() == s.len() + 1,
{
    lemma_insertion_point(s, x.fence_start_line);
    let p = insertion_point(s, x.fence_start_line);
    let t = insert_by_line(s, x);
    assert forall|i: int, j: int| 0 <= i < j < t.len() implies t[i].fence_start_line <= t[j].fence_start_line by {
        if j < p {
            assert(t[i] == s[i] && t[j] == s[j]);
        } else if j == p {
            assert(t[j] == x);
            assert(t[i] == s[i]);
        } else if i < p {
            assert(t[i] == s[i] && t[j] == s[j - 1]);
        } else if i == p {
            assert(t[i] == x && t[j] == s[j - 1]);
        } else {
            assert(t[i] == s[i - 1] && t[j] == s[j - 1]);
        }
    }
}

/// A stable sort by line always gives a list sorted by line.
pub proof fn lemma_sort_by_line_sorted(s: Seq<SnippetView>)
    ensures
        sorted_by_line(sort_by_line(s)),
        sort_by_line(s).len() == s.len(),
    decreases s.len(),
{
    if s.len() > 0 {
        lemma_sort_by_line_sorted(s.drop_last());
        lemma_insert_sorted(sort_by_line(s.drop_last()), s.last());
    }
}

fn newline_count(b: &[u8], end: usize) -> (r: usize)
    requires
        end <= b@.len(),
    ensures
        r == newlines_before(b@, end as int),
        r <= end,
{
    let mut i: usize = 0;
    let mut n: usize = 0;
    while i < end
        invariant
            end <= b@.len(),
            i <= end,
            n == newlines_before(b@, i as int),
            n <= i,
        decreases end - i,
    {
        if b[i] == 10u8 {
            n = n + 1;
        }
        i = i + 1;
    }
    n
}

fn snippet_from(c: &Capture, b: &[u8], skip: u32) -> (r: Snippet)
    requires
        capture_ok(c@, b@.len() as int),
        b@.len() + skip <= u32::MAX,
    ensures
        r@ == snippet_of(c@, b@, skip as nat),
{
    let ghost cv = c@;
    assert(cv.groups[1] == match c.groups@[1] {
        Some(t) => Some(t@),
        None => None::<Seq<char>>,
    });
    assert(cv.groups[2] == match c.groups@[2] {
        Some(t) => Some(t@),
        None => None::<Seq<char>>,
    });
    let tag = match &c.groups[1] {
        Some(t) => t.as_str(),
        None => "",
    };
    let body = match &c.groups[2] {
        Some(t) => t.clone(),
        None => String::new(),
    };
    let lines = newline_count(b, c.start);
    Snippet { lang: lang_from_tag(tag), source: body, fence_start_line: lines as u32 + skip }
}

fn push_snippets(out: &mut Vec<Snippet>, cs: &Vec<Capture>, b: &[u8], skip: u32)
    requires
        captures_ok(captures_view(cs@), b@.len() as int),
        b@.len() + skip <= u32::MAX,
    ensures
        snippets_view(final(out)@) == snippets_view(old(out)@) + snippets_in(captures_view(cs@), b@, skip as nat),
{
    let ghost o = snippets_view(out@);
    let mut i: usize = 0;
    while i < cs.len()
        invariant
            captures_ok(captures_view(cs@), b@.len() as int),
            b@.len() + skip <= u32::MAX,
            i <= cs@.len(),
            snippets_view(out@) == o + snippets_in(captures_view(cs@).take(i as int), b@, skip as nat),
        decreases cs@.len() - i,
    {
        assert(captures_view(cs@)[i as int] == cs@[i as int]@);
        assert(capture_ok(captures_view(cs@)[i as int], b@.len() as int));
        let sn = snippet_from(&cs[i], b, skip);
        let ghost prev = out@;
        out.push(sn);
        proof {
            let t = captures_view(cs@).take(i as int);
            assert(captures_view(cs@).take(i + 1) =~= t.push(cs@[i as int]@));
            assert(snippets_in(t.push(cs@[i as int]@), b@, skip as nat) =~= snippets_in(t, b@, skip as nat).push(
                snippet_of(cs@[i as int]@, b@, skip as nat),
            ));
            assert(snippets_view(out@) =~= snippets_view(prev).push(sn@));
        }
        assert(snippets_view(out@) =~= o + snippets_in(captures_view(cs@).take(i + 1), b@, skip as nat));
        i = i + 1;
    }
    assert(captures_view(cs@).take(cs@.len() as int) =~= captures_view(cs@));
}

fn insert_snippet(v: &mut Vec<Snippet>, x: Snippet)
    ensures
        snippets_view(final(v)@) == insert_by_line(snippets_view(old(v)@), x@),
{
    let ghost s = snippets_view(v@);
    let line = x.fence_start_line;
    let mut i: usize = v.len();
    assert(s.take(i as int) =~= s);
    while i > 0 && v[i - 1].fence_start_line > line
        invariant
            s == snippets_view(v@),
            i <= s.len(),
            insertion_point(s, line) == insertion_point(s.take(i as int), line),
        decreases i,
    {
        assert(s.take(i as int).drop_last() =~= s.take(i - 1));
        i = i - 1;
    }
    proof {
        if i > 0 {
            assert(s.take(i as int).last() == s[i - 1]);
        }
    }
    v.insert(i, x);
    assert(snippets_view(v@) =~= s.take(i as int).push(x@) + s.skip(i as int));
}

fn sort_snippets(v: Vec<Snippet>) -> (r: Vec<Snippet>)
    ensures
        snippets_view(r@) == sort_by_line(snippets_view(v@)),
{
    let ghost s = snippets_view(v@);
    let mut out: Vec<Snippet> = Vec::new();
    let mut rest = v;
    let n = rest.len();
    assert(snippets_view(out@) =~= sort_by_line(s.take(0)));
    assert(snippets_view(rest@) =~= s.skip(0));
    let mut i: usize = 0;
    while i < n
        invariant
            n == s.len(),
            i <= n,
            snippets_view(rest@) == s.skip(i as int),
            snippets_view(out@) == sort_by_line(s.take(i as int)),
        decreases n - i,
    {
        assert(rest@.len() > 0) by {
            assert(snippets_view(rest@).len() == rest@.len());
        }
        let ghost before = rest@;
        let x = rest.remove(0);
        assert(x@ == s[i as int]) by {
            assert(snippets_view(before)[0] == before[0]@);
        }
        assert(snippets_view(rest@) =~= s.skip(i + 1)) by {
            assert(rest@ =~= before.skip(1));
            assert(snippets_view(before).skip(1) =~= s.skip(i + 1));
            assert(snippets_view(before.skip(1)) =~= snippets_view(before).skip(1));
        }
        assert(s.take(i + 1).drop_last() =~= s.take(i as int));
        assert(s.take(i + 1).last() == s[i as int]);
        insert_snippet(&mut out, x);
        i = i + 1;
    }
    assert(s.take(n as int) =~= s);
    out
}

/// The snippets that the matches of the two fence patterns give, stably
/// sorted by line.
pub fn snippets_from_captures(source: &str, md: &Vec<Capture>, adoc: &Vec<Capture>) -> (r: Vec<Snippet>)
    requires
        captures_ok(captures_view(md@), source.spec_bytes().len() as int),
        captures_ok(captures_view(adoc@), source.spec_bytes().len() as int),
        source.spec_bytes().len() + 2 <= u32::MAX,
    ensures
        snippets_view(r@) == document_snippets(source.spec_bytes(), captures_view(md@), captures_view(adoc@)),
        sorted_by_line(snippets_view(r@)),
{
    let b = source.as_bytes();
    let mut all: Vec<Snippet> = Vec::new();
    push_snippets(&mut all, md, b, 1);
    push_snippets(&mut all, adoc, b, 2);
    assert(snippets_view(all@) =~= snippets_in(captures_view(md@), b@, 1) + snippets_in(captures_view(adoc@), b@, 2));
    let r = sort_snippets(all);
    proof {
        lemma_sort_by_line_sorted(snippets_view(all@));
    }
    r
}

fn all_captures_ok(cs: &Vec<Capture>, len: usize) -> (r: bool)
    ensures
        r == captures_ok(captures_view(cs@), len as int),
{
    let mut i: usize = 0;
    while i < cs.len()
        invariant
            i <= cs@.len(),
            forall|k: int| 0 <= k < i ==> capture_ok(#[trigger] captures_view(cs@)[k], len as int),
        decreases cs@.len() - i,
    {
        let c = &cs[i];
        assert(captures_view(cs@)[i as int] == c@);
        let ok = c.groups.len() >= 3 && c.groups[1].is_some() && c.groups[2].is_some() && c.start <= len;
        if !ok {
            assert(!capture_ok(captures_view(cs@)[i as int], len as int));
            return false;
        }
        i = i + 1;
    }
    true
}

/// The snippets of a document as the fence patterns find them; none when a
/// pattern does not compile or a match lacks a group.
pub open spec fn fenced_snippets(source: &str) -> Seq<SnippetView> {
    let len = source.spec_bytes().len() as int;
    match (regex_captures(md_fence_pattern(), source@), regex_captures(adoc_fence_pattern(), source@)) {
        (Some(m), Some(a)) => if captures_ok(m, len) && captures_ok(a, len) {
            document_snippets(source.spec_bytes(), m, a)
        } else {
            seq![]
        },
        _ => seq![],
    }
}

proof fn lemma_sort_by_line_from(s: Seq<SnippetView>)
    ensures
        forall|x: SnippetView| #[trigger] sort_by_line(s).contains(x) ==> s.contains(x),
    decreases s.len(),
{
    if s.len() > 0 {
        let t = sort_by_line(s.drop_last());
        lemma_sort_by_line_from(s.drop_last());
        lemma_insertion_point(t, s.last().fence_start_line);
        let p = insertion_point(t, s.last().fence_start_line);
        let r = insert_by_line(t, s.last());
        assert forall|x: SnippetView| #[trigger] r.contains(x) implies s.contains(x) by {
            let j = choose|j: int| 0 <= j < r.len() && r[j] == x;
            if j < p {
                assert(t[j] == x);
                assert(t.contains(x));
                let k = choose|k: int| 0 <= k < s.drop_last().len() && s.drop_last()[k] == x;
                assert(s[k] == x);
            } else if j == p {
                assert(x == s.last());
                assert(s[s.len() - 1] == x);
            } else {
                assert(t[j - 1] == x);
                assert(t.contains(x));
                let k = choose|k: int| 0 <= k < s.drop_last().len() && s.drop_last()[k] == x;
                assert(s[k] == x);
            }
        }
    }
}

/// In a document without AsciiDoc listings, no snippet holds a closing
/// Markdown fence line: each fenced block gives its own snippet, which ends
/// where its block does.
proof fn lemma_markdown_snippets_end_at_their_fence(source: &str)
    requires
        regex_captures(md_fence_pattern(), source@) matches Some(m) ==> forall|i: int|
            0 <= i < m.len() && 2 < (#[trigger] m[i]).groups.len() ==> (m[i].groups[2] matches Some(t)
                ==> !has_closing_fence_line(t)),
    ensures
        regex_captures(adoc_fence_pattern(), source@) matches Some(a) && a.len() == 0 ==> forall|i: int|
            0 <= i < fenced_snippets(source).len() ==> !has_closing_fence_line(
                (#[trigger] fenced_snippets(source)[i]).source,
            ),
{
    let len = source.spec_bytes().len() as int;
    let b = source.spec_bytes();
    if let (Some(m), Some(a)) = (regex_captures(md_fence_pattern(), source@), regex_captures(adoc_fence_pattern(), source@)) {
        if a.len() == 0 && captures_ok(m, len) && captures_ok(a, len) {
            let all = snippets_in(m, b, 1) + snippets_in(a, b, 2);
            assert(all =~= snippets_in(m, b, 1));
            lemma_sort_by_line_from(all);
            let r = sort_by_line(all);
            assert forall|i: int| 0 <= i < r.len() implies !has_closing_fence_line((#[trigger] r[i]).source) by {
                assert(r.contains(r[i]));
                let k = choose|k: int| 0 <= k < all.len() && all[k] == r[i];
                assert(capture_ok(m[k], len));
                assert(all[k] == snippet_of(m[k], b, 1));
            }
        }
    }
}

/// In a document without Markdown fences, no snippet holds a `\n----`: each
/// AsciiDoc listing gives its own snippet, which ends where its listing does.
proof fn lemma_listings_end_at_their_close(source: &str)
    requires
        regex_captures(adoc_fence_pattern(), source@) matches Some(a) ==> forall|i: int|
            0 <= i < a.len() && 2 < (#[trigger] a[i]).groups.len() ==> (a[i].groups[2] matches Some(t)
                ==> !has_listing_close(t)),
    ensures
        regex_captures(md_fence_pattern(), source@) matches Some(m) && m.len() == 0 ==> forall|i: int|
            0 <= i < fenced_snippets(source).len() ==> !has_listing_close((#[trigger] fenced_snippets(source)[i]).source),
{
    let len = source.spec_bytes().len() as int;
    let b = source.spec_bytes();
    if let (Some(m), Some(a)) = (regex_captures(md_fence_pattern(), source@), regex_captures(adoc_fence_pattern(), source@)) {
        if m.len() == 0 && captures_ok(m, len) && captures_ok(a, len) {
            let all = snippets_in(m, b, 1) + snippets_in(a, b, 2);
            assert(all =~= snippets_in(a, b, 2));
            lemma_sort_by_line_from(all);
            let r = sort_by_line(all);
            assert forall|i: int| 0 <= i < r.len() implies !has_listing_close((#[trigger] r[i]).source) by {
                assert(r.contains(r[i]));
                let k = choose|k: int| 0 <= k < all.len() && all[k] == r[i];
                assert(capture_ok(a[k], len));
                assert(all[k] == snippet_of(a[k], b, 2));
            }
        }
    }
}

/// The Cypher and gram snippets fenced in a Markdown or AsciiDoc document,
/// sorted by the line where each starts.
pub fn extract_snippets(source: &str) -> (r: Vec<Snippet>)
    requires
        source.spec_bytes().len() + 2 <= u32::MAX,
    ensures
        snippets_view(r@) == fenced_snippets(source),
        regex_captures(md_fence_pattern(), source@) matches Some(m) ==> forall|i: int|
            0 <= i < m.len() && 2 < (#[trigger] m[i]).groups.len() ==> (m[i].groups[2] matches Some(t)
                ==> !has_closing_fence_line(t)),
        regex_captures(adoc_fence_pattern(), source@) matches Some(a) && a.len() == 0 ==> forall|i: int|
            0 <= i < r@.len() ==> !has_closing_fence_line((#[trigger] r@[i])@.source),
        regex_captures(adoc_fence_pattern(), source@) matches Some(a) ==> forall|i: int|
            0 <= i < a.len() && 2 < (#[trigger] a[i]).groups.len() ==> (a[i].groups[2] matches Some(t)
                ==> !has_listing_close(t)),
        regex_captures(md_fence_pattern(), source@) matches Some(m) && m.len() == 0 ==> forall|i: int|
            0 <= i < r@.len() ==> !has_listing_close((#[trigger] r@[i])@.source),
{
    let md = captures_of(md_fence(), source);
    proof {
        if md is Some {
            let v = md->0;
            let m = captures_view(v@);
            assert forall|i: int| 0 <= i < m.len() && 2 < (#[trigger] m[i]).groups.len() implies (
            m[i].groups[2] matches Some(t) ==> !has_closing_fence_line(t)) by {
                assert(m[i] == v@[i]@);
                assert(v@[i].groups@.len() == m[i].groups.len());
                if let Some(g) = v@[i].groups@[2] {
                    assert(m[i].groups[2] == Some(g@));
                }
            }
        }
    }
    proof {
        lemma_markdown_snippets_end_at_their_fence(source);
    }
    let adoc = captures_of(adoc_fence(), source);
    proof {
        if adoc is Some {
            let v = adoc->0;
            let a = captures_view(v@);
            assert forall|i: int| 0 <= i < a.len() && 2 < (#[trigger] a[i]).groups.len() implies (
            a[i].groups[2] matches Some(t) ==> !has_listing_close(t)) by {
                assert(a[i] == v@[i]@);
                assert(v@[i].groups@.len() == a[i].groups.len());
                if let Some(g) = v@[i].groups@[2] {
                    assert(a[i].groups[2] == Some(g@));
                }
            }
        }
        lemma_listings_end_at_their_close(source);
    }
    let len = source.as_bytes().len();
    let r = match (md, adoc) {
        (Some(m), Some(a)) => {
            if all_captures_ok(&m, len) && all_captures_ok(&a, len) {
                snippets_from_captures(source, &m, &a)
            } else {
                let r: Vec<Snippet> = Vec::new();
                assert(snippets_view(r@) =~= seq![]);
                r
            }
        },
        _ => {
            let r: Vec<Snippet> = Vec::new();
            assert(snippets_view(r@) =~= seq![]);
            r
        },
    };
    proof {
        if let Some(m) = regex_captures(md_fence_pattern(), source@) {
            if m.len() == 0 {
                assert forall|i: int| 0 <= i < r@.len() implies !has_listing_close((#[trigger] r@[i])@.source) by {
                    assert(snippets_view(r@)[i] == r@[i]@);
                    assert(fenced_snippets(source)[i] == r@[i]@);
                }
            }
        }
        if let Some(a) = regex_captures(adoc_fence_pattern(), source@) {
            if a.len() == 0 {
                assert forall|i: int| 0 <= i < r@.len() implies !has_closing_fence_line((#[trigger] r@[i])@.source) by {
                    assert(snippets_view(r@)[i] == r@[i]@);
                    assert(fenced_snippets(source)[i] == r@[i]@);
                }
            }
        }
    }
    r
}

// ── Linting ────────────────────────────────────────────────────────────────────

/// `a + b` as a release build computes it on `u32`: wrapping past the top.
pub open spec fn line_plus(a: u32, b: u32) -> u32 {
    if a + b > u32::MAX {
        (a + b - 0x1_0000_0000) as u32
    } else {
        (a + b) as u32
    }
}

/// A finding moved down by `offset` lines.
pub open spec fn shifted(d: DiagnosticView, offset: u32) -> DiagnosticView {
    DiagnosticView {
        range: Range {
            start: Position { line: line_plus(d.range.start.line, offset), character: d.range.start.character },
            end: Position { line: line_plus(d.range.end.line, offset), character: d.range.end.character },
        },
        ..d
    }
}

/// Moves a finding of a snippet to the snippet's place in its document.
pub fn offset_diagnostic(d: Diagnostic, offset: u32) -> (r: Diagnostic)
    ensures
        r@ == shifted(d@, offset),
{
    let mut d = d;
    d.range.start.line = d.range.start.line.wrapping_add(offset);
    d.range.end.line = d.range.end.line.wrapping_add(offset);
    d
}

/// `found` is what the linter of `lang` reports for `source`: the gram linter's
/// findings in their order, the Cypher linter's in some order.
pub open spec fn lint_matches(lang: Lang, source: Seq<char>, found: Seq<DiagnosticView>) -> bool {
    match lang {
        Lang::Cypher => found.to_multiset() == cypher_lint(source),
        Lang::Gram => found == gram_lint(source),
    }
}

/// Lints `source` as `lang`.
pub fn lint_source_for_lang(lang: Lang, source: &str, strict: bool) -> (r: Vec<Diagnostic>)
    ensures
        lint_matches(lang, source@, diagnostics_view(r@)),
{
    match lang {
        Lang::Cypher => lint_cypher(source, strict),
        Lang::Gram => lint_gram(source, strict),
    }
}

/// Findings moved down by `offset` lines.
pub open spec fn shifted_all(ds: Seq<DiagnosticView>, offset: u32) -> Seq<DiagnosticView> {
    ds.map_values(|d: DiagnosticView| shifted(d, offset))
}

/// The findings of the snippets, each snippet's own findings (`raw`) moved to
/// its place in the document, snippet after snippet.
pub open spec fn snippets_found(ss: Seq<SnippetView>, raw: Seq<Seq<DiagnosticView>>) -> Seq<DiagnosticView>
    decreases ss.len(),
{
    if ss.len() == 0 || raw.len() == 0 {
        seq![]
    } else {
        snippets_found(ss.drop_last(), raw.drop_last()) + shifted_all(raw.last(), ss.last().fence_start_line)
    }
}

/// `raw` holds, for each snippet, what its linter reports for it.
pub open spec fn raw_ok(ss: Seq<SnippetView>, raw: Seq<Seq<DiagnosticView>>) -> bool {
    raw.len() == ss.len() && forall|i: int| 0 <= i < ss.len() ==> lint_matches(ss[i].lang, ss[i].source, #[trigger] raw[i])
}

/// Why a file cannot be linted.
#[derive(Debug)]
pub enum LintError {
    /// Its extension is none of `cypher`, `gram`, `md` and `adoc`.
    UnsupportedFileType,
}

pub open spec fn is_markup(ext: Seq<char>) -> bool {
    ext == "md"@ || ext == "adoc"@
}

/// The extensions that are linted when a file is named: `cypher`, `gram`,
/// `md` and `adoc`.
pub open spec fn supported(ext: Seq<char>) -> bool {
    ext == "cypher"@ || ext == "gram"@ || is_markup(ext)
}

/// `found` is what a file with extension `ext` and content `source` gives: a
/// .cypher or .gram file is linted whole, a .md or .adoc document snippet by
/// snippet, each snippet's findings moved to its place in the document.
pub open spec fn document_found(ext: Seq<char>, source: &str, found: Seq<DiagnosticView>) -> bool {
    if ext == "cypher"@ {
        lint_matches(Lang::Cypher, source@, found)
    } else if ext == "gram"@ {
        lint_matches(Lang::Gram, source@, found)
    } else if is_markup(ext) {
        exists|raw: Seq<Seq<DiagnosticView>>|
            raw_ok(fenced_snippets(source), raw) && found == #[trigger] snippets_found(fenced_snippets(source), raw)
    } else {
        false
    }
}

fn push_snippet_findings(out: &mut Vec<Diagnostic>, sn: &Snippet, strict: bool) -> (raw: Ghost<Seq<DiagnosticView>>)
    ensures
        lint_matches(sn.lang, sn.source@, raw@),
        diagnostics_view(final(out)@) == diagnostics_view(old(out)@) + shifted_all(raw@, sn.fence_start_line),
{
    let ds = lint_source_for_lang(sn.lang, sn.source.as_str(), strict);
    let ghost o = diagnostics_view(out@);
    let ghost f = diagnostics_view(ds@);
    let mut k: usize = 0;
    while k < ds.len()
        invariant
            k <= ds@.len(),
            diagnostics_view(ds@) == f,
            diagnostics_view(out@) == o + f.take(k as int).map_values(
                |d: DiagnosticView| shifted(d, sn.fence_start_line),
            ),
        decreases ds@.len() - k,
    {
        let ghost prev = out@;
        let d = offset_diagnostic(ds[k].duplicate(), sn.fence_start_line);
        out.push(d);
        proof {
            assert(f[k as int] == ds@[k as int]@);
            assert(f.take(k + 1) =~= f.take(k as int).push(f[k as int]));
            assert(diagnostics_view(out@) =~= diagnostics_view(prev).push(d@));
            assert(f.take(k + 1).map_values(|d: DiagnosticView| shifted(d, sn.fence_start_line)) =~= f.take(
                k as int,
            ).map_values(|d: DiagnosticView| shifted(d, sn.fence_start_line)).push(shifted(f[k as int], sn.fence_start_line)));
        }
        k = k + 1;
    }
    assert(f.take(ds@.len() as int) =~= f);
    Ghost(f)
}

/// Lints a file by its extension and content.
pub fn lint_document(ext: &str, source: &str, strict: bool) -> (r: Result<Vec<Diagnostic>, LintError>)
    requires
        is_markup(ext@) ==> source.spec_bytes().len() + 2 <= u32::MAX,
    ensures
        match r {
            Ok(v) => supported(ext@) && document_found(ext@, source, diagnostics_view(v@)),
            Err(LintError::UnsupportedFileType) => !supported(ext@),
        },
{
    proof {
        reveal_strlit("cypher");
        reveal_strlit("gram");
        reveal_strlit("md");
        reveal_strlit("adoc");
    }
    if crate::text::str_eq(ext, "cypher") {
        Ok(lint_cypher(source, strict))
    } else if crate::text::str_eq(ext, "gram") {
        Ok(lint_gram(source, strict))
    } else if crate::text::str_eq(ext, "md") || crate::text::str_eq(ext, "adoc") {
        let snippets = extract_snippets(source);
        let ghost ss = snippets_view(snippets@);
        let ghost mut raw: Seq<Seq<DiagnosticView>> = seq![];
        let mut all: Vec<Diagnostic> = Vec::new();
        let mut i: usize = 0;
        assert(diagnostics_view(all@) =~= snippets_found(ss.take(0), raw));
        while i < snippets.len()
            invariant
                i <= snippets@.len(),
                ss == snippets_view(snippets@),
                raw_ok(ss.take(i as int), raw),
                diagnostics_view(all@) == snippets_found(ss.take(i as int), raw),
            decreases snippets@.len() - i,
        {
            let Ghost(f) = push_snippet_findings(&mut all, &snippets[i], strict);
            proof {
                let t = ss.take(i + 1);
                assert(t.drop_last() =~= ss.take(i as int));
                assert(t.last() == snippets@[i as int]@);
                let nr = raw.push(f);
                assert(nr.drop_last() =~= raw);
                assert forall|q: int| 0 <= q < t.len() implies lint_matches(t[q].lang, t[q].source, #[trigger] nr[q]) by {
                    if q < i {
                        assert(t[q] == ss.take(i as int)[q]);
                        assert(nr[q] == raw[q]);
                    }
                }
                raw = nr;
            }
            i = i + 1;
        }
        assert(ss.take(snippets@.len() as int) =~= ss);
        assert(diagnostics_view(all@) == snippets_found(fenced_snippets(source), raw));
        Ok(all)
    } else {
        Err(LintError::UnsupportedFileType)
    }
}

/// The extensions that a directory walk picks up.
pub open spec fn lintable(ext: Option<Seq<char>>) -> bool {
    match ext {
        Some(e) => e == "cypher"@ || e == "gram"@ || e == "md"@ || e == "adoc"@,
        None => false,
    }
}

/// Whether a file found in a directory is linted, by its extension.
pub fn is_lintable_extension(ext: Option<&str>) -> (r: bool)
    ensures
        r == lintable(match ext {
            Some(e) => Some(e@),
            None => None,
        }),
{
    proof {
        reveal_strlit("cypher");
        reveal_strlit("gram");
        reveal_strlit("md");
        reveal_strlit("adoc");
    }
    match ext {
        Some(e) => crate::text::str_eq(e, "cypher") || crate::text::str_eq(e, "gram") || crate::text::str_eq(e, "md")
            || crate::text::str_eq(e, "adoc"),
        None => false,
    }
}

/// A run fails when a finding is an error, or, when `strict`, when there is
/// any finding.
pub open spec fn fails(ds: Seq<DiagnosticView>, strict: bool) -> bool {
    exists|i: int| 0 <= i < ds.len() && (ds[i].severity == Severity::Error || strict)
}

/// Whether the lint run exits with status 1.
pub fn has_exit_one(diagnostics: &Vec<Diagnostic>, strict: bool) -> (r: bool)
    ensures
        r == fails(diagnostics_view(diagnostics@), strict),
{
    let ghost ds = diagnostics_view(diagnostics@);
    let mut i: usize = 0;
    while i < diagnostics.len()
        invariant
            i <= diagnostics@.len(),
            ds == diagnostics_view(diagnostics@),
            forall|k: int| 0 <= k < i ==> !(#[trigger] ds[k].severity == Severity::Error || strict),
        decreases diagnostics@.len() - i,
    {
        assert(ds[i as int] == diagnostics@[i as int]@);
        if diagnostics[i].severity == Severity::Error || strict {
            return true;
        }
        i = i + 1;
    }
    false
}

/// The `file` of a finding in the JSON output: the names that stand for an
/// inline expression and for standard input give `null`.
pub fn json_file(name: &str) -> (r: Option<&str>)
    ensures
        r == (if name@ == "<expr>"@ || name@ == "<stdin>"@ {
            None
        } else {
            Some(name)
        }),
{
    if crate::text::str_eq(name, "<expr>") || crate::text::str_eq(name, "<stdin>") {
        None
    } else {
        Some(name)
    }
}

/// The byte span that a report underlines: from the start position to the end
/// position, at least one byte long.
pub open spec fn report_span_of(b: Seq<u8>, d: DiagnosticView) -> (int, int) {
    let s = byte_offset(b, d.range.start.line as nat, d.range.start.character as nat);
    let e = byte_offset(b, d.range.end.line as nat, d.range.end.character as nat);
    (s, if e > s + 1 { e } else { s + 1 })
}

pub fn report_span(source: &str, d: &Diagnostic) -> (r: (usize, usize))
    requires
        source.spec_bytes().len() < usize::MAX,
    ensures
        (r.0 as int, r.1 as int) == report_span_of(source.spec_bytes(), d@),
{
    let s = to_byte_offset(source, d.range.start.line, d.range.start.character);
    let e = to_byte_offset(source, d.range.end.line, d.range.end.character);
    (s, if e > s + 1 { e } else { s + 1 })
}

/// How a report is labelled.
#[derive(PartialEq, Eq, Structural, Clone, Copy, Debug)]
pub enum ReportKind {
    Error,
    Warning,
    Advice,
}

/// Errors and warnings are reported as such; anything else as advice.
pub fn report_kind(s: Severity) -> (r: ReportKind)
    ensures
        r == match s {
            Severity::Error => ReportKind::Error,
            Severity::Warning => ReportKind::Warning,
            _ => ReportKind::Advice,
        },
{
    match s {
        Severity::Error => ReportKind::Error,
        Severity::Warning => ReportKind::Warning,
        _ => ReportKind::Advice,
    }
}

/// The one-line form of a finding, used when a report cannot be drawn:
/// `file:line:column: severity [rule] message`, counting from one.
pub open spec fn plain_line(file: Seq<char>, d: DiagnosticView, severity: Seq<char>) -> Seq<char> {
    file + ":"@ + decimal((d.range.start.line + 1) as nat) + ":"@ + decimal((d.range.start.character + 1) as nat) + ": "@ + severity
        + " ["@ + d.rule + "] "@ + d.message
}

pub fn plain_report(file: &str, d: &Diagnostic) -> (r: String)
    ensures
        r@ == plain_line(file@, d@, severity_name(d.severity)),
{
    plain_line_with(file, d, severity_str(d.severity))
}

pub fn plain_line_with(file: &str, d: &Diagnostic, severity: &str) -> (r: String)
    ensures
        r@ == plain_line(file@, d@, severity@),
{
    let line = decimal_string(d.range.start.line as u64 + 1);
    let col = decimal_string(d.range.start.character as u64 + 1);
    let mut out = concat(file, ":");
    out = concat(out.as_str(), line.as_str());
    out = concat(out.as_str(), ":");
    out = concat(out.as_str(), col.as_str());
    out = concat(out.as_str(), ": ");
    out = concat(out.as_str(), severity);
    out = concat(out.as_str(), " [");
    out = concat(out.as_str(), d.rule.as_str());
    out = concat(out.as_str(), "] ");
    out = concat(out.as_str(), d.message.as_str());
    proof {
        reveal_strlit(":");
        reveal_strlit(": ");
        reveal_strlit(" [");
        reveal_strlit("] ");
    }
    out
}

} // verus!
