//! Syntax trees of Cypher statements and cypherdoc comments, as the
//! tree-sitter grammars produce them, flattened in preorder.
use vstd::prelude::*;

verus! {

/// One node of a syntax tree. A tree is the sequence of its nodes in preorder;
/// `depth` is 0 for the root and one more than the parent's for any other node.
#[derive(Debug)]
pub struct SyntaxNode {
    pub kind: String,
    pub named: bool,
    /// The name of the field under which the node hangs in its parent.
    pub field: Option<String>,
    /// The source text that the node spans.
    pub text: String,
    /// Zero-based row at which the node starts.
    pub row: usize,
    pub depth: u32,
    pub has_error: bool,
}

/// The preorder nodes of the tree that tree-sitter-cypher gives `text`; `None`
/// when the parser could not be set up or returned no tree.
pub uninterp spec fn cypher_syntax(text: Seq<char>) -> Option<Seq<SyntaxNode>>;

/// The same for the tree-sitter-cypherdoc grammar.
pub uninterp spec fn cypherdoc_syntax(text: Seq<char>) -> Option<Seq<SyntaxNode>>;

/// Parses `text` with `tree_sitter::Parser` set to `tree_sitter_cypher::LANGUAGE`
/// and lists the tree's nodes in the order a `TreeCursor` visits them. The
/// contract names the result; it states nothing of the grammar.
#[verifier::external_body]
pub(crate) fn parse_cypher(text: &str) -> (r: Option<Vec<SyntaxNode>>)
    ensures
        match r {
            Some(v) => cypher_syntax(text@) == Some(v@),
            None => cypher_syntax(text@) is None,
        },
{
    let mut parser = tree_sitter::Parser::new();
    parser.set_language(&tree_sitter_cypher::LANGUAGE.into()).ok()?;
    let tree = parser.parse(text, None)?;
    let mut c = tree.walk();
    let mut out = vec![];
    loop {
        let n = c.node();
        out.push(SyntaxNode { kind: n.kind().into(), named: n.is_named(), field: c.field_name().map(String::from),
            text: text.get(n.byte_range()).unwrap_or("").into(), row: n.start_position().row,
            depth: c.depth(), has_error: n.has_error() });
        if !c.goto_first_child() {
            while !c.goto_next_sibling() { if !c.goto_parent() { return Some(out); } }
        }
    }
}

/// Parses `text` with `tree_sitter::Parser` set to `tree_sitter_cypherdoc::LANGUAGE`
/// and lists the tree's nodes in the order a `TreeCursor` visits them. The
/// contract names the result; it states nothing of the grammar.
#[verifier::external_body]
pub(crate) fn parse_cypherdoc_syntax(text: &str) -> (r: Option<Vec<SyntaxNode>>)
    ensures
        match r {
            Some(v) => cypherdoc_syntax(text@) == Some(v@),
            None => cypherdoc_syntax(text@) is None,
        },
{
    let mut parser = tree_sitter::Parser::new();
    parser.set_language(&tree_sitter_cypherdoc::LANGUAGE.into()).ok()?;
    let tree = parser.parse(text, None)?;
    let mut c = tree.walk();
    let mut out = vec![];
    loop {
        let n = c.node();
        out.push(SyntaxNode { kind: n.kind().into(), named: n.is_named(), field: c.field_name().map(String::from),
            text: text.get(n.byte_range()).unwrap_or("").into(), row: n.start_position().row,
            depth: c.depth(), has_error: n.has_error() });
        if !c.goto_first_child() {
            while !c.goto_next_sibling() { if !c.goto_parent() { return Some(out); } }
        }
    }
}

// ── Navigation ─────────────────────────────────────────────────────────────────

/// The nodes at depth `d + 1` from index `j` on, up to the first node at depth
/// `d` or less: the children of a node at depth `d` whose subtree continues at `j`.
pub open spec fn children_from(ns: Seq<SyntaxNode>, d: nat, j: int) -> Seq<int>
    decreases ns.len() - j,
{
    if j < 0 || j >= ns.len() || ns[j].depth <= d {
        seq![]
    } else {
        (if ns[j].depth == d + 1 { seq![j] } else { seq![] }) + children_from(ns, d, j + 1)
    }
}

/// The children of node `i`, in order.
pub open spec fn children(ns: Seq<SyntaxNode>, i: int) -> Seq<int> {
    children_from(ns, ns[i].depth as nat, i + 1)
}

/// The named children from index `j` on, as `children_from` delimits them.
pub open spec fn named_children_from(ns: Seq<SyntaxNode>, d: nat, j: int) -> Seq<int>
    decreases ns.len() - j,
{
    if j < 0 || j >= ns.len() || ns[j].depth <= d {
        seq![]
    } else {
        (if ns[j].depth - 1 == d && ns[j].named { seq![j] } else { seq![] }) + named_children_from(ns, d, j + 1)
    }
}

/// The named children of node `i`, in order.
pub open spec fn named_children(ns: Seq<SyntaxNode>, i: int) -> Seq<int> {
    named_children_from(ns, ns[i].depth as nat, i + 1)
}

/// The `k`-th named child of node `i`.
pub open spec fn named_child(ns: Seq<SyntaxNode>, i: int, k: int) -> Option<int> {
    if 0 <= k < named_children(ns, i).len() {
        Some(named_children(ns, i)[k])
    } else {
        None
    }
}

/// The first child under field `f` from index `j` on.
pub open spec fn field_child_from(ns: Seq<SyntaxNode>, d: nat, j: int, f: Seq<char>) -> Option<int>
    decreases ns.len() - j,
{
    if j < 0 || j >= ns.len() || ns[j].depth <= d {
        None
    } else if ns[j].depth == d + 1 && opt_chars(ns[j].field) == Some(f) {
        Some(j)
    } else {
        field_child_from(ns, d, j + 1, f)
    }
}

/// The first child of node `i` under field `f`.
pub open spec fn field_child(ns: Seq<SyntaxNode>, i: int, f: Seq<char>) -> Option<int> {
    field_child_from(ns, ns[i].depth as nat, i + 1, f)
}

pub open spec fn opt_chars(o: Option<String>) -> Option<Seq<char>> {
    match o {
        Some(s) => Some(s@),
        None => None,
    }
}

pub open spec fn index_seq(v: Seq<usize>) -> Seq<int> {
    v.map_values(|x: usize| x as int)
}

proof fn lemma_children_from_bounds(ns: Seq<SyntaxNode>, d: nat, j: int)
    ensures
        forall|k: int| 0 <= k < children_from(ns, d, j).len() ==> j <= #[trigger] children_from(ns, d, j)[k] < ns.len(),
        forall|k: int| 0 <= k < named_children_from(ns, d, j).len() ==> j <= #[trigger] named_children_from(ns, d, j)[k] < ns.len(),
    decreases ns.len() - j,
{
    if !(j < 0 || j >= ns.len() || ns[j].depth <= d) {
        lemma_children_from_bounds(ns, d, j + 1);
        let rest = children_from(ns, d, j + 1);
        let pre: Seq<int> = if ns[j].depth == d + 1 { seq![j] } else { seq![] };
        assert forall|k: int| 0 <= k < children_from(ns, d, j).len() implies j <= #[trigger] children_from(ns, d, j)[k] < ns.len() by {
            assert(children_from(ns, d, j) == pre + rest);
            if k >= pre.len() {
                assert(children_from(ns, d, j)[k] == rest[k - pre.len()]);
            }
        }
        let nrest = named_children_from(ns, d, j + 1);
        let npre: Seq<int> = if ns[j].depth - 1 == d && ns[j].named { seq![j] } else { seq![] };
        assert forall|k: int| 0 <= k < named_children_from(ns, d, j).len() implies j <= #[trigger] named_children_from(ns, d, j)[k] < ns.len() by {
            assert(named_children_from(ns, d, j) == npre + nrest);
            if k >= npre.len() {
                assert(named_children_from(ns, d, j)[k] == nrest[k - npre.len()]);
            }
        }
    }
}

/// The children of node `i`.
pub fn children_of(ns: &Vec<SyntaxNode>, i: usize) -> (r: Vec<usize>)
    requires
        i < ns@.len(),
    ensures
        index_seq(r@) == children(ns@, i as int),
        forall|k: int| 0 <= k < r@.len() ==> i < #[trigger] r@[k] < ns@.len(),
{
    let count = ns.len();
    assert(i < count);
    let d = ns[i].depth;
    let mut out: Vec<usize> = Vec::new();
    let mut j = i + 1;
    proof {
        lemma_children_from_bounds(ns@, d as nat, j as int);
    }
    while j < ns.len() && ns[j].depth > d
        invariant
            i < j <= ns@.len(),
            d == ns@[i as int].depth,
            children(ns@, i as int) == index_seq(out@) + children_from(ns@, d as nat, j as int),
            forall|k: int| 0 <= k < out@.len() ==> i < #[trigger] out@[k] < j,
        decreases ns@.len() - j,
    {
        let ghost before = out@;
        if ns[j].depth - 1 == d {
            out.push(j);
            assert(index_seq(out@) =~= index_seq(before) + seq![j as int]);
        }
        assert(children_from(ns@, d as nat, j as int) == (if ns@[j as int].depth == d + 1 {
            seq![j as int]
        } else {
            seq![]
        }) + children_from(ns@, d as nat, j + 1));
        assert(children(ns@, i as int) =~= index_seq(out@) + children_from(ns@, d as nat, j + 1));
        j = j + 1;
    }
    assert(children(ns@, i as int) =~= index_seq(out@));
    out
}

/// The named children of node `i`.
pub fn named_children_of(ns: &Vec<SyntaxNode>, i: usize) -> (r: Vec<usize>)
    requires
        i < ns@.len(),
    ensures
        index_seq(r@) == named_children(ns@, i as int),
        forall|k: int| 0 <= k < r@.len() ==> i < #[trigger] r@[k] < ns@.len(),
{
    let count = ns.len();
    assert(i < count);
    let d = ns[i].depth;
    let mut out: Vec<usize> = Vec::new();
    let mut j = i + 1;
    while j < ns.len() && ns[j].depth > d
        invariant
            i < j <= ns@.len(),
            d == ns@[i as int].depth,
            named_children(ns@, i as int) == index_seq(out@) + named_children_from(ns@, d as nat, j as int),
            forall|k: int| 0 <= k < out@.len() ==> i < #[trigger] out@[k] < j,
        decreases ns@.len() - j,
    {
        let ghost before = out@;
        if ns[j].depth - 1 == d && ns[j].named {
            out.push(j);
            assert(index_seq(out@) =~= index_seq(before) + seq![j as int]);
        }
        assert(named_children_from(ns@, d as nat, j as int) == (if ns@[j as int].depth == d + 1
            && ns@[j as int].named {
            seq![j as int]
        } else {
            seq![]
        }) + named_children_from(ns@, d as nat, j + 1));
        assert(named_children(ns@, i as int) =~= index_seq(out@) + named_children_from(ns@, d as nat, j + 1));
        j = j + 1;
    }
    assert(named_children(ns@, i as int) =~= index_seq(out@));
    out
}

/// The `k`-th named child of node `i`, as `Node::named_child` gives it.
pub fn named_child_of(ns: &Vec<SyntaxNode>, i: usize, k: usize) -> (r: Option<usize>)
    requires
        i < ns@.len(),
    ensures
        match r {
            Some(c) => named_child(ns@, i as int, k as int) == Some(c as int) && i < c < ns@.len(),
            None => named_child(ns@, i as int, k as int) is None,
        },
{
    let cs = named_children_of(ns, i);
    if k < cs.len() {
        assert(index_seq(cs@)[k as int] == cs@[k as int] as int);
        Some(cs[k])
    } else {
        None
    }
}

/// The first child of node `i` under field `f`, as `Node::child_by_field_name` gives it.
pub fn field_child_of(ns: &Vec<SyntaxNode>, i: usize, f: &str) -> (r: Option<usize>)
    requires
        i < ns@.len(),
    ensures
        match r {
            Some(c) => field_child(ns@, i as int, f@) == Some(c as int) && i < c < ns@.len(),
            None => field_child(ns@, i as int, f@) is None,
        },
{
    let count = ns.len();
    assert(i < count);
    let d = ns[i].depth;
    let mut j = i + 1;
    while j < ns.len() && ns[j].depth > d
        invariant
            i < j <= ns@.len(),
            d == ns@[i as int].depth,
            field_child(ns@, i as int, f@) == field_child_from(ns@, d as nat, j as int, f@),
        decreases ns@.len() - j,
    {
        if ns[j].depth - 1 == d {
            let hit = match &ns[j].field {
                Some(name) => crate::text::str_eq(name.as_str(), f),
                None => false,
            };
            if hit {
                return Some(j);
            }
        }
        j = j + 1;
    }
    None
}

} // verus!
