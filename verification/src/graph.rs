//! The graph that a gram document describes: nodes, edges and named paths,
//! built from the patterns that the gram codec parses.
use vstd::prelude::*;
use crate::text::{
    decimal, decimal_string, lemma_less_irreflexive, lemma_less_total, lemma_less_transitive, push_char,
    seq_less, str_eq, str_less,
};

verus! {

broadcast use vstd::seq_lib::group_seq_properties;

// ── Patterns (the codec's output, as plain values) ─────────────────────────────

/// The value at a pattern: identity, labels and properties.
#[derive(Debug)]
pub struct Subject {
    pub identity: String,
    pub labels: Vec<String>,
    pub properties: Vec<(String, serde_json::Value)>,
}

/// A gram pattern: a subject and the patterns it is made of.
#[derive(Debug)]
pub struct PatternTree {
    pub value: Subject,
    pub elements: Vec<PatternTree>,
}

// ── Graph ──────────────────────────────────────────────────────────────────────

#[derive(Debug)]
pub struct GramGraph {
    pub nodes: Vec<GramNode>,
    pub edges: Vec<GramEdge>,
    pub paths: Vec<GramPath>,
    pub nested: Vec<NestingRelation>,
}

#[derive(Debug)]
pub struct GramNode {
    pub id: String,
    pub labels: Vec<String>,
    pub properties: Vec<(String, serde_json::Value)>,
    pub is_nested: bool,
}

#[derive(Debug)]
pub struct GramEdge {
    pub id: Option<String>,
    pub source: String,
    pub target: String,
    pub label: Option<String>,
    pub properties: Vec<(String, serde_json::Value)>,
    pub directed: bool,
}

#[derive(Debug)]
pub struct GramPath {
    pub id: Option<String>,
    pub members: Vec<PathMember>,
}

#[derive(Debug)]
pub enum PathMember {
    Node(String),
    Edge(String),
}

#[derive(Debug)]
pub struct NestingRelation {
    pub parent: String,
    pub children: Vec<String>,
}

#[derive(Debug)]
pub enum RenderError {
    ParseError(String),
    EmptyGraph,
}

impl RenderError {
    pub open spec fn spec_message(self) -> Seq<char> {
        match self {
            RenderError::ParseError(m) => "parse error: "@ + m@,
            RenderError::EmptyGraph => "gram file contains no nodes"@,
        }
    }

    /// The message that the error displays.
    pub fn message(&self) -> (r: String)
        ensures
            r@ == self.spec_message(),
    {
        match self {
            RenderError::ParseError(m) => {
                let mut s = "parse error: ".to_string();
                s.append(m.as_str());
                s
            },
            RenderError::EmptyGraph => "gram file contains no nodes".to_string(),
        }
    }
}

// ── Views ──────────────────────────────────────────────────────────────────────

pub open spec fn strings_view(v: Seq<String>) -> Seq<Seq<char>> {
    v.map_values(|s: String| s@)
}

pub open spec fn props_view(v: Seq<(String, serde_json::Value)>) -> Seq<(Seq<char>, serde_json::Value)> {
    v.map_values(|p: (String, serde_json::Value)| (p.0@, p.1))
}

pub open spec fn opt_view(o: Option<String>) -> Option<Seq<char>> {
    match o {
        Some(s) => Some(s@),
        None => None,
    }
}

pub open spec fn opt_str_view(o: Option<&str>) -> Option<Seq<char>> {
    match o {
        Some(s) => Some(s@),
        None => None,
    }
}

pub struct NodeView {
    pub id: Seq<char>,
    pub labels: Seq<Seq<char>>,
    pub properties: Seq<(Seq<char>, serde_json::Value)>,
    pub is_nested: bool,
}

pub struct EdgeView {
    pub id: Option<Seq<char>>,
    pub source: Seq<char>,
    pub target: Seq<char>,
    pub label: Option<Seq<char>>,
    pub properties: Seq<(Seq<char>, serde_json::Value)>,
    pub directed: bool,
}

pub enum MemberView {
    Node(Seq<char>),
    Edge(Seq<char>),
}

pub struct PathView {
    pub id: Option<Seq<char>>,
    pub members: Seq<MemberView>,
}

pub struct NestingView {
    pub parent: Seq<char>,
    pub children: Seq<Seq<char>>,
}

pub struct GraphView {
    pub nodes: Seq<NodeView>,
    pub edges: Seq<EdgeView>,
    pub paths: Seq<PathView>,
    pub nested: Seq<NestingView>,
}

impl View for GramNode {
    type V = NodeView;

    open spec fn view(&self) -> NodeView {
        NodeView {
            id: self.id@,
            labels: strings_view(self.labels@),
            properties: props_view(self.properties@),
            is_nested: self.is_nested,
        }
    }
}

impl View for GramEdge {
    type V = EdgeView;

    open spec fn view(&self) -> EdgeView {
        EdgeView {
            id: opt_view(self.id),
            source: self.source@,
            target: self.target@,
            label: opt_view(self.label),
            properties: props_view(self.properties@),
            directed: self.directed,
        }
    }
}

impl View for PathMember {
    type V = MemberView;

    open spec fn view(&self) -> MemberView {
        match self {
            PathMember::Node(s) => MemberView::Node(s@),
            PathMember::Edge(s) => MemberView::Edge(s@),
        }
    }
}

pub open spec fn members_view(v: Seq<PathMember>) -> Seq<MemberView> {
    v.map_values(|m: PathMember| m@)
}

impl View for GramPath {
    type V = PathView;

    open spec fn view(&self) -> PathView {
        PathView { id: opt_view(self.id), members: members_view(self.members@) }
    }
}

impl View for NestingRelation {
    type V = NestingView;

    open spec fn view(&self) -> NestingView {
        NestingView { parent: self.parent@, children: strings_view(self.children@) }
    }
}

pub open spec fn nodes_view(v: Seq<GramNode>) -> Seq<NodeView> {
    v.map_values(|n: GramNode| n@)
}

pub open spec fn edges_view(v: Seq<GramEdge>) -> Seq<EdgeView> {
    v.map_values(|e: GramEdge| e@)
}

pub open spec fn paths_view(v: Seq<GramPath>) -> Seq<PathView> {
    v.map_values(|p: GramPath| p@)
}

impl View for GramGraph {
    type V = GraphView;

    open spec fn view(&self) -> GraphView {
        GraphView {
            nodes: nodes_view(self.nodes@),
            edges: edges_view(self.edges@),
            paths: paths_view(self.paths@),
            nested: self.nested@.map_values(|n: NestingRelation| n@),
        }
    }
}

// ── The model of graph building ────────────────────────────────────────────────

/// What has been built so far: nodes in order of id, edges and paths in order of
/// appearance, and the counters that name anonymous nodes and edges.
pub struct BuildState {
    pub nodes: Seq<NodeView>,
    pub edges: Seq<EdgeView>,
    pub paths: Seq<PathView>,
    pub anon_nodes: nat,
    pub anon_edges: nat,
}

pub open spec fn empty_state() -> BuildState {
    BuildState { nodes: seq![], edges: seq![], paths: seq![], anon_nodes: 0, anon_edges: 0 }
}

/// `_n` followed by the counter in decimal.
pub open spec fn anon_node_id(k: nat) -> Seq<char> {
    seq!['_', 'n'] + decimal(k)
}

/// `_e` followed by the counter in decimal.
pub open spec fn anon_edge_id(k: nat) -> Seq<char> {
    seq!['_', 'e'] + decimal(k)
}

/// Node ids strictly increase along the sequence.
pub open spec fn sorted_ids(nodes: Seq<NodeView>) -> bool {
    forall|i: int, j: int| 0 <= i < j < nodes.len() ==> seq_less(nodes[i].id, nodes[j].id)
}

pub open spec fn has_node(nodes: Seq<NodeView>, id: Seq<char>) -> bool {
    exists|i: int| 0 <= i < nodes.len() && nodes[i].id == id
}

/// How many nodes have an id below `id`.
pub open spec fn count_below(nodes: Seq<NodeView>, id: Seq<char>) -> nat
    decreases nodes.len(),
{
    if nodes.len() == 0 {
        0
    } else {
        count_below(nodes.drop_last(), id) + if seq_less(nodes.last().id, id) { 1nat } else { 0nat }
    }
}

/// Adds a node unless one with its id is there already (the first one stays),
/// keeping the ids in order.
pub open spec fn insert_node(nodes: Seq<NodeView>, n: NodeView) -> Seq<NodeView> {
    if has_node(nodes, n.id) {
        nodes
    } else {
        nodes.insert(count_below(nodes, n.id) as int, n)
    }
}

/// The id a pattern's node gets: its identity, or a fresh anonymous id.
pub open spec fn node_id_for(st: BuildState, p: PatternTree) -> Seq<char> {
    if p.value.identity@.len() == 0 {
        anon_node_id(st.anon_nodes)
    } else {
        p.value.identity@
    }
}

pub open spec fn node_of(p: PatternTree, id: Seq<char>) -> NodeView {
    NodeView {
        id: id,
        labels: strings_view(p.value.labels@),
        properties: props_view(p.value.properties@),
        is_nested: false,
    }
}

pub open spec fn ensure_node(st: BuildState, p: PatternTree) -> BuildState {
    let id = node_id_for(st, p);
    BuildState {
        nodes: insert_node(st.nodes, node_of(p, id)),
        anon_nodes: if p.value.identity@.len() == 0 { st.anon_nodes + 1 } else { st.anon_nodes },
        ..st
    }
}


/// The index of the last path whose id is `pid`, or -1.
pub open spec fn last_path_index(paths: Seq<PathView>, pid: Seq<char>) -> int
    decreases paths.len(),
{
    if paths.len() == 0 {
        -1
    } else if paths.last().id == Some(pid) {
        paths.len() - 1
    } else {
        last_path_index(paths.drop_last(), pid)
    }
}

/// Adds a node to the last path named `pid`, unless the node is in it already.
pub open spec fn add_path_node(paths: Seq<PathView>, pid: Seq<char>, nid: Seq<char>) -> Seq<PathView> {
    let i = last_path_index(paths, pid);
    if i < 0 || paths[i].members.contains(MemberView::Node(nid)) {
        paths
    } else {
        paths.update(i, PathView { id: paths[i].id, members: paths[i].members.push(MemberView::Node(nid)) })
    }
}

/// Adds an edge to the last path named `pid`.
pub open spec fn add_path_edge(paths: Seq<PathView>, pid: Seq<char>, eid: Seq<char>) -> Seq<PathView> {
    let i = last_path_index(paths, pid);
    if i < 0 {
        paths
    } else {
        paths.update(i, PathView { id: paths[i].id, members: paths[i].members.push(MemberView::Edge(eid)) })
    }
}

/// The rightmost atomic pattern of a left-nested chain.
pub open spec fn rightmost_leaf(p: PatternTree) -> PatternTree
    decreases p,
{
    if p.elements@.len() == 0 {
        p
    } else {
        rightmost_leaf(p.elements@[p.elements@.len() - 1])
    }
}

pub open spec fn first_label(p: PatternTree) -> Option<Seq<char>> {
    if p.value.labels@.len() > 0 {
        Some(p.value.labels@[0]@)
    } else {
        None
    }
}

pub open spec fn with_paths(st: BuildState, paths: Seq<PathView>) -> BuildState {
    BuildState { paths: paths, ..st }
}

/// A relationship `(left)-[p]->(right)`: the left side is a node or a nested
/// relationship whose rightmost node is the source; the right side is the target.
pub open spec fn walk_relationship(st: BuildState, p: PatternTree, ctx: Option<Seq<char>>) -> BuildState
    decreases p, 0nat, 0int,
{
    if p.elements@.len() < 2 {
        st
    } else {
        let left = p.elements@[0];
        let right = p.elements@[1];
        let target = node_id_for(st, right);
        let st1 = ensure_node(st, right);
        let st_in = if left.elements@.len() == 0 { st1 } else { walk_relationship(st1, left, ctx) };
        let leaf = if left.elements@.len() == 0 { left } else { rightmost_leaf(left) };
        let source = node_id_for(st_in, leaf);
        let st2 = ensure_node(st_in, leaf);
        let anonymous = p.value.identity@.len() == 0;
        let eid = if anonymous { anon_edge_id(st2.anon_edges) } else { p.value.identity@ };
        let st3 = BuildState {
            edges: st2.edges.push(
                EdgeView {
                    id: Some(eid),
                    source: source,
                    target: target,
                    label: first_label(p),
                    properties: props_view(p.value.properties@),
                    directed: true,
                },
            ),
            anon_edges: if anonymous { st2.anon_edges + 1 } else { st2.anon_edges },
            ..st2
        };
        match ctx {
            Some(pid) => with_paths(
                st3,
                add_path_edge(add_path_node(add_path_node(st3.paths, pid, source), pid, target), pid, eid),
            ),
            None => st3,
        }
    }
}

/// Walks one pattern: an atomic pattern is a node, a pattern of two elements a
/// relationship, and any other an (optionally named) group of patterns.
pub open spec fn walk(st: BuildState, p: PatternTree, ctx: Option<Seq<char>>) -> BuildState
    decreases p, 2nat, 0int,
{
    if p.elements@.len() == 0 {
        if p.value.identity@.len() == 0 {
            st
        } else {
            let st1 = ensure_node(st, p);
            match ctx {
                Some(pid) => with_paths(st1, add_path_node(st1.paths, pid, p.value.identity@)),
                None => st1,
            }
        }
    } else if p.elements@.len() == 2 {
        walk_relationship(st, p, ctx)
    } else if p.value.identity@.len() > 0 {
        let pid = p.value.identity@;
        let st1 = with_paths(st, st.paths.push(PathView { id: Some(pid), members: seq![] }));
        walk_elements(st1, p, 0, Some(pid))
    } else {
        walk_elements(st, p, 0, ctx)
    }
}

/// Walks the elements of `p` from index `i` on, in order.
pub open spec fn walk_elements(st: BuildState, p: PatternTree, i: nat, ctx: Option<Seq<char>>) -> BuildState
    decreases p, 1nat, p.elements@.len() - i,
{
    if i >= p.elements@.len() {
        st
    } else {
        walk_elements(walk(st, p.elements@[i as int], ctx), p, i + 1, ctx)
    }
}

/// Walks a document's top-level patterns in order.
pub open spec fn walk_document(ps: Seq<PatternTree>) -> BuildState
    decreases ps.len(),
{
    if ps.len() == 0 {
        empty_state()
    } else {
        walk(walk_document(ps.drop_last()), ps.last(), None)
    }
}

/// The graph that a document's patterns describe; `None` when it has no node.
pub open spec fn graph_of(ps: Seq<PatternTree>) -> Option<GraphView> {
    let st = walk_document(ps);
    if st.nodes.len() == 0 {
        None
    } else {
        Some(GraphView { nodes: st.nodes, edges: st.edges, paths: st.paths, nested: seq![] })
    }
}

// ── Shapes the builder handles ─────────────────────────────────────────────────

/// Number of patterns in `p`, `p` included.
pub open spec fn size(p: PatternTree) -> nat
    decreases p, 1nat, 0int,
{
    1 + size_elements(p, 0)
}

pub open spec fn size_elements(p: PatternTree, i: nat) -> nat
    decreases p, 0nat, p.elements@.len() - i,
{
    if i >= p.elements@.len() {
        0
    } else {
        size(p.elements@[i as int]) + size_elements(p, i + 1)
    }
}

/// A relationship whose left side is a node or, again, such a relationship.
pub open spec fn relationship_ok(p: PatternTree) -> bool
    decreases p,
{
    p.elements@.len() >= 2 && (p.elements@[0].elements@.len() == 0 || relationship_ok(p.elements@[0]))
}

/// Every relationship met while walking `p` has the shape `relationship_ok` asks.
pub open spec fn walk_ok(p: PatternTree) -> bool
    decreases p, 1nat, 0int,
{
    if p.elements@.len() == 0 {
        true
    } else if p.elements@.len() == 2 {
        relationship_ok(p)
    } else {
        walk_ok_elements(p, 0)
    }
}

pub open spec fn walk_ok_elements(p: PatternTree, i: nat) -> bool
    decreases p, 0nat, p.elements@.len() - i,
{
    if i >= p.elements@.len() {
        true
    } else {
        walk_ok(p.elements@[i as int]) && walk_ok_elements(p, i + 1)
    }
}


/// Number of patterns in a document.
pub open spec fn document_size(ps: Seq<PatternTree>) -> nat
    decreases ps.len(),
{
    if ps.len() == 0 {
        0
    } else {
        document_size(ps.drop_last()) + size(ps.last())
    }
}

/// The documents the builder takes: every pattern walkable, and few enough
/// patterns that the anonymous-id counters cannot overflow.
pub open spec fn document_ok(ps: Seq<PatternTree>) -> bool {
    &&& forall|i: int| 0 <= i < ps.len() ==> walk_ok(#[trigger] ps[i])
    &&& document_size(ps) <= u64::MAX
}

// ── What every built graph satisfies ───────────────────────────────────────────

/// Both ends of every edge are nodes of the graph.
pub open spec fn edges_connect_nodes(nodes: Seq<NodeView>, edges: Seq<EdgeView>) -> bool {
    forall|i: int|
        0 <= i < edges.len() ==> has_node(nodes, #[trigger] edges[i].source) && has_node(nodes, edges[i].target)
}

/// Every edge has an id.
pub open spec fn edges_have_ids(edges: Seq<EdgeView>) -> bool {
    forall|i: int| 0 <= i < edges.len() ==> (#[trigger] edges[i]).id is Some
}

/// Every node that a path lists is a node of the graph.
pub open spec fn path_members_are_nodes(nodes: Seq<NodeView>, paths: Seq<PathView>) -> bool {
    forall|i: int, j: int|
        0 <= i < paths.len() && 0 <= j < paths[i].members.len() ==> match #[trigger] paths[i].members[j] {
            MemberView::Node(x) => has_node(nodes, x),
            MemberView::Edge(_) => true,
        }
}

/// No path lists the same node twice.
pub open spec fn path_nodes_distinct(paths: Seq<PathView>) -> bool {
    forall|i: int, j: int, k: int|
        0 <= i < paths.len() && 0 <= j < k < paths[i].members.len() && (#[trigger] paths[i].members[j]) is Node
            ==> paths[i].members[j] != #[trigger] paths[i].members[k]
}

/// Node ids are sorted and distinct, edges have ids and join nodes, and
/// paths list nodes of the graph, each at most once.
pub open spec fn well_built(nodes: Seq<NodeView>, edges: Seq<EdgeView>, paths: Seq<PathView>) -> bool {
    &&& sorted_ids(nodes)
    &&& edges_have_ids(edges)
    &&& edges_connect_nodes(nodes, edges)
    &&& path_members_are_nodes(nodes, paths)
    &&& path_nodes_distinct(paths)
}

pub open spec fn nodes_grow(old: Seq<NodeView>, new: Seq<NodeView>) -> bool {
    forall|x: Seq<char>| has_node(old, x) ==> #[trigger] has_node(new, x)
}

proof fn lemma_push_edge_keeps(nodes: Seq<NodeView>, edges: Seq<EdgeView>, paths: Seq<PathView>, e: EdgeView)
    requires
        well_built(nodes, edges, paths),
        e.id is Some,
        has_node(nodes, e.source),
        has_node(nodes, e.target),
    ensures
        well_built(nodes, edges.push(e), paths),
{
    let es = edges.push(e);
    assert forall|j: int| 0 <= j < es.len() implies (#[trigger] es[j]).id is Some by {
        if j < edges.len() {
            assert(es[j] == edges[j]);
        }
    }
    assert forall|j: int| 0 <= j < es.len() implies has_node(nodes, #[trigger] es[j].source) && has_node(
        nodes,
        es[j].target,
    ) by {
        if j < edges.len() {
            assert(es[j] == edges[j]);
        } else {
            assert(es[j] == e);
        }
    }
}

proof fn lemma_insert_keeps_nodes(s: Seq<NodeView>, i: int, n: NodeView)
    requires
        0 <= i <= s.len(),
    ensures
        nodes_grow(s, s.insert(i, n)),
        has_node(s.insert(i, n), n.id),
{
    let t = s.insert(i, n);
    assert(t[i].id == n.id);
    assert forall|x: Seq<char>| has_node(s, x) implies #[trigger] has_node(t, x) by {
        let j = choose|j: int| 0 <= j < s.len() && s[j].id == x;
        if j < i {
            assert(t[j].id == x);
        } else {
            assert(t[j + 1].id == x);
        }
    }
}

proof fn lemma_well_built_grow(
    nodes: Seq<NodeView>,
    nodes2: Seq<NodeView>,
    edges: Seq<EdgeView>,
    paths: Seq<PathView>,
)
    requires
        well_built(nodes, edges, paths),
        nodes_grow(nodes, nodes2),
        sorted_ids(nodes2),
    ensures
        well_built(nodes2, edges, paths),
{
    assert forall|i: int, j: int|
        0 <= i < paths.len() && 0 <= j < paths[i].members.len() implies match #[trigger] paths[i].members[j] {
            MemberView::Node(x) => has_node(nodes2, x),
            MemberView::Edge(_) => true,
        } by {
        match paths[i].members[j] {
            MemberView::Node(x) => {
                assert(has_node(nodes, x));
            },
            MemberView::Edge(_) => {},
        }
    }
}

// ── Lemmas on the node order ───────────────────────────────────────────────────

/// In sorted nodes, `i` is the count of ids below `id` when exactly the nodes
/// before `i` are below it.
proof fn lemma_count_below_le(s: Seq<NodeView>, id: Seq<char>)
    ensures
        count_below(s, id) <= s.len(),
    decreases s.len(),
{
    if s.len() > 0 {
        lemma_count_below_le(s.drop_last(), id);
    }
}

/// Every node of `a` is, unchanged, a node of `b`.
pub open spec fn keeps_nodes(a: Seq<NodeView>, b: Seq<NodeView>) -> bool {
    forall|i: int| 0 <= i < a.len() ==> b.contains(#[trigger] a[i])
}

proof fn lemma_keeps_trans(a: Seq<NodeView>, b: Seq<NodeView>, c: Seq<NodeView>)
    requires
        keeps_nodes(a, b),
        keeps_nodes(b, c),
    ensures
        keeps_nodes(a, c),
{
    assert forall|i: int| 0 <= i < a.len() implies c.contains(#[trigger] a[i]) by {
        assert(b.contains(a[i]));
        let j = choose|j: int| 0 <= j < b.len() && b[j] == a[i];
        assert(c.contains(b[j]));
    }
}

/// Meeting a node leaves every node already built as it was, and adds at
/// most the node met: a later mention of an id does not change its node.
pub proof fn lemma_ensure_node_keeps(st: BuildState, p: PatternTree)
    ensures
        keeps_nodes(st.nodes, ensure_node(st, p).nodes),
        has_node(ensure_node(st, p).nodes, node_id_for(st, p)),
        forall|x: NodeView| #[trigger] ensure_node(st, p).nodes.contains(x) ==> st.nodes.contains(x) || x == node_of(
            p,
            node_id_for(st, p),
        ),
{
    let a = st.nodes;
    let n = node_of(p, node_id_for(st, p));
    let r = ensure_node(st, p).nodes;
    if has_node(a, n.id) {
        assert(r == a);
        assert(keeps_nodes(a, r)) by {
            assert forall|i: int| 0 <= i < a.len() implies r.contains(#[trigger] a[i]) by {
                assert(r[i] == a[i]);
            }
        }
    } else {
        let k = count_below(a, n.id) as int;
        lemma_count_below_le(a, n.id);
        assert(r == a.insert(k, n));
        assert forall|i: int| 0 <= i < a.len() implies r.contains(#[trigger] a[i]) by {
            if i < k {
                assert(r[i] == a[i]);
            } else {
                assert(r[i + 1] == a[i]);
            }
        }
        assert(r[k].id == n.id);
        assert forall|x: NodeView| #[trigger] r.contains(x) implies a.contains(x) || x == n by {
            let j = choose|j: int| 0 <= j < r.len() && r[j] == x;
            if j < k {
                assert(a[j] == x);
            } else if j > k {
                assert(a[j - 1] == x);
            }
        }
    }
}

proof fn lemma_keeps_refl(a: Seq<NodeView>)
    ensures
        keeps_nodes(a, a),
{
    assert forall|i: int| 0 <= i < a.len() implies a.contains(#[trigger] a[i]) by {}
}

proof fn lemma_relationship_keeps(st: BuildState, p: PatternTree, ctx: Option<Seq<char>>)
    ensures
        keeps_nodes(st.nodes, walk_relationship(st, p, ctx).nodes),
    decreases p, 0nat, 0int,
{
    if p.elements@.len() < 2 {
        lemma_keeps_refl(st.nodes);
    } else {
        let left = p.elements@[0];
        let right = p.elements@[1];
        let st1 = ensure_node(st, right);
        lemma_ensure_node_keeps(st, right);
        let st_in = if left.elements@.len() == 0 { st1 } else { walk_relationship(st1, left, ctx) };
        if left.elements@.len() == 0 {
            lemma_keeps_refl(st1.nodes);
        } else {
            assert(decreases_to!(p => left));
            lemma_relationship_keeps(st1, left, ctx);
        }
        lemma_keeps_trans(st.nodes, st1.nodes, st_in.nodes);
        let leaf = if left.elements@.len() == 0 { left } else { rightmost_leaf(left) };
        lemma_ensure_node_keeps(st_in, leaf);
        lemma_keeps_trans(st.nodes, st_in.nodes, ensure_node(st_in, leaf).nodes);
    }
}

proof fn lemma_walk_keeps(st: BuildState, p: PatternTree, ctx: Option<Seq<char>>)
    ensures
        keeps_nodes(st.nodes, walk(st, p, ctx).nodes),
    decreases p, 2nat, 0int,
{
    if p.elements@.len() == 0 {
        if p.value.identity@.len() == 0 {
            lemma_keeps_refl(st.nodes);
        } else {
            lemma_ensure_node_keeps(st, p);
        }
    } else if p.elements@.len() == 2 {
        lemma_relationship_keeps(st, p, ctx);
    } else if p.value.identity@.len() > 0 {
        let pid = p.value.identity@;
        let st1 = with_paths(st, st.paths.push(PathView { id: Some(pid), members: seq![] }));
        lemma_elements_keeps(st1, p, 0, Some(pid));
    } else {
        lemma_elements_keeps(st, p, 0, ctx);
    }
}

proof fn lemma_elements_keeps(st: BuildState, p: PatternTree, i: nat, ctx: Option<Seq<char>>)
    ensures
        keeps_nodes(st.nodes, walk_elements(st, p, i, ctx).nodes),
    decreases p, 1nat, p.elements@.len() - i,
{
    if i >= p.elements@.len() {
        lemma_keeps_refl(st.nodes);
    } else {
        let e = p.elements@[i as int];
        assert(decreases_to!(p => e));
        lemma_walk_keeps(st, e, ctx);
        let st1 = walk(st, e, ctx);
        lemma_elements_keeps(st1, p, i + 1, ctx);
        lemma_keeps_trans(st.nodes, st1.nodes, walk_elements(st1, p, i + 1, ctx).nodes);
    }
}

/// The first mention of an id makes its node: every node built from the
/// first `k` patterns of a document is, unchanged, a node of the graph the
/// whole document builds.
pub proof fn lemma_first_mention_stays(ps: Seq<PatternTree>, k: int)
    requires
        0 <= k <= ps.len(),
    ensures
        keeps_nodes(walk_document(ps.take(k)).nodes, walk_document(ps).nodes),
    decreases ps.len(),
{
    if k == ps.len() {
        assert(ps.take(k) =~= ps);
        lemma_keeps_refl(walk_document(ps).nodes);
    } else {
        let q = ps.drop_last();
        assert(q.take(k) =~= ps.take(k));
        lemma_first_mention_stays(q, k);
        lemma_walk_keeps(walk_document(q), ps.last(), None);
        lemma_keeps_trans(walk_document(ps.take(k)).nodes, walk_document(q).nodes, walk_document(ps).nodes);
    }
}

proof fn lemma_count_below(s: Seq<NodeView>, id: Seq<char>, i: int)
    requires
        sorted_ids(s),
        0 <= i <= s.len(),
        forall|j: int| 0 <= j < i ==> seq_less(#[trigger] s[j].id, id),
        i < s.len() ==> !seq_less(s[i].id, id),
    ensures
        count_below(s, id) == i,
        forall|j: int| i <= j < s.len() ==> !seq_less(#[trigger] s[j].id, id),
    decreases s.len(),
{
    assert forall|j: int| i <= j < s.len() implies !seq_less(#[trigger] s[j].id, id) by {
        if j > i && seq_less(s[j].id, id) {
            lemma_less_transitive(s[i].id, s[j].id, id);
        }
    }
    if s.len() > 0 {
        let t = s.drop_last();
        if i == s.len() {
            lemma_count_below(t, id, i - 1);
        } else {
            lemma_count_below(t, id, i);
        }
    }
}

/// With `i` placed as in `lemma_count_below`, the node with `id` is present
/// exactly when it is at `i`.
proof fn lemma_has_node_at(s: Seq<NodeView>, id: Seq<char>, i: int)
    requires
        sorted_ids(s),
        0 <= i <= s.len(),
        forall|j: int| 0 <= j < i ==> seq_less(#[trigger] s[j].id, id),
        i < s.len() ==> !seq_less(s[i].id, id),
    ensures
        has_node(s, id) <==> (i < s.len() && s[i].id == id),
        !has_node(s, id) ==> forall|j: int| i <= j < s.len() ==> seq_less(id, #[trigger] s[j].id),
{
    assert forall|j: int| 0 <= j < s.len() && s[j].id == id implies j == i by {
        if j < i {
            lemma_less_irreflexive(id);
        } else if j > i {
            lemma_less_total(s[i].id, id);
            if s[i].id != id {
                lemma_less_transitive(id, s[i].id, s[j].id);
                lemma_less_irreflexive(id);
            }
        }
    }
    if !has_node(s, id) {
        assert forall|j: int| i <= j < s.len() implies seq_less(id, #[trigger] s[j].id) by {
            lemma_less_total(s[i].id, id);
            if j > i {
                lemma_less_transitive(id, s[i].id, s[j].id);
            }
        }
    }
}

proof fn lemma_size_two(p: PatternTree)
    requires
        p.elements@.len() >= 2,
    ensures
        size(p) >= 1 + size(p.elements@[0]) + size(p.elements@[1]),
        size(p.elements@[0]) >= 1,
        size(p.elements@[1]) >= 1,
{
    assert(size_elements(p, 0) == size(p.elements@[0]) + size_elements(p, 1));
    assert(size_elements(p, 1) == size(p.elements@[1]) + size_elements(p, 2));
}

fn rightmost_leaf_of(p: &PatternTree) -> (r: &PatternTree)
    ensures
        *r == rightmost_leaf(*p),
    decreases p,
{
    if p.elements.len() == 0 {
        p
    } else {
        rightmost_leaf_of(&p.elements[p.elements.len() - 1])
    }
}

fn check_relationship(p: &PatternTree) -> (r: bool)
    ensures
        r == relationship_ok(*p),
    decreases p,
{
    p.elements.len() >= 2 && (p.elements[0].elements.len() == 0 || check_relationship(&p.elements[0]))
}

fn check_walk(p: &PatternTree) -> (r: bool)
    ensures
        r == walk_ok(*p),
    decreases p, 1nat,
{
    let n = p.elements.len();
    if n == 0 {
        true
    } else if n == 2 {
        check_relationship(p)
    } else {
        check_walk_elements(p)
    }
}

fn check_walk_elements(p: &PatternTree) -> (r: bool)
    ensures
        r == walk_ok_elements(*p, 0),
    decreases p, 0nat,
{
    let mut i = p.elements.len();
    while i > 0
        invariant
            i <= p.elements@.len(),
            walk_ok_elements(*p, i as nat) == true,
        decreases i,
    {
        if !check_walk(&p.elements[i - 1]) {
            proof {
                lemma_walk_ok_elements_prefix(*p, (i - 1) as nat);
            }
            return false;
        }
        i = i - 1;
    }
    true
}

proof fn lemma_walk_ok_elements_prefix(p: PatternTree, k: nat)
    requires
        k < p.elements@.len(),
        !walk_ok(p.elements@[k as int]),
    ensures
        forall|j: nat| j <= k ==> !#[trigger] walk_ok_elements(p, j),
    decreases k,
{
    assert forall|j: nat| j <= k implies !#[trigger] walk_ok_elements(p, j) by {
        lemma_walk_ok_elements_from(p, j, k);
    }
}

proof fn lemma_walk_ok_elements_from(p: PatternTree, j: nat, k: nat)
    requires
        j <= k < p.elements@.len(),
        !walk_ok(p.elements@[k as int]),
    ensures
        !walk_ok_elements(p, j),
    decreases k - j,
{
    if j < k {
        lemma_walk_ok_elements_from(p, j + 1, k);
    }
}

/// The number of patterns in `p`, or `None` when it exceeds `u64::MAX`.
fn pattern_size(p: &PatternTree) -> (r: Option<u64>)
    ensures
        match r {
            Some(n) => n as nat == size(*p),
            None => size(*p) > u64::MAX,
        },
    decreases p, 1nat,
{
    match pattern_size_elements(p) {
        Some(n) => n.checked_add(1),
        None => None,
    }
}

fn pattern_size_elements(p: &PatternTree) -> (r: Option<u64>)
    ensures
        match r {
            Some(n) => n as nat == size_elements(*p, 0),
            None => size_elements(*p, 0) > u64::MAX,
        },
    decreases p, 0nat,
{
    let mut total: u64 = 0;
    let mut i = p.elements.len();
    while i > 0
        invariant
            i <= p.elements@.len(),
            total as nat == size_elements(*p, i as nat),
        decreases i,
    {
        match pattern_size(&p.elements[i - 1]) {
            Some(n) => {
                match total.checked_add(n) {
                    Some(t) => total = t,
                    None => {
                        proof {
                            lemma_size_elements_monotone(*p, 0, (i - 1) as nat);
                        }
                        return None;
                    },
                }
            },
            None => {
                proof {
                    lemma_size_elements_monotone(*p, 0, (i - 1) as nat);
                }
                return None;
            },
        }
        i = i - 1;
    }
    Some(total)
}

proof fn lemma_size_elements_monotone(p: PatternTree, j: nat, k: nat)
    requires
        j <= k,
    ensures
        size_elements(p, j) >= size_elements(p, k),
    decreases k - j,
{
    if j < k {
        lemma_size_elements_monotone(p, j + 1, k);
    }
}

/// Whether `build_graph` takes these patterns: each walkable, and not so many
/// that the anonymous-id counters would overflow.
pub fn document_buildable(patterns: &Vec<PatternTree>) -> (r: bool)
    ensures
        r == document_ok(patterns@),
{
    let mut total: u64 = 0;
    let mut i: usize = 0;
    while i < patterns.len()
        invariant
            i <= patterns@.len(),
            total as nat == document_size(patterns@.take(i as int)),
            forall|j: int| 0 <= j < i ==> walk_ok(#[trigger] patterns@[j]),
        decreases patterns@.len() - i,
    {
        assert(patterns@.take(i + 1).drop_last() =~= patterns@.take(i as int));
        if !check_walk(&patterns[i]) {
            return false;
        }
        match pattern_size(&patterns[i]) {
            Some(n) => match total.checked_add(n) {
                Some(t) => total = t,
                None => {
                    proof {
                        lemma_document_size_prefix(patterns@, i + 1);
                    }
                    return false;
                },
            },
            None => {
                proof {
                    lemma_document_size_prefix(patterns@, i + 1);
                }
                return false;
            },
        }
        i = i + 1;
    }
    assert(patterns@.take(patterns@.len() as int) =~= patterns@);
    true
}

proof fn lemma_document_size_prefix(ps: Seq<PatternTree>, k: int)
    requires
        0 <= k <= ps.len(),
    ensures
        document_size(ps.take(k)) <= document_size(ps),
    decreases ps.len(),
{
    if k < ps.len() {
        assert(ps.drop_last().take(k) =~= ps.take(k));
        lemma_document_size_prefix(ps.drop_last(), k);
    } else {
        assert(ps.take(k) =~= ps);
    }
}

/// Builds the graph that a document's patterns describe.
pub fn build_graph(patterns: &Vec<PatternTree>) -> (r: Result<GramGraph, RenderError>)
    requires
        document_ok(patterns@),
    ensures
        match r {
            Ok(g) => graph_of(patterns@) == Some(g@) && well_built(g@.nodes, g@.edges, g@.paths),
            Err(e) => e is EmptyGraph && graph_of(patterns@) is None,
        },
{
    let mut b = GraphBuilder {
        nodes: Vec::new(),
        edges: Vec::new(),
        paths: Vec::new(),
        anon_counter: 0,
        edge_counter: 0,
    };
    assert(nodes_view(b.nodes@) =~= Seq::<NodeView>::empty());
    assert(edges_view(b.edges@) =~= Seq::<EdgeView>::empty());
    assert(paths_view(b.paths@) =~= Seq::<PathView>::empty());
    assert(patterns@.take(0) =~= Seq::<PatternTree>::empty());
    assert(b@ == walk_document(patterns@.take(0)));
    let mut i: usize = 0;
    while i < patterns.len()
        invariant
            b.inv(),
            i <= patterns@.len(),
            document_ok(patterns@),
            b@ == walk_document(patterns@.take(i as int)),
            b.anon_counter <= document_size(patterns@.take(i as int)),
            b.edge_counter <= document_size(patterns@.take(i as int)),
        decreases patterns@.len() - i,
    {
        assert(patterns@.take(i + 1).drop_last() =~= patterns@.take(i as int));
        assert(patterns@.take(i + 1).last() == patterns@[i as int]);
        proof {
            lemma_document_size_prefix(patterns@, i + 1);
        }
        b.walk(&patterns[i], None);
        i = i + 1;
    }
    assert(patterns@.take(patterns@.len() as int) =~= patterns@);
    if b.nodes.len() == 0 {
        return Err(RenderError::EmptyGraph);
    }
    let g = GramGraph { nodes: b.nodes, edges: b.edges, paths: b.paths, nested: Vec::new() };
    assert(g@.nested =~= Seq::<NestingView>::empty());
    Ok(g)
}

// ── Copies ─────────────────────────────────────────────────────────────────────

fn copy_strings(v: &Vec<String>) -> (r: Vec<String>)
    ensures
        r@ == v@,
{
    let mut out: Vec<String> = Vec::new();
    let mut i: usize = 0;
    while i < v.len()
        invariant
            i <= v@.len(),
            out@ == v@.take(i as int),
        decreases v@.len() - i,
    {
        out.push(v[i].clone());
        i = i + 1;
        assert(out@ =~= v@.take(i as int));
    }
    assert(v@.take(v@.len() as int) =~= v@);
    out
}

fn copy_properties(v: &Vec<(String, serde_json::Value)>) -> (r: Vec<(String, serde_json::Value)>)
    ensures
        r@ == v@,
{
    let mut out: Vec<(String, serde_json::Value)> = Vec::new();
    let mut i: usize = 0;
    while i < v.len()
        invariant
            i <= v@.len(),
            out@ == v@.take(i as int),
        decreases v@.len() - i,
    {
        let k = v[i].0.clone();
        let x = v[i].1.clone();
        out.push((k, x));
        i = i + 1;
        assert(out@ =~= v@.take(i as int));
    }
    assert(v@.take(v@.len() as int) =~= v@);
    out
}

fn prefixed_decimal(a: char, b: char, k: u64) -> (r: String)
    ensures
        r@ == seq![a, b] + decimal(k as nat),
{
    let mut s = String::new();
    push_char(&mut s, a);
    push_char(&mut s, b);
    let d = decimal_string(k);
    s.append(d.as_str());
    assert(s@ =~= seq![a, b] + decimal(k as nat));
    s
}

// ── The builder ────────────────────────────────────────────────────────────────

struct GraphBuilder {
    nodes: Vec<GramNode>,
    edges: Vec<GramEdge>,
    paths: Vec<GramPath>,
    anon_counter: u64,
    edge_counter: u64,
}

impl View for GraphBuilder {
    type V = BuildState;

    closed spec fn view(&self) -> BuildState {
        BuildState {
            nodes: nodes_view(self.nodes@),
            edges: edges_view(self.edges@),
            paths: paths_view(self.paths@),
            anon_nodes: self.anon_counter as nat,
            anon_edges: self.edge_counter as nat,
        }
    }
}

impl GraphBuilder {
    spec fn inv(&self) -> bool {
        well_built(self@.nodes, self@.edges, self@.paths)
    }

    /// Inserts the node for `p` under `id` unless `id` is taken.
    fn add_node(&mut self, id: String, p: &PatternTree)
        requires
            old(self).inv(),
        ensures
            final(self).inv(),
            final(self)@ == (BuildState { nodes: insert_node(old(self)@.nodes, node_of(*p, id@)), ..old(self)@ }),
            nodes_grow(old(self)@.nodes, final(self)@.nodes),
            has_node(final(self)@.nodes, id@),
    {
        let ghost s = self@.nodes;
        let mut i: usize = 0;
        while i < self.nodes.len() && str_less(self.nodes[i].id.as_str(), id.as_str())
            invariant
                s == nodes_view(self.nodes@),
                i <= s.len(),
                forall|j: int| 0 <= j < i ==> seq_less(#[trigger] s[j].id, id@),
            decreases s.len() - i,
        {
            i = i + 1;
        }
        proof {
            lemma_count_below(s, id@, i as int);
            lemma_has_node_at(s, id@, i as int);
        }
        if i < self.nodes.len() && str_eq(self.nodes[i].id.as_str(), id.as_str()) {
            assert(s[i as int].id == id@);
            return;
        }
        let node = GramNode {
            id: id,
            labels: copy_strings(&p.value.labels),
            properties: copy_properties(&p.value.properties),
            is_nested: false,
        };
        assert(node@ == node_of(*p, id@));
        self.nodes.insert(i, node);
        assert(nodes_view(self.nodes@) =~= s.insert(i as int, node_of(*p, id@)));
        proof {
            let t = s.insert(i as int, node_of(*p, id@));
            assert forall|a: int, b: int| 0 <= a < b < t.len() implies seq_less(t[a].id, t[b].id) by {
                if b == i {
                } else if a == i {
                } else if a < i && b > i {
                    lemma_less_transitive(t[a].id, id@, t[b].id);
                }
            }
            lemma_insert_keeps_nodes(s, i as int, node_of(*p, id@));
            lemma_well_built_grow(s, t, self@.edges, self@.paths);
        }
    }

    fn ensure_node(&mut self, p: &PatternTree) -> (id: String)
        requires
            old(self).inv(),
            old(self).anon_counter < u64::MAX,
        ensures
            final(self).inv(),
            final(self)@ == ensure_node(old(self)@, *p),
            id@ == node_id_for(old(self)@, *p),
            nodes_grow(old(self)@.nodes, final(self)@.nodes),
            has_node(final(self)@.nodes, id@),
    {
        let id = if p.value.identity.as_str().is_empty() {
            let k = self.anon_counter;
            self.anon_counter = k + 1;
            prefixed_decimal('_', 'n', k)
        } else {
            p.value.identity.clone()
        };
        let key = id.clone();
        self.add_node(key, p);
        id
    }

    fn walk_relationship(&mut self, p: &PatternTree, ctx: Option<&str>)
        requires
            old(self).inv(),
            relationship_ok(*p),
            old(self).anon_counter + size(*p) <= u64::MAX,
            old(self).edge_counter + size(*p) <= u64::MAX,
        ensures
            final(self).inv(),
            final(self)@ == walk_relationship(old(self)@, *p, opt_str_view(ctx)),
            nodes_grow(old(self)@.nodes, final(self)@.nodes),
            final(self).anon_counter + 1 <= old(self).anon_counter + size(*p),
            final(self).edge_counter + 1 <= old(self).edge_counter + size(*p),
        decreases p,
    {
        let left = &p.elements[0];
        let right = &p.elements[1];
        proof {
            lemma_size_two(*p);
        }
        let target = self.ensure_node(right);
        let ghost after_target = self@.nodes;
        let source = if left.elements.len() == 0 {
            self.ensure_node(left)
        } else {
            self.walk_relationship(left, ctx);
            let ghost mid = self@.nodes;
            assert(has_node(mid, target@));
            let leaf = rightmost_leaf_of(left);
            self.ensure_node(leaf)
        };
        assert(has_node(self@.nodes, target@));
        assert(has_node(self@.nodes, source@));
        let eid = if p.value.identity.as_str().is_empty() {
            let k = self.edge_counter;
            self.edge_counter = k + 1;
            prefixed_decimal('_', 'e', k)
        } else {
            p.value.identity.clone()
        };
        let label = if p.value.labels.len() > 0 {
            Some(p.value.labels[0].clone())
        } else {
            None
        };
        let edge = GramEdge {
            id: Some(eid.clone()),
            source: source.clone(),
            target: target.clone(),
            label: label,
            properties: copy_properties(&p.value.properties),
            directed: true,
        };
        let ghost st2 = self@;
        self.edges.push(edge);
        assert(edges_view(self.edges@) =~= st2.edges.push(edge@));
        proof {
            lemma_push_edge_keeps(st2.nodes, st2.edges, st2.paths, edge@);
        }
        assert(self@.nodes == st2.nodes && self@.paths == st2.paths);
        assert(self.inv());
        match ctx {
            Some(pid) => {
                self.add_node_to_path(pid, source);
                self.add_node_to_path(pid, target);
                self.add_edge_to_path(pid, eid);
            },
            None => {},
        }
    }

    fn walk(&mut self, p: &PatternTree, ctx: Option<&str>)
        requires
            old(self).inv(),
            walk_ok(*p),
            old(self).anon_counter + size(*p) <= u64::MAX,
            old(self).edge_counter + size(*p) <= u64::MAX,
        ensures
            final(self).inv(),
            final(self)@ == walk(old(self)@, *p, opt_str_view(ctx)),
            nodes_grow(old(self)@.nodes, final(self)@.nodes),
            final(self).anon_counter <= old(self).anon_counter + size(*p),
            final(self).edge_counter <= old(self).edge_counter + size(*p),
        decreases p, 1nat,
    {
        let n = p.elements.len();
        if n == 0 {
            if !p.value.identity.as_str().is_empty() {
                let _ = self.ensure_node(p);
                match ctx {
                    Some(pid) => self.add_node_to_path(pid, p.value.identity.clone()),
                    None => {},
                }
            }
        } else if n == 2 {
            self.walk_relationship(p, ctx);
        } else if !p.value.identity.as_str().is_empty() {
            let pid = p.value.identity.clone();
            let ghost st = self@;
            let members: Vec<PathMember> = Vec::new();
            assert(members_view(members@) =~= Seq::<MemberView>::empty());
            self.paths.push(GramPath { id: Some(pid.clone()), members: members });
            assert(paths_view(self.paths@) =~= st.paths.push(PathView { id: Some(pid@), members: seq![] }));
            self.walk_elements(p, Some(pid.as_str()));
        } else {
            self.walk_elements(p, ctx);
        }
    }

    fn walk_elements(&mut self, p: &PatternTree, ctx: Option<&str>)
        requires
            old(self).inv(),
            walk_ok_elements(*p, 0),
            old(self).anon_counter + size_elements(*p, 0) <= u64::MAX,
            old(self).edge_counter + size_elements(*p, 0) <= u64::MAX,
        ensures
            final(self).inv(),
            final(self)@ == walk_elements(old(self)@, *p, 0, opt_str_view(ctx)),
            nodes_grow(old(self)@.nodes, final(self)@.nodes),
            final(self).anon_counter <= old(self).anon_counter + size_elements(*p, 0),
            final(self).edge_counter <= old(self).edge_counter + size_elements(*p, 0),
        decreases p, 0nat,
    {
        let ghost st0 = self@;
        let ghost a0 = self.anon_counter;
        let ghost e0 = self.edge_counter;
        let mut i: usize = 0;
        while i < p.elements.len()
            invariant
                self.inv(),
                i <= p.elements@.len(),
                walk_elements(self@, *p, i as nat, opt_str_view(ctx)) == walk_elements(st0, *p, 0, opt_str_view(ctx)),
                walk_ok_elements(*p, i as nat),
                nodes_grow(st0.nodes, self@.nodes),
                self.anon_counter + size_elements(*p, i as nat) <= a0 + size_elements(*p, 0),
                self.edge_counter + size_elements(*p, i as nat) <= e0 + size_elements(*p, 0),
                a0 + size_elements(*p, 0) <= u64::MAX,
                e0 + size_elements(*p, 0) <= u64::MAX,
            decreases p.elements@.len() - i,
        {
            self.walk(&p.elements[i], ctx);
            i = i + 1;
        }
    }

    fn find_path(&self, pid: &str) -> (r: Option<usize>)
        ensures
            match r {
                Some(i) => i < self@.paths.len() && i as int == last_path_index(self@.paths, pid@),
                None => last_path_index(self@.paths, pid@) == -1,
            },
    {
        let ghost ps = self@.paths;
        let mut i: usize = self.paths.len();
        assert(ps.take(i as int) =~= ps);
        while i > 0
            invariant
                ps == self@.paths,
                i <= ps.len(),
                last_path_index(ps, pid@) == last_path_index(ps.take(i as int), pid@),
            decreases i,
        {
            let hit = match &self.paths[i - 1].id {
                Some(x) => str_eq(x.as_str(), pid),
                None => false,
            };
            assert(ps.take(i as int).last() == ps[i - 1]);
            assert(ps.take(i as int).drop_last() =~= ps.take(i - 1));
            if hit {
                return Some(i - 1);
            }
            i = i - 1;
        }
        None
    }

    fn add_node_to_path(&mut self, pid: &str, nid: String)
        requires
            old(self).inv(),
            has_node(old(self)@.nodes, nid@),
        ensures
            final(self).inv(),
            final(self)@ == with_paths(old(self)@, add_path_node(old(self)@.paths, pid@, nid@)),
    {
        match self.find_path(pid) {
            None => {},
            Some(i) => {
                let ghost ms = self@.paths[i as int].members;
                let mut k: usize = 0;
                let mut found = false;
                while k < self.paths[i].members.len()
                    invariant
                        i < self.paths@.len(),
                        ms == members_view(self.paths@[i as int].members@),
                        k <= ms.len(),
                        found == (exists|j: int| 0 <= j < k && ms[j] == MemberView::Node(nid@)),
                    decreases ms.len() - k,
                {
                    let same = match &self.paths[i].members[k] {
                        PathMember::Node(x) => str_eq(x.as_str(), nid.as_str()),
                        PathMember::Edge(_) => false,
                    };
                    assert(ms[k as int] == self.paths@[i as int].members@[k as int]@);
                    assert(same == (ms[k as int] == MemberView::Node(nid@)));
                    if same {
                        found = true;
                    }
                    k = k + 1;
                    assert(found == (exists|j: int| 0 <= j < k && ms[j] == MemberView::Node(nid@))) by {
                        if found && !same {
                            let j0 = choose|j: int| 0 <= j < k - 1 && ms[j] == MemberView::Node(nid@);
                            assert(0 <= j0 < k && ms[j0] == MemberView::Node(nid@));
                        }
                        if same {
                            assert(ms[k - 1] == MemberView::Node(nid@));
                        }
                    }
                }
                if !found {
                    let ghost old_paths = self@.paths;
                    let mut path = self.paths.remove(i);
                    path.members.push(PathMember::Node(nid));
                    self.paths.insert(i, path);
                    assert(members_view(path.members@) =~= ms.push(MemberView::Node(nid@)));
                    assert(paths_view(self.paths@) =~= old_paths.update(
                        i as int,
                        PathView { id: old_paths[i as int].id, members: ms.push(MemberView::Node(nid@)) },
                    ));
                } else {
                    assert(ms.contains(MemberView::Node(nid@)));
                }
            },
        }
    }

    fn add_edge_to_path(&mut self, pid: &str, eid: String)
        requires
            old(self).inv(),
        ensures
            final(self).inv(),
            final(self)@ == with_paths(old(self)@, add_path_edge(old(self)@.paths, pid@, eid@)),
    {
        match self.find_path(pid) {
            None => {},
            Some(i) => {
                let ghost old_paths = self@.paths;
                let mut path = self.paths.remove(i);
                let ghost ms = members_view(path.members@);
                path.members.push(PathMember::Edge(eid));
                self.paths.insert(i, path);
                assert(members_view(path.members@) =~= ms.push(MemberView::Edge(eid@)));
                assert(paths_view(self.paths@) =~= old_paths.update(
                    i as int,
                    PathView { id: old_paths[i as int].id, members: ms.push(MemberView::Edge(eid@)) },
                ));
                proof {
                    let np = self@.paths;
                    assert forall|a: int, j: int, k: int|
                        0 <= a < np.len() && 0 <= j < k < np[a].members.len() && (#[trigger] np[a].members[j]) is Node
                            implies np[a].members[j] != #[trigger] np[a].members[k] by {
                        if a == i && k == ms.len() {
                        } else if a == i {
                            assert(np[a].members[j] == old_paths[a].members[j]);
                            assert(np[a].members[k] == old_paths[a].members[k]);
                        }
                    }
                    assert forall|a: int, j: int|
                        0 <= a < np.len() && 0 <= j < np[a].members.len() implies match #[trigger] np[a].members[j] {
                            MemberView::Node(x) => has_node(self@.nodes, x),
                            MemberView::Edge(_) => true,
                        } by {
                        if a == i && j < ms.len() {
                            assert(np[a].members[j] == old_paths[a].members[j]);
                        }
                    }
                }
            },
        }
    }
}

} // verus!
