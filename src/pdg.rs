//! Program dependence graph: the fusion of a control-flow graph and a
//! data-dependency graph in one node and edge space.
use vstd::prelude::*;
use vstd::utf8::encode_utf8;
use crate::export::{
    EdgeStyle, digits, edges_text, footer_text, header_text, push_bytes, push_number, push_text,
    styled_map, text, write_edges, write_footer, write_header, lemma_styled_map,
};
use crate::flow::{
    AbstractLocation, CfgEdge, ControlFlowGraph, DataDependencyGraph, DdgEdge, DependencyNode,
    SymCondition, is_location, location_names, locations_before,
};

verus! {

#[derive(Debug, Clone, PartialEq, Eq, Hash)]
pub enum DependenceNode {
    ControlFlow(u64),
    DataDependency(AbstractLocation),
}

#[derive(Debug, Copy, Clone, PartialEq, Eq, Structural)]
pub enum EdgeKind {
    ControlFlow,
    DataDependency,
}

#[derive(Debug, Copy, Clone, PartialEq, Eq, Structural)]
pub struct PDGEdge {
    pub kind: EdgeKind,
    pub condition: SymCondition,
}

/// The edges between one ordered pair of node indices, in insertion order.
pub type EdgeEntry = ((usize, usize), Vec<PDGEdge>);

/// Nodes, and an edge relation from (source, target) to the list of edges
/// between them. Each pair has at most one entry and no entry is empty; the
/// order of the entries carries no meaning.
#[derive(Debug, Clone)]
pub struct ProgramDependenceGraph {
    pub nodes: Vec<DependenceNode>,
    pub edges: Vec<EdgeEntry>,
}

/// No two entries share a pair and no entry is empty.
pub open spec fn entries_wf(entries: Seq<EdgeEntry>) -> bool {
    &&& forall|i: int, j: int|
        0 <= i < entries.len() && 0 <= j < entries.len() && i != j ==> #[trigger] entries[i].0
            != #[trigger] entries[j].0
    &&& forall|i: int| 0 <= i < entries.len() ==> #[trigger] entries[i].1@.len() > 0
}

pub open spec fn has_key(entries: Seq<EdgeEntry>, k: (usize, usize)) -> bool {
    exists|i: int| 0 <= i < entries.len() && #[trigger] entries[i].0 == k
}

/// The edges from `k.0` to `k.1`; empty where there are none.
pub open spec fn edge_list(entries: Seq<EdgeEntry>, k: (usize, usize)) -> Seq<PDGEdge> {
    if has_key(entries, k) {
        entries[choose|i: int| 0 <= i < entries.len() && #[trigger] entries[i].0 == k].1@
    } else {
        seq![]
    }
}

/// The control-flow edges among `out` that end at `t`, in order.
pub open spec fn cf_edges(out: Seq<CfgEdge>, t: int) -> Seq<PDGEdge>
    decreases out.len(),
{
    if out.len() == 0 {
        seq![]
    } else {
        let rest = cf_edges(out.drop_last(), t);
        if out.last().target == t {
            rest.push(PDGEdge { kind: EdgeKind::ControlFlow, condition: out.last().condition })
        } else {
            rest
        }
    }
}

/// The pair of node indices that a data-dependency edge joins in the fused
/// graph, where both of its ends are locations.
pub open spec fn dd_key(nodes: Seq<DependencyNode>, base: int, e: DdgEdge) -> Option<(int, int)> {
    if is_location(nodes[e.source as int]) && is_location(nodes[e.target as int]) {
        Some(
            (
                base + locations_before(nodes, e.source as int),
                base + locations_before(nodes, e.target as int),
            ),
        )
    } else {
        None
    }
}

/// The data-dependency edges among `es` that join `k.0` to `k.1` once the
/// location nodes are numbered from `base`, in order.
pub open spec fn dd_edges(
    nodes: Seq<DependencyNode>,
    es: Seq<DdgEdge>,
    base: int,
    k: (usize, usize),
) -> Seq<PDGEdge>
    decreases es.len(),
{
    if es.len() == 0 {
        seq![]
    } else {
        let rest = dd_edges(nodes, es.drop_last(), base, k);
        if dd_key(nodes, base, es.last()) == Some((k.0 as int, k.1 as int)) {
            rest.push(PDGEdge { kind: EdgeKind::DataDependency, condition: es.last().condition })
        } else {
            rest
        }
    }
}

/// The control-flow edges of the first `i` nodes of `cfg` from `k.0` to `k.1`.
pub open spec fn cf_part(cfg: ControlFlowGraph, i: int, k: (usize, usize)) -> Seq<PDGEdge> {
    if k.0 < i {
        cf_edges(cfg.outgoing@[k.0 as int]@, k.1 as int)
    } else {
        seq![]
    }
}

/// The edges that the fused graph holds from `k.0` to `k.1`: the control-flow
/// edges, then the data-dependency edges between locations.
pub open spec fn fused_edges(
    cfg: ControlFlowGraph,
    ddg: DataDependencyGraph,
    k: (usize, usize),
) -> Seq<PDGEdge> {
    cf_part(cfg, cfg.nodes@.len() as int, k) + dd_edges(
        ddg.nodes@,
        ddg.edges@,
        cfg.nodes@.len() as int,
        k,
    )
}

/// Whether `n` is the location node with textual form `name`.
pub open spec fn is_location_node(n: DependenceNode, name: Seq<char>) -> bool {
    match n {
        DependenceNode::DataDependency(l) => l.name@ == name,
        DependenceNode::ControlFlow(_) => false,
    }
}

/// The nodes of the fused graph: the control-flow nodes in order, then the
/// location nodes of the data-dependency graph in order.
pub open spec fn fused_nodes(
    nodes: Seq<DependenceNode>,
    cfg: ControlFlowGraph,
    ddg: DataDependencyGraph,
) -> bool {
    let n = cfg.nodes@.len() as int;
    let names = location_names(ddg.nodes@);
    &&& nodes.len() == n + names.len()
    &&& forall|i: int| 0 <= i < n ==> #[trigger] nodes[i] == DependenceNode::ControlFlow(cfg.nodes@[i])
    &&& forall|i: int| n <= i < nodes.len() ==> is_location_node(#[trigger] nodes[i], names[i - n])
}

proof fn lemma_update_entry(old_s: Seq<EdgeEntry>, i: int, e: EdgeEntry)
    requires
        entries_wf(old_s),
        0 <= i < old_s.len(),
        old_s[i].0 == e.0,
        e.1@.len() > 0,
    ensures
        entries_wf(old_s.update(i, e)),
        forall|k: (usize, usize)|
            #[trigger] edge_list(old_s.update(i, e), k) == if k == e.0 {
                e.1@
            } else {
                edge_list(old_s, k)
            },
{
    let s = old_s.update(i, e);
    assert forall|k: (usize, usize)| #[trigger]
        edge_list(s, k) == if k == e.0 {
            e.1@
        } else {
            edge_list(old_s, k)
        } by {
        if k == e.0 {
            assert(s[i].0 == k);
        } else if has_key(old_s, k) {
            let j = choose|j: int| 0 <= j < old_s.len() && #[trigger] old_s[j].0 == k;
            assert(s[j].0 == k);
        } else {
            if has_key(s, k) {
                let j = choose|j: int| 0 <= j < s.len() && #[trigger] s[j].0 == k;
                assert(old_s[j].0 == k);
            }
        }
    }
}

proof fn lemma_push_entry(old_s: Seq<EdgeEntry>, e: EdgeEntry)
    requires
        entries_wf(old_s),
        !has_key(old_s, e.0),
        e.1@.len() > 0,
    ensures
        entries_wf(old_s.push(e)),
        forall|k: (usize, usize)|
            #[trigger] edge_list(old_s.push(e), k) == if k == e.0 {
                e.1@
            } else {
                edge_list(old_s, k)
            },
{
    let s = old_s.push(e);
    assert forall|k: (usize, usize)| #[trigger]
        edge_list(s, k) == if k == e.0 {
            e.1@
        } else {
            edge_list(old_s, k)
        } by {
        if k == e.0 {
            assert(s[old_s.len() as int].0 == k);
        } else if has_key(old_s, k) {
            let j = choose|j: int| 0 <= j < old_s.len() && #[trigger] old_s[j].0 == k;
            assert(s[j].0 == k);
        } else {
            if has_key(s, k) {
                let j = choose|j: int| 0 <= j < s.len() && #[trigger] s[j].0 == k;
                assert(old_s[j].0 == k);
            }
        }
    }
}

/// Appends `e` to the list of edges of `key`, creating the entry if needed.
fn add_edge(edges: &mut Vec<EdgeEntry>, key: (usize, usize), e: PDGEdge)
    requires
        entries_wf(old(edges)@),
    ensures
        entries_wf(final(edges)@),
        forall|k: (usize, usize)|
            #[trigger] edge_list(final(edges)@, k) == if k == key {
                edge_list(old(edges)@, k).push(e)
            } else {
                edge_list(old(edges)@, k)
            },
{
    let mut i: usize = 0;
    while i < edges.len()
        invariant
            i <= edges@.len(),
            edges@ == old(edges)@,
            entries_wf(edges@),
            forall|q: int| 0 <= q < i ==> #[trigger] edges@[q].0 != key,
        decreases edges@.len() - i,
    {
        if edges[i].0.0 == key.0 && edges[i].0.1 == key.1 {
            let ghost before = edges@;
            let (k, mut list) = edges.remove(i);
            list.push(e);
            proof {
                assert(edge_list(before, key) == before[i as int].1@);
            }
            edges.insert(i, (k, list));
            proof {
                assert(edges@ =~= before.update(i as int, (k, list)));
                lemma_update_entry(before, i as int, (k, list));
            }
            return;
        }
        i = i + 1;
    }
    let ghost before = edges@;
    let list = vec![e];
    proof {
        assert(list@ =~= seq![e]);
        assert(!has_key(before, key));
        assert(edge_list(before, key) =~= seq![]);
        assert(edge_list(before, key).push(e) =~= list@);
    }
    edges.push((key, list));
    proof {
        lemma_push_entry(before, (key, list));
    }
}

impl ProgramDependenceGraph {
    /// Each pair of nodes has at most one non-empty entry.
    pub open spec fn wf(&self) -> bool {
        entries_wf(self.edges@)
    }

    /// Whether the graph is well formed.
    pub fn is_well_formed(&self) -> (r: bool)
        ensures
            r == self.wf(),
    {
        let n = self.edges.len();
        let mut i: usize = 0;
        while i < n
            invariant
                n == self.edges@.len(),
                i <= n,
                forall|a: int, b: int|
                    0 <= a < i && 0 <= b < n && a != b ==> #[trigger] self.edges@[a].0
                        != #[trigger] self.edges@[b].0,
                forall|a: int| 0 <= a < i ==> #[trigger] self.edges@[a].1@.len() > 0,
            decreases n - i,
        {
            if self.edges[i].1.len() == 0 {
                return false;
            }
            let mut j: usize = 0;
            while j < n
                invariant
                    n == self.edges@.len(),
                    i < n,
                    j <= n,
                    forall|b: int| 0 <= b < j && b != i ==> self.edges@[i as int].0 != #[trigger] self.edges@[b].0,
                decreases n - j,
            {
                if j != i && self.edges[i].0.0 == self.edges[j].0.0 && self.edges[i].0.1 == self.edges[j].0.1 {
                    return false;
                }
                j = j + 1;
            }
            i = i + 1;
        }
        true
    }

    /// Fuse a control-flow graph and a data-dependency graph. The control-flow
    /// nodes come first, in order, then the location nodes of the
    /// data-dependency graph, in order; the other nodes of the latter, and
    /// every edge that touches one, are left out.
    pub fn new(cfg: &ControlFlowGraph, ddg: &DataDependencyGraph) -> (r: ProgramDependenceGraph)
        requires
            cfg.wf(),
            ddg.wf(),
        ensures
            r.wf(),
            fused_nodes(r.nodes@, *cfg, *ddg),
            forall|k: (usize, usize)| #[trigger]
                edge_list(r.edges@, k) == fused_edges(*cfg, *ddg, k),
    {
        let n = cfg.nodes.len();
        let mut nodes: Vec<DependenceNode> = Vec::new();
        let mut edges: Vec<EdgeEntry> = Vec::new();
        let mut i: usize = 0;
        while i < n
            invariant
                cfg.wf(),
                n == cfg.nodes@.len(),
                i <= n,
                nodes@.len() == i,
                forall|q: int| 0 <= q < i ==> #[trigger] nodes@[q] == DependenceNode::ControlFlow(cfg.nodes@[q]),
                entries_wf(edges@),
                forall|k: (usize, usize)| #[trigger] edge_list(edges@, k) == cf_part(*cfg, i as int, k),
            decreases n - i,
        {
            nodes.push(DependenceNode::ControlFlow(cfg.nodes[i]));
            let out = &cfg.outgoing[i];
            let mut j: usize = 0;
            while j < out.len()
                invariant
                    cfg.wf(),
                    n == cfg.nodes@.len(),
                    i < n,
                    out@ == cfg.outgoing@[i as int]@,
                    j <= out@.len(),
                    entries_wf(edges@),
                    forall|k: (usize, usize)| #[trigger] edge_list(edges@, k) == if k.0 == i {
                        cf_edges(out@.subrange(0, j as int), k.1 as int)
                    } else {
                        cf_part(*cfg, i as int, k)
                    },
                decreases out@.len() - j,
            {
                let ce = out[j];
                let ghost before = edges@;
                add_edge(&mut edges, (i, ce.target), PDGEdge { kind: EdgeKind::ControlFlow, condition: ce.condition });
                proof {
                    assert(out@.subrange(0, j + 1).drop_last() =~= out@.subrange(0, j as int));
                }
                j = j + 1;
            }
            proof {
                assert(out@.subrange(0, j as int) =~= out@);
            }
            i = i + 1;
        }
        let m = ddg.nodes.len();
        let mut index_of: Vec<Option<usize>> = Vec::new();
        let mut j: usize = 0;
        while j < m
            invariant
                m == ddg.nodes@.len(),
                n == cfg.nodes@.len(),
                j <= m,
                index_of@.len() == j,
                forall|q: int| 0 <= q < j ==> if is_location(ddg.nodes@[q]) {
                    #[trigger] index_of@[q] is Some && index_of@[q]->0 == n + locations_before(ddg.nodes@, q)
                } else {
                    index_of@[q] is None
                },
                nodes@.len() == n + locations_before(ddg.nodes@, j as int),
                forall|q: int| 0 <= q < n ==> #[trigger] nodes@[q] == DependenceNode::ControlFlow(cfg.nodes@[q]),
                forall|q: int| n <= q < nodes@.len() ==> is_location_node(#[trigger] nodes@[q],
                    location_names(ddg.nodes@.subrange(0, j as int))[q - n]),
            decreases m - j,
        {
            proof {
                assert(ddg.nodes@.subrange(0, j + 1).drop_last() =~= ddg.nodes@.subrange(0, j as int));
            }
            match &ddg.nodes[j] {
                DependencyNode::Location(loc) => {
                    index_of.push(Some(nodes.len()));
                    nodes.push(DependenceNode::DataDependency(loc.duplicate()));
                },
                DependencyNode::Computation(_) => {
                    index_of.push(None);
                },
            }
            j = j + 1;
        }
        proof {
            assert(ddg.nodes@.subrange(0, m as int) =~= ddg.nodes@);
        }
        let mut q: usize = 0;
        while q < ddg.edges.len()
            invariant
                ddg.wf(),
                m == ddg.nodes@.len(),
                n == cfg.nodes@.len(),
                q <= ddg.edges@.len(),
                index_of@.len() == m,
                forall|x: int| 0 <= x < m ==> if is_location(ddg.nodes@[x]) {
                    #[trigger] index_of@[x] is Some && index_of@[x]->0 == n + locations_before(ddg.nodes@, x)
                } else {
                    index_of@[x] is None
                },
                nodes@.len() == n + location_names(ddg.nodes@).len(),
                entries_wf(edges@),
                forall|k: (usize, usize)| #[trigger] edge_list(edges@, k) == cf_part(*cfg, n as int, k)
                    + dd_edges(ddg.nodes@, ddg.edges@.subrange(0, q as int), n as int, k),
            decreases ddg.edges@.len() - q,
        {
            let de = ddg.edges[q];
            proof {
                assert(ddg.edges@.subrange(0, q + 1).drop_last() =~= ddg.edges@.subrange(0, q as int));
                assert(de.source < m && de.target < m);
            }
            match (index_of[de.source], index_of[de.target]) {
                (Some(a), Some(b)) => {
                    proof {
                        lemma_locations_before_bound(ddg.nodes@, de.source as int);
                        lemma_locations_before_bound(ddg.nodes@, de.target as int);
                    }
                    add_edge(&mut edges, (a, b), PDGEdge { kind: EdgeKind::DataDependency, condition: de.condition });
                },
                _ => {},
            }
            q = q + 1;
        }
        proof {
            assert(ddg.edges@.subrange(0, q as int) =~= ddg.edges@);
        }
        ProgramDependenceGraph { nodes, edges }
    }
}

proof fn lemma_locations_before_bound(nodes: Seq<DependencyNode>, j: int)
    requires
        0 <= j <= nodes.len(),
    ensures
        0 <= locations_before(nodes, j) <= j,
    decreases j,
{
    lemma_location_names_len(nodes.subrange(0, j));
}

proof fn lemma_location_names_len(nodes: Seq<DependencyNode>)
    ensures
        location_names(nodes).len() <= nodes.len(),
    decreases nodes.len(),
{
    if nodes.len() > 0 {
        lemma_location_names_len(nodes.drop_last());
    }
}

/// The attributes of one edge: solid black for control flow, dashed blue
/// for data dependency.
pub open spec fn edge_style(e: PDGEdge) -> Seq<u8> {
    match e.kind {
        EdgeKind::ControlFlow => text("style=solid, color=black\n"),
        EdgeKind::DataDependency => text("style=dashed, color=blue\n"),
    }
}

/// The attributes of each edge of a list, in order.
pub open spec fn styles(es: Seq<PDGEdge>) -> Seq<u8>
    decreases es.len(),
{
    if es.len() == 0 {
        seq![]
    } else {
        styles(es.drop_last()) + edge_style(es.last())
    }
}

impl EdgeStyle for Vec<PDGEdge> {
    open spec fn style_text(&self) -> Seq<u8> {
        styles(self@)
    }

    fn write_style(&self, out: &mut Vec<u8>) {
        let mut i: usize = 0;
        while i < self.len()
            invariant
                i <= self@.len(),
                out@ == old(out)@ + styles(self@.subrange(0, i as int)),
            decreases self@.len() - i,
        {
            proof {
                assert(self@.subrange(0, i + 1).drop_last() =~= self@.subrange(0, i as int));
            }
            match self[i].kind {
                EdgeKind::ControlFlow => push_text(out, "style=solid, color=black\n"),
                EdgeKind::DataDependency => push_text(out, "style=dashed, color=blue\n"),
            }
            proof {
                assert(out@ =~= old(out)@ + styles(self@.subrange(0, i + 1)));
            }
            i = i + 1;
        }
        proof {
            assert(self@.subrange(0, i as int) =~= self@);
        }
    }
}

/// The statement of node `i`.
pub open spec fn node_line(i: nat, n: DependenceNode) -> Seq<u8> {
    match n {
        DependenceNode::ControlFlow(addr) => text("b") + digits(i, 10) + text(
            " [label=\"ControlFlow: 0x",
        ) + digits(addr as nat, 16) + text("\", shape=box]\n"),
        DependenceNode::DataDependency(l) => text("b") + digits(i, 10) + text(
            " [label=\"DataDependency: ",
        ) + encode_utf8(l.name@) + text("\", shape=ellipse]\n"),
    }
}

/// The statements of all nodes, in order.
pub open spec fn nodes_text(ns: Seq<DependenceNode>) -> Seq<u8>
    decreases ns.len(),
{
    if ns.len() == 0 {
        seq![]
    } else {
        nodes_text(ns.drop_last()) + node_line((ns.len() - 1) as nat, ns.last())
    }
}

/// The document that exports a graph with these nodes and edge map.
pub open spec fn document(
    nodes: Seq<DependenceNode>,
    edges: Map<(usize, usize), Seq<u8>>,
    title: Seq<u8>,
) -> Seq<u8> {
    header_text(text("Program Dependence Graph for ") + title, 40) + nodes_text(nodes)
        + edges_text(edges) + footer_text()
}

fn write_node(out: &mut Vec<u8>, i: usize, n: &DependenceNode)
    ensures
        final(out)@ == old(out)@ + node_line(i as nat, *n),
{
    push_text(out, "b");
    push_number(out, i as u64, 10);
    match n {
        DependenceNode::ControlFlow(addr) => {
            push_text(out, " [label=\"ControlFlow: 0x");
            push_number(out, *addr, 16);
            push_text(out, "\", shape=box]\n");
        },
        DependenceNode::DataDependency(l) => {
            push_text(out, " [label=\"DataDependency: ");
            push_bytes(out, l.name.as_str().as_bytes());
            push_text(out, "\", shape=ellipse]\n");
        },
    }
    proof {
        assert(final(out)@ =~= old(out)@ + node_line(i as nat, *n));
    }
}

impl ProgramDependenceGraph {
    /// The dot document of the graph: nodes in order, edge entries in
    /// ascending order of (source, target).
    pub fn visualize(&self, title: &str) -> (r: Vec<u8>)
        requires
            self.wf(),
        ensures
            r@ == document(self.nodes@, styled_map(self.edges@), text(title)),
    {
        let mut full_title: Vec<u8> = Vec::new();
        push_text(&mut full_title, "Program Dependence Graph for ");
        push_bytes(&mut full_title, title.as_bytes());
        let mut out: Vec<u8> = Vec::new();
        write_header(&mut out, full_title.as_slice(), 40);
        let ghost head = out@;
        let mut i: usize = 0;
        while i < self.nodes.len()
            invariant
                i <= self.nodes@.len(),
                out@ == head + nodes_text(self.nodes@.subrange(0, i as int)),
            decreases self.nodes@.len() - i,
        {
            proof {
                assert(self.nodes@.subrange(0, i + 1).drop_last() =~= self.nodes@.subrange(0, i as int));
            }
            write_node(&mut out, i, &self.nodes[i]);
            proof {
                assert(out@ =~= head + nodes_text(self.nodes@.subrange(0, i + 1)));
            }
            i = i + 1;
        }
        proof {
            assert(self.nodes@.subrange(0, i as int) =~= self.nodes@);
        }
        write_edges(&mut out, &self.edges);
        write_footer(&mut out);
        proof {
            assert(out@ =~= document(self.nodes@, styled_map(self.edges@), text(title)));
        }
        out
    }
}

proof fn lemma_styled_edges(s: Seq<EdgeEntry>)
    requires
        entries_wf(s),
    ensures
        styled_map(s).dom().finite(),
        forall|k: (usize, usize)| #[trigger] styled_map(s).contains_key(k) <==> edge_list(s, k).len() > 0,
        forall|k: (usize, usize)| #[trigger] styled_map(s).contains_key(k) ==> styled_map(s)[k] == styles(edge_list(s, k)),
{
    lemma_styled_map(s);
    assert forall|k: (usize, usize)| #[trigger] styled_map(s).contains_key(k) <==> edge_list(s, k).len() > 0 by {
        if styled_map(s).contains_key(k) {
            let i = choose|i: int| 0 <= i < s.len() && #[trigger] s[i].0 == k;
            assert(s[i].1@.len() > 0);
        }
        if edge_list(s, k).len() > 0 {
            let i = choose|i: int| 0 <= i < s.len() && #[trigger] s[i].0 == k;
            assert(styled_map(s).contains_key(s[i].0));
        }
    }
    assert forall|k: (usize, usize)| #[trigger] styled_map(s).contains_key(k) implies styled_map(s)[k] == styles(edge_list(s, k)) by {
        let i = choose|i: int| 0 <= i < s.len() && #[trigger] s[i].0 == k;
        assert(styled_map(s).contains_key(s[i].0));
    }
}

/// Exporting depends only on the nodes and on the edges between each pair of
/// nodes, not on the order in which the edge entries were inserted: two
/// graphs with the same content give the same document.
pub proof fn lemma_export_deterministic(
    g1: ProgramDependenceGraph,
    g2: ProgramDependenceGraph,
    title: Seq<u8>,
)
    requires
        g1.wf(),
        g2.wf(),
        g1.nodes@ == g2.nodes@,
        forall|k: (usize, usize)| #[trigger] edge_list(g1.edges@, k) == edge_list(g2.edges@, k),
    ensures
        document(g1.nodes@, styled_map(g1.edges@), title) == document(
            g2.nodes@,
            styled_map(g2.edges@),
            title,
        ),
{
    lemma_styled_edges(g1.edges@);
    lemma_styled_edges(g2.edges@);
    assert(styled_map(g1.edges@) =~= styled_map(g2.edges@));
}

proof fn lemma_dd_edges_remove(
    nodes: Seq<DependencyNode>,
    es: Seq<DdgEdge>,
    base: int,
    k: (usize, usize),
    i: int,
)
    requires
        0 <= i < es.len(),
        dd_key(nodes, base, es[i]) is None,
    ensures
        dd_edges(nodes, es.remove(i), base, k) == dd_edges(nodes, es, base, k),
    decreases es.len(),
{
    if i == es.len() - 1 {
        assert(es.remove(i) =~= es.drop_last());
    } else {
        lemma_dd_edges_remove(nodes, es.drop_last(), base, k, i);
        assert(es.remove(i).drop_last() =~= es.drop_last().remove(i));
        assert(es.remove(i).last() == es.last());
    }
}

/// A data-dependency edge with an end that is not a location never becomes
/// an edge of the fused graph: every edge list is the same without it.
pub proof fn lemma_dropped_edge(cfg: ControlFlowGraph, ddg: DataDependencyGraph, i: int)
    requires
        ddg.wf(),
        0 <= i < ddg.edges@.len(),
        !is_location(ddg.nodes@[ddg.edges@[i].source as int]) || !is_location(
            ddg.nodes@[ddg.edges@[i].target as int],
        ),
    ensures
        forall|k: (usize, usize)| #[trigger] fused_edges(cfg, ddg, k) == cf_part(cfg, cfg.nodes@.len() as int, k)
            + dd_edges(ddg.nodes@, ddg.edges@.remove(i), cfg.nodes@.len() as int, k),
{
    assert forall|k: (usize, usize)| #[trigger] fused_edges(cfg, ddg, k) == cf_part(cfg, cfg.nodes@.len() as int, k)
        + dd_edges(ddg.nodes@, ddg.edges@.remove(i), cfg.nodes@.len() as int, k) by {
        lemma_dd_edges_remove(ddg.nodes@, ddg.edges@, cfg.nodes@.len() as int, k, i);
    }
}

proof fn lemma_cf_contains(out: Seq<CfgEdge>, j: int)
    requires
        0 <= j < out.len(),
    ensures
        cf_edges(out, out[j].target as int).contains(
            PDGEdge { kind: EdgeKind::ControlFlow, condition: out[j].condition },
        ),
    decreases out.len(),
{
    let e = PDGEdge { kind: EdgeKind::ControlFlow, condition: out[j].condition };
    let t = out[j].target as int;
    if j == out.len() - 1 {
        assert(cf_edges(out, t).last() == e);
    } else {
        lemma_cf_contains(out.drop_last(), j);
        let w = choose|w: int| 0 <= w < cf_edges(out.drop_last(), t).len() && cf_edges(out.drop_last(), t)[w] == e;
        assert(cf_edges(out, t)[w] == e);
    }
}

proof fn lemma_dd_contains(nodes: Seq<DependencyNode>, es: Seq<DdgEdge>, base: int, i: int, k: (usize, usize))
    requires
        0 <= i < es.len(),
        dd_key(nodes, base, es[i]) == Some((k.0 as int, k.1 as int)),
    ensures
        dd_edges(nodes, es, base, k).contains(
            PDGEdge { kind: EdgeKind::DataDependency, condition: es[i].condition },
        ),
    decreases es.len(),
{
    let e = PDGEdge { kind: EdgeKind::DataDependency, condition: es[i].condition };
    if i == es.len() - 1 {
        assert(dd_edges(nodes, es, base, k).last() == e);
    } else {
        lemma_dd_contains(nodes, es.drop_last(), base, i, k);
        let w = choose|w: int| 0 <= w < dd_edges(nodes, es.drop_last(), base, k).len() && dd_edges(nodes, es.drop_last(), base, k)[w] == e;
        assert(dd_edges(nodes, es, base, k)[w] == e);
    }
}

/// Edges are accumulated, never overwritten: a control-flow edge and a
/// data-dependency edge between locations are both in the list of the pair
/// of fused nodes that each joins, also where the two pairs are the same.
pub proof fn lemma_edges_kept(
    cfg: ControlFlowGraph,
    ddg: DataDependencyGraph,
    s: int,
    j: int,
    i: int,
    k: (usize, usize),
)
    requires
        cfg.wf(),
        ddg.wf(),
        0 <= s < cfg.nodes@.len(),
        0 <= j < cfg.outgoing@[s]@.len(),
        0 <= i < ddg.edges@.len(),
        dd_key(ddg.nodes@, cfg.nodes@.len() as int, ddg.edges@[i]) == Some((k.0 as int, k.1 as int)),
    ensures
        fused_edges(cfg, ddg, (s as usize, cfg.outgoing@[s]@[j].target)).contains(
            PDGEdge { kind: EdgeKind::ControlFlow, condition: cfg.outgoing@[s]@[j].condition },
        ),
        fused_edges(cfg, ddg, k).contains(
            PDGEdge { kind: EdgeKind::DataDependency, condition: ddg.edges@[i].condition },
        ),
{
    let n = cfg.nodes@.len() as int;
    let kc = (s as usize, cfg.outgoing@[s]@[j].target);
    let ec = PDGEdge { kind: EdgeKind::ControlFlow, condition: cfg.outgoing@[s]@[j].condition };
    lemma_cf_contains(cfg.outgoing@[s]@, j);
    let w = choose|w: int| 0 <= w < cf_part(cfg, n, kc).len() && cf_part(cfg, n, kc)[w] == ec;
    assert(fused_edges(cfg, ddg, kc)[w] == ec);
    let ed = PDGEdge { kind: EdgeKind::DataDependency, condition: ddg.edges@[i].condition };
    lemma_dd_contains(ddg.nodes@, ddg.edges@, n, i, k);
    let dd = dd_edges(ddg.nodes@, ddg.edges@, n, k);
    let v = choose|v: int| 0 <= v < dd.len() && dd[v] == ed;
    assert(fused_edges(cfg, ddg, k)[cf_part(cfg, n, k).len() + v] == ed);
}

} // verus!
