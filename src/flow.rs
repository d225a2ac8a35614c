//! The analysis graphs that a program dependence graph is built from.
use vstd::prelude::*;

verus! {

/// Opaque handle of a symbolic predicate attached to an edge; the condition
/// algebra that interprets it lives elsewhere.
#[derive(Debug, Copy, Clone, PartialEq, Eq, Structural, Hash)]
pub struct SymCondition(pub u64);

/// A register, memory cell or other storage location, by its textual form.
#[derive(Debug, Clone, PartialEq, Eq, Hash)]
pub struct AbstractLocation {
    pub name: String,
}

impl AbstractLocation {
    pub fn new(name: &str) -> (r: AbstractLocation)
        ensures
            r.name@ == name@,
    {
        AbstractLocation { name: name.to_owned() }
    }

    /// A copy of the location with the same textual form.
    pub fn duplicate(&self) -> (r: AbstractLocation)
        ensures
            r.name@ == self.name@,
    {
        AbstractLocation { name: self.name.clone() }
    }
}

/// An outgoing control-flow edge: the successor's index and the condition
/// under which the edge is taken.
#[derive(Debug, Copy, Clone, PartialEq, Eq, Structural)]
pub struct CfgEdge {
    pub target: usize,
    pub condition: SymCondition,
}

/// A control-flow graph: the address of each node, and for each node its
/// outgoing edges in order.
#[derive(Debug, Clone)]
pub struct ControlFlowGraph {
    pub nodes: Vec<u64>,
    pub outgoing: Vec<Vec<CfgEdge>>,
}

impl ControlFlowGraph {
    /// Each node has a list of outgoing edges and each edge ends at a node.
    pub open spec fn wf(&self) -> bool {
        &&& self.outgoing@.len() == self.nodes@.len()
        &&& forall|i: int, j: int|
            0 <= i < self.outgoing@.len() && 0 <= j < self.outgoing@[i]@.len()
                ==> #[trigger] self.outgoing@[i]@[j].target < self.nodes@.len()
    }

    /// Whether the graph is well formed.
    pub fn is_well_formed(&self) -> (r: bool)
        ensures
            r == self.wf(),
    {
        if self.outgoing.len() != self.nodes.len() {
            return false;
        }
        let mut i: usize = 0;
        while i < self.outgoing.len()
            invariant
                i <= self.outgoing@.len(),
                self.outgoing@.len() == self.nodes@.len(),
                forall|a: int, b: int|
                    0 <= a < i && 0 <= b < self.outgoing@[a]@.len()
                        ==> #[trigger] self.outgoing@[a]@[b].target < self.nodes@.len(),
            decreases self.outgoing@.len() - i,
        {
            let out = &self.outgoing[i];
            let mut j: usize = 0;
            while j < out.len()
                invariant
                    i < self.outgoing@.len(),
                    out@ == self.outgoing@[i as int]@,
                    j <= out@.len(),
                    forall|b: int| 0 <= b < j ==> #[trigger] out@[b].target < self.nodes@.len(),
                decreases out@.len() - j,
            {
                if out[j].target >= self.nodes.len() {
                    return false;
                }
                j = j + 1;
            }
            i = i + 1;
        }
        true
    }
}

/// A node of a data-dependency graph: a storage location, or an intermediate
/// value (named by the address that computes it) tied to no storage.
#[derive(Debug, Clone, PartialEq, Eq, Hash)]
pub enum DependencyNode {
    Location(AbstractLocation),
    Computation(u64),
}

/// A data-dependency edge between two node indices, with its predicate.
#[derive(Debug, Copy, Clone, PartialEq, Eq, Structural)]
pub struct DdgEdge {
    pub source: usize,
    pub target: usize,
    pub condition: SymCondition,
}

/// A data-dependency graph: its nodes and its edges, each in order.
#[derive(Debug, Clone)]
pub struct DataDependencyGraph {
    pub nodes: Vec<DependencyNode>,
    pub edges: Vec<DdgEdge>,
}

impl DataDependencyGraph {
    /// Each edge joins two nodes of the graph.
    pub open spec fn wf(&self) -> bool {
        forall|i: int|
            0 <= i < self.edges@.len() ==> #[trigger] self.edges@[i].source < self.nodes@.len()
                && self.edges@[i].target < self.nodes@.len()
    }

    /// Whether the graph is well formed.
    pub fn is_well_formed(&self) -> (r: bool)
        ensures
            r == self.wf(),
    {
        let mut i: usize = 0;
        while i < self.edges.len()
            invariant
                i <= self.edges@.len(),
                forall|a: int|
                    0 <= a < i ==> #[trigger] self.edges@[a].source < self.nodes@.len()
                        && self.edges@[a].target < self.nodes@.len(),
            decreases self.edges@.len() - i,
        {
            if self.edges[i].source >= self.nodes.len() || self.edges[i].target >= self.nodes.len() {
                return false;
            }
            i = i + 1;
        }
        true
    }
}

pub open spec fn is_location(n: DependencyNode) -> bool {
    n is Location
}

/// The textual forms of the location nodes among `nodes`, in order.
pub open spec fn location_names(nodes: Seq<DependencyNode>) -> Seq<Seq<char>>
    decreases nodes.len(),
{
    if nodes.len() == 0 {
        seq![]
    } else {
        let rest = location_names(nodes.drop_last());
        match nodes.last() {
            DependencyNode::Location(l) => rest.push(l.name@),
            DependencyNode::Computation(_) => rest,
        }
    }
}

/// How many location nodes come before index `j`.
pub open spec fn locations_before(nodes: Seq<DependencyNode>, j: int) -> int {
    location_names(nodes.subrange(0, j)).len() as int
}

} // verus!
