use pdgraph::flow::{
    AbstractLocation, CfgEdge, ControlFlowGraph, DataDependencyGraph, DdgEdge, DependencyNode,
    SymCondition,
};
use pdgraph::pdg::{DependenceNode, EdgeKind, PDGEdge, ProgramDependenceGraph};

fn cfg_edge(target: usize, c: u64) -> CfgEdge {
    CfgEdge { target, condition: SymCondition(c) }
}

fn ddg_edge(source: usize, target: usize, c: u64) -> DdgEdge {
    DdgEdge { source, target, condition: SymCondition(c) }
}

fn sample_cfg() -> ControlFlowGraph {
    ControlFlowGraph {
        nodes: vec![0x400000, 0x400010, 0x400020],
        outgoing: vec![vec![cfg_edge(1, 1), cfg_edge(2, 2)], vec![cfg_edge(2, 3)], vec![]],
    }
}

fn sample_ddg() -> DataDependencyGraph {
    DataDependencyGraph {
        nodes: vec![
            DependencyNode::Location(AbstractLocation::new("rax")),
            DependencyNode::Computation(0x400004),
            DependencyNode::Location(AbstractLocation::new("[rbp-0x8]")),
            DependencyNode::Location(AbstractLocation::new("rdi")),
        ],
        edges: vec![
            ddg_edge(0, 2, 10),
            ddg_edge(0, 1, 11),
            ddg_edge(1, 3, 12),
            ddg_edge(2, 3, 13),
            ddg_edge(0, 2, 14),
        ],
    }
}

fn list(g: &ProgramDependenceGraph, s: usize, t: usize) -> Vec<PDGEdge> {
    for (k, l) in &g.edges {
        if *k == (s, t) {
            return l.clone();
        }
    }
    vec![]
}

fn doc(g: &ProgramDependenceGraph, title: &str) -> String {
    String::from_utf8(g.visualize(title)).unwrap()
}

#[test]
fn nodes_are_partitioned() {
    let g = ProgramDependenceGraph::new(&sample_cfg(), &sample_ddg());
    assert_eq!(g.nodes.len(), 3 + 3);
    assert_eq!(g.nodes[0], DependenceNode::ControlFlow(0x400000));
    assert_eq!(g.nodes[1], DependenceNode::ControlFlow(0x400010));
    assert_eq!(g.nodes[2], DependenceNode::ControlFlow(0x400020));
    assert_eq!(g.nodes[3], DependenceNode::DataDependency(AbstractLocation::new("rax")));
    assert_eq!(g.nodes[4], DependenceNode::DataDependency(AbstractLocation::new("[rbp-0x8]")));
    assert_eq!(g.nodes[5], DependenceNode::DataDependency(AbstractLocation::new("rdi")));
}

#[test]
fn control_flow_edges_are_kept() {
    let g = ProgramDependenceGraph::new(&sample_cfg(), &sample_ddg());
    assert_eq!(list(&g, 0, 1), vec![PDGEdge { kind: EdgeKind::ControlFlow, condition: SymCondition(1) }]);
    assert_eq!(list(&g, 0, 2), vec![PDGEdge { kind: EdgeKind::ControlFlow, condition: SymCondition(2) }]);
    assert_eq!(list(&g, 1, 2), vec![PDGEdge { kind: EdgeKind::ControlFlow, condition: SymCondition(3) }]);
}

#[test]
fn edges_to_computations_are_dropped() {
    let g = ProgramDependenceGraph::new(&sample_cfg(), &sample_ddg());
    // DDG 0 -> 2 twice: both kept, in order; 2 -> 3 becomes 4 -> 5.
    assert_eq!(
        list(&g, 3, 4),
        vec![
            PDGEdge { kind: EdgeKind::DataDependency, condition: SymCondition(10) },
            PDGEdge { kind: EdgeKind::DataDependency, condition: SymCondition(14) },
        ]
    );
    assert_eq!(list(&g, 4, 5), vec![PDGEdge { kind: EdgeKind::DataDependency, condition: SymCondition(13) }]);
    let total: usize = g.edges.iter().map(|(_, l)| l.len()).sum();
    assert_eq!(total, 3 + 3);
    for (_, l) in &g.edges {
        for e in l {
            assert!(e.condition != SymCondition(11) && e.condition != SymCondition(12));
        }
    }
}

#[test]
fn repeated_control_flow_edges_accumulate() {
    let cfg = ControlFlowGraph {
        nodes: vec![0x10, 0x20],
        outgoing: vec![vec![cfg_edge(1, 5), cfg_edge(1, 6)], vec![cfg_edge(1, 7)]],
    };
    let ddg = DataDependencyGraph { nodes: vec![], edges: vec![] };
    let g = ProgramDependenceGraph::new(&cfg, &ddg);
    assert_eq!(
        list(&g, 0, 1),
        vec![
            PDGEdge { kind: EdgeKind::ControlFlow, condition: SymCondition(5) },
            PDGEdge { kind: EdgeKind::ControlFlow, condition: SymCondition(6) },
        ]
    );
    assert_eq!(list(&g, 1, 1).len(), 1);
    assert_eq!(g.edges.len(), 2);
}

#[test]
fn empty_inputs_give_empty_graph() {
    let cfg = ControlFlowGraph { nodes: vec![], outgoing: vec![] };
    let ddg = DataDependencyGraph {
        nodes: vec![DependencyNode::Computation(1)],
        edges: vec![ddg_edge(0, 0, 1)],
    };
    let g = ProgramDependenceGraph::new(&cfg, &ddg);
    assert!(g.nodes.is_empty());
    assert!(g.edges.is_empty());
    assert_eq!(
        doc(&g, "t"),
        "digraph Flow {\n\
         graph [label=\"Program Dependence Graph for t\", labelloc=\"t\", fontsize=40, fontname=\"Source Code Pro\"]\n\
         node [fontname=\"Source Code Pro\"]\n\
         edge [fontname=\"Source Code Pro\"]\n\
         }\n"
    );
}

#[test]
fn export_text_is_exact() {
    let cfg = ControlFlowGraph {
        nodes: vec![0x4a0, 0x4b0],
        outgoing: vec![vec![cfg_edge(1, 1)], vec![]],
    };
    let ddg = DataDependencyGraph {
        nodes: vec![
            DependencyNode::Location(AbstractLocation::new("rax")),
            DependencyNode::Location(AbstractLocation::new("rbx")),
        ],
        edges: vec![ddg_edge(1, 0, 2)],
    };
    let g = ProgramDependenceGraph::new(&cfg, &ddg);
    assert_eq!(
        doc(&g, "main"),
        "digraph Flow {\n\
         graph [label=\"Program Dependence Graph for main\", labelloc=\"t\", fontsize=40, fontname=\"Source Code Pro\"]\n\
         node [fontname=\"Source Code Pro\"]\n\
         edge [fontname=\"Source Code Pro\"]\n\
         b0 [label=\"ControlFlow: 0x4a0\", shape=box]\n\
         b1 [label=\"ControlFlow: 0x4b0\", shape=box]\n\
         b2 [label=\"DataDependency: rax\", shape=ellipse]\n\
         b3 [label=\"DataDependency: rbx\", shape=ellipse]\n\
         b0 -> b1 [style=solid, color=black\n\
         ]\n\
         b3 -> b2 [style=dashed, color=blue\n\
         ]\n\
         }\n"
    );
}

#[test]
fn export_is_independent_of_insertion_order() {
    let g = ProgramDependenceGraph::new(&sample_cfg(), &sample_ddg());
    let mut h = g.clone();
    h.edges.reverse();
    assert_eq!(g.visualize("x"), h.visualize("x"));
    let text = doc(&g, "x");
    let lines: Vec<&str> = text.lines().filter(|l| l.contains(" -> ")).collect();
    assert_eq!(
        lines,
        vec!["b0 -> b1 [style=solid, color=black", "b0 -> b2 [style=solid, color=black",
             "b1 -> b2 [style=solid, color=black", "b3 -> b4 [style=dashed, color=blue",
             "b4 -> b5 [style=dashed, color=blue"]
    );
    assert!(text.contains("b3 -> b4 [style=dashed, color=blue\nstyle=dashed, color=blue\n]\n"));
}

#[test]
fn large_indices_sort_numerically() {
    let nodes: Vec<u64> = (0..12).map(|i| 0x1000 + i).collect();
    let mut outgoing: Vec<Vec<CfgEdge>> = vec![vec![]; 12];
    outgoing[10] = vec![cfg_edge(2, 0)];
    outgoing[9] = vec![cfg_edge(11, 0)];
    outgoing[2] = vec![cfg_edge(10, 0)];
    let cfg = ControlFlowGraph { nodes, outgoing };
    let ddg = DataDependencyGraph { nodes: vec![], edges: vec![] };
    let text = doc(&ProgramDependenceGraph::new(&cfg, &ddg), "n");
    let lines: Vec<&str> = text.lines().filter(|l| l.contains(" -> ")).collect();
    assert_eq!(lines, vec!["b2 -> b10 [style=solid, color=black", "b9 -> b11 [style=solid, color=black", "b10 -> b2 [style=solid, color=black"]);
    assert!(text.contains("b11 [label=\"ControlFlow: 0x100b\", shape=box]\n"));
}
