use graph_layout::{layout, Color, Edge, Graph, LayoutStatus, Node};

fn node(id: &str, name: &str, x: i64, y: i64) -> Node {
    Node {
        id: String::from(id),
        name: String::from(name),
        color: Color { r: 0, g: 0, b: 0 },
        x,
        y,
    }
}

fn edge(source: &str, dest: &str) -> Edge {
    Edge { source_id: String::from(source), dest_id: String::from(dest) }
}

fn sample_graph() -> Graph {
    Graph {
        nodes: vec![
            Node {
                id: String::from("node_a"),
                name: String::from("A"),
                color: Color { r: 255, g: 0, b: 0 },
                x: 0,
                y: 0,
            },
            Node {
                id: String::from("node_b"),
                name: String::from("B"),
                color: Color { r: 0, g: 255, b: 0 },
                x: 10,
                y: 10,
            },
            Node {
                id: String::from("node_c"),
                name: String::from("C"),
                color: Color { r: 0, g: 255, b: 0 },
                x: 20,
                y: 20,
            },
        ],
        edges: vec![edge("node_a", "node_b"), edge("node_a", "node_c")],
    }
}

#[test]
fn topology_is_preserved() {
    let g = sample_graph();
    let (out, _status) = layout(g, 1000, 1000, 100, 200);
    assert_eq!(out.nodes.len(), 3);
    assert_eq!(out.nodes[0].id, "node_a");
    assert_eq!(out.nodes[1].id, "node_b");
    assert_eq!(out.nodes[2].id, "node_c");
    assert_eq!(out.nodes[0].name, "A");
    assert_eq!(out.nodes[1].name, "B");
    assert_eq!(out.nodes[2].name, "C");
    assert_eq!(out.nodes[0].color.r, 255);
    assert_eq!(out.nodes[1].color.g, 255);
    assert_eq!(out.edges.len(), 2);
    assert_eq!(out.edges[0].source_id, "node_a");
    assert_eq!(out.edges[0].dest_id, "node_b");
    assert_eq!(out.edges[1].source_id, "node_a");
    assert_eq!(out.edges[1].dest_id, "node_c");
}

#[test]
fn single_node_converges_immediately() {
    let g = Graph { nodes: vec![node("only", "Only", 42, -7)], edges: Vec::new() };
    let (out, status) = layout(g, 1000, 1000, 500, 5);
    assert_eq!(status, LayoutStatus::Converged);
    assert_eq!(out.nodes.len(), 1);
    assert_eq!(out.nodes[0].x, 42);
    assert_eq!(out.nodes[0].y, -7);
}

#[test]
fn empty_graph_converges_immediately() {
    let g = Graph { nodes: Vec::new(), edges: Vec::new() };
    let (out, status) = layout(g, 1000, 1000, 100, 3);
    assert_eq!(status, LayoutStatus::Converged);
    assert_eq!(out.nodes.len(), 0);
    assert_eq!(out.edges.len(), 0);
}

#[test]
fn zero_iteration_budget_reports_the_limit() {
    let g = Graph { nodes: vec![node("only", "Only", 1, 2)], edges: Vec::new() };
    let (out, status) = layout(g, 1000, 1000, 100, 0);
    assert_eq!(status, LayoutStatus::IterationLimit);
    assert_eq!(out.nodes[0].x, 1);
    assert_eq!(out.nodes[0].y, 2);
}

#[test]
fn repelling_pair_with_large_step_never_converges() {
    // Two disconnected nodes only repel each other, and the step stays
    // above the convergence threshold until a position leaves the working
    // range: the run must not report convergence.
    let g = Graph {
        nodes: vec![node("a", "A", -60000, 0), node("b", "B", 60000, 0)],
        edges: Vec::new(),
    };
    let (_out, status) = layout(g, 4096, 4096, 8192, 50);
    assert_eq!(status, LayoutStatus::OutOfRange);
}

#[test]
fn identical_runs_give_identical_positions() {
    let (out1, status1) = layout(sample_graph(), 1000, 1000, 100, 200);
    let (out2, status2) = layout(sample_graph(), 1000, 1000, 100, 200);
    assert_eq!(status1, status2);
    assert_eq!(out1.nodes.len(), out2.nodes.len());
    for (n1, n2) in out1.nodes.iter().zip(out2.nodes.iter()) {
        assert_eq!(n1.x, n2.x);
        assert_eq!(n1.y, n2.y);
    }
}
