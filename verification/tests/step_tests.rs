use graph_layout::{build_adjacency, layout_step, Color, Edge, Graph, Node};

fn node(id: &str, x: i64, y: i64) -> Node {
    Node {
        id: String::from(id),
        name: String::from(id),
        color: Color { r: 0, g: 0, b: 0 },
        x,
        y,
    }
}

fn edge(source: &str, dest: &str) -> Edge {
    Edge { source_id: String::from(source), dest_id: String::from(dest) }
}

#[test]
fn adjacency_keeps_edge_order_and_duplicates() {
    let g = Graph {
        nodes: vec![node("a", 0, 0), node("b", 10, 0)],
        edges: vec![edge("a", "b"), edge("a", "b"), edge("b", "a")],
    };
    let adj = build_adjacency(&g);
    assert_eq!(adj.len(), 2);
    assert_eq!(adj[0], vec![1, 1]);
    assert_eq!(adj[1], vec![0]);
}

#[test]
fn attraction_dominated_source_steps_toward_its_successor() {
    // Nodes 3000 apart with one edge; the attractive term (9000) exceeds
    // the repulsive term (111), so the source moves `step` units toward
    // the successor, while the successor is only repelled and moves away.
    let g = Graph {
        nodes: vec![node("a", 0, 0), node("b", 3000, 0)],
        edges: vec![edge("a", "b")],
    };
    let adj = build_adjacency(&g);
    let pos = vec![(0, 0), (3000, 0)];
    let (new_pos, energy) = layout_step(&pos, &adj, 1000, 1000, 100);
    assert_eq!(new_pos, vec![(100, 0), (3100, 0)]);
    // energy: (9000 - 111)^2 + 111^2
    assert_eq!(energy, 8889u128 * 8889 + 111 * 111);
}

#[test]
fn pure_repulsion_pushes_both_nodes_apart() {
    let g = Graph {
        nodes: vec![node("a", 0, 0), node("b", 100, 0)],
        edges: Vec::new(),
    };
    let adj = build_adjacency(&g);
    let pos = vec![(0, 0), (100, 0)];
    let (new_pos, energy) = layout_step(&pos, &adj, 1000, 1000, 50);
    assert_eq!(new_pos, vec![(-50, 0), (150, 0)]);
    // each node feels a repulsive force of 1000^3 / 100^2 = 100000
    assert_eq!(energy, 100000u128 * 100000 * 2);
}

#[test]
fn coincident_nodes_exert_no_force_on_each_other() {
    let g = Graph {
        nodes: vec![node("a", 5, 5), node("b", 5, 5)],
        edges: Vec::new(),
    };
    let adj = build_adjacency(&g);
    let pos = vec![(5, 5), (5, 5)];
    let (new_pos, energy) = layout_step(&pos, &adj, 1000, 1000, 50);
    assert_eq!(new_pos, vec![(5, 5), (5, 5)]);
    assert_eq!(energy, 0);
}

#[test]
fn energy_settles_near_the_fixed_point() {
    // One edge, nodes one spring length apart: the source's terms cancel
    // and only the successor still feels a push. Across the following
    // iterations the energy never rises, trending to a stable value.
    let g = Graph {
        nodes: vec![node("a", 0, 0), node("b", 1000, 0)],
        edges: vec![edge("a", "b")],
    };
    let adj = build_adjacency(&g);
    let mut pos = vec![(0, 0), (1000, 0)];
    let mut energies: Vec<u128> = Vec::new();
    for _ in 0..6 {
        let (new_pos, energy) = layout_step(&pos, &adj, 1000, 1000, 10);
        energies.push(energy);
        pos = new_pos;
    }
    for k in 1..energies.len() {
        assert!(energies[k] <= energies[k - 1]);
    }
    assert_eq!(energies[0], 1000u128 * 1000);
    assert!(energies[5] < energies[0]);
}

#[test]
fn duplicate_edges_each_contribute_a_force_term() {
    let g = Graph {
        nodes: vec![node("a", 0, 0), node("b", 3000, 0)],
        edges: vec![edge("a", "b"), edge("a", "b")],
    };
    let adj = build_adjacency(&g);
    assert_eq!(adj[0], vec![1, 1]);
    let pos = vec![(0, 0), (3000, 0)];
    let (_new_pos, energy) = layout_step(&pos, &adj, 1000, 1000, 100);
    // the source feels the attractive term twice: 2 * 9000 - 111
    assert_eq!(energy, 17889u128 * 17889 + 111 * 111);
}
