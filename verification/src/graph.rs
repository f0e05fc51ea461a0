//! Graph data model: nodes with fixed-point integer coordinates, directed
//! edges between node identifiers, and the well-formedness conditions the
//! layout engine relies on.

use vstd::prelude::*;

verus! {

/// Largest node count the engine accepts in one run.
pub const MAX_NODES: usize = 1024;

/// Largest edge count the engine accepts in one run.
pub const MAX_EDGES: usize = 4096;

/// Coordinates must lie in `[-MAX_COORD, MAX_COORD]` while iterating.
pub const MAX_COORD: i64 = 65536;

/// Largest value accepted for the spring length and the force strength.
pub const MAX_PARAM: i64 = 4096;

/// Largest step length, whether supplied or reached by adaptation.
pub const MAX_STEP: i64 = 65536;

/// Cosmetic node colour; carried through a layout run unchanged.
#[derive(Clone, Copy, Debug)]
pub struct Color {
    pub r: u8,
    pub g: u8,
    pub b: u8,
}

/// A vertex: stable identifier, display name, colour, and a mutable
/// position in fixed-point units. The engine only ever changes `x` and `y`.
#[derive(Debug)]
pub struct Node {
    pub id: String,
    pub name: String,
    pub color: Color,
    pub x: i64,
    pub y: i64,
}

/// A directed edge between two node identifiers.
#[derive(Debug)]
pub struct Edge {
    pub source_id: String,
    pub dest_id: String,
}

/// An ordered sequence of nodes and an ordered sequence of edges.
#[derive(Debug)]
pub struct Graph {
    pub nodes: Vec<Node>,
    pub edges: Vec<Edge>,
}

/// Some node of `nodes` carries the identifier `id`.
pub open spec fn has_node_id(nodes: Seq<Node>, id: Seq<char>) -> bool {
    exists|i: int| 0 <= i < nodes.len() && nodes[i].id@ == id
}

/// The index of the node carrying `id` (unique when identifiers are unique).
pub open spec fn node_index(nodes: Seq<Node>, id: Seq<char>) -> int {
    choose|i: int| 0 <= i < nodes.len() && nodes[i].id@ == id
}

/// Node identifiers are pairwise distinct.
pub open spec fn ids_unique(nodes: Seq<Node>) -> bool {
    forall|i: int, j: int|
        0 <= i < j < nodes.len() ==> nodes[i].id@ != nodes[j].id@
}

impl Graph {
    /// Every edge endpoint names a node present in the graph.
    pub open spec fn edges_resolve(self) -> bool {
        forall|k: int|
            0 <= k < self.edges.len() ==> has_node_id(
                self.nodes@,
                (#[trigger] self.edges[k]).source_id@,
            ) && has_node_id(self.nodes@, self.edges[k].dest_id@)
    }

    /// The data-model invariants: unique identifiers, resolving edges.
    pub open spec fn wf(self) -> bool {
        ids_unique(self.nodes@) && self.edges_resolve()
    }

    /// Within the size budget of the engine.
    pub open spec fn sized_ok(self) -> bool {
        self.nodes.len() <= MAX_NODES && self.edges.len() <= MAX_EDGES
    }

    /// All node coordinates lie in the working range.
    pub open spec fn in_bounds(self) -> bool {
        forall|i: int|
            0 <= i < self.nodes.len() ==> -MAX_COORD <= #[trigger] self.nodes[i].x <= MAX_COORD
                && -MAX_COORD <= self.nodes[i].y <= MAX_COORD
    }
}

/// The two graphs agree on every node identifier, name and colour, and on
/// their whole edge sequence; only positions may differ.
pub open spec fn same_topology(a: Graph, b: Graph) -> bool {
    &&& a.nodes.len() == b.nodes.len()
    &&& forall|i: int|
        0 <= i < a.nodes.len() ==> #[trigger] a.nodes[i].id == b.nodes[i].id
            && a.nodes[i].name == b.nodes[i].name && a.nodes[i].color == b.nodes[i].color
    &&& a.edges@ == b.edges@
}

/// The positions of `nodes`, as a sequence of integer pairs.
pub open spec fn positions_of(nodes: Seq<Node>) -> Seq<(int, int)> {
    Seq::new(nodes.len(), |i: int| (nodes[i].x as int, nodes[i].y as int))
}

impl Clone for Node {
    /// An exact copy.
    fn clone(&self) -> (r: Node)
        ensures
            r == *self,
    {
        Node {
            id: self.id.clone(),
            name: self.name.clone(),
            color: self.color,
            x: self.x,
            y: self.y,
        }
    }
}

impl Clone for Edge {
    /// An exact copy.
    fn clone(&self) -> (r: Edge)
        ensures
            r == *self,
    {
        Edge { source_id: self.source_id.clone(), dest_id: self.dest_id.clone() }
    }
}

/// First index whose node carries `id`, scanning front to back.
pub fn find_node(nodes: &Vec<Node>, id: &String) -> (r: Option<usize>)
    ensures
        match r {
            Some(i) => i < nodes.len() && nodes[i as int].id@ == id@ && (ids_unique(nodes@)
                ==> i as int == node_index(nodes@, id@)),
            None => !has_node_id(nodes@, id@),
        },
{
    let n = nodes.len();
    let mut i: usize = 0;
    while i < n
        invariant
            i <= n,
            n == nodes.len(),
            forall|j: int| 0 <= j < i ==> nodes[j].id@ != id@,
        decreases n - i,
    {
        if nodes[i].id == *id {
            proof {
                if ids_unique(nodes@) {
                    let w = node_index(nodes@, id@);
                    assert(0 <= w < nodes.len() && nodes[w].id@ == id@);
                }
            }
            return Some(i);
        }
        i = i + 1;
    }
    None
}

} // verus!
