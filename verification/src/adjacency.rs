//! The adjacency index: a precomputed map from each node to the ordered
//! list of its direct successors, used by the attractive-force pass.

use vstd::prelude::*;
use crate::graph::{Edge, Graph, Node, find_node, has_node_id, ids_unique, node_index};

verus! {

/// Successor indices of node `i` drawn from the first `k` edges, in edge
/// order, duplicates kept (one entry per duplicate edge).
pub open spec fn successors_upto(nodes: Seq<Node>, edges: Seq<Edge>, i: int, k: int) -> Seq<usize>
    decreases k,
{
    if k <= 0 {
        Seq::empty()
    } else {
        let pre = successors_upto(nodes, edges, i, k - 1);
        if edges[k - 1].source_id@ == nodes[i].id@ {
            pre.push(node_index(nodes, edges[k - 1].dest_id@) as usize)
        } else {
            pre
        }
    }
}

/// All successor indices of node `i`: the targets of its outgoing edges.
pub open spec fn successors(g: Graph, i: int) -> Seq<usize> {
    successors_upto(g.nodes@, g.edges@, i, g.edges@.len() as int)
}

/// The full adjacency index: one successor list per node.
pub open spec fn adjacency_of(g: Graph) -> Seq<Seq<usize>> {
    Seq::new(g.nodes@.len(), |i: int| successors(g, i))
}

/// Successor lists never grow past the edge count, and under resolving
/// edges every entry indexes a node.
pub proof fn lemma_successors_upto_range(nodes: Seq<Node>, edges: Seq<Edge>, i: int, k: int)
    requires
        0 <= k <= edges.len(),
        forall|e: int|
            0 <= e < edges.len() ==> #[trigger] has_node_id(nodes, edges[e].dest_id@),
    ensures
        successors_upto(nodes, edges, i, k).len() <= k,
        forall|m: int|
            0 <= m < successors_upto(nodes, edges, i, k).len()
                ==> 0 <= #[trigger] (successors_upto(nodes, edges, i, k)[m] as int) < nodes.len(),
    decreases k,
{
    if k > 0 {
        lemma_successors_upto_range(nodes, edges, i, k - 1);
        if edges[k - 1].source_id@ == nodes[i].id@ {
            let w = node_index(nodes, edges[k - 1].dest_id@);
            assert(has_node_id(nodes, edges[k - 1].dest_id@));
            assert(0 <= w < nodes.len());
        }
    }
}

/// Builds the adjacency index once per layout run: for each node, the
/// ordered list of indices of the nodes it has an outgoing edge to.
pub fn build_adjacency(g: &Graph) -> (adj: Vec<Vec<usize>>)
    requires
        g.wf(),
    ensures
        adj@.len() == g.nodes@.len(),
        forall|i: int| 0 <= i < adj@.len() ==> #[trigger] adj@[i]@ == successors(*g, i),
{
    let n = g.nodes.len();
    let mut adj: Vec<Vec<usize>> = Vec::new();
    let mut i: usize = 0;
    while i < n
        invariant
            i <= n,
            n == g.nodes@.len(),
            g.wf(),
            adj@.len() == i,
            forall|t: int| 0 <= t < i ==> #[trigger] adj@[t]@ == successors(*g, t),
        decreases n - i,
    {
        let mut row: Vec<usize> = Vec::new();
        let m = g.edges.len();
        let mut k: usize = 0;
        while k < m
            invariant
                k <= m,
                m == g.edges@.len(),
                i < n,
                n == g.nodes@.len(),
                g.wf(),
                row@ == successors_upto(g.nodes@, g.edges@, i as int, k as int),
            decreases m - k,
        {
            if g.edges[k].source_id == g.nodes[i].id {
                match find_node(&g.nodes, &g.edges[k].dest_id) {
                    Some(d) => {
                        row.push(d);
                    },
                    None => {
                        proof {
                            assert(g.edges_resolve());
                            assert(has_node_id(g.nodes@, g.edges[k as int].source_id@)
                                && has_node_id(g.nodes@, g.edges[k as int].dest_id@));
                            assert(false);
                        }
                    },
                }
            }
            k = k + 1;
        }
        adj.push(row);
        proof {
            assert(adj@[i as int]@ == successors(*g, i as int));
        }
        i = i + 1;
    }
    adj
}

} // verus!
