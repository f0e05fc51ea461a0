//! The layout engine: the iterative minimization loop, its convergence
//! test, and the model of the whole run as a function of the start state.

use vstd::prelude::*;
use crate::adjacency::{adjacency_of, build_adjacency, lemma_successors_upto_range, successors};
use crate::controller::{improves, next_progress, next_step_length, option_view, update_step_length};
use crate::forces::{adj_view, energy_of, layout_step, pos_view, stepped};
use crate::graph::{
    Graph, Node, has_node_id, positions_of, same_topology, MAX_COORD, MAX_EDGES, MAX_NODES,
    MAX_PARAM, MAX_STEP,
};

verus! {

/// How a layout run ended.
#[derive(Clone, Copy, Debug, PartialEq, Eq, Structural)]
pub enum LayoutStatus {
    /// No node moved farther than the optimal spring length in the last
    /// iteration.
    Converged,
    /// The iteration budget ran out first.
    IterationLimit,
    /// A position or the adapted step length left the working range.
    OutOfRange,
}

/// Every position lies in the engine's working range.
pub open spec fn positions_in_range(pos: Seq<(int, int)>) -> bool {
    forall|i: int|
        0 <= i < pos.len() ==> -MAX_COORD <= (#[trigger] pos[i]).0 <= MAX_COORD && -MAX_COORD
            <= pos[i].1 <= MAX_COORD
}

/// Squared displacement of node `i` between two position snapshots.
pub open spec fn disp_sq(before: Seq<(int, int)>, after: Seq<(int, int)>, i: int) -> int {
    let dx = after[i].0 - before[i].0;
    let dy = after[i].1 - before[i].1;
    dx * dx + dy * dy
}

/// The convergence test: no node moved farther than `l` between the two
/// snapshots (compared on squared distances, which is exact).
pub open spec fn within_displacement(
    before: Seq<(int, int)>,
    after: Seq<(int, int)>,
    l: int,
) -> bool {
    forall|i: int| 0 <= i < before.len() ==> #[trigger] disp_sq(before, after, i) <= l * l
}

/// The whole iterative run as a function of the starting state: the final
/// positions and how the run ended. `fuel` is the remaining iteration
/// budget; `old_energy` is `None` before the first iteration. Each
/// iteration moves every node from the same frozen snapshot, adapts the
/// step length from the energy trend, then stops if converged, stops if a
/// value left the working range, and recurses otherwise.
pub open spec fn run_spec(
    pos: Seq<(int, int)>,
    adj: Seq<Seq<usize>>,
    l: int,
    c: int,
    step: int,
    progress: int,
    old_energy: Option<int>,
    fuel: nat,
) -> (Seq<(int, int)>, LayoutStatus)
    decreases fuel,
{
    if fuel == 0 {
        (pos, LayoutStatus::IterationLimit)
    } else {
        let new_pos = stepped(pos, adj, l, c, step);
        let e = energy_of(pos, adj, l, c);
        let imp = improves(e, old_energy);
        let prog2 = next_progress(progress, imp);
        let s2 = next_step_length(step, progress, imp);
        if within_displacement(pos, new_pos, l) {
            (new_pos, LayoutStatus::Converged)
        } else if !positions_in_range(new_pos) || s2 > MAX_STEP {
            (new_pos, LayoutStatus::OutOfRange)
        } else {
            run_spec(new_pos, adj, l, c, s2, prog2, Option::Some(e), (fuel - 1) as nat)
        }
    }
}

/// True when every position lies within the working range.
#[verifier::loop_isolation(false)]
fn check_in_range(pos: &Vec<(i64, i64)>) -> (r: bool)
    ensures
        r == positions_in_range(pos_view(pos@)),
{
    let n = pos.len();
    let mut i: usize = 0;
    while i < n
        invariant
            i <= n,
            forall|t: int|
                0 <= t < i ==> -MAX_COORD <= (#[trigger] pos@[t]).0 <= MAX_COORD && -MAX_COORD
                    <= pos@[t].1 <= MAX_COORD,
        decreases n - i,
    {
        let p = pos[i];
        if p.0 < -MAX_COORD || p.0 > MAX_COORD || p.1 < -MAX_COORD || p.1 > MAX_COORD {
            proof {
                assert(pos_view(pos@)[i as int] == (pos@[i as int].0 as int, pos@[i as int].1 as int));
            }
            return false;
        }
        i = i + 1;
    }
    proof {
        assert forall|t: int| 0 <= t < pos_view(pos@).len() implies -MAX_COORD <= (
        #[trigger] pos_view(pos@)[t]).0 <= MAX_COORD && -MAX_COORD <= pos_view(pos@)[t].1
            <= MAX_COORD by {
            assert(pos_view(pos@)[t] == (pos@[t].0 as int, pos@[t].1 as int));
        }
    }
    true
}

/// True when no node moved farther than `l` between the two snapshots.
#[verifier::loop_isolation(false)]
fn check_within_displacement(before: &Vec<(i64, i64)>, after: &Vec<(i64, i64)>, l: i64) -> (r: bool)
    requires
        after@.len() == before@.len(),
        forall|t: int|
            0 <= t < before@.len() ==> -131072 <= (#[trigger] before@[t]).0 <= 131072 && -131072
                <= before@[t].1 <= 131072,
        forall|t: int|
            0 <= t < after@.len() ==> -131072 <= (#[trigger] after@[t]).0 <= 131072 && -131072
                <= after@[t].1 <= 131072,
        1 <= l <= MAX_PARAM,
    ensures
        r == within_displacement(pos_view(before@), pos_view(after@), l as int),
{
    let ghost bv = pos_view(before@);
    let ghost av = pos_view(after@);
    let n = before.len();
    let mut i: usize = 0;
    while i < n
        invariant
            i <= n,
            forall|t: int| 0 <= t < i ==> #[trigger] disp_sq(bv, av, t) <= (l as int) * (l as int),
        decreases n - i,
    {
        let dx = after[i].0 - before[i].0;
        let dy = after[i].1 - before[i].1;
        let dxl = dx as i128;
        let dyl = dy as i128;
        proof {
            assert(0 <= dxl * dxl <= 68719476736 && 0 <= dyl * dyl <= 68719476736)
                by (nonlinear_arith)
                requires
                    -262144 <= dxl <= 262144 && -262144 <= dyl <= 262144,
            ;
            assert(0 < (l as i128) as int * ((l as i128) as int) <= 16777216) by (nonlinear_arith)
                requires
                    1 <= (l as i128) as int <= 4096,
            ;
        }
        let dsq = dxl * dxl + dyl * dyl;
        let lsq = (l as i128) * (l as i128);
        proof {
            assert(bv[i as int] == (before@[i as int].0 as int, before@[i as int].1 as int));
            assert(av[i as int] == (after@[i as int].0 as int, after@[i as int].1 as int));
            assert(disp_sq(bv, av, i as int) == dsq as int);
        }
        if dsq > lsq {
            return false;
        }
        i = i + 1;
    }
    true
}

/// Lays out the graph by iterative energy minimization: the adjacency
/// index is built once, then every iteration computes forces and energy
/// for all nodes from the same frozen snapshot, moves each node
/// `step_length` units along its net force, adapts the step length from
/// the energy trend, and stops once no node moved farther than
/// `optimal_spring_length` (convergence), the iteration budget is spent,
/// or a value left the working range. Returns a graph with the same
/// nodes and edges and updated positions, together with how the run ended.
#[verifier::loop_isolation(false)]
pub fn layout(
    graph: Graph,
    optimal_spring_length: i64,
    force_strength: i64,
    initial_step_length: i64,
    max_iterations: usize,
) -> (r: (Graph, LayoutStatus))
    requires
        graph.wf(),
        graph.sized_ok(),
        graph.in_bounds(),
        1 <= optimal_spring_length <= MAX_PARAM,
        1 <= force_strength <= MAX_PARAM,
        1 <= initial_step_length <= MAX_STEP,
    ensures
        same_topology(r.0, graph),
        (positions_of(r.0.nodes@), r.1) == run_spec(
            positions_of(graph.nodes@),
            adjacency_of(graph),
            optimal_spring_length as int,
            force_strength as int,
            initial_step_length as int,
            0,
            Option::None,
            max_iterations as nat,
        ),
{
    let l = optimal_spring_length;
    let c = force_strength;
    let adj = build_adjacency(&graph);
    proof {
        assert(adj_view(adj@) =~= adjacency_of(graph));
        assert forall|e: int|
            0 <= e < graph.edges@.len() implies #[trigger] has_node_id(
            graph.nodes@,
            graph.edges@[e].dest_id@,
        ) by {
            assert(has_node_id(graph.nodes@, (graph.edges[e]).source_id@) && has_node_id(
                graph.nodes@,
                graph.edges[e].dest_id@,
            ));
        }
        assert forall|i2: int| 0 <= i2 < adj@.len() implies (#[trigger] adj@[i2])@.len()
            <= MAX_EDGES && forall|m: int|
            0 <= m < adj@[i2]@.len() ==> (#[trigger] adj@[i2]@[m] as int) < graph.nodes@.len() by {
            lemma_successors_upto_range(
                graph.nodes@,
                graph.edges@,
                i2,
                graph.edges@.len() as int,
            );
            assert(adj@[i2]@ == successors(graph, i2));
        }
    }
    let ghost gadj = adjacency_of(graph);
    let n = graph.nodes.len();
    let mut pos: Vec<(i64, i64)> = Vec::new();
    let mut i: usize = 0;
    while i < n
        invariant
            i <= n,
            pos@.len() == i,
            forall|t: int|
                0 <= t < i ==> #[trigger] pos@[t] == (graph.nodes@[t].x, graph.nodes@[t].y),
        decreases n - i,
    {
        pos.push((graph.nodes[i].x, graph.nodes[i].y));
        i = i + 1;
    }
    proof {
        assert(pos_view(pos@) =~= positions_of(graph.nodes@));
        assert forall|t: int| 0 <= t < pos@.len() implies -MAX_COORD <= (#[trigger] pos@[t]).0
            <= MAX_COORD && -MAX_COORD <= pos@[t].1 <= MAX_COORD by {
            assert(pos@[t] == (graph.nodes@[t].x, graph.nodes@[t].y));
            assert(-MAX_COORD <= graph.nodes@[t].x <= MAX_COORD && -MAX_COORD <= graph.nodes@[t].y
                <= MAX_COORD);
        }
    }
    let ghost orig = pos_view(pos@);
    let mut step = initial_step_length;
    let mut progress: i64 = 0;
    let mut old_energy: Option<u128> = Option::None;
    let mut iter: usize = 0;
    let mut status = LayoutStatus::IterationLimit;
    let mut done = false;
    while !done && iter < max_iterations
        invariant
            iter <= max_iterations,
            pos@.len() == n,
            !done ==> 0 <= step <= MAX_STEP,
            !done ==> 0 <= progress < 5,
            !done ==> forall|t: int|
                0 <= t < pos@.len() ==> -MAX_COORD <= (#[trigger] pos@[t]).0 <= MAX_COORD
                    && -MAX_COORD <= pos@[t].1 <= MAX_COORD,
            !done ==> status == LayoutStatus::IterationLimit,
            !done ==> run_spec(
                orig,
                gadj,
                l as int,
                c as int,
                initial_step_length as int,
                0,
                Option::None,
                max_iterations as nat,
            ) == run_spec(
                pos_view(pos@),
                gadj,
                l as int,
                c as int,
                step as int,
                progress as int,
                option_view(old_energy),
                (max_iterations - iter) as nat,
            ),
            done ==> run_spec(
                orig,
                gadj,
                l as int,
                c as int,
                initial_step_length as int,
                0,
                Option::None,
                max_iterations as nat,
            ) == (pos_view(pos@), status),
        decreases max_iterations - iter, (if done { 0int } else { 1int }),
    {
        let ghost cur = pos_view(pos@);
        let ghost fuel = (max_iterations - iter) as nat;
        let ghost prog0 = progress as int;
        let ghost oe0 = option_view(old_energy);
        let r = layout_step(&pos, &adj, l, c, step);
        let new_pos = r.0;
        let energy = r.1;
        let new_step = update_step_length(step, energy, old_energy, &mut progress);
        let conv = check_within_displacement(&pos, &new_pos, l);
        proof {
            assert(fuel > 0);
            assert(pos_view(new_pos@) == stepped(cur, gadj, l as int, c as int, step as int));
            assert(energy as int == energy_of(cur, gadj, l as int, c as int));
        }
        if conv {
            pos = new_pos;
            status = LayoutStatus::Converged;
            done = true;
            proof {
                assert(run_spec(cur, gadj, l as int, c as int, step as int, prog0, oe0, fuel) == (
                pos_view(pos@),
                LayoutStatus::Converged,
                ));
            }
        } else {
            let ok = check_in_range(&new_pos);
            if !ok || new_step > MAX_STEP {
                pos = new_pos;
                status = LayoutStatus::OutOfRange;
                done = true;
                proof {
                    assert(run_spec(cur, gadj, l as int, c as int, step as int, prog0, oe0, fuel)
                        == (pos_view(pos@), LayoutStatus::OutOfRange));
                }
            } else {
                proof {
                    assert(positions_in_range(pos_view(new_pos@)));
                    assert forall|t: int|
                        0 <= t < new_pos@.len() implies -MAX_COORD <= (#[trigger] new_pos@[t]).0
                        <= MAX_COORD && -MAX_COORD <= new_pos@[t].1 <= MAX_COORD by {
                        assert(pos_view(new_pos@)[t] == (
                            new_pos@[t].0 as int,
                            new_pos@[t].1 as int,
                        ));
                    }
                    assert(run_spec(cur, gadj, l as int, c as int, step as int, prog0, oe0, fuel)
                        == run_spec(
                        pos_view(new_pos@),
                        gadj,
                        l as int,
                        c as int,
                        new_step as int,
                        progress as int,
                        Option::Some(energy as int),
                        (fuel - 1) as nat,
                    ));
                }
                pos = new_pos;
                step = new_step;
                old_energy = Option::Some(energy);
                iter = iter + 1;
            }
        }
    }
    proof {
        if !done {
            assert(max_iterations - iter == 0);
            assert(run_spec(
                pos_view(pos@),
                gadj,
                l as int,
                c as int,
                step as int,
                progress as int,
                option_view(old_energy),
                0,
            ) == (pos_view(pos@), LayoutStatus::IterationLimit));
        }
    }
    let mut new_nodes: Vec<Node> = Vec::new();
    let mut k: usize = 0;
    while k < n
        invariant
            k <= n,
            n == graph.nodes@.len(),
            pos@.len() == n,
            new_nodes@.len() == k,
            forall|t: int|
                0 <= t < k ==> (#[trigger] new_nodes@[t]).id == graph.nodes@[t].id
                    && new_nodes@[t].name == graph.nodes@[t].name && new_nodes@[t].color
                    == graph.nodes@[t].color && new_nodes@[t].x == pos@[t].0 && new_nodes@[t].y
                    == pos@[t].1,
        decreases n - k,
    {
        let node = Node {
            id: graph.nodes[k].id.clone(),
            name: graph.nodes[k].name.clone(),
            color: graph.nodes[k].color,
            x: pos[k].0,
            y: pos[k].1,
        };
        new_nodes.push(node);
        k = k + 1;
    }
    let out = Graph { nodes: new_nodes, edges: graph.edges };
    proof {
        assert(positions_of(out.nodes@) =~= pos_view(pos@));
    }
    (out, status)
}

} // verus!
