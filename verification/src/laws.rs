//! Properties of the engine, stated and proved against the run model:
//! immediate convergence of a single node, the direction of motion in
//! two-node systems, the step-length adaptation pattern, and determinism.

use vstd::prelude::*;
use vstd::arithmetic::div_mod::{
    lemma_div_by_self, lemma_div_is_ordered, lemma_div_multiples_vanish,
    lemma_div_multiples_vanish_quotient, lemma_div_of0, lemma_div_pos_is_pos,
};
use vstd::arithmetic::mul::{lemma_mul_is_associative, lemma_mul_is_commutative};
use crate::adjacency::{adjacency_of, successors, successors_upto};
use crate::controller::{next_progress, next_step_length};
use crate::engine::{disp_sq, run_spec, within_displacement, LayoutStatus};
use crate::forces::{
    attr_sum_x, attr_sum_y, attr_x, attr_y, energy_of, force_x, force_y, new_pos_at, rep_sum_x,
    rep_sum_y, rep_x, rep_y, shift_x, shift_y, stepped,
};
use crate::graph::{has_node_id, ids_unique, node_index, positions_of, Edge, Graph, Node};
use crate::math::{is_sqrt_floor, lemma_sqrt_floor_unique, mul_div, sqrt_floor};

verus! {

/// The rounded-down square root of a perfect square is its root.
pub proof fn lemma_sqrt_of_square(d: int)
    requires
        0 <= d,
    ensures
        sqrt_floor(d * d) == d,
{
    assert(d * d < (d + 1) * (d + 1)) by (nonlinear_arith)
        requires
            0 <= d,
    ;
    lemma_sqrt_floor_unique(d * d, d);
}

/// A node whose net force lies on the horizontal axis moves exactly `step`
/// units along that axis, in the force's direction.
pub proof fn lemma_axis_shift(fx: int, step: int)
    requires
        fx != 0,
        0 <= step,
    ensures
        shift_x(fx, 0, step) == (if fx > 0 { step } else { -step }),
        shift_y(fx, 0, step) == 0,
{
    let a = if fx >= 0 { fx } else { -fx };
    assert(a * a == fx * fx && 0 * 0 == 0) by (nonlinear_arith)
        requires
            a == (if fx >= 0 { fx } else { -fx }),
    ;
    lemma_sqrt_of_square(a);
    assert(sqrt_floor(fx * fx + 0 * 0) == a);
    if fx > 0 {
        lemma_div_multiples_vanish(step, fx);
        lemma_mul_is_commutative(step, fx);
        assert(mul_div(step, fx, a) == step);
    } else {
        lemma_div_multiples_vanish(step, -fx);
        lemma_mul_is_commutative(step, -fx);
        assert(mul_div(step, fx, a) == -step);
    }
    assert(step * 0 == 0);
    lemma_div_of0(a);
    assert(mul_div(step, 0, a) == 0);
}

/// The exact attractive and repulsive terms between two nodes on one
/// horizontal line, `d = bx - ax > 0` apart: attraction pulls the left
/// node right by `d^2 / l`, repulsion pushes it left by `c * l^2 / d^2`,
/// and the mirrored terms act on the right node; nothing acts vertically.
pub proof fn lemma_pair_forces(ax: int, bx: int, y: int, l: int, c: int)
    requires
        ax < bx,
        1 <= l,
        1 <= c,
    ensures
        attr_x(ax, y, bx, y, l) == (bx - ax) * (bx - ax) / l,
        attr_y(ax, y, bx, y, l) == 0,
        rep_x(ax, y, bx, y, l, c) == -(c * l * l / ((bx - ax) * (bx - ax))),
        rep_y(ax, y, bx, y, l, c) == 0,
        rep_x(bx, y, ax, y, l, c) == c * l * l / ((bx - ax) * (bx - ax)),
        rep_y(bx, y, ax, y, l, c) == 0,
{
    let d = bx - ax;
    let dsq = d * d;
    assert(dsq == d * d + 0 * 0);
    lemma_sqrt_of_square(d);
    assert(sqrt_floor(dsq) == d);
    let cll = c * l * l;
    assert(1 <= cll && 0 < dsq) by (nonlinear_arith)
        requires
            1 <= l && 1 <= c && cll == c * l * l && 1 <= d && dsq == d * d,
    ;
    // attraction on the left node: (dsq * d) / (l * d) == dsq / l
    lemma_div_multiples_vanish_quotient(d, dsq, l);
    lemma_mul_is_commutative(d, dsq);
    lemma_mul_is_commutative(d, l);
    assert(mul_div(dsq, d, l * d) == dsq / l);
    // repulsion between the two: (cll * d) / (dsq * d) == cll / dsq
    lemma_div_multiples_vanish_quotient(d, cll, dsq);
    lemma_mul_is_commutative(d, cll);
    lemma_mul_is_commutative(d, dsq);
    assert((cll * d) / (dsq * d) == cll / dsq);
    assert(mul_div(cll, -(-d), dsq * d) == cll / dsq);
    // vertical terms vanish
    assert(dsq * 0 == 0 && cll * 0 == 0);
    lemma_div_of0(l * d);
    lemma_div_of0(dsq * d);
    assert(mul_div(dsq, 0, l * d) == 0);
    assert(mul_div(cll, 0, dsq * d) == 0);
    // the mirrored distance gives the same squared distance
    assert((ax - bx) * (ax - bx) == dsq) by (nonlinear_arith)
        requires
            dsq == (bx - ax) * (bx - ax),
    ;
    assert(rep_x(ax, y, bx, y, l, c) == -(cll / dsq));
    assert(rep_x(bx, y, ax, y, l, c) == cll / dsq);
}

/// A graph of one node converges on the first iteration with the node kept
/// at its original position: with no successor and no other node both
/// force sums are empty, so the displacement is zero.
pub proof fn lemma_single_node_converges(
    pos: Seq<(int, int)>,
    adj: Seq<Seq<usize>>,
    l: int,
    c: int,
    step: int,
    progress: int,
    old_energy: Option<int>,
    fuel: nat,
)
    requires
        pos.len() == 1,
        adj.len() == 1,
        adj[0].len() == 0,
        1 <= l,
        1 <= fuel,
    ensures
        run_spec(pos, adj, l, c, step, progress, old_energy, fuel) == (
            pos,
            LayoutStatus::Converged,
        ),
{
    assert(attr_sum_x(pos, pos[0].0, pos[0].1, adj[0], l) == 0);
    assert(attr_sum_y(pos, pos[0].0, pos[0].1, adj[0], l) == 0);
    assert(rep_sum_x(pos, 0, 0, l, c) == 0);
    assert(rep_sum_x(pos, 0, 1, l, c) == 0);
    assert(rep_sum_y(pos, 0, 0, l, c) == 0);
    assert(rep_sum_y(pos, 0, 1, l, c) == 0);
    assert(force_x(pos, adj[0], 0, l, c) == 0);
    assert(force_y(pos, adj[0], 0, l, c) == 0);
    assert(is_sqrt_floor(0, 0));
    lemma_sqrt_floor_unique(0, 0);
    assert(shift_x(0, 0, step) == 0 && shift_y(0, 0, step) == 0);
    let new_pos = stepped(pos, adj, l, c, step);
    assert(new_pos[0] == pos[0]);
    assert(new_pos =~= pos);
    assert(disp_sq(pos, new_pos, 0) == 0);
    assert(0 <= l * l) by (nonlinear_arith)
        requires
            1 <= l,
    ;
    assert(within_displacement(pos, new_pos, l));
}

/// A whole graph of one node and no edges converges on the first
/// iteration of `layout`, the node kept at its original position.
pub proof fn lemma_single_node_graph_converges(g: Graph, l: int, c: int, step: int, fuel: nat)
    requires
        g.nodes@.len() == 1,
        g.edges@.len() == 0,
        1 <= l,
        1 <= fuel,
    ensures
        run_spec(
            positions_of(g.nodes@),
            adjacency_of(g),
            l,
            c,
            step,
            0,
            Option::None,
            fuel,
        ) == (positions_of(g.nodes@), LayoutStatus::Converged),
{
    assert(adjacency_of(g).len() == 1);
    assert(adjacency_of(g)[0] == successors(g, 0));
    assert(successors(g, 0) =~= Seq::<usize>::empty());
    assert(positions_of(g.nodes@).len() == 1);
    lemma_single_node_converges(
        positions_of(g.nodes@),
        adjacency_of(g),
        l,
        c,
        step,
        0,
        Option::None,
        fuel,
    );
}

/// Pure repulsion drives two disconnected nodes apart: with no edges, two
/// nodes on one horizontal line and close enough that the truncated
/// repulsive term is still nonzero each move `step` units away from the
/// other, so their distance grows by `2 * step` in one iteration.
pub proof fn lemma_pure_repulsion_separates(
    ax: int,
    bx: int,
    y: int,
    l: int,
    c: int,
    step: int,
)
    requires
        ax < bx,
        1 <= l,
        1 <= c,
        1 <= step,
        (bx - ax) * (bx - ax) <= c * l * l,
    ensures
        ({
            let pos = seq![(ax, y), (bx, y)];
            let adj = seq![Seq::<usize>::empty(), Seq::<usize>::empty()];
            let new_pos = stepped(pos, adj, l, c, step);
            new_pos[0] == (ax - step, y) && new_pos[1] == (bx + step, y) && new_pos[1].0
                - new_pos[0].0 == (bx - ax) + 2 * step
        }),
{
    let pos = seq![(ax, y), (bx, y)];
    let adj = seq![Seq::<usize>::empty(), Seq::<usize>::empty()];
    let d = bx - ax;
    let dsq = d * d;
    let cll = c * l * l;
    lemma_pair_forces(ax, bx, y, l, c);
    let rep = cll / dsq;
    assert(0 < dsq) by (nonlinear_arith)
        requires
            1 <= d && dsq == d * d,
    ;
    lemma_div_by_self(dsq);
    lemma_div_is_ordered(dsq, cll, dsq);
    assert(1 <= rep);
    // the left node
    assert(pos[0] == (ax, y) && pos[1] == (bx, y));
    assert(attr_sum_x(pos, ax, y, adj[0], l) == 0 && attr_sum_y(pos, ax, y, adj[0], l) == 0);
    assert(rep_sum_x(pos, 0, 0, l, c) == 0 && rep_sum_y(pos, 0, 0, l, c) == 0);
    assert(rep_sum_x(pos, 0, 1, l, c) == 0 && rep_sum_y(pos, 0, 1, l, c) == 0);
    assert(rep_sum_x(pos, 0, 2, l, c) == rep_x(ax, y, bx, y, l, c));
    assert(rep_sum_y(pos, 0, 2, l, c) == rep_y(ax, y, bx, y, l, c));
    assert(force_x(pos, adj[0], 0, l, c) == -rep);
    assert(force_y(pos, adj[0], 0, l, c) == 0);
    lemma_axis_shift(-rep, step);
    assert(new_pos_at(pos, adj[0], 0, l, c, step) == (ax - step, y));
    // the right node
    assert(attr_sum_x(pos, bx, y, adj[1], l) == 0 && attr_sum_y(pos, bx, y, adj[1], l) == 0);
    assert(rep_sum_x(pos, 1, 0, l, c) == 0 && rep_sum_y(pos, 1, 0, l, c) == 0);
    assert(rep_sum_x(pos, 1, 1, l, c) == rep_x(bx, y, ax, y, l, c));
    assert(rep_sum_y(pos, 1, 1, l, c) == rep_y(bx, y, ax, y, l, c));
    assert(rep_sum_x(pos, 1, 2, l, c) == rep_x(bx, y, ax, y, l, c));
    assert(rep_sum_y(pos, 1, 2, l, c) == rep_y(bx, y, ax, y, l, c));
    assert(force_x(pos, adj[1], 1, l, c) == rep);
    assert(force_y(pos, adj[1], 1, l, c) == 0);
    lemma_axis_shift(rep, step);
    assert(new_pos_at(pos, adj[1], 1, l, c, step) == (bx + step, y));
    let new_pos = stepped(pos, adj, l, c, step);
    assert(new_pos[0] == (ax - step, y) && new_pos[1] == (bx + step, y));
}

/// When the truncated attractive pull exceeds the truncated repulsive
/// push, the source node of the single edge steps toward its successor,
/// ending strictly closer to where the successor stood.
pub proof fn lemma_attraction_moves_source(
    ax: int,
    bx: int,
    y: int,
    l: int,
    c: int,
    step: int,
)
    requires
        ax < bx,
        1 <= l,
        1 <= c,
        1 <= step <= bx - ax,
        (bx - ax) * (bx - ax) / l > c * l * l / ((bx - ax) * (bx - ax)),
    ensures
        ({
            let pos = seq![(ax, y), (bx, y)];
            let adj = seq![seq![1usize], Seq::<usize>::empty()];
            let new_pos = stepped(pos, adj, l, c, step);
            new_pos[0] == (ax + step, y) && bx - new_pos[0].0 < bx - ax
        }),
{
    let pos = seq![(ax, y), (bx, y)];
    let adj = seq![seq![1usize], Seq::<usize>::empty()];
    let d = bx - ax;
    let dsq = d * d;
    let cll = c * l * l;
    lemma_pair_forces(ax, bx, y, l, c);
    let attr = dsq / l;
    let rep = cll / dsq;
    assert(0 < dsq) by (nonlinear_arith)
        requires
            1 <= d && dsq == d * d,
    ;
    assert(1 <= cll) by (nonlinear_arith)
        requires
            1 <= l && 1 <= c && cll == c * l * l,
    ;
    lemma_div_pos_is_pos(cll, dsq);
    assert(0 <= rep);
    assert(pos[0] == (ax, y) && pos[1] == (bx, y));
    let row = adj[0];
    assert(row =~= seq![1usize]);
    assert(row.len() == 1 && row.last() == 1usize);
    assert(row.drop_last() =~= Seq::<usize>::empty());
    assert(attr_sum_x(pos, ax, y, row.drop_last(), l) == 0);
    assert(attr_sum_y(pos, ax, y, row.drop_last(), l) == 0);
    assert(attr_sum_x(pos, ax, y, row, l) == attr_x(ax, y, bx, y, l));
    assert(attr_sum_y(pos, ax, y, row, l) == attr_y(ax, y, bx, y, l));
    assert(rep_sum_x(pos, 0, 0, l, c) == 0 && rep_sum_y(pos, 0, 0, l, c) == 0);
    assert(rep_sum_x(pos, 0, 1, l, c) == 0 && rep_sum_y(pos, 0, 1, l, c) == 0);
    assert(rep_sum_x(pos, 0, 2, l, c) == rep_x(ax, y, bx, y, l, c));
    assert(rep_sum_y(pos, 0, 2, l, c) == rep_y(ax, y, bx, y, l, c));
    assert(force_x(pos, row, 0, l, c) == attr - rep);
    assert(force_y(pos, row, 0, l, c) == 0);
    assert(attr - rep > 0);
    lemma_axis_shift(attr - rep, step);
    assert(new_pos_at(pos, row, 0, l, c, step) == (ax + step, y));
    let new_pos = stepped(pos, adj, l, c, step);
    assert(new_pos[0] == (ax + step, y));
}

/// Five consecutive improving iterations, starting from a zero progress
/// counter, leave the step length unchanged four times and then grow it
/// exactly once (a truncating division by `9/10`), resetting the counter
/// to zero.
pub proof fn lemma_step_growth_after_five(s: int)
    ensures
        next_progress(0, true) == 1 && next_step_length(s, 0, true) == s,
        next_progress(1, true) == 2 && next_step_length(s, 1, true) == s,
        next_progress(2, true) == 3 && next_step_length(s, 2, true) == s,
        next_progress(3, true) == 4 && next_step_length(s, 3, true) == s,
        next_progress(4, true) == 0 && next_step_length(s, 4, true) == s * 10 / 9,
{
}

/// Any non-improving iteration resets the progress counter to zero and
/// shrinks the step length at once (a truncating multiplication by
/// `9/10`), whatever the counter held before.
pub proof fn lemma_step_shrink_on_regression(s: int, p: int)
    ensures
        next_progress(p, false) == 0,
        next_step_length(s, p, false) == s * 9 / 10,
{
}

/// Helper for determinism: graphs that agree on node identifiers and edge
/// endpoints (as character sequences) have the same successor lists.
proof fn lemma_successors_upto_congruent(
    n1: Seq<Node>,
    e1: Seq<Edge>,
    n2: Seq<Node>,
    e2: Seq<Edge>,
    i: int,
    k: int,
)
    requires
        n1.len() == n2.len(),
        forall|t: int| 0 <= t < n1.len() ==> (#[trigger] n1[t]).id@ == n2[t].id@,
        e1.len() == e2.len(),
        forall|t: int|
            0 <= t < e1.len() ==> (#[trigger] e1[t]).source_id@ == e2[t].source_id@
                && e1[t].dest_id@ == e2[t].dest_id@,
        ids_unique(n1),
        forall|t: int| 0 <= t < e1.len() ==> #[trigger] has_node_id(n1, e1[t].dest_id@),
        0 <= i < n1.len(),
        0 <= k <= e1.len(),
    ensures
        successors_upto(n1, e1, i, k) == successors_upto(n2, e2, i, k),
    decreases k,
{
    if k > 0 {
        lemma_successors_upto_congruent(n1, e1, n2, e2, i, k - 1);
        if e1[k - 1].source_id@ == n1[i].id@ {
            let id = e1[k - 1].dest_id@;
            let w1 = node_index(n1, id);
            let w2 = node_index(n2, id);
            assert(has_node_id(n1, id));
            assert(0 <= w1 < n1.len() && n1[w1].id@ == id);
            assert(n2[w1].id@ == id);
            assert(has_node_id(n2, id));
            assert(0 <= w2 < n2.len() && n2[w2].id@ == id);
            assert(n1[w2].id@ == id);
            if w1 != w2 {
                assert(false);
            }
        }
    }
}

/// Determinism: two graphs that agree on every node identifier and
/// position and on every edge's endpoints produce identical runs for
/// identical parameters and budget — the engine has no hidden randomness
/// or time dependence.
pub proof fn lemma_layout_deterministic(
    g1: Graph,
    g2: Graph,
    l: int,
    c: int,
    step: int,
    fuel: nat,
)
    requires
        g1.wf(),
        g1.nodes@.len() == g2.nodes@.len(),
        forall|t: int|
            0 <= t < g1.nodes@.len() ==> (#[trigger] g1.nodes@[t]).id@ == g2.nodes@[t].id@
                && g1.nodes@[t].x == g2.nodes@[t].x && g1.nodes@[t].y == g2.nodes@[t].y,
        g1.edges@.len() == g2.edges@.len(),
        forall|t: int|
            0 <= t < g1.edges@.len() ==> (#[trigger] g1.edges@[t]).source_id@
                == g2.edges@[t].source_id@ && g1.edges@[t].dest_id@ == g2.edges@[t].dest_id@,
    ensures
        run_spec(
            positions_of(g1.nodes@),
            adjacency_of(g1),
            l,
            c,
            step,
            0,
            Option::None,
            fuel,
        ) == run_spec(
            positions_of(g2.nodes@),
            adjacency_of(g2),
            l,
            c,
            step,
            0,
            Option::None,
            fuel,
        ),
{
    assert(positions_of(g1.nodes@) =~= positions_of(g2.nodes@));
    assert forall|t: int|
        0 <= t < g1.edges@.len() implies #[trigger] has_node_id(
        g1.nodes@,
        g1.edges@[t].dest_id@,
    ) by {
        assert(has_node_id(g1.nodes@, (g1.edges[t]).source_id@) && has_node_id(
            g1.nodes@,
            g1.edges[t].dest_id@,
        ));
    }
    assert forall|i: int| 0 <= i < g1.nodes@.len() implies #[trigger] adjacency_of(g1)[i]
        == adjacency_of(g2)[i] by {
        lemma_successors_upto_congruent(
            g1.nodes@,
            g1.edges@,
            g2.nodes@,
            g2.edges@,
            i,
            g1.edges@.len() as int,
        );
    }
    assert(adjacency_of(g1) =~= adjacency_of(g2));
}

} // verus!
