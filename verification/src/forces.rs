//! Force and energy accumulation: attractive springs along directed edges,
//! repulsive charges between every node pair, and the per-iteration step
//! that moves each node a fixed distance along its net force.

use vstd::prelude::*;
use crate::graph::{MAX_COORD, MAX_EDGES, MAX_NODES, MAX_PARAM, MAX_STEP};
use crate::math::{is_sqrt_floor, isqrt, lemma_mul_div_bound, lemma_sqrt_floor_ge, mul_div, scaled_div, sqrt_floor};

verus! {

/// Largest magnitude of one attractive term: `8 * MAX_COORD * MAX_COORD`.
pub const ATTR_TERM_BOUND: i64 = 34359738368;

/// Largest magnitude of one repulsive term: `MAX_PARAM` cubed.
pub const REP_TERM_BOUND: i64 = 68719476736;

/// Largest magnitude of a net force component:
/// `MAX_EDGES * ATTR_TERM_BOUND + MAX_NODES * REP_TERM_BOUND`.
pub const FORCE_BOUND: i64 = 211106232532992;

/// A sequence of fixed-point coordinate pairs, widened to integers.
pub open spec fn pos_view(s: Seq<(i64, i64)>) -> Seq<(int, int)> {
    Seq::new(s.len(), |i: int| (s[i].0 as int, s[i].1 as int))
}

/// The views of the rows of an adjacency index.
pub open spec fn adj_view(s: Seq<Vec<usize>>) -> Seq<Seq<usize>> {
    Seq::new(s.len(), |i: int| s[i]@)
}

/// Horizontal part of the attractive pull on a node at `(px, py)` from a
/// successor at `(qx, qy)`: magnitude `dist^2 / l` applied along the unit
/// direction toward the successor, in truncated integer arithmetic; zero
/// when the two points coincide.
pub open spec fn attr_x(px: int, py: int, qx: int, qy: int, l: int) -> int {
    let dx = qx - px;
    let dy = qy - py;
    let dsq = dx * dx + dy * dy;
    let dist = sqrt_floor(dsq);
    if dist == 0 {
        0
    } else {
        mul_div(dsq, dx, l * dist)
    }
}

/// Vertical part of the attractive pull; see `attr_x`.
pub open spec fn attr_y(px: int, py: int, qx: int, qy: int, l: int) -> int {
    let dx = qx - px;
    let dy = qy - py;
    let dsq = dx * dx + dy * dy;
    let dist = sqrt_floor(dsq);
    if dist == 0 {
        0
    } else {
        mul_div(dsq, dy, l * dist)
    }
}

/// Horizontal part of the repulsive push on a node at `(px, py)` away from
/// another node at `(qx, qy)`: magnitude `c * l^2 / dist^2` along the unit
/// direction away from the other node; zero when the two points coincide.
pub open spec fn rep_x(px: int, py: int, qx: int, qy: int, l: int, c: int) -> int {
    let dx = qx - px;
    let dy = qy - py;
    let dsq = dx * dx + dy * dy;
    let dist = sqrt_floor(dsq);
    if dist == 0 {
        0
    } else {
        mul_div(c * l * l, -dx, dsq * dist)
    }
}

/// Vertical part of the repulsive push; see `rep_x`.
pub open spec fn rep_y(px: int, py: int, qx: int, qy: int, l: int, c: int) -> int {
    let dx = qx - px;
    let dy = qy - py;
    let dsq = dx * dx + dy * dy;
    let dist = sqrt_floor(dsq);
    if dist == 0 {
        0
    } else {
        mul_div(c * l * l, -dy, dsq * dist)
    }
}

/// Sum of the horizontal attractive terms toward the successors in `succs`.
pub open spec fn attr_sum_x(pos: Seq<(int, int)>, px: int, py: int, succs: Seq<usize>, l: int) -> int
    decreases succs.len(),
{
    if succs.len() == 0 {
        0
    } else {
        attr_sum_x(pos, px, py, succs.drop_last(), l) + attr_x(
            px,
            py,
            pos[succs.last() as int].0,
            pos[succs.last() as int].1,
            l,
        )
    }
}

/// Sum of the vertical attractive terms toward the successors in `succs`.
pub open spec fn attr_sum_y(pos: Seq<(int, int)>, px: int, py: int, succs: Seq<usize>, l: int) -> int
    decreases succs.len(),
{
    if succs.len() == 0 {
        0
    } else {
        attr_sum_y(pos, px, py, succs.drop_last(), l) + attr_y(
            px,
            py,
            pos[succs.last() as int].0,
            pos[succs.last() as int].1,
            l,
        )
    }
}

/// Sum of the horizontal repulsive terms from every node of index below `k`
/// other than node `i` itself.
pub open spec fn rep_sum_x(pos: Seq<(int, int)>, i: int, k: int, l: int, c: int) -> int
    decreases k,
{
    if k <= 0 {
        0
    } else {
        rep_sum_x(pos, i, k - 1, l, c) + if k - 1 == i {
            0
        } else {
            rep_x(pos[i].0, pos[i].1, pos[k - 1].0, pos[k - 1].1, l, c)
        }
    }
}

/// Sum of the vertical repulsive terms; see `rep_sum_x`.
pub open spec fn rep_sum_y(pos: Seq<(int, int)>, i: int, k: int, l: int, c: int) -> int
    decreases k,
{
    if k <= 0 {
        0
    } else {
        rep_sum_y(pos, i, k - 1, l, c) + if k - 1 == i {
            0
        } else {
            rep_y(pos[i].0, pos[i].1, pos[k - 1].0, pos[k - 1].1, l, c)
        }
    }
}

/// Horizontal net force on node `i`: its attractive terms plus the
/// repulsive terms from every other node of the graph.
pub open spec fn force_x(pos: Seq<(int, int)>, row: Seq<usize>, i: int, l: int, c: int) -> int {
    attr_sum_x(pos, pos[i].0, pos[i].1, row, l) + rep_sum_x(pos, i, pos.len() as int, l, c)
}

/// Vertical net force on node `i`; see `force_x`.
pub open spec fn force_y(pos: Seq<(int, int)>, row: Seq<usize>, i: int, l: int, c: int) -> int {
    attr_sum_y(pos, pos[i].0, pos[i].1, row, l) + rep_sum_y(pos, i, pos.len() as int, l, c)
}

/// Squared magnitude of the net force on node `i`; the node's contribution
/// to the iteration's energy.
pub open spec fn force_len_sq(pos: Seq<(int, int)>, row: Seq<usize>, i: int, l: int, c: int) -> int {
    let fx = force_x(pos, row, i, l, c);
    let fy = force_y(pos, row, i, l, c);
    fx * fx + fy * fy
}

/// Horizontal displacement of a node under net force `(fx, fy)`: `step`
/// units along the force direction, zero when the force vanishes.
pub open spec fn shift_x(fx: int, fy: int, step: int) -> int {
    let flen = sqrt_floor(fx * fx + fy * fy);
    if flen == 0 {
        0
    } else {
        mul_div(step, fx, flen)
    }
}

/// Vertical displacement; see `shift_x`.
pub open spec fn shift_y(fx: int, fy: int, step: int) -> int {
    let flen = sqrt_floor(fx * fx + fy * fy);
    if flen == 0 {
        0
    } else {
        mul_div(step, fy, flen)
    }
}

/// The position of node `i` after one iteration from the frozen snapshot
/// `pos`.
pub open spec fn new_pos_at(pos: Seq<(int, int)>, row: Seq<usize>, i: int, l: int, c: int, step: int) -> (int, int) {
    let fx = force_x(pos, row, i, l, c);
    let fy = force_y(pos, row, i, l, c);
    (pos[i].0 + shift_x(fx, fy, step), pos[i].1 + shift_y(fx, fy, step))
}

/// All positions after one iteration: every node reads the same snapshot,
/// no node sees a position already updated within the iteration.
pub open spec fn stepped(pos: Seq<(int, int)>, adj: Seq<Seq<usize>>, l: int, c: int, step: int) -> Seq<(int, int)> {
    Seq::new(pos.len(), |i: int| new_pos_at(pos, adj[i], i, l, c, step))
}

/// Energy accumulated over the nodes of index below `k`.
pub open spec fn energy_upto(pos: Seq<(int, int)>, adj: Seq<Seq<usize>>, l: int, c: int, k: int) -> int
    decreases k,
{
    if k <= 0 {
        0
    } else {
        energy_upto(pos, adj, l, c, k - 1) + force_len_sq(pos, adj[k - 1], k - 1, l, c)
    }
}

/// The iteration's energy: the sum over all nodes of the squared net-force
/// magnitude, a scalar measure of how unbalanced the system still is.
pub open spec fn energy_of(pos: Seq<(int, int)>, adj: Seq<Seq<usize>>, l: int, c: int) -> int {
    energy_upto(pos, adj, l, c, pos.len() as int)
}

/// Squares of coordinate differences stay below `8 * MAX_COORD^2`.
pub proof fn lemma_sq_range(a: int, b: int)
    requires
        -131072 <= a <= 131072,
        -131072 <= b <= 131072,
    ensures
        0 <= a * a <= 17179869184,
        0 <= b * b <= 17179869184,
        0 <= a * a + b * b <= 34359738368,
{
    assert(0 <= a * a <= 17179869184) by (nonlinear_arith)
        requires
            -131072 <= a <= 131072,
    ;
    assert(0 <= b * b <= 17179869184) by (nonlinear_arith)
        requires
            -131072 <= b <= 131072,
    ;
}

/// Net force on node `i` computed from the frozen snapshot `pos`:
/// one attractive term per outgoing edge in `row`, one repulsive term per
/// other node.
#[verifier::loop_isolation(false)]
pub fn net_force(pos: &Vec<(i64, i64)>, row: &Vec<usize>, i: usize, l: i64, c: i64) -> (f: (i128, i128))
    requires
        pos@.len() <= MAX_NODES,
        row@.len() <= MAX_EDGES,
        (i as int) < pos@.len(),
        forall|m: int| 0 <= m < row@.len() ==> (#[trigger] row@[m] as int) < pos@.len(),
        forall|j: int|
            0 <= j < pos@.len() ==> -MAX_COORD <= (#[trigger] pos@[j]).0 <= MAX_COORD && -MAX_COORD
                <= pos@[j].1 <= MAX_COORD,
        1 <= l <= MAX_PARAM,
        1 <= c <= MAX_PARAM,
    ensures
        f.0 as int == force_x(pos_view(pos@), row@, i as int, l as int, c as int),
        f.1 as int == force_y(pos_view(pos@), row@, i as int, l as int, c as int),
        -FORCE_BOUND <= f.0 <= FORCE_BOUND,
        -FORCE_BOUND <= f.1 <= FORCE_BOUND,
{
    let ghost v = pos_view(pos@);
    let mut fx: i128 = 0;
    let mut fy: i128 = 0;
    let px = pos[i].0;
    let py = pos[i].1;
    let nsucc = row.len();
    let mut m: usize = 0;
    proof {
        assert(row@.take(0) =~= Seq::<usize>::empty());
    }
    while m < nsucc
        invariant
            m <= nsucc,
            fx as int == attr_sum_x(v, px as int, py as int, row@.take(m as int), l as int),
            fy as int == attr_sum_y(v, px as int, py as int, row@.take(m as int), l as int),
            -(m as int) * 34359738368 <= fx as int <= (m as int) * 34359738368,
            -(m as int) * 34359738368 <= fy as int <= (m as int) * 34359738368,
        decreases nsucc - m,
    {
        let q = row[m];
        let qx = pos[q].0;
        let qy = pos[q].1;
        let dx = qx - px;
        let dy = qy - py;
        let dxl = dx as i128;
        let dyl = dy as i128;
        proof {
            lemma_sq_range(dxl as int, dyl as int);
        }
        let sq = dxl * dxl + dyl * dyl;
        let dsq = sq as u128;
        let dist64 = isqrt(dsq);
        let dist = dist64 as u128;
        let ghost gdx = qx as int - px as int;
        let ghost gdy = qy as int - py as int;
        let ghost gdsq = gdx * gdx + gdy * gdy;
        proof {
            assert(v[q as int] == (qx as int, qy as int));
            assert(gdx == dxl as int && gdy == dyl as int);
            assert(gdsq == dsq as int);
        }
        if dist64 > 0 {
            proof {
                assert(is_sqrt_floor(gdsq, dist as int));
                assert((dist as int) * (dist as int) <= gdsq);
                let adx = if gdx >= 0 { gdx } else { -gdx };
                let ady = if gdy >= 0 { gdy } else { -gdy };
                assert(adx * adx <= gdsq && ady * ady <= gdsq) by (nonlinear_arith)
                    requires
                        adx == (if gdx >= 0 { gdx } else { -gdx }) && ady == (if gdy >= 0 {
                            gdy
                        } else {
                            -gdy
                        }) && gdsq == gdx * gdx + gdy * gdy,
                ;
                lemma_sqrt_floor_ge(gdsq, adx);
                lemma_sqrt_floor_ge(gdsq, ady);
                assert(dist as int <= 262144) by (nonlinear_arith)
                    requires
                        0 <= dist as int && (dist as int) * (dist as int) <= gdsq && gdsq
                            <= 34359738368,
                ;
            }
            let lu = l as u128;
            proof {
                assert(0 < (lu as int) * (dist as int) <= 0x40000000000) by (nonlinear_arith)
                    requires
                        1 <= lu as int <= 4096 && 0 < dist as int <= 262144,
                ;
                assert((dsq as int) * (if dxl as int >= 0 {
                    dxl as int
                } else {
                    -(dxl as int)
                }) < 0x80000000000000000000000000000000) by (nonlinear_arith)
                    requires
                        0 <= dsq as int <= 34359738368 && -131072 <= dxl as int <= 131072,
                ;
                assert((dsq as int) * (if dyl as int >= 0 {
                    dyl as int
                } else {
                    -(dyl as int)
                }) < 0x80000000000000000000000000000000) by (nonlinear_arith)
                    requires
                        0 <= dsq as int <= 34359738368 && -131072 <= dyl as int <= 131072,
                ;
            }
            let den = lu * dist;
            let ax = scaled_div(dsq, dxl, den);
            let ay = scaled_div(dsq, dyl, den);
            proof {
                let adx = if gdx >= 0 { gdx } else { -gdx };
                let ady = if gdy >= 0 { gdy } else { -gdy };
                assert(gdsq * adx <= 34359738368 * ((l as int) * (dist as int)))
                    by (nonlinear_arith)
                    requires
                        0 <= gdsq <= 34359738368 && 0 <= adx && adx <= dist as int && 1 <= l as int
                            && 0 < dist as int,
                ;
                assert(gdsq * ady <= 34359738368 * ((l as int) * (dist as int)))
                    by (nonlinear_arith)
                    requires
                        0 <= gdsq <= 34359738368 && 0 <= ady && ady <= dist as int && 1 <= l as int
                            && 0 < dist as int,
                ;
                assert(den as int == (l as int) * (dist as int));
                lemma_mul_div_bound(gdsq, gdx, (l as int) * (dist as int), 34359738368);
                lemma_mul_div_bound(gdsq, gdy, (l as int) * (dist as int), 34359738368);
                assert(ax as int == attr_x(px as int, py as int, qx as int, qy as int, l as int));
                assert(ay as int == attr_y(px as int, py as int, qx as int, qy as int, l as int));
            }
            fx = fx + ax;
            fy = fy + ay;
        } else {
            proof {
                assert(sqrt_floor(gdsq) == 0);
                assert(attr_x(px as int, py as int, qx as int, qy as int, l as int) == 0);
                assert(attr_y(px as int, py as int, qx as int, qy as int, l as int) == 0);
            }
        }
        proof {
            let s = row@.take(m as int + 1);
            assert(s.drop_last() =~= row@.take(m as int));
            assert(s.last() == row@[m as int]);
        }
        m = m + 1;
    }
    proof {
        assert(row@.take(nsucc as int) =~= row@);
    }
    let n = pos.len();
    let mut j: usize = 0;
    while j < n
        invariant
            j <= n,
            fx as int == attr_sum_x(v, px as int, py as int, row@, l as int) + rep_sum_x(
                v,
                i as int,
                j as int,
                l as int,
                c as int,
            ),
            fy as int == attr_sum_y(v, px as int, py as int, row@, l as int) + rep_sum_y(
                v,
                i as int,
                j as int,
                l as int,
                c as int,
            ),
            -(4096 as int) * 34359738368 - (j as int) * 68719476736 <= fx as int <= (4096 as int)
                * 34359738368 + (j as int) * 68719476736,
            -(4096 as int) * 34359738368 - (j as int) * 68719476736 <= fy as int <= (4096 as int)
                * 34359738368 + (j as int) * 68719476736,
        decreases n - j,
    {
        if j != i {
            let qx = pos[j].0;
            let qy = pos[j].1;
            let dx = qx - px;
            let dy = qy - py;
            let dxl = dx as i128;
            let dyl = dy as i128;
            proof {
                lemma_sq_range(dxl as int, dyl as int);
            }
            let sq = dxl * dxl + dyl * dyl;
            let dsq = sq as u128;
            let dist64 = isqrt(dsq);
            let dist = dist64 as u128;
            let ghost gdx = qx as int - px as int;
            let ghost gdy = qy as int - py as int;
            let ghost gdsq = gdx * gdx + gdy * gdy;
            proof {
                assert(v[j as int] == (qx as int, qy as int));
                assert(gdx == dxl as int && gdy == dyl as int);
                assert(gdsq == dsq as int);
            }
            if dist64 > 0 {
                proof {
                    assert(is_sqrt_floor(gdsq, dist as int));
                    assert((dist as int) * (dist as int) <= gdsq);
                    let adx = if gdx >= 0 { gdx } else { -gdx };
                    let ady = if gdy >= 0 { gdy } else { -gdy };
                    assert(adx * adx <= gdsq && ady * ady <= gdsq) by (nonlinear_arith)
                        requires
                            adx == (if gdx >= 0 { gdx } else { -gdx }) && ady == (if gdy >= 0 {
                                gdy
                            } else {
                                -gdy
                            }) && gdsq == gdx * gdx + gdy * gdy,
                    ;
                    lemma_sqrt_floor_ge(gdsq, adx);
                    lemma_sqrt_floor_ge(gdsq, ady);
                    assert(dist as int <= 262144) by (nonlinear_arith)
                        requires
                            0 <= dist as int && (dist as int) * (dist as int) <= gdsq && gdsq
                                <= 34359738368,
                    ;
                    assert(1 <= gdsq) by (nonlinear_arith)
                        requires
                            1 <= dist as int && (dist as int) * (dist as int) <= gdsq,
                    ;
                }
                let cu = c as u128;
                let lu = l as u128;
                proof {
                    assert(0 < (cu as int) * (lu as int) <= 16777216) by (nonlinear_arith)
                        requires
                            1 <= cu as int <= 4096 && 1 <= lu as int <= 4096,
                    ;
                }
                let cl = cu * lu;
                proof {
                    assert(0 < (cl as int) * (lu as int) <= 68719476736) by (nonlinear_arith)
                        requires
                            0 < cl as int <= 16777216 && 1 <= lu as int <= 4096,
                    ;
                }
                let mag = cl * lu;
                proof {
                    assert(0 < (dsq as int) * (dist as int) <= 0x2000000000000000)
                        by (nonlinear_arith)
                        requires
                            1 <= dsq as int <= 34359738368 && 0 < dist as int <= 262144,
                    ;
                    assert((mag as int) * (if (-dxl) as int >= 0 {
                        (-dxl) as int
                    } else {
                        -((-dxl) as int)
                    }) < 0x80000000000000000000000000000000) by (nonlinear_arith)
                        requires
                            0 < mag as int <= 68719476736 && -131072 <= dxl as int <= 131072,
                    ;
                    assert((mag as int) * (if (-dyl) as int >= 0 {
                        (-dyl) as int
                    } else {
                        -((-dyl) as int)
                    }) < 0x80000000000000000000000000000000) by (nonlinear_arith)
                        requires
                            0 < mag as int <= 68719476736 && -131072 <= dyl as int <= 131072,
                    ;
                }
                let den = dsq * dist;
                let ndx = -dxl;
                let ndy = -dyl;
                let rx = scaled_div(mag, ndx, den);
                let ry = scaled_div(mag, ndy, den);
                proof {
                    let adx = if gdx >= 0 { gdx } else { -gdx };
                    let ady = if gdy >= 0 { gdy } else { -gdy };
                    assert((mag as int) * adx <= 68719476736 * (gdsq * (dist as int)))
                        by (nonlinear_arith)
                        requires
                            0 < mag as int <= 68719476736 && 0 <= adx && adx <= dist as int && 1
                                <= gdsq && 0 < dist as int,
                    ;
                    assert((mag as int) * ady <= 68719476736 * (gdsq * (dist as int)))
                        by (nonlinear_arith)
                        requires
                            0 < mag as int <= 68719476736 && 0 <= ady && ady <= dist as int && 1
                                <= gdsq && 0 < dist as int,
                    ;
                    assert(mag as int == (c as int) * (l as int) * (l as int));
                    assert(den as int == gdsq * (dist as int));
                    lemma_mul_div_bound(mag as int, -gdx, gdsq * (dist as int), 68719476736);
                    lemma_mul_div_bound(mag as int, -gdy, gdsq * (dist as int), 68719476736);
                    assert(rx as int == rep_x(
                        px as int,
                        py as int,
                        qx as int,
                        qy as int,
                        l as int,
                        c as int,
                    ));
                    assert(ry as int == rep_y(
                        px as int,
                        py as int,
                        qx as int,
                        qy as int,
                        l as int,
                        c as int,
                    ));
                }
                fx = fx + rx;
                fy = fy + ry;
            } else {
                proof {
                    assert(sqrt_floor(gdsq) == 0);
                    assert(rep_x(px as int, py as int, qx as int, qy as int, l as int, c as int)
                        == 0);
                    assert(rep_y(px as int, py as int, qx as int, qy as int, l as int, c as int)
                        == 0);
                }
            }
        }
        j = j + 1;
    }
    proof {
        assert(v[i as int] == (px as int, py as int));
        assert(v.len() == pos@.len());
    }
    (fx, fy)
}

/// Largest energy contribution of one node: `2 * FORCE_BOUND^2`.
pub const ENERGY_TERM_BOUND: u128 = 89131682828547379792736944128;

/// One iteration of the engine: from a frozen snapshot `pos`, compute every
/// node's net force, move each node `step` units along its force direction,
/// and accumulate the iteration's energy (the sum of squared force
/// magnitudes). All nodes read the same snapshot: no force computation sees
/// a position already updated within this iteration.
#[verifier::loop_isolation(false)]
pub fn layout_step(
    pos: &Vec<(i64, i64)>,
    adj: &Vec<Vec<usize>>,
    l: i64,
    c: i64,
    step: i64,
) -> (r: (Vec<(i64, i64)>, u128))
    requires
        pos@.len() <= MAX_NODES,
        adj@.len() == pos@.len(),
        forall|i: int| 0 <= i < adj@.len() ==> (#[trigger] adj@[i])@.len() <= MAX_EDGES,
        forall|i: int, m: int|
            0 <= i < adj@.len() && 0 <= m < adj@[i]@.len() ==> (#[trigger] adj@[i]@[m] as int)
                < pos@.len(),
        forall|j: int|
            0 <= j < pos@.len() ==> -MAX_COORD <= (#[trigger] pos@[j]).0 <= MAX_COORD && -MAX_COORD
                <= pos@[j].1 <= MAX_COORD,
        1 <= l <= MAX_PARAM,
        1 <= c <= MAX_PARAM,
        0 <= step <= MAX_STEP,
    ensures
        r.0@.len() == pos@.len(),
        pos_view(r.0@) == stepped(pos_view(pos@), adj_view(adj@), l as int, c as int, step as int),
        r.1 as int == energy_of(pos_view(pos@), adj_view(adj@), l as int, c as int),
        forall|j: int|
            0 <= j < r.0@.len() ==> -131072 <= (#[trigger] r.0@[j]).0 <= 131072 && -131072
                <= r.0@[j].1 <= 131072,
{
    let ghost v = pos_view(pos@);
    let ghost av = adj_view(adj@);
    let n = pos.len();
    let mut out: Vec<(i64, i64)> = Vec::new();
    let mut energy: u128 = 0;
    let mut i: usize = 0;
    while i < n
        invariant
            i <= n,
            out@.len() == i,
            energy as int == energy_upto(v, av, l as int, c as int, i as int),
            energy as int <= (i as int) * 89131682828547379792736944128,
            forall|t: int|
                0 <= t < i ==> ((#[trigger] out@[t]).0 as int, out@[t].1 as int) == stepped(
                    v,
                    av,
                    l as int,
                    c as int,
                    step as int,
                )[t],
            forall|t: int|
                0 <= t < i ==> -131072 <= (#[trigger] out@[t]).0 <= 131072 && -131072 <= out@[t].1
                    <= 131072,
        decreases n - i,
    {
        let row = &adj[i];
        proof {
            assert(av[i as int] == adj@[i as int]@);
        }
        let f = net_force(pos, row, i, l, c);
        let fxi = f.0;
        let fyi = f.1;
        let ghost gfx = fxi as int;
        let ghost gfy = fyi as int;
        proof {
            assert(gfx == force_x(v, av[i as int], i as int, l as int, c as int));
            assert(gfy == force_y(v, av[i as int], i as int, l as int, c as int));
            assert(0 <= gfx * gfx <= 44565841414273689896368472064 && 0 <= gfy * gfy
                <= 44565841414273689896368472064) by (nonlinear_arith)
                requires
                    -211106232532992 <= gfx <= 211106232532992 && -211106232532992 <= gfy
                        <= 211106232532992,
            ;
        }
        let fsq = fxi * fxi + fyi * fyi;
        let fsqu = fsq as u128;
        let flen64 = isqrt(fsqu);
        let flen = flen64 as u128;
        let ghost gfsq = gfx * gfx + gfy * gfy;
        proof {
            assert(gfsq == fsqu as int);
            assert(gfsq == force_len_sq(v, av[i as int], i as int, l as int, c as int));
        }
        let sx: i64;
        let sy: i64;
        if flen64 > 0 {
            proof {
                assert(is_sqrt_floor(gfsq, flen as int));
                let afx = if gfx >= 0 { gfx } else { -gfx };
                let afy = if gfy >= 0 { gfy } else { -gfy };
                assert(afx * afx <= gfsq && afy * afy <= gfsq) by (nonlinear_arith)
                    requires
                        afx == (if gfx >= 0 { gfx } else { -gfx }) && afy == (if gfy >= 0 {
                            gfy
                        } else {
                            -gfy
                        }) && gfsq == gfx * gfx + gfy * gfy,
                ;
                lemma_sqrt_floor_ge(gfsq, afx);
                lemma_sqrt_floor_ge(gfsq, afy);
                assert((step as int) * (if fxi as int >= 0 {
                    fxi as int
                } else {
                    -(fxi as int)
                }) < 0x80000000000000000000000000000000) by (nonlinear_arith)
                    requires
                        0 <= step <= 65536 && -211106232532992 <= fxi as int <= 211106232532992,
                ;
                assert((step as int) * (if fyi as int >= 0 {
                    fyi as int
                } else {
                    -(fyi as int)
                }) < 0x80000000000000000000000000000000) by (nonlinear_arith)
                    requires
                        0 <= step <= 65536 && -211106232532992 <= fyi as int <= 211106232532992,
                ;
                assert((step as int) * afx <= (step as int) * (flen as int)) by (nonlinear_arith)
                    requires
                        0 <= step && 0 <= afx <= flen as int,
                ;
                assert((step as int) * afy <= (step as int) * (flen as int)) by (nonlinear_arith)
                    requires
                        0 <= step && 0 <= afy <= flen as int,
                ;
            }
            let su = step as u128;
            let sxq = scaled_div(su, fxi, flen);
            let syq = scaled_div(su, fyi, flen);
            proof {
                lemma_mul_div_bound(step as int, gfx, flen as int, step as int);
                lemma_mul_div_bound(step as int, gfy, flen as int, step as int);
                assert(sxq as int == shift_x(gfx, gfy, step as int));
                assert(syq as int == shift_y(gfx, gfy, step as int));
            }
            sx = sxq as i64;
            sy = syq as i64;
        } else {
            proof {
                assert(sqrt_floor(gfsq) == 0);
                assert(shift_x(gfx, gfy, step as int) == 0);
                assert(shift_y(gfx, gfy, step as int) == 0);
            }
            sx = 0;
            sy = 0;
        }
        let nx = pos[i].0 + sx;
        let ny = pos[i].1 + sy;
        out.push((nx, ny));
        proof {
            assert(v[i as int] == (pos@[i as int].0 as int, pos@[i as int].1 as int));
            assert(stepped(v, av, l as int, c as int, step as int)[i as int] == new_pos_at(
                v,
                av[i as int],
                i as int,
                l as int,
                c as int,
                step as int,
            ));
            assert((nx as int, ny as int) == stepped(v, av, l as int, c as int, step as int)[
                i as int]);
            assert(energy_upto(v, av, l as int, c as int, i as int + 1) == energy_upto(
                v,
                av,
                l as int,
                c as int,
                i as int,
            ) + force_len_sq(v, av[i as int], i as int, l as int, c as int));
        }
        energy = energy + fsqu;
        i = i + 1;
    }
    proof {
        assert(pos_view(out@) =~= stepped(v, av, l as int, c as int, step as int));
    }
    (out, energy)
}

} // verus!
