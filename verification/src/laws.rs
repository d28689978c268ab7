//! General properties of the rasterizer, stated and proved over the same
//! spec functions that the drawing contracts use.

use crate::canvas::{in_bounds, paint_seq, plot_spec};
use crate::fill::{
    cross_x, crossings, crossings_of_edges, edges_of, filled, in_spans, is_crossing,
    lemma_crossings_bounded, lemma_crossings_concat, lemma_crossings_none, lemma_isort_bounded,
    lemma_isort_unique, row_hits, trunc_div, Edge,
};
use crate::line::{
    abs_i, bres_next, bres_seq, bres_wf, lemma_bres_step, lemma_line_start_wf, line_points,
    step_dx, step_dy, step_sx, step_sy,
};
use vstd::prelude::*;

verus! {

/// A degenerate segment visits exactly its one point: the walk from a point
/// to itself stops immediately.
pub proof fn lemma_line_single_point(p: (int, int))
    ensures
        line_points(p, p) == seq![p],
{
    lemma_line_start_wf(p, p);
    assert(line_points(p, p) =~= seq![p]);
}

/// Drawing a degenerate segment is one clipped write: the pixel at `p` when
/// it is in bounds, and nothing at all otherwise.
pub proof fn lemma_draw_point_paints_one(
    m: Map<(int, int), (u8, u8, u8)>,
    dims: (int, int),
    p: (int, int),
    c: (u8, u8, u8),
)
    ensures
        paint_seq(m, dims, line_points(p, p), c) == plot_spec(m, dims, p, c),
{
    lemma_line_single_point(p);
    assert(seq![p].drop_first() =~= Seq::<(int, int)>::empty());
    assert(paint_seq(plot_spec(m, dims, p, c), dims, seq![p].drop_first(), c) == plot_spec(
        m,
        dims,
        p,
        c,
    ));
}

/// A horizontal walk steps one pixel right at a time: from a well-formed
/// state on the target's own scanline it visits exactly the remaining run.
proof fn lemma_bres_horizontal(x: int, y: int, err: int, tx: int, dx: int, sy: int)
    requires
        bres_wf(x, y, err, tx, y, dx, 0, 1, sy),
    ensures
        bres_seq(x, y, err, tx, y, dx, 0, 1, sy).len() == tx - x + 1,
        forall|i: int|
            0 <= i <= tx - x ==> #[trigger] bres_seq(x, y, err, tx, y, dx, 0, 1, sy)[i] == (
            x + i,
            y,
        ),
    decreases tx - x,
{
    let sq = bres_seq(x, y, err, tx, y, dx, 0, 1, sy);
    assert(tx - x == 1 * (tx - x));
    assert(0 <= tx - x <= dx);
    assert(err == dx) by (nonlinear_arith)
        requires
            err == dx + 0 + (-0) * (1 * (tx - x)) - dx * (sy * (y - y)),
    ;
    if x == tx {
        assert(sq =~= seq![(x, y)]);
    } else {
        let nx = bres_next(x, y, err, tx, y, dx, 0, 1, sy);
        assert(2 * err >= 0);
        assert(!(2 * err <= dx));
        assert(nx == (x + 1, y, err));
        lemma_bres_step(x, y, err, tx, y, dx, 0, 1, sy);
        lemma_bres_horizontal(x + 1, y, err, tx, dx, sy);
        let rest = bres_seq(x + 1, y, err, tx, y, dx, 0, 1, sy);
        assert(sq == seq![(x, y)] + rest);
        assert forall|i: int| 0 <= i <= tx - x implies #[trigger] sq[i] == (x + i, y) by {
            if i > 0 {
                assert(sq[i] == rest[i - 1]);
            }
        }
    }
}

/// A horizontal segment, left endpoint first, visits exactly the run of
/// pixels from one endpoint to the other, in order.
pub proof fn lemma_line_horizontal(a: (int, int), b: (int, int))
    requires
        a.1 == b.1,
        a.0 <= b.0,
    ensures
        line_points(a, b).len() == b.0 - a.0 + 1,
        forall|i: int| 0 <= i <= b.0 - a.0 ==> #[trigger] line_points(a, b)[i] == (a.0 + i, a.1),
{
    lemma_line_start_wf(a, b);
    if a.0 == b.0 {
        lemma_line_single_point(a);
        assert(line_points(a, b) == line_points(a, a));
    } else {
        assert(step_sx(a, b) == 1);
        assert(step_dy(a, b) == 0);
        lemma_bres_horizontal(
            a.0,
            a.1,
            step_dx(a, b) + step_dy(a, b),
            b.0,
            step_dx(a, b),
            step_sy(a, b),
        );
    }
}

/// Line drawing is deterministic: its contract pins the final pixel map as a
/// function of the starting map, the endpoints and the color, so two runs
/// over equal canvases end equal.
pub proof fn lemma_draw_line_deterministic(
    pix0: Map<(int, int), (u8, u8, u8)>,
    dims: (int, int),
    a: (int, int),
    b: (int, int),
    c: (u8, u8, u8),
    m1: Map<(int, int), (u8, u8, u8)>,
    m2: Map<(int, int), (u8, u8, u8)>,
)
    requires
        m1 == paint_seq(pix0, dims, line_points(a, b), c),
        m2 == paint_seq(pix0, dims, line_points(a, b), c),
    ensures
        m1 == m2,
{
}

/// Polygon filling is deterministic: any two pixel maps that satisfy the
/// fill contract over the same starting map, dimensions, vertex loop and
/// color are equal.
pub proof fn lemma_fill_deterministic(
    pix0: Map<(int, int), (u8, u8, u8)>,
    dims: (int, int),
    vs: Seq<(int, int)>,
    c: (u8, u8, u8),
    m1: Map<(int, int), (u8, u8, u8)>,
    m2: Map<(int, int), (u8, u8, u8)>,
)
    requires
        forall|k: (int, int)|
            in_bounds(k, dims) && filled(vs, k.0, k.1) ==> (#[trigger] m1[k]) == c,
        forall|k: (int, int)|
            !(in_bounds(k, dims) && filled(vs, k.0, k.1)) ==> (#[trigger] m1[k]) == pix0[k],
        forall|k: (int, int)|
            #[trigger] m1.contains_key(k) <==> (pix0.contains_key(k) || (in_bounds(k, dims)
                && filled(vs, k.0, k.1))),
        forall|k: (int, int)|
            in_bounds(k, dims) && filled(vs, k.0, k.1) ==> (#[trigger] m2[k]) == c,
        forall|k: (int, int)|
            !(in_bounds(k, dims) && filled(vs, k.0, k.1)) ==> (#[trigger] m2[k]) == pix0[k],
        forall|k: (int, int)|
            #[trigger] m2.contains_key(k) <==> (pix0.contains_key(k) || (in_bounds(k, dims)
                && filled(vs, k.0, k.1))),
    ensures
        m1 == m2,
{
    assert forall|k: (int, int)| m1.contains_key(k) implies m1[k] == m2[k] by {
        if in_bounds(k, dims) && filled(vs, k.0, k.1) {
            assert(m1[k] == c);
        } else {
            assert(m1[k] == pix0[k]);
        }
    }
    assert(m1 =~= m2);
}

/// A zero-length edge never crosses a scanline: the half-open test needs its
/// endpoints on strictly opposite sides, and a point cannot straddle a line.
/// A coincident vertex pair therefore contributes no intersections.
pub proof fn lemma_degenerate_edge_never_crosses(p: (int, int), y: int)
    ensures
        !is_crossing(p, p, y),
{
}

/// A polygon whose vertices all lie beyond one side of the canvas fills no
/// in-bounds cell, so filling it writes nothing.
pub proof fn lemma_fill_outside_bounds(vs: Seq<(int, int)>, dims: (int, int))
    requires
        (forall|i: int| 0 <= i < vs.len() ==> (#[trigger] vs[i]).0 < 0) || (forall|i: int|
            0 <= i < vs.len() ==> (#[trigger] vs[i]).0 >= dims.0) || (forall|i: int|
            0 <= i < vs.len() ==> (#[trigger] vs[i]).1 < 0) || (forall|i: int|
            0 <= i < vs.len() ==> (#[trigger] vs[i]).1 >= dims.1),
    ensures
        forall|k: (int, int)| in_bounds(k, dims) ==> !filled(vs, k.0, k.1),
{
    let es = edges_of(vs);
    let n = vs.len() as int;
    assert forall|k: (int, int)| in_bounds(k, dims) implies !filled(vs, k.0, k.1) by {
        if vs.len() >= 3 {
            assert(forall|i: int|
                0 <= i < n ==> (#[trigger] es[i]).0 == vs[i] && es[i].1 == vs[(i + 1) % n]);
            let vertical = (forall|i: int| 0 <= i < vs.len() ==> (#[trigger] vs[i]).1 < 0)
                || (forall|i: int| 0 <= i < vs.len() ==> (#[trigger] vs[i]).1 >= dims.1);
            if vertical {
                assert forall|i: int| 0 <= i < es.len() implies !is_crossing(
                    (#[trigger] es[i]).0,
                    es[i].1,
                    k.1,
                ) by {
                    assert(es[i].0 == vs[i]);
                    assert(es[i].1 == vs[(i + 1) % n]);
                }
                lemma_crossings_none(es, k.1);
                assert(row_hits(vs, k.1) =~= Seq::<int>::empty());
            } else {
                let xcoords = vs.map_values(|p: (int, int)| p.0);
                xcoords.min_ensures();
                xcoords.max_ensures();
                assert(forall|i: int| 0 <= i < n ==> #[trigger] xcoords[i] == vs[i].0);
                let lo = if forall|i: int| 0 <= i < vs.len() ==> (#[trigger] vs[i]).0 < 0 {
                    xcoords.min()
                } else {
                    dims.0
                };
                let hi = if forall|i: int| 0 <= i < vs.len() ==> (#[trigger] vs[i]).0 < 0 {
                    -1
                } else {
                    xcoords.max()
                };
                assert forall|i: int| 0 <= i < es.len() implies lo <= (#[trigger] es[i]).0.0
                    <= hi && lo <= es[i].1.0 <= hi by {
                    assert(es[i].0 == vs[i]);
                    assert(es[i].1 == vs[(i + 1) % n]);
                    assert(xcoords[i] == vs[i].0);
                    assert(xcoords[(i + 1) % n] == vs[(i + 1) % n].0);
                }
                lemma_crossings_bounded(es, k.1, lo, hi);
                lemma_isort_bounded(crossings(vs, k.1), lo, hi);
                if in_spans(row_hits(vs, k.1), k.0) {
                    let xs = row_hits(vs, k.1);
                    let w = choose|w: int|
                        #![trigger xs[w]]
                        0 <= w && w % 2 == 0 && w + 1 < xs.len() && xs[w] <= k.0 <= xs[w + 1];
                    assert(lo <= xs[w] <= hi);
                    assert(lo <= xs[w + 1] <= hi);
                    assert(false);
                }
            }
        }
    }
}

/// Whether a point lies at or above the scanline (y grows downward).
pub open spec fn at_or_above(p: (int, int), y: int) -> bool {
    p.1 <= y
}

/// Consecutive edges form a chain: each edge starts where the previous one
/// ended.
pub open spec fn chained(es: Seq<Edge>) -> bool {
    forall|i: int| 0 <= i < es.len() - 1 ==> (#[trigger] es[i]).1 == es[i + 1].0
}

/// Along a chain of edges, the crossing count is odd exactly when the
/// chain's two ends lie on opposite sides of the scanline: each crossing
/// switches sides, and nothing else does.
proof fn lemma_chain_crossing_parity(es: Seq<Edge>, y: int)
    requires
        es.len() > 0,
        chained(es),
    ensures
        crossings_of_edges(es, y).len() % 2 == (if at_or_above(es[0].0, y) == at_or_above(
            es.last().1,
            y,
        ) {
            0int
        } else {
            1int
        }),
    decreases es.len(),
{
    let head: int = if is_crossing(es[0].0, es[0].1, y) {
        1
    } else {
        0
    };
    assert(head == 1 <==> at_or_above(es[0].0, y) != at_or_above(es[0].1, y));
    if es.len() == 1 {
        assert(crossings_of_edges(es.drop_first(), y) =~= Seq::<int>::empty()) by {
            assert(es.drop_first() =~= Seq::<Edge>::empty());
        }
        assert(crossings_of_edges(es, y).len() == head);
    } else {
        assert(chained(es.drop_first())) by {
            assert(forall|i: int|
                0 <= i < es.drop_first().len() ==> #[trigger] es.drop_first()[i] == es[i + 1]);
        }
        lemma_chain_crossing_parity(es.drop_first(), y);
        assert(es.drop_first()[0] == es[1]);
        assert(es[0].1 == es[1].0);
        assert(es.drop_first().last() == es.last());
        let rest = crossings_of_edges(es.drop_first(), y).len();
        assert(crossings_of_edges(es, y).len() == head + rest);
        assert((head + rest) % 2 == (if at_or_above(es[0].0, y) == at_or_above(es.last().1, y) {
            0int
        } else {
            1int
        })) by (nonlinear_arith)
            requires
                rest >= 0,
                (head == 0 || head == 1),
                rest % 2 == (if at_or_above(es[1].0, y) == at_or_above(es.last().1, y) {
                    0int
                } else {
                    1int
                }),
                (head == 1 <==> at_or_above(es[0].0, y) != at_or_above(es[1].0, y)),
        ;
    }
}

/// Every scanline meets the boundary of a closed loop an even number of
/// times: the loop comes back to the side it started on, so its crossings
/// pair up completely.
pub proof fn lemma_even_crossings(vs: Seq<(int, int)>, y: int)
    requires
        vs.len() > 0,
    ensures
        crossings(vs, y).len() % 2 == 0,
{
    let es = edges_of(vs);
    let n = vs.len() as int;
    assert(chained(es)) by {
        assert forall|i: int| 0 <= i < es.len() - 1 implies (#[trigger] es[i]).1 == es[i + 1].0 by {
            vstd::arithmetic::div_mod::lemma_small_mod((i + 1) as nat, n as nat);
            assert(es[i].1 == vs[(i + 1) % n]);
            assert(es[i + 1].0 == vs[i + 1]);
        }
    }
    assert(es[0].0 == vs[0]);
    assert(es[n - 1].1 == vs[n % n]);
    assert(n % n == 0) by {
        vstd::arithmetic::div_mod::lemma_mod_self_0(n);
    }
    assert(es.last().1 == vs[0]);
    lemma_chain_crossing_parity(es, y);
}

/// Duplicating a vertex changes nothing: the zero-length edge it creates is
/// never a crossing, every other edge is kept, and the fill is decided by
/// the crossings alone.
pub proof fn lemma_duplicate_vertex(vs: Seq<(int, int)>, i: int, y: int)
    requires
        vs.len() >= 3,
        0 <= i < vs.len(),
    ensures
        forall|x: int| filled(vs.insert(i, vs[i]), x, y) == filled(vs, x, y),
{
    let n = vs.len() as int;
    let vs2 = vs.insert(i, vs[i]);
    let es = edges_of(vs);
    let es2 = edges_of(vs2);
    let deg: Edge = (vs[i], vs[i]);
    assert(vs2.len() == n + 1);
    assert(forall|j: int| 0 <= j <= i ==> #[trigger] vs2[j] == vs[j]);
    assert(forall|j: int| i < j <= n ==> #[trigger] vs2[j] == vs[j - 1]);
    assert(es2 =~= es.take(i) + seq![deg] + es.skip(i)) by {
        assert forall|j: int|
            0 <= j < n + 1 implies es2[j] == (es.take(i) + seq![deg] + es.skip(i))[j] by {
            if j < n {
                vstd::arithmetic::div_mod::lemma_small_mod((j + 1) as nat, (n + 1) as nat);
            } else {
                vstd::arithmetic::div_mod::lemma_mod_self_0(n + 1);
            }
            assert(es2[j] == (vs2[j], vs2[if j == n {
                0int
            } else {
                j + 1
            }]));
            if j < i {
                vstd::arithmetic::div_mod::lemma_small_mod((j + 1) as nat, n as nat);
                assert(es[j] == (vs[j], vs[j + 1]));
            } else if j > i {
                if j < n {
                    vstd::arithmetic::div_mod::lemma_small_mod(j as nat, n as nat);
                    assert(es[j - 1] == (vs[j - 1], vs[j]));
                } else {
                    vstd::arithmetic::div_mod::lemma_mod_self_0(n);
                    assert(es[n - 1] == (vs[n - 1], vs[0]));
                }
            }
        }
    }
    lemma_crossings_concat(es.take(i) + seq![deg], es.skip(i), y);
    lemma_crossings_concat(es.take(i), seq![deg], y);
    assert(crossings_of_edges(seq![deg], y) =~= Seq::<int>::empty()) by {
        assert(seq![deg].drop_first() =~= Seq::<Edge>::empty());
        assert(crossings_of_edges(Seq::<Edge>::empty(), y) =~= Seq::<int>::empty());
    }
    lemma_crossings_concat(es.take(i), es.skip(i), y);
    assert(es.take(i) + es.skip(i) =~= es);
    assert(crossings(vs2, y) =~= crossings(vs, y));
    assert(row_hits(vs2, y) == row_hits(vs, y));
}

/// An edge's crossing interpolation is exact: the division leaves no
/// remainder, so no truncation happens.
pub open spec fn exact_cross(p1: (int, int), p2: (int, int), y: int) -> bool {
    abs_i((y - p1.1) * (p2.0 - p1.0)) % abs_i(p2.1 - p1.1) == 0
}

/// Every crossing edge of the sequence interpolates exactly at `y`.
pub open spec fn exact_edges(es: Seq<Edge>, y: int) -> bool {
    forall|i: int|
        0 <= i < es.len() && is_crossing((#[trigger] es[i]).0, es[i].1, y) ==> exact_cross(
            es[i].0,
            es[i].1,
            y,
        )
}

/// Every crossing edge of the closed loop interpolates exactly at `y`.
pub open spec fn exact_loop(vs: Seq<(int, int)>, y: int) -> bool {
    exact_edges(edges_of(vs), y)
}

/// When a division is exact, the truncating quotient is the exact quotient.
proof fn lemma_trunc_div_exact(a: int, b: int)
    requires
        b != 0,
        abs_i(a) % abs_i(b) == 0,
    ensures
        b * trunc_div(a, b) == a,
{
    let ua = abs_i(a);
    let ub = abs_i(b);
    vstd::arithmetic::div_mod::lemma_fundamental_div_mod(ua, ub);
    let q0 = ua / ub;
    assert(ua == ub * q0);
    let q = trunc_div(a, b);
    if (a < 0) == (b < 0) {
        assert(b * q == a) by (nonlinear_arith)
            requires
                ua == ub * q0,
                q == q0,
                (a >= 0 ==> ua == a),
                (a < 0 ==> ua == -a),
                (b >= 0 ==> ub == b),
                (b < 0 ==> ub == -b),
                (a < 0) == (b < 0),
        ;
    } else {
        assert(b * q == a) by (nonlinear_arith)
            requires
                ua == ub * q0,
                q == -q0,
                (a >= 0 ==> ua == a),
                (a < 0 ==> ua == -a),
                (b >= 0 ==> ub == b),
                (b < 0 ==> ub == -b),
                (a < 0) != (b < 0),
        ;
    }
}

/// An exactly interpolated crossing lands on the same x whichever way the
/// edge is directed, and stays exact when the edge is reversed.
pub proof fn lemma_cross_x_reverse(p1: (int, int), p2: (int, int), y: int)
    requires
        is_crossing(p1, p2, y),
        exact_cross(p1, p2, y),
    ensures
        exact_cross(p2, p1, y),
        cross_x(p2, p1, y) == cross_x(p1, p2, y),
{
    let t = y - p1.1;
    let d = p2.1 - p1.1;
    let dx = p2.0 - p1.0;
    let a = t * dx;
    assert(d != 0);
    let q = trunc_div(a, d);
    lemma_trunc_div_exact(a, d);
    let a2 = (y - p2.1) * (p1.0 - p2.0);
    assert(a2 == d * (dx - q)) by (nonlinear_arith)
        requires
            a2 == ((y - p2.1)) * ((p1.0 - p2.0)),
            y - p2.1 == t - d,
            p1.0 - p2.0 == -dx,
            d * q == t * dx,
    ;
    assert(abs_i(a2) == abs_i(dx - q) * abs_i(d)) by (nonlinear_arith)
        requires
            a2 == d * (dx - q),
            (d >= 0 ==> abs_i(d) == d),
            (d < 0 ==> abs_i(d) == -d),
            (dx - q >= 0 ==> abs_i(dx - q) == dx - q),
            (dx - q < 0 ==> abs_i(dx - q) == -(dx - q)),
            (a2 >= 0 ==> abs_i(a2) == a2),
            (a2 < 0 ==> abs_i(a2) == -a2),
    ;
    vstd::arithmetic::div_mod::lemma_mod_multiples_basic(abs_i(dx - q), abs_i(d));
    assert(abs_i(p1.1 - p2.1) == abs_i(d));
    assert(exact_cross(p2, p1, y));
    let q2 = trunc_div(a2, p1.1 - p2.1);
    lemma_trunc_div_exact(a2, p1.1 - p2.1);
    assert(q2 == q - dx) by (nonlinear_arith)
        requires
            (p1.1 - p2.1) * q2 == a2,
            a2 == d * (dx - q),
            p1.1 - p2.1 == -d,
            d != 0,
    ;
    assert(cross_x(p2, p1, y) == p2.0 + q2);
    assert(cross_x(p2, p1, y) == cross_x(p1, p2, y));
}

/// Each edge with its endpoints swapped.
pub open spec fn rev_edge(e: Edge) -> Edge {
    (e.1, e.0)
}

/// A sequence of edges, each with its endpoints swapped.
pub open spec fn rev_edges(es: Seq<Edge>) -> Seq<Edge> {
    Seq::new(es.len(), |i: int| rev_edge(es[i]))
}

/// Reversing every edge changes no crossing when all crossings interpolate
/// exactly: the crossing test is symmetric, and so is the exact
/// interpolation.
pub proof fn lemma_crossings_rev_edges(es: Seq<Edge>, y: int)
    requires
        exact_edges(es, y),
    ensures
        crossings_of_edges(rev_edges(es), y) == crossings_of_edges(es, y),
    decreases es.len(),
{
    if es.len() == 0 {
        assert(rev_edges(es) =~= Seq::<Edge>::empty());
        assert(crossings_of_edges(rev_edges(es), y) =~= crossings_of_edges(es, y));
    } else {
        assert(rev_edges(es)[0] == rev_edge(es[0]));
        assert(rev_edges(es).drop_first() =~= rev_edges(es.drop_first()));
        assert(exact_edges(es.drop_first(), y)) by {
            assert(forall|i: int|
                0 <= i < es.drop_first().len() ==> #[trigger] es.drop_first()[i] == es[i + 1]);
        }
        lemma_crossings_rev_edges(es.drop_first(), y);
        if is_crossing(es[0].0, es[0].1, y) {
            lemma_cross_x_reverse(es[0].0, es[0].1, y);
        }
        assert(crossings_of_edges(rev_edges(es), y) =~= crossings_of_edges(es, y));
    }
}

/// Crossings of reversed edge order carry the same multiset of x values.
pub proof fn lemma_crossings_reverse_multiset(es: Seq<Edge>, y: int)
    ensures
        crossings_of_edges(es.reverse(), y).to_multiset() == crossings_of_edges(
            es,
            y,
        ).to_multiset(),
    decreases es.len(),
{
    broadcast use vstd::seq_lib::group_to_multiset_ensures;
    broadcast use vstd::multiset::group_multiset_axioms;

    if es.len() == 0 {
        assert(es.reverse() =~= es);
    } else {
        let init = es.drop_last();
        let last = seq![es.last()];
        assert(es.reverse() =~= last + init.reverse());
        assert(es =~= init + last);
        lemma_crossings_concat(last, init.reverse(), y);
        lemma_crossings_concat(init, last, y);
        lemma_crossings_reverse_multiset(init, y);
        vstd::seq_lib::lemma_multiset_commutative(
            crossings_of_edges(last, y),
            crossings_of_edges(init.reverse(), y),
        );
        vstd::seq_lib::lemma_multiset_commutative(
            crossings_of_edges(init, y),
            crossings_of_edges(last, y),
        );
        assert(crossings_of_edges(es.reverse(), y).to_multiset() =~= crossings_of_edges(
            es,
            y,
        ).to_multiset());
    }
}

/// Reversing the vertex order of a loop leaves the even-odd fill unchanged
/// on every scanline where the crossing interpolations are exact: the parity
/// rule does not depend on winding. Truncation can move an inexact crossing
/// when the edge direction flips, so exactness is assumed.
pub proof fn lemma_reverse_winding(vs: Seq<(int, int)>, y: int)
    requires
        exact_loop(vs, y),
    ensures
        forall|x: int| filled(vs.reverse(), x, y) == filled(vs, x, y),
{
    broadcast use vstd::seq_lib::group_to_multiset_ensures;
    broadcast use vstd::multiset::group_multiset_axioms;

    let n = vs.len() as int;
    if n == 0 {
        assert(vs.reverse() =~= vs);
    } else {
        let es = edges_of(vs);
        let rv = vs.reverse();
        let er = edges_of(rv);
        let tpart = es.take(n - 1).reverse();
        assert(er =~= rev_edges(tpart) + seq![rev_edge(es[n - 1])]) by {
            assert forall|i: int|
                0 <= i < n implies er[i] == (rev_edges(tpart) + seq![rev_edge(es[n - 1])])[i] by {
                assert(er[i] == (rv[i], rv[(i + 1) % n]));
                assert(rv[i] == vs[n - 1 - i]);
                if i < n - 1 {
                    vstd::arithmetic::div_mod::lemma_small_mod((i + 1) as nat, n as nat);
                    assert((i + 1) % n == i + 1);
                    assert(rv[i + 1] == vs[n - 1 - (i + 1)]);
                    assert(rv[i + 1] == vs[n - 2 - i]);
                    assert(tpart.len() == n - 1);
                    assert(tpart[i] == es.take(n - 1)[(n - 1) - 1 - i]);
                    assert(tpart[i] == es.take(n - 1)[n - 2 - i]);
                    vstd::arithmetic::div_mod::lemma_small_mod((n - 1 - i) as nat, n as nat);
                    assert((n - 1 - i) % n == n - 1 - i);
                    assert(es[n - 2 - i] == (vs[n - 2 - i], vs[(n - 1 - i) % n]));
                    assert(rev_edges(tpart)[i] == rev_edge(tpart[i]));
                } else {
                    assert(i + 1 == n);
                    assert(n % n == 0) by {
                        vstd::arithmetic::div_mod::lemma_mod_self_0(n);
                    }
                    assert((i + 1) % n == 0);
                    assert(es[n - 1] == (vs[n - 1], vs[(n - 1 + 1) % n]));
                }
            }
        }
        assert(seq![rev_edge(es[n - 1])] =~= rev_edges(seq![es[n - 1]]));
        assert(exact_edges(tpart, y)) by {
            assert forall|i: int|
                0 <= i < tpart.len() && is_crossing(
                    (#[trigger] tpart[i]).0,
                    tpart[i].1,
                    y,
                ) implies exact_cross(tpart[i].0, tpart[i].1, y) by {
                assert(tpart[i] == es[n - 2 - i]);
            }
        }
        assert(exact_edges(seq![es[n - 1]], y)) by {
            assert forall|i: int|
                0 <= i < 1 && is_crossing(
                    (#[trigger] seq![es[n - 1]][i]).0,
                    seq![es[n - 1]][i].1,
                    y,
                ) implies exact_cross(seq![es[n - 1]][i].0, seq![es[n - 1]][i].1, y) by {
                assert(seq![es[n - 1]][i] == es[n - 1]);
            }
        }
        lemma_crossings_rev_edges(tpart, y);
        lemma_crossings_rev_edges(seq![es[n - 1]], y);
        lemma_crossings_concat(rev_edges(tpart), seq![rev_edge(es[n - 1])], y);
        lemma_crossings_reverse_multiset(es.take(n - 1), y);
        lemma_crossings_concat(es.take(n - 1), seq![es[n - 1]], y);
        assert(es =~= es.take(n - 1) + seq![es[n - 1]]);
        vstd::seq_lib::lemma_multiset_commutative(
            crossings_of_edges(rev_edges(tpart), y),
            crossings_of_edges(seq![rev_edge(es[n - 1])], y),
        );
        vstd::seq_lib::lemma_multiset_commutative(
            crossings_of_edges(es.take(n - 1), y),
            crossings_of_edges(seq![es[n - 1]], y),
        );
        assert(crossings(rv, y).to_multiset() =~= crossings(vs, y).to_multiset());
        lemma_isort_unique(crossings(rv, y), crossings(vs, y));
        assert(row_hits(rv, y) == row_hits(vs, y));
    }
}

} // verus!
