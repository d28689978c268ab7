//! Even-odd scanline polygon fill. For each scanline the crossing edges are
//! found with a half-open test, their intersection x coordinates are computed
//! by truncating integer interpolation and kept sorted, and consecutive pairs
//! of them bound the painted spans.

use crate::canvas::{canvas_dims, canvas_pixels, in_bounds, plot, Canvas};
use crate::geom::{in_coord_range, pt, pts, rgb, Color, Point};
use crate::line::abs_i;
use vstd::prelude::*;

verus! {

/// A directed polygon edge: the two endpoints as integer pairs.
pub type Edge = ((int, int), (int, int));

/// Division truncating toward zero, as the machine's signed division does.
pub open spec fn trunc_div(a: int, b: int) -> int {
    if (a < 0) == (b < 0) {
        abs_i(a) / abs_i(b)
    } else {
        -(abs_i(a) / abs_i(b))
    }
}

/// The half-open crossing test: one endpoint at or above the scanline, the
/// other strictly below it (y grows downward, so "above" is `<= y`). A
/// horizontal edge never crosses, and a shared vertex is counted once.
pub open spec fn is_crossing(p1: (int, int), p2: (int, int), y: int) -> bool {
    (p1.1 <= y && p2.1 > y) || (p2.1 <= y && p1.1 > y)
}

/// Where an edge crosses the scanline: truncating integer interpolation
/// between the endpoints. Meaningful when the edge is a crossing, which
/// guarantees the divisor is not zero.
pub open spec fn cross_x(p1: (int, int), p2: (int, int), y: int) -> int {
    p1.0 + trunc_div((y - p1.1) * (p2.0 - p1.0), p2.1 - p1.1)
}

/// The edges of a closed vertex loop, in vertex order, the wrap-around edge
/// last.
pub open spec fn edges_of(vs: Seq<(int, int)>) -> Seq<Edge> {
    Seq::new(vs.len(), |i: int| (vs[i], vs[(i + 1) % (vs.len() as int)]))
}

/// The crossing x coordinates of the given edges at scanline `y`, in edge
/// order.
pub open spec fn crossings_of_edges(es: Seq<Edge>, y: int) -> Seq<int>
    decreases es.len(),
{
    if es.len() == 0 {
        Seq::empty()
    } else {
        (if is_crossing(es[0].0, es[0].1, y) {
            seq![cross_x(es[0].0, es[0].1, y)]
        } else {
            Seq::<int>::empty()
        }) + crossings_of_edges(es.drop_first(), y)
    }
}

/// The crossing x coordinates of a closed vertex loop at scanline `y`.
pub open spec fn crossings(vs: Seq<(int, int)>, y: int) -> Seq<int> {
    crossings_of_edges(edges_of(vs), y)
}

/// Ascending order.
pub open spec fn sorted_asc(s: Seq<int>) -> bool {
    forall|i: int, j: int| 0 <= i < j < s.len() ==> s[i] <= s[j]
}

/// Insertion into an ascending sequence, before the first element that is
/// not smaller.
pub open spec fn insert_sorted(s: Seq<int>, v: int) -> Seq<int>
    decreases s.len(),
{
    if s.len() == 0 {
        seq![v]
    } else if v <= s[0] {
        seq![v] + s
    } else {
        seq![s[0]] + insert_sorted(s.drop_first(), v)
    }
}

/// Insertion sort of a sequence, inserting left to right.
pub open spec fn isort(s: Seq<int>) -> Seq<int>
    decreases s.len(),
{
    if s.len() == 0 {
        Seq::empty()
    } else {
        insert_sorted(isort(s.drop_last()), s.last())
    }
}

/// The sorted crossing x coordinates of the loop at scanline `y`.
pub open spec fn row_hits(vs: Seq<(int, int)>, y: int) -> Seq<int> {
    isort(crossings(vs, y))
}

/// `x` lies in one of the first `n` consecutively paired spans of the
/// ascending `xs`: some pair `(xs[j], xs[j + 1])` with even `j < n` bounds
/// it. An unpaired last element bounds nothing.
pub open spec fn in_spans_upto(xs: Seq<int>, x: int, n: int) -> bool {
    exists|j: int|
        #![trigger xs[j]]
        0 <= j && j % 2 == 0 && j + 1 < n && j + 1 < xs.len() && xs[j] <= x <= xs[j + 1]
}

/// `x` lies in one of the consecutively paired spans of the ascending `xs`.
pub open spec fn in_spans(xs: Seq<int>, x: int) -> bool {
    in_spans_upto(xs, x, xs.len() as int)
}

/// The even-odd fill: the cell `(x, y)` is painted exactly when the loop has
/// at least three vertices and `x` lies in a paired span of the sorted
/// crossings of scanline `y`. Fewer than three vertices paint nothing.
pub open spec fn filled(vs: Seq<(int, int)>, x: int, y: int) -> bool {
    vs.len() >= 3 && in_spans(row_hits(vs, y), x)
}

/// Crossings distribute over edge concatenation.
pub proof fn lemma_crossings_concat(es1: Seq<Edge>, es2: Seq<Edge>, y: int)
    ensures
        crossings_of_edges(es1 + es2, y) == crossings_of_edges(es1, y) + crossings_of_edges(
            es2,
            y,
        ),
    decreases es1.len(),
{
    if es1.len() == 0 {
        assert(es1 + es2 =~= es2);
        assert(crossings_of_edges(es1, y) + crossings_of_edges(es2, y) =~= crossings_of_edges(
            es2,
            y,
        ));
    } else {
        assert((es1 + es2).len() > 0);
        assert((es1 + es2)[0] == es1[0]);
        assert((es1 + es2).drop_first() =~= es1.drop_first() + es2);
        lemma_crossings_concat(es1.drop_first(), es2, y);
        assert(crossings_of_edges(es1 + es2, y) =~= crossings_of_edges(es1, y)
            + crossings_of_edges(es2, y));
    }
}

/// Edges that all fail the crossing test contribute no crossings.
pub proof fn lemma_crossings_none(es: Seq<Edge>, y: int)
    requires
        forall|i: int| 0 <= i < es.len() ==> !is_crossing((#[trigger] es[i]).0, es[i].1, y),
    ensures
        crossings_of_edges(es, y) == Seq::<int>::empty(),
    decreases es.len(),
{
    if es.len() > 0 {
        lemma_crossings_none(es.drop_first(), y);
        assert(crossings_of_edges(es, y) =~= Seq::<int>::empty());
    }
}

/// Inserting `v` at the position found by a linear scan of an ascending
/// sequence is `insert_sorted`, and keeps the sequence ascending.
pub proof fn lemma_insert_sorted_at(s: Seq<int>, v: int, idx: int)
    requires
        sorted_asc(s),
        0 <= idx <= s.len(),
        forall|j: int| 0 <= j < idx ==> s[j] < v,
        idx < s.len() ==> v <= s[idx],
    ensures
        insert_sorted(s, v) == s.insert(idx, v),
        sorted_asc(s.insert(idx, v)),
        s.insert(idx, v).len() == s.len() + 1,
    decreases idx,
{
    if idx == 0 {
        assert(insert_sorted(s, v) =~= s.insert(0, v));
    } else {
        lemma_insert_sorted_at(s.drop_first(), v, idx - 1);
        assert(s.drop_first().insert(idx - 1, v) =~= s.insert(idx, v).drop_first());
        assert(insert_sorted(s, v) =~= s.insert(idx, v));
    }
    let t = s.insert(idx, v);
    assert forall|i: int, j: int| 0 <= i < j < t.len() implies t[i] <= t[j] by {
        assert(forall|k: int| 0 <= k < idx ==> t[k] == s[k]);
        assert(t[idx] == v);
        assert(forall|k: int| idx < k < t.len() ==> t[k] == s[k - 1]);
    }
}

/// When an edge crosses a scanline, truncating interpolation lands between
/// the endpoints' x coordinates.
pub proof fn lemma_cross_x_between(p1: (int, int), p2: (int, int), y: int)
    requires
        is_crossing(p1, p2, y),
    ensures
        p1.0 <= p2.0 ==> p1.0 <= cross_x(p1, p2, y) <= p2.0,
        p2.0 <= p1.0 ==> p2.0 <= cross_x(p1, p2, y) <= p1.0,
{
    let t = y - p1.1;
    let d = p2.1 - p1.1;
    let dx = p2.0 - p1.0;
    let a = t * dx;
    let ut = abs_i(t);
    let ud = abs_i(d);
    let ux = abs_i(dx);
    let ua = abs_i(a);
    assert(d != 0);
    assert(ut <= ud);
    assert((t >= 0 && dx >= 0 ==> a >= 0) && (t >= 0 && dx <= 0 ==> a <= 0) && (t <= 0 && dx >= 0
        ==> a <= 0) && (t <= 0 && dx <= 0 ==> a >= 0)) by (nonlinear_arith)
        requires
            a == t * dx,
    ;
    assert(ua == ut * ux) by (nonlinear_arith)
        requires
            a == t * dx,
            (t < 0 ==> ut == -t),
            (t >= 0 ==> ut == t),
            (dx < 0 ==> ux == -dx),
            (dx >= 0 ==> ux == dx),
            (a < 0 ==> ua == -a),
            (a >= 0 ==> ua == a),
    ;
    assert(ut * ux <= ud * ux) by (nonlinear_arith)
        requires
            ut <= ud,
            ux >= 0,
    ;
    vstd::arithmetic::div_mod::lemma_div_is_ordered(ua, ud * ux, ud);
    vstd::arithmetic::div_mod::lemma_div_multiples_vanish(ux, ud);
    vstd::arithmetic::div_mod::lemma_div_pos_is_pos(ua, ud);
    vstd::arithmetic::div_mod::lemma_div_multiples_vanish(0, ud);
    assert(0 <= ua / ud <= ux);
    assert(cross_x(p1, p2, y) == p1.0 + trunc_div(a, d));
}

/// Every crossing of edges whose endpoint x coordinates all lie in
/// `[lo, hi]` lies in `[lo, hi]` itself.
pub proof fn lemma_crossings_bounded(es: Seq<Edge>, y: int, lo: int, hi: int)
    requires
        forall|i: int|
            0 <= i < es.len() ==> lo <= (#[trigger] es[i]).0.0 <= hi && lo <= es[i].1.0 <= hi,
    ensures
        forall|t: int|
            0 <= t < crossings_of_edges(es, y).len() ==> lo <= #[trigger] crossings_of_edges(
                es,
                y,
            )[t] <= hi,
    decreases es.len(),
{
    if es.len() > 0 {
        lemma_crossings_bounded(es.drop_first(), y, lo, hi);
        let head = if is_crossing(es[0].0, es[0].1, y) {
            seq![cross_x(es[0].0, es[0].1, y)]
        } else {
            Seq::<int>::empty()
        };
        let rest = crossings_of_edges(es.drop_first(), y);
        if is_crossing(es[0].0, es[0].1, y) {
            lemma_cross_x_between(es[0].0, es[0].1, y);
        }
        assert(crossings_of_edges(es, y) == head + rest);
        assert forall|t: int| 0 <= t < crossings_of_edges(es, y).len() implies lo
            <= #[trigger] crossings_of_edges(es, y)[t] <= hi by {
            if t < head.len() {
                assert(crossings_of_edges(es, y)[t] == head[0]);
            } else {
                assert(crossings_of_edges(es, y)[t] == rest[t - head.len()]);
            }
        }
    }
}

/// Sorted insertion keeps all elements within any interval that contains
/// both the sequence and the inserted value.
pub proof fn lemma_insert_sorted_bounded(s: Seq<int>, v: int, lo: int, hi: int)
    requires
        forall|t: int| 0 <= t < s.len() ==> lo <= #[trigger] s[t] <= hi,
        lo <= v <= hi,
    ensures
        forall|t: int|
            0 <= t < insert_sorted(s, v).len() ==> lo <= #[trigger] insert_sorted(s, v)[t] <= hi,
    decreases s.len(),
{
    if s.len() == 0 {
        assert(insert_sorted(s, v) == seq![v]);
    } else if v <= s[0] {
        assert(insert_sorted(s, v) == seq![v] + s);
        assert forall|t: int| 0 <= t < insert_sorted(s, v).len() implies lo <= #[trigger]
        insert_sorted(s, v)[t] <= hi by {
            if t > 0 {
                assert(insert_sorted(s, v)[t] == s[t - 1]);
            }
        }
    } else {
        lemma_insert_sorted_bounded(s.drop_first(), v, lo, hi);
        let rest = insert_sorted(s.drop_first(), v);
        assert(insert_sorted(s, v) == seq![s[0]] + rest);
        assert forall|t: int| 0 <= t < insert_sorted(s, v).len() implies lo <= #[trigger]
        insert_sorted(s, v)[t] <= hi by {
            if t > 0 {
                assert(insert_sorted(s, v)[t] == rest[t - 1]);
            }
        }
    }
}

/// Sorting keeps all elements within any interval that contains the
/// sequence.
pub proof fn lemma_isort_bounded(s: Seq<int>, lo: int, hi: int)
    requires
        forall|t: int| 0 <= t < s.len() ==> lo <= #[trigger] s[t] <= hi,
    ensures
        forall|t: int| 0 <= t < isort(s).len() ==> lo <= #[trigger] isort(s)[t] <= hi,
    decreases s.len(),
{
    if s.len() > 0 {
        lemma_isort_bounded(s.drop_last(), lo, hi);
        lemma_insert_sorted_bounded(isort(s.drop_last()), s.last(), lo, hi);
    }
}

/// Sorted insertion adds exactly the inserted value: the multiset grows by
/// `v` and nothing else.
pub proof fn lemma_insert_sorted_multiset(s: Seq<int>, v: int)
    ensures
        insert_sorted(s, v).to_multiset() == s.to_multiset().insert(v),
        insert_sorted(s, v).len() == s.len() + 1,
    decreases s.len(),
{
    broadcast use vstd::seq_lib::group_to_multiset_ensures;

    if s.len() == 0 {
        assert(seq![v] =~= Seq::<int>::empty().push(v));
        assert(insert_sorted(s, v).to_multiset() =~= s.to_multiset().insert(v));
    } else if v <= s[0] {
        vstd::seq_lib::lemma_multiset_commutative(seq![v], s);
        assert(seq![v] =~= Seq::<int>::empty().push(v));
        assert(insert_sorted(s, v).to_multiset() =~= s.to_multiset().insert(v));
    } else {
        lemma_insert_sorted_multiset(s.drop_first(), v);
        vstd::seq_lib::lemma_multiset_commutative(seq![s[0]], insert_sorted(s.drop_first(), v));
        vstd::seq_lib::lemma_multiset_commutative(seq![s[0]], s.drop_first());
        assert(s =~= seq![s[0]] + s.drop_first());
        assert(seq![s[0]] =~= Seq::<int>::empty().push(s[0]));
        assert(insert_sorted(s, v).to_multiset() =~= s.to_multiset().insert(v));
    }
}

/// Sorted insertion into an ascending sequence stays ascending.
pub proof fn lemma_insert_sorted_sorted(s: Seq<int>, v: int)
    requires
        sorted_asc(s),
    ensures
        sorted_asc(insert_sorted(s, v)),
    decreases s.len(),
{
    broadcast use vstd::seq_lib::group_to_multiset_ensures;

    if s.len() == 0 {
    } else if v <= s[0] {
        let r = seq![v] + s;
        assert forall|i: int, j: int| 0 <= i < j < r.len() implies r[i] <= r[j] by {
            if i > 0 {
                assert(r[i] == s[i - 1]);
                assert(r[j] == s[j - 1]);
            } else {
                assert(r[j] == s[j - 1]);
                assert(v <= s[0] <= s[j - 1]);
            }
        }
    } else {
        lemma_insert_sorted_sorted(s.drop_first(), v);
        lemma_insert_sorted_multiset(s.drop_first(), v);
        let rest = insert_sorted(s.drop_first(), v);
        let r = seq![s[0]] + rest;
        assert forall|i: int, j: int| 0 <= i < j < r.len() implies r[i] <= r[j] by {
            if i > 0 {
                assert(r[i] == rest[i - 1]);
                assert(r[j] == rest[j - 1]);
            } else {
                assert(r[j] == rest[j - 1]);
                let e = rest[j - 1];
                assert(rest.to_multiset().count(e) > 0);
                assert(rest.to_multiset() == s.drop_first().to_multiset().insert(v));
                if e != v {
                    assert(s.drop_first().to_multiset().count(e) > 0);
                    assert(s.drop_first().contains(e));
                    let w = choose|w: int| 0 <= w < s.drop_first().len() && s.drop_first()[w] == e;
                    assert(s[0] <= s[w + 1]);
                } else {
                    assert(s[0] <= v);
                }
            }
        }
    }
}

/// Insertion sort returns an ascending rearrangement: the same multiset of
/// values, in order.
pub proof fn lemma_isort_ensures(s: Seq<int>)
    ensures
        sorted_asc(isort(s)),
        isort(s).to_multiset() == s.to_multiset(),
        isort(s).len() == s.len(),
    decreases s.len(),
{
    broadcast use vstd::seq_lib::group_to_multiset_ensures;

    if s.len() > 0 {
        lemma_isort_ensures(s.drop_last());
        lemma_insert_sorted_sorted(isort(s.drop_last()), s.last());
        lemma_insert_sorted_multiset(isort(s.drop_last()), s.last());
        assert(s =~= s.drop_last().push(s.last()));
        assert(isort(s).to_multiset() =~= s.to_multiset());
    }
}

/// Two sequences with the same values sort to the same ascending sequence:
/// the ascending rearrangement of a multiset is unique.
pub proof fn lemma_isort_unique(s1: Seq<int>, s2: Seq<int>)
    requires
        s1.to_multiset() == s2.to_multiset(),
    ensures
        isort(s1) == isort(s2),
{
    lemma_isort_ensures(s1);
    lemma_isort_ensures(s2);
    let leq = |x: int, y: int| x <= y;
    assert(vstd::relations::sorted_by(isort(s1), leq));
    assert(vstd::relations::sorted_by(isort(s2), leq));
    assert(vstd::relations::total_ordering(leq)) by {
        assert(vstd::relations::reflexive(leq));
        assert(vstd::relations::antisymmetric(leq));
        assert(vstd::relations::transitive(leq));
        assert(vstd::relations::strongly_connected(leq));
    }
    vstd::seq_lib::lemma_sorted_unique(isort(s1), isort(s2), leq);
    assert(isort(s1) =~= isort(s2));
}

/// The integer view of a vector of machine integers.
pub open spec fn int_view(s: Seq<i64>) -> Seq<int> {
    s.map_values(|v: i64| v as int)
}

/// Truncating 64-bit division, matching `trunc_div`. The quotient's
/// magnitude never exceeds the dividend's.
fn trunc_div_i64(a: i64, b: i64) -> (q: i64)
    requires
        b != 0,
        i64::MIN < a,
        i64::MIN < b,
    ensures
        q as int == trunc_div(a as int, b as int),
        abs_i(q as int) <= abs_i(a as int),
{
    let ua: u64 = if a < 0 {
        (-a) as u64
    } else {
        a as u64
    };
    let ub: u64 = if b < 0 {
        (-b) as u64
    } else {
        b as u64
    };
    proof {
        assert(ua as int == abs_i(a as int));
        assert(ub as int == abs_i(b as int));
        assert(ub >= 1);
        vstd::arithmetic::div_mod::lemma_div_pos_is_pos(ua as int, ub as int);
        vstd::arithmetic::div_mod::lemma_div_basics_5(ua as int, ub as int);
    }
    let uq: u64 = ua / ub;
    if (a < 0) != (b < 0) {
        -(uq as i64)
    } else {
        uq as i64
    }
}

/// The sorted crossing x coordinates of the closed loop over `points` at
/// scanline `y`, smallest first.
pub fn row_crossings(points: &Vec<Point>, y: i64) -> (hits: Vec<i64>)
    requires
        forall|i: int| 0 <= i < points@.len() ==> in_coord_range(#[trigger] pts(points@)[i]),
        -0x4000_0000 <= y <= 0x4000_0000,
    ensures
        int_view(hits@) == row_hits(pts(points@), y as int),
        sorted_asc(int_view(hits@)),
        forall|t: int|
            0 <= t < hits@.len() ==> -0x5000_0000_0000_0000 <= #[trigger] hits@[t]
                <= 0x5000_0000_0000_0000,
{
    let ghost vs = pts(points@);
    let n = points.len();
    let mut hits: Vec<i64> = Vec::new();
    let mut i: usize = 0;
    proof {
        assert(edges_of(vs).take(0) =~= Seq::<Edge>::empty());
    }
    while i < n
        invariant
            n == points@.len(),
            vs == pts(points@),
            forall|i: int| 0 <= i < points@.len() ==> in_coord_range(#[trigger] pts(points@)[i]),
            -0x4000_0000 <= y <= 0x4000_0000,
            i <= n,
            sorted_asc(int_view(hits@)),
            int_view(hits@) == isort(crossings_of_edges(edges_of(vs).take(i as int), y as int)),
            forall|t: int|
                0 <= t < hits@.len() ==> -0x5000_0000_0000_0000 <= #[trigger] hits@[t]
                    <= 0x5000_0000_0000_0000,
        decreases n - i,
    {
        let ghost done = crossings_of_edges(edges_of(vs).take(i as int), y as int);
        let p1 = points[i];
        let p2 = points[(i + 1) % n];
        let p1x: i64 = p1.x as i64;
        let p1y: i64 = p1.y as i64;
        let p2x: i64 = p2.x as i64;
        let p2y: i64 = p2.y as i64;
        proof {
            assert(pt(p1) == vs[i as int]);
            assert(pt(p2) == vs[(i as int + 1) % (vs.len() as int)]);
            assert(edges_of(vs)[i as int] == (vs[i as int], vs[(i as int + 1) % (vs.len()
                as int)]));
        }
        if (p1y <= y && p2y > y) || (p2y <= y && p1y > y) {
            proof {
                assert(-0x4000_0000_0000_0000 <= (y - p1y) as int * (p2x - p1x) as int
                    <= 0x4000_0000_0000_0000) by (nonlinear_arith)
                    requires
                        -0x8000_0000 <= (y - p1y) as int <= 0x8000_0000,
                        -0x8000_0000 <= (p2x - p1x) as int <= 0x8000_0000,
                ;
            }
            let num: i64 = (y - p1y) * (p2x - p1x);
            let den: i64 = p2y - p1y;
            let q = trunc_div_i64(num, den);
            let x: i64 = p1x + q;
            proof {
                assert(x as int == cross_x(vs[i as int], vs[(i as int + 1) % (vs.len() as int)],
                    y as int));
            }
            let mut idx: usize = 0;
            while idx < hits.len() && hits[idx] < x
                invariant
                    idx <= hits@.len(),
                    forall|j: int| 0 <= j < idx ==> int_view(hits@)[j] < x as int,
                decreases hits@.len() - idx,
            {
                idx = idx + 1;
            }
            proof {
                lemma_insert_sorted_at(int_view(hits@), x as int, idx as int);
            }
            let ghost before = int_view(hits@);
            let ghost before64 = hits@;
            proof {
                assert(-0x5000_0000_0000_0000 <= x <= 0x5000_0000_0000_0000);
            }
            hits.insert(idx, x);
            proof {
                assert(int_view(hits@) =~= before.insert(idx as int, x as int));
                assert forall|t: int|
                    0 <= t < hits@.len() implies -0x5000_0000_0000_0000 <= #[trigger] hits@[t]
                    <= 0x5000_0000_0000_0000 by {
                    if t < idx as int {
                        assert(hits@[t] == before64[t]);
                    } else if t == idx as int {
                        assert(hits@[t] == x);
                    } else {
                        assert(hits@[t] == before64[t - 1]);
                    }
                }
            }
        }
        proof {
            let es = edges_of(vs);
            assert(es.take(i as int + 1) =~= es.take(i as int) + seq![es[i as int]]);
            lemma_crossings_concat(es.take(i as int), seq![es[i as int]], y as int);
            assert(seq![es[i as int]].drop_first() =~= Seq::<Edge>::empty());
            assert(crossings_of_edges(Seq::<Edge>::empty(), y as int) =~= Seq::<int>::empty());
            if is_crossing(vs[i as int], vs[(i as int + 1) % (vs.len() as int)], y as int) {
                let xv = cross_x(vs[i as int], vs[(i as int + 1) % (vs.len() as int)], y as int);
                assert(crossings_of_edges(seq![es[i as int]], y as int) =~= seq![xv]);
                assert(crossings_of_edges(es.take(i as int + 1), y as int) =~= done + seq![xv]);
                assert((done + seq![xv]).drop_last() =~= done);
                assert((done + seq![xv]).last() == xv);
            } else {
                assert(crossings_of_edges(seq![es[i as int]], y as int) =~= Seq::<int>::empty());
                assert(crossings_of_edges(es.take(i as int + 1), y as int) =~= done);
            }
        }
        i = i + 1;
    }
    proof {
        assert(edges_of(vs).take(n as int) =~= edges_of(vs));
    }
    hits
}

/// Fills the interior of the closed polygon over `points` with `color`,
/// scanline by scanline under the even-odd rule, clipping per pixel. A
/// degenerate input of fewer than three vertices paints nothing and is no
/// error: the canvas is left unchanged.
pub fn fill_polygon(canvas: &mut Canvas, points: &Vec<Point>, color: Color)
    requires
        forall|i: int| 0 <= i < points@.len() ==> in_coord_range(#[trigger] pts(points@)[i]),
    ensures
        canvas_dims(*final(canvas)) == canvas_dims(*old(canvas)),
        forall|k: (int, int)|
            in_bounds(k, canvas_dims(*old(canvas))) && filled(pts(points@), k.0, k.1) ==> (
            #[trigger] canvas_pixels(*final(canvas))[k]) == rgb(color),
        forall|k: (int, int)|
            !(in_bounds(k, canvas_dims(*old(canvas))) && filled(pts(points@), k.0, k.1)) ==> (
            #[trigger] canvas_pixels(*final(canvas))[k]) == canvas_pixels(*old(canvas))[k],
        forall|k: (int, int)|
            #[trigger] canvas_pixels(*final(canvas)).contains_key(k) <==> (canvas_pixels(
                *old(canvas),
            ).contains_key(k) || (in_bounds(k, canvas_dims(*old(canvas))) && filled(
                pts(points@),
                k.0,
                k.1,
            ))),
{
    let ghost vs = pts(points@);
    let ghost dims = canvas_dims(*old(canvas));
    let ghost pix0 = canvas_pixels(*old(canvas));
    let ghost c = rgb(color);
    if points.len() < 3 {
        return ;
    }
    let n = points.len();
    proof {
        assert(in_coord_range(pts(points@)[0]));
        assert(pt(points@[0]) == vs[0]);
    }
    let mut min_y: i64 = points[0].y as i64;
    let mut max_y: i64 = points[0].y as i64;
    let mut i: usize = 1;
    while i < n
        invariant
            n == points@.len(),
            1 <= i <= n,
            vs == pts(points@),
            forall|t: int| 0 <= t < points@.len() ==> in_coord_range(#[trigger] pts(points@)[t]),
            -0x2000_0000 <= min_y <= 0x2000_0000,
            -0x2000_0000 <= max_y <= 0x2000_0000,
            forall|t: int| 0 <= t < i ==> min_y as int <= (#[trigger] vs[t]).1 <= max_y as int,
        decreases n - i,
    {
        let py = points[i].y as i64;
        proof {
            assert(pt(points@[i as int]) == vs[i as int]);
        }
        if py < min_y {
            min_y = py;
        }
        if py > max_y {
            max_y = py;
        }
        i = i + 1;
    }
    proof {
        assert forall|k: (int, int)| k.1 < min_y as int || k.1 > max_y as int implies !filled(
            vs,
            k.0,
            k.1,
        ) by {
            let es = edges_of(vs);
            assert forall|t: int| 0 <= t < es.len() implies !is_crossing(
                (#[trigger] es[t]).0,
                es[t].1,
                k.1,
            ) by {
                assert(es[t].0 == vs[t]);
                assert(es[t].1 == vs[(t + 1) % (vs.len() as int)]);
                assert(0 <= (t + 1) % (vs.len() as int) < vs.len());
            }
            lemma_crossings_none(es, k.1);
            assert(row_hits(vs, k.1) =~= Seq::<int>::empty());
        }
    }
    proof {
        assert(min_y as int <= vs[0].1 <= max_y as int);
    }
    let mut y: i64 = min_y;
    while y <= max_y
        invariant
            n == points@.len(),
            n >= 3,
            vs == pts(points@),
            forall|t: int| 0 <= t < points@.len() ==> in_coord_range(#[trigger] pts(points@)[t]),
            dims == canvas_dims(*old(canvas)),
            pix0 == canvas_pixels(*old(canvas)),
            c == rgb(color),
            -0x2000_0000 <= min_y <= 0x2000_0000,
            -0x2000_0000 <= max_y <= 0x2000_0000,
            min_y <= y <= max_y + 1,
            forall|t: int| 0 <= t < n ==> min_y as int <= (#[trigger] vs[t]).1 <= max_y as int,
            forall|k: (int, int)| k.1 < min_y as int || k.1 > max_y as int ==> !filled(vs, k.0, k.1),
            canvas_dims(*canvas) == dims,
            forall|k: (int, int)|
                in_bounds(k, dims) && filled(vs, k.0, k.1) && k.1 < y as int ==> (
                #[trigger] canvas_pixels(*canvas)[k]) == c,
            forall|k: (int, int)|
                !(in_bounds(k, dims) && filled(vs, k.0, k.1) && k.1 < y as int) ==> (
                #[trigger] canvas_pixels(*canvas)[k]) == pix0[k],
            forall|k: (int, int)|
                #[trigger] canvas_pixels(*canvas).contains_key(k) <==> (pix0.contains_key(k) || (
                in_bounds(k, dims) && filled(vs, k.0, k.1) && k.1 < y as int)),
        decreases max_y + 1 - y,
    {
        let hits = row_crossings(points, y);
        let ghost xs = row_hits(vs, y as int);
        let mut j: usize = 0;
        while j + 1 < hits.len()
            invariant
                n == points@.len(),
                n >= 3,
                vs == pts(points@),
                dims == canvas_dims(*old(canvas)),
                pix0 == canvas_pixels(*old(canvas)),
                c == rgb(color),
                -0x2000_0000 <= y <= 0x2000_0000,
                int_view(hits@) == xs,
                xs == row_hits(vs, y as int),
                sorted_asc(xs),
                forall|t: int|
                    0 <= t < hits@.len() ==> -0x5000_0000_0000_0000 <= #[trigger] hits@[t]
                        <= 0x5000_0000_0000_0000,
                j % 2 == 0,
                j <= hits@.len() + 1,
                canvas_dims(*canvas) == dims,
                forall|k: (int, int)|
                    in_bounds(k, dims) && filled(vs, k.0, k.1) && k.1 < y as int ==> (
                    #[trigger] canvas_pixels(*canvas)[k]) == c,
                forall|k: (int, int)|
                    k.1 == y as int && in_bounds(k, dims) && in_spans_upto(xs, k.0, j as int)
                        ==> (#[trigger] canvas_pixels(*canvas)[k]) == c,
                forall|k: (int, int)|
                    !(in_bounds(k, dims) && filled(vs, k.0, k.1) && k.1 < y as int) && !(k.1
                        == y as int && in_bounds(k, dims) && in_spans_upto(xs, k.0, j as int))
                        ==> (#[trigger] canvas_pixels(*canvas)[k]) == pix0[k],
                forall|k: (int, int)|
                    #[trigger] canvas_pixels(*canvas).contains_key(k) <==> (pix0.contains_key(k)
                        || (in_bounds(k, dims) && filled(vs, k.0, k.1) && k.1 < y as int) || (k.1
                        == y as int && in_bounds(k, dims) && in_spans_upto(xs, k.0, j as int))),
            decreases hits@.len() - j,
        {
            let xa = hits[j];
            let xb = hits[j + 1];
            proof {
                assert(int_view(hits@)[j as int] == hits@[j as int] as int);
                assert(int_view(hits@)[j as int + 1] == hits@[j as int + 1] as int);
                assert(xa as int == xs[j as int]);
                assert(xb as int == xs[j as int + 1]);
            }
            let mut x: i64 = xa;
            while x <= xb
                invariant
                    dims == canvas_dims(*old(canvas)),
                    pix0 == canvas_pixels(*old(canvas)),
                    c == rgb(color),
                    vs == pts(points@),
                    -0x2000_0000 <= y <= 0x2000_0000,
                    xs == row_hits(vs, y as int),
                    j as int + 1 < xs.len(),
                    j % 2 == 0,
                    xa as int == xs[j as int],
                    xb as int == xs[j as int + 1],
                    -0x5000_0000_0000_0000 <= xa,
                    xb <= 0x5000_0000_0000_0000,
                    xa <= x <= xb + 1,
                    canvas_dims(*canvas) == dims,
                    forall|k: (int, int)|
                        in_bounds(k, dims) && filled(vs, k.0, k.1) && k.1 < y as int ==> (
                        #[trigger] canvas_pixels(*canvas)[k]) == c,
                    forall|k: (int, int)|
                        k.1 == y as int && in_bounds(k, dims) && (in_spans_upto(xs, k.0, j as int)
                            || (xa as int <= k.0 < x as int)) ==> (
                        #[trigger] canvas_pixels(*canvas)[k]) == c,
                    forall|k: (int, int)|
                        !(in_bounds(k, dims) && filled(vs, k.0, k.1) && k.1 < y as int) && !(k.1
                            == y as int && in_bounds(k, dims) && (in_spans_upto(
                            xs,
                            k.0,
                            j as int,
                        ) || (xa as int <= k.0 < x as int))) ==> (
                        #[trigger] canvas_pixels(*canvas)[k]) == pix0[k],
                    forall|k: (int, int)|
                        #[trigger] canvas_pixels(*canvas).contains_key(k) <==> (pix0.contains_key(
                            k,
                        ) || (in_bounds(k, dims) && filled(vs, k.0, k.1) && k.1 < y as int) || (
                        k.1 == y as int && in_bounds(k, dims) && (in_spans_upto(xs, k.0, j as int)
                            || (xa as int <= k.0 < x as int)))),
                decreases xb + 1 - x,
            {
                plot(canvas, x, y, color);
                x = x + 1;
            }
            j = j + 2;
            proof {
                assert forall|x0: int|
                    in_spans_upto(xs, x0, j as int) == (in_spans_upto(xs, x0, j as int - 2) || (
                    xa as int <= x0 <= xb as int)) by {
                    if in_spans_upto(xs, x0, j as int) {
                        let w = choose|w: int|
                            #![trigger xs[w]]
                             0 <= w && w % 2 == 0 && w + 1 < j as int && w + 1 < xs.len()
                                && xs[w] <= x0 <= xs[w + 1];
                        if w == j as int - 2 {
                            assert(xa as int <= x0 <= xb as int);
                        } else {
                            assert(w + 1 < j as int - 2);
                            assert(xs[w] <= x0 <= xs[w + 1]);
                        }
                    }
                    if in_spans_upto(xs, x0, j as int - 2) {
                        let w = choose|w: int|
                            #![trigger xs[w]]
                             0 <= w && w % 2 == 0 && w + 1 < j as int - 2 && w + 1 < xs.len()
                                && xs[w] <= x0 <= xs[w + 1];
                        assert(xs[w] <= x0 <= xs[w + 1]);
                        assert(in_spans_upto(xs, x0, j as int));
                    }
                    if xa as int <= x0 <= xb as int {
                        assert(xs[j as int - 2] <= x0 <= xs[j as int - 1]);
                        assert(in_spans_upto(xs, x0, j as int));
                    }
                }
            }
        }
        proof {
            assert forall|x0: int| in_spans(xs, x0) == in_spans_upto(xs, x0, j as int) by {
                if in_spans(xs, x0) {
                    let w = choose|w: int|
                        #![trigger xs[w]]
                         0 <= w && w % 2 == 0 && w + 1 < xs.len() && xs[w] <= x0 <= xs[w + 1];
                    assert(w + 1 < j as int);
                    assert(xs[w] <= x0 <= xs[w + 1]);
                    assert(in_spans_upto(xs, x0, j as int));
                }
                if in_spans_upto(xs, x0, j as int) {
                    let w = choose|w: int|
                        #![trigger xs[w]]
                         0 <= w && w % 2 == 0 && w + 1 < j as int && w + 1 < xs.len()
                            && xs[w] <= x0 <= xs[w + 1];
                    assert(xs[w] <= x0 <= xs[w + 1]);
                    assert(in_spans(xs, x0));
                }
            }
        }
        y = y + 1;
    }
}

} // verus!
