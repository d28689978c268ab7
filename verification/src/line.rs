//! Bresenham line rasterization, generalized to all octants: one stepping
//! loop over integer state, division free. `line_points` is the mathematical
//! sequence of grid points the segment visits, and `draw_line` paints exactly
//! those points, clipped per pixel.

use crate::canvas::{canvas_dims, canvas_pixels, paint_seq, plot, plot_spec, Canvas};
use crate::geom::{in_coord_range, pt, rgb, Color, Point};
use vstd::prelude::*;

verus! {

/// Absolute value of an integer.
pub open spec fn abs_i(v: int) -> int {
    if v < 0 {
        -v
    } else {
        v
    }
}

/// The absolute x distance of the segment: fixed over the whole walk.
pub open spec fn step_dx(a: (int, int), b: (int, int)) -> int {
    abs_i(b.0 - a.0)
}

/// The negated absolute y distance of the segment: fixed over the whole walk.
pub open spec fn step_dy(a: (int, int), b: (int, int)) -> int {
    -abs_i(b.1 - a.1)
}

/// The x step direction, toward the target. When the x coordinates are
/// equal the x branch never fires, so the value does not matter.
pub open spec fn step_sx(a: (int, int), b: (int, int)) -> int {
    if a.0 < b.0 {
        1
    } else {
        -1
    }
}

/// The y step direction, toward the target.
pub open spec fn step_sy(a: (int, int), b: (int, int)) -> int {
    if a.1 < b.1 {
        1
    } else {
        -1
    }
}

/// Well-formed intermediate state of the Bresenham walk toward `(tx, ty)`:
/// the remaining distances lie between zero and the segment's full extent,
/// and the error term carries its defining relation to them. Every state the
/// walk reaches satisfies this, and it forces the walk to end exactly on the
/// target.
pub open spec fn bres_wf(
    x: int,
    y: int,
    err: int,
    tx: int,
    ty: int,
    dx: int,
    dy: int,
    sx: int,
    sy: int,
) -> bool {
    &&& dx >= 0
    &&& dy <= 0
    &&& (sx == 1 || sx == -1)
    &&& (sy == 1 || sy == -1)
    &&& 0 <= sx * (tx - x) <= dx
    &&& 0 <= sy * (ty - y) <= -dy
    &&& err == dx + dy + (-dy) * (sx * (tx - x)) - dx * (sy * (ty - y))
}

/// One Bresenham step: the next `(x, y, err)` after the current point is
/// plotted. Both branches may fire in the same step (a diagonal move).
pub open spec fn bres_next(
    x: int,
    y: int,
    err: int,
    tx: int,
    ty: int,
    dx: int,
    dy: int,
    sx: int,
    sy: int,
) -> (int, int, int) {
    let e2 = 2 * err;
    let x1 = if e2 >= dy {
        x + sx
    } else {
        x
    };
    let erra = if e2 >= dy {
        err + dy
    } else {
        err
    };
    let y1 = if e2 <= dx {
        y + sy
    } else {
        y
    };
    let errb = if e2 <= dx {
        erra + dx
    } else {
        erra
    };
    (x1, y1, errb)
}

/// A step from a well-formed state that has not reached the target moves at
/// least one coordinate toward it, never past it, and keeps the state
/// well-formed.
pub proof fn lemma_bres_step(
    x: int,
    y: int,
    err: int,
    tx: int,
    ty: int,
    dx: int,
    dy: int,
    sx: int,
    sy: int,
)
    requires
        bres_wf(x, y, err, tx, ty, dx, dy, sx, sy),
        !(x == tx && y == ty),
    ensures
        ({
            let (x1, y1, e1) = bres_next(x, y, err, tx, ty, dx, dy, sx, sy);
            &&& bres_wf(x1, y1, e1, tx, ty, dx, dy, sx, sy)
            &&& abs_i(tx - x1) + abs_i(ty - y1) < abs_i(tx - x) + abs_i(ty - y)
        }),
{
    let rx = sx * (tx - x);
    let ry = sy * (ty - y);
    if sx == 1 {
        assert(rx == tx - x) by (nonlinear_arith)
            requires
                sx == 1,
                rx == sx * (tx - x),
        ;
    } else {
        assert(rx == x - tx) by (nonlinear_arith)
            requires
                sx == -1,
                rx == sx * (tx - x),
        ;
    }
    if sy == 1 {
        assert(ry == ty - y) by (nonlinear_arith)
            requires
                sy == 1,
                ry == sy * (ty - y),
        ;
    } else {
        assert(ry == y - ty) by (nonlinear_arith)
            requires
                sy == -1,
                ry == sy * (ty - y),
        ;
    }
    assert(rx >= 1 || ry >= 1);
    let e2 = 2 * err;
    let stepx = e2 >= dy;
    let stepy = e2 <= dx;
    assert(stepx || stepy);
    if rx == 0 && stepx {
        assert(false) by (nonlinear_arith)
            requires
                err == dx + dy + (-dy) * rx - dx * ry,
                rx == 0,
                ry >= 1,
                ry <= -dy,
                dx >= 0,
                dy <= 0,
                2 * err >= dy,
        ;
    }
    if ry == 0 && stepy {
        assert(false) by (nonlinear_arith)
            requires
                err == dx + dy + (-dy) * rx - dx * ry,
                ry == 0,
                rx >= 1,
                rx <= dx,
                dx >= 0,
                dy <= 0,
                2 * err <= dx,
        ;
    }
    let (x1, y1, e1) = bres_next(x, y, err, tx, ty, dx, dy, sx, sy);
    let rx1 = sx * (tx - x1);
    let ry1 = sy * (ty - y1);
    if stepx {
        assert(rx1 == rx - 1) by (nonlinear_arith)
            requires
                (sx == 1 || sx == -1),
                rx == sx * (tx - x),
                rx1 == sx * (tx - (x + sx)),
                x1 == x + sx,
        ;
    }
    if stepy {
        assert(ry1 == ry - 1) by (nonlinear_arith)
            requires
                (sy == 1 || sy == -1),
                ry == sy * (ty - y),
                ry1 == sy * (ty - (y + sy)),
                y1 == y + sy,
        ;
    }
    assert(e1 == dx + dy + (-dy) * rx1 - dx * ry1) by (nonlinear_arith)
        requires
            err == dx + dy + (-dy) * rx - dx * ry,
            rx1 == rx - (if stepx {
                1int
            } else {
                0int
            }),
            ry1 == ry - (if stepy {
                1int
            } else {
                0int
            }),
            e1 == err + (if stepx {
                dy
            } else {
                0int
            }) + (if stepy {
                dx
            } else {
                0int
            }),
    ;
    if sx == 1 {
        assert(rx1 == tx - x1) by (nonlinear_arith)
            requires
                sx == 1,
                rx1 == sx * (tx - x1),
        ;
    } else {
        assert(rx1 == x1 - tx) by (nonlinear_arith)
            requires
                sx == -1,
                rx1 == sx * (tx - x1),
        ;
    }
    if sy == 1 {
        assert(ry1 == ty - y1) by (nonlinear_arith)
            requires
                sy == 1,
                ry1 == sy * (ty - y1),
        ;
    } else {
        assert(ry1 == y1 - ty) by (nonlinear_arith)
            requires
                sy == -1,
                ry1 == sy * (ty - y1),
        ;
    }
}

/// The points the walk visits from state `(x, y, err)` up to and including
/// the target, in visiting order.
pub open spec fn bres_seq(
    x: int,
    y: int,
    err: int,
    tx: int,
    ty: int,
    dx: int,
    dy: int,
    sx: int,
    sy: int,
) -> Seq<(int, int)>
    decreases abs_i(tx - x) + abs_i(ty - y),
        when bres_wf(x, y, err, tx, ty, dx, dy, sx, sy)
        via bres_seq_decreases
{
    if x == tx && y == ty {
        seq![(x, y)]
    } else {
        let next = bres_next(x, y, err, tx, ty, dx, dy, sx, sy);
        seq![(x, y)] + bres_seq(next.0, next.1, next.2, tx, ty, dx, dy, sx, sy)
    }
}

#[via_fn]
proof fn bres_seq_decreases(
    x: int,
    y: int,
    err: int,
    tx: int,
    ty: int,
    dx: int,
    dy: int,
    sx: int,
    sy: int,
) {
    if !(x == tx && y == ty) {
        lemma_bres_step(x, y, err, tx, ty, dx, dy, sx, sy);
    }
}

/// The discrete segment from `a` to `b`, endpoints included: the points the
/// Bresenham walk visits when started at `a` with error `dx + dy`.
pub open spec fn line_points(a: (int, int), b: (int, int)) -> Seq<(int, int)> {
    bres_seq(
        a.0,
        a.1,
        step_dx(a, b) + step_dy(a, b),
        b.0,
        b.1,
        step_dx(a, b),
        step_dy(a, b),
        step_sx(a, b),
        step_sy(a, b),
    )
}

/// The walk's starting state is well-formed.
pub proof fn lemma_line_start_wf(a: (int, int), b: (int, int))
    ensures
        bres_wf(
            a.0,
            a.1,
            step_dx(a, b) + step_dy(a, b),
            b.0,
            b.1,
            step_dx(a, b),
            step_dy(a, b),
            step_sx(a, b),
            step_sy(a, b),
        ),
{
    let dx = step_dx(a, b);
    let dy = step_dy(a, b);
    let sx = step_sx(a, b);
    let sy = step_sy(a, b);
    assert(sx * (b.0 - a.0) == dx) by (nonlinear_arith)
        requires
            sx == (if a.0 < b.0 {
                1int
            } else {
                -1int
            }),
            dx == abs_i(b.0 - a.0),
            dx == (if b.0 - a.0 < 0 {
                -(b.0 - a.0)
            } else {
                b.0 - a.0
            }),
    ;
    assert(sy * (b.1 - a.1) == -dy) by (nonlinear_arith)
        requires
            sy == (if a.1 < b.1 {
                1int
            } else {
                -1int
            }),
            dy == -abs_i(b.1 - a.1),
            -dy == (if b.1 - a.1 < 0 {
                -(b.1 - a.1)
            } else {
                b.1 - a.1
            }),
    ;
    assert(dx + dy + (-dy) * dx - dx * (-dy) == dx + dy) by (nonlinear_arith);
}

/// In a well-formed state whose extents are bounded, the error term is
/// bounded, so the stepping arithmetic fits in 64 bits.
pub proof fn lemma_bres_err_bound(
    x: int,
    y: int,
    err: int,
    tx: int,
    ty: int,
    dx: int,
    dy: int,
    sx: int,
    sy: int,
)
    requires
        bres_wf(x, y, err, tx, ty, dx, dy, sx, sy),
        dx <= 0x4000_0000,
        -dy <= 0x4000_0000,
    ensures
        -0x3000_0000_0000_0000 <= err <= 0x3000_0000_0000_0000,
{
    let rx = sx * (tx - x);
    let ry = sy * (ty - y);
    assert(0 <= (-dy) * rx <= 0x1000_0000_0000_0000) by (nonlinear_arith)
        requires
            0 <= rx <= dx,
            0 <= -dy <= 0x4000_0000,
            dx <= 0x4000_0000,
    ;
    assert(0 <= dx * ry <= 0x1000_0000_0000_0000) by (nonlinear_arith)
        requires
            0 <= ry <= -dy,
            0 <= dx <= 0x4000_0000,
            -dy <= 0x4000_0000,
    ;
}

/// In a well-formed state the walker stands no farther from the target than
/// the segment's extent in either axis.
pub proof fn lemma_bres_range(
    x: int,
    y: int,
    err: int,
    tx: int,
    ty: int,
    dx: int,
    dy: int,
    sx: int,
    sy: int,
)
    requires
        bres_wf(x, y, err, tx, ty, dx, dy, sx, sy),
    ensures
        abs_i(tx - x) <= dx,
        abs_i(ty - y) <= -dy,
{
    let rx = sx * (tx - x);
    let ry = sy * (ty - y);
    if sx == 1 {
        assert(rx == tx - x) by (nonlinear_arith)
            requires
                sx == 1,
                rx == sx * (tx - x),
        ;
    } else {
        assert(rx == x - tx) by (nonlinear_arith)
            requires
                sx == -1,
                rx == sx * (tx - x),
        ;
    }
    if sy == 1 {
        assert(ry == ty - y) by (nonlinear_arith)
            requires
                sy == 1,
                ry == sy * (ty - y),
        ;
    } else {
        assert(ry == y - ty) by (nonlinear_arith)
            requires
                sy == -1,
                ry == sy * (ty - y),
        ;
    }
}

/// Draws the discrete segment from `p1` to `p2`, both endpoints included,
/// writing `color` at every visited point that lies on the canvas; points
/// off the canvas are skipped. The whole effect is `paint_seq` over
/// `line_points`.
pub fn draw_line(canvas: &mut Canvas, p1: Point, p2: Point, color: Color)
    requires
        in_coord_range(pt(p1)),
        in_coord_range(pt(p2)),
    ensures
        canvas_dims(*final(canvas)) == canvas_dims(*old(canvas)),
        canvas_pixels(*final(canvas)) == paint_seq(
            canvas_pixels(*old(canvas)),
            canvas_dims(*old(canvas)),
            line_points(pt(p1), pt(p2)),
            rgb(color),
        ),
{
    let ghost a = pt(p1);
    let ghost b = pt(p2);
    let ghost dims = canvas_dims(*old(canvas));
    let ghost c = rgb(color);
    let ghost pix0 = canvas_pixels(*old(canvas));
    let tx: i64 = p2.x as i64;
    let ty: i64 = p2.y as i64;
    let dxv: i64 = tx - (p1.x as i64);
    let dx: i64 = if dxv < 0 {
        -dxv
    } else {
        dxv
    };
    let sx: i64 = if p1.x < p2.x {
        1
    } else {
        -1
    };
    let dyv: i64 = ty - (p1.y as i64);
    let dy: i64 = if dyv < 0 {
        dyv
    } else {
        -dyv
    };
    let sy: i64 = if p1.y < p2.y {
        1
    } else {
        -1
    };
    let mut x: i64 = p1.x as i64;
    let mut y: i64 = p1.y as i64;
    let mut err: i64 = dx + dy;
    proof {
        lemma_line_start_wf(a, b);
    }
    loop
        invariant_except_break
            a == pt(p1),
            b == pt(p2),
            c == rgb(color),
            in_coord_range(a),
            in_coord_range(b),
            tx as int == b.0,
            ty as int == b.1,
            dx as int == step_dx(a, b),
            dy as int == step_dy(a, b),
            sx as int == step_sx(a, b),
            sy as int == step_sy(a, b),
            bres_wf(
                x as int,
                y as int,
                err as int,
                tx as int,
                ty as int,
                dx as int,
                dy as int,
                sx as int,
                sy as int,
            ),
            canvas_dims(*canvas) == dims,
            paint_seq(
                canvas_pixels(*canvas),
                dims,
                bres_seq(
                    x as int,
                    y as int,
                    err as int,
                    tx as int,
                    ty as int,
                    dx as int,
                    dy as int,
                    sx as int,
                    sy as int,
                ),
                c,
            ) == paint_seq(pix0, dims, line_points(a, b), c),
        ensures
            canvas_dims(*canvas) == dims,
            canvas_pixels(*canvas) == paint_seq(pix0, dims, line_points(a, b), c),
        decreases abs_i(tx as int - x as int) + abs_i(ty as int - y as int),
    {
        proof {
            lemma_bres_range(
                x as int,
                y as int,
                err as int,
                tx as int,
                ty as int,
                dx as int,
                dy as int,
                sx as int,
                sy as int,
            );
            lemma_bres_err_bound(
                x as int,
                y as int,
                err as int,
                tx as int,
                ty as int,
                dx as int,
                dy as int,
                sx as int,
                sy as int,
            );
        }
        let ghost sq = bres_seq(
            x as int,
            y as int,
            err as int,
            tx as int,
            ty as int,
            dx as int,
            dy as int,
            sx as int,
            sy as int,
        );
        let ghost pixtop = canvas_pixels(*canvas);
        plot(canvas, x, y, color);
        proof {
            assert(sq.len() > 0);
            assert(sq[0] == (x as int, y as int));
            assert(paint_seq(pixtop, dims, sq, c) == paint_seq(
                plot_spec(pixtop, dims, (x as int, y as int), c),
                dims,
                sq.drop_first(),
                c,
            ));
        }
        if x == tx && y == ty {
            proof {
                assert(sq =~= seq![(x as int, y as int)]);
                assert(sq.drop_first() =~= Seq::<(int, int)>::empty());
                assert(paint_seq(canvas_pixels(*canvas), dims, sq.drop_first(), c)
                    == canvas_pixels(*canvas));
            }
            break ;
        }
        let ghost pre = (x as int, y as int, err as int);
        proof {
            lemma_bres_step(
                pre.0,
                pre.1,
                pre.2,
                tx as int,
                ty as int,
                dx as int,
                dy as int,
                sx as int,
                sy as int,
            );
            let nx = bres_next(
                pre.0,
                pre.1,
                pre.2,
                tx as int,
                ty as int,
                dx as int,
                dy as int,
                sx as int,
                sy as int,
            );
            assert(sq.drop_first() =~= bres_seq(
                nx.0,
                nx.1,
                nx.2,
                tx as int,
                ty as int,
                dx as int,
                dy as int,
                sx as int,
                sy as int,
            ));
        }
        let e2: i64 = 2 * err;
        if e2 >= dy {
            err = err + dy;
            x = x + sx;
        }
        if e2 <= dx {
            err = err + dx;
            y = y + sy;
        }
        proof {
            assert((x as int, y as int, err as int) == bres_next(
                pre.0,
                pre.1,
                pre.2,
                tx as int,
                ty as int,
                dx as int,
                dy as int,
                sx as int,
                sy as int,
            ));
        }
    }
}

} // verus!
