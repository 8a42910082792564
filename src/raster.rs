//! Integer line rasterization (Bresenham, all octants).

use vstd::prelude::*;

verus! {

pub open spec fn abs_diff(a: i32, b: i32) -> int {
    if a <= b { b - a } else { a - b }
}

/// Steps taken from `from` towards `to` to reach `v`; negative where `v`
/// lies on the other side of `from`.
pub open spec fn progress(from: i32, to: i32, v: i32) -> int {
    if from < to { v - from } else { from - v }
}

/// Steps along the longer axis of the segment.
pub open spec fn major_len(ax: i32, ay: i32, bx: i32, by: i32) -> int {
    let dx = abs_diff(ax, bx);
    let dy = abs_diff(ay, by);
    if dx >= dy { dx } else { dy }
}

/// `p` lies in the segment's bounding box, on the way from `a` to `b`, and
/// no farther than half a pixel from the ideal line along the minor axis:
/// `2 * |dx * Y - dy * X| <= max(dx, dy)`, where `X` and `Y` are the steps
/// taken from `a` on each axis.
pub open spec fn near_segment(ax: i32, ay: i32, bx: i32, by: i32, p: (i32, i32)) -> bool {
    let dx = abs_diff(ax, bx);
    let dy = abs_diff(ay, by);
    let px = progress(ax, bx, p.0);
    let py = progress(ay, by, p.1);
    let f = dx * py - dy * px;
    &&& 0 <= px <= dx
    &&& 0 <= py <= dy
    &&& -major_len(ax, ay, bx, by) <= 2 * f <= major_len(ax, ay, bx, by)
}

/// From `p` to `q` is one step of the walk from `a` to `b`: each axis
/// moves by at most one pixel, towards `b`, and the longer axis always moves.
pub open spec fn unit_step(ax: i32, ay: i32, bx: i32, by: i32, p: (i32, i32), q: (i32, i32)) -> bool {
    let mx = progress(ax, bx, q.0) - progress(ax, bx, p.0);
    let my = progress(ay, by, q.1) - progress(ay, by, p.1);
    &&& 0 <= mx <= 1
    &&& 0 <= my <= 1
    &&& if abs_diff(ax, bx) >= abs_diff(ay, by) { mx == 1 } else { my == 1 }
}

/// The pixels of the segment from `(ax, ay)` to `(bx, by)`, in order from the
/// first end to the second, both ends included.
pub fn line(ax: i32, ay: i32, bx: i32, by: i32) -> (pts: Vec<(i32, i32)>)
    ensures
        pts@.len() == major_len(ax, ay, bx, by) + 1,
        pts@[0] == (ax, ay),
        pts@.last() == (bx, by),
        forall|i: int| 0 <= i < pts@.len() ==> near_segment(ax, ay, bx, by, #[trigger] pts@[i]),
        forall|i: int|
            0 <= i < pts@.len() - 1 ==> #[trigger] unit_step(ax, ay, bx, by, pts@[i], pts@[i + 1]),
{
    let dx: i64 = if ax <= bx { bx as i64 - ax as i64 } else { ax as i64 - bx as i64 };
    let dy: i64 = if ay <= by { by as i64 - ay as i64 } else { ay as i64 - by as i64 };
    let sx: i32 = if ax < bx { 1 } else { -1 };
    let sy: i32 = if ay < by { 1 } else { -1 };
    let ghost m = major_len(ax, ay, bx, by);
    let mut err: i64 = dx - dy;
    let mut x: i32 = ax;
    let mut y: i32 = ay;
    let mut pts: Vec<(i32, i32)> = Vec::new();
    let ghost mut f: int = 0;
    assert(dx * 0 - dy * 0 == 0) by (nonlinear_arith);
    while x != bx || y != by
        invariant
            dx == abs_diff(ax, bx),
            dy == abs_diff(ay, by),
            m == major_len(ax, ay, bx, by),
            sx == (if ax < bx { 1int } else { -1int }),
            sy == (if ay < by { 1int } else { -1int }),
            0 <= progress(ax, bx, x) <= dx,
            0 <= progress(ay, by, y) <= dy,
            f == dx * progress(ay, by, y) - dy * progress(ax, bx, x),
            -m <= 2 * f <= m,
            err == f + dx - dy,
            pts@.len() == if dx >= dy { progress(ax, bx, x) } else { progress(ay, by, y) },
            pts@.len() > 0 ==> pts@[0] == (ax, ay),
            pts@.len() == 0 ==> x == ax && y == ay,
            pts@.len() > 0 ==> unit_step(ax, ay, bx, by, pts@.last(), (x, y)),
            forall|i: int| 0 <= i < pts@.len() ==> near_segment(ax, ay, bx, by, #[trigger] pts@[i]),
            forall|i: int|
                0 <= i < pts@.len() - 1 ==> #[trigger] unit_step(ax, ay, bx, by, pts@[i], pts@[i + 1]),
        decreases (dx - progress(ax, bx, x)) + (dy - progress(ay, by, y)),
    {
        let ghost px = progress(ax, bx, x);
        let ghost py = progress(ay, by, y);
        let ghost prev = pts@;
        pts.push((x, y));
        assert(near_segment(ax, ay, bx, by, (x, y)));
        assert(forall|i: int| 0 <= i < prev.len() ==> pts@[i] == prev[i]);
        let e2: i64 = 2 * err;
        let step_x = e2 >= -dy;
        let step_y = e2 <= dx;
        proof {
            if px == dx {
                assert(dx * py - dy * px <= -dx) by (nonlinear_arith)
                    requires px == dx, py < dy, dx >= 0;
            }
            if py == dy {
                assert(dx * py - dy * px >= dy) by (nonlinear_arith)
                    requires py == dy, px < dx, dy >= 0;
            }
        }
        if step_x {
            assert(px < dx);
            x = x + sx;
            err = err - dy;
            proof {
                assert(dx * py - dy * (px + 1) == f - dy) by (nonlinear_arith)
                    requires f == dx * py - dy * px;
                f = f - dy;
            }
        }
        if step_y {
            assert(py < dy);
            y = y + sy;
            err = err + dx;
            proof {
                let qx = progress(ax, bx, x);
                assert(dx * (py + 1) - dy * qx == dx * py - dy * qx + dx) by (nonlinear_arith);
                assert(f == dx * py - dy * qx);
                f = f + dx;
            }
        }
    }
    let ghost prev = pts@;
    pts.push((x, y));
    assert(near_segment(ax, ay, bx, by, (x, y)));
    assert(forall|i: int| 0 <= i < prev.len() ==> pts@[i] == prev[i]);
    pts
}

} // verus!
