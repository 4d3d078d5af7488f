//! The visibility subsystem: a radius-bounded field-of-view sweep that
//! respects opacity and the view-blocking layer, per-occupant viewsheds
//! with dirty tracking, and the observer's reveal bookkeeping with
//! opportunistic discovery of hidden occupants.

use vstd::prelude::*;
use crate::grid::{Grid, Position};
use crate::rng::roll;

verus! {

/// Absolute value.
pub open spec fn absi(v: int) -> int {
    if v >= 0 {
        v
    } else {
        -v
    }
}

/// Sign, in {-1, 0, 1}.
pub open spec fn sgn(v: int) -> int {
    if v > 0 {
        1
    } else if v < 0 {
        -1
    } else {
        0
    }
}

/// Number of steps of the discrete sight line from the observer to the
/// target (one step per dominant-axis cell).
pub open spec fn los_steps(ox: int, oy: int, tx: int, ty: int) -> int {
    if absi(tx - ox) >= absi(ty - oy) {
        absi(tx - ox)
    } else {
        absi(ty - oy)
    }
}

/// The x coordinate of the `k`-th cell of the sight line.
pub open spec fn los_x(ox: int, oy: int, tx: int, ty: int, k: int) -> int {
    let adx = absi(tx - ox);
    let ady = absi(ty - oy);
    if adx >= ady {
        ox + k * sgn(tx - ox)
    } else {
        ox + sgn(tx - ox) * ((2 * k * adx + ady) / (2 * ady))
    }
}

/// The y coordinate of the `k`-th cell of the sight line.
pub open spec fn los_y(ox: int, oy: int, tx: int, ty: int, k: int) -> int {
    let adx = absi(tx - ox);
    let ady = absi(ty - oy);
    if adx >= ady {
        oy + sgn(ty - oy) * ((2 * k * ady + adx) / (2 * adx))
    } else {
        oy + k * sgn(ty - oy)
    }
}

/// Whether sight is stopped at this cell, by an opaque tile or by a
/// view-blocking occupant.
pub open spec fn blocked_sight_at(g: Grid, x: int, y: int) -> bool {
    g.opaque_at(x, y) || (g.in_bounds(x, y) && g.view_blocked[g.idx(x, y)])
}

/// No cell strictly between observer and target stops sight.
pub open spec fn clear_line(g: Grid, ox: int, oy: int, tx: int, ty: int) -> bool {
    forall|k: int|
        0 < k < los_steps(ox, oy, tx, ty) ==> !blocked_sight_at(
            g,
            #[trigger] los_x(ox, oy, tx, ty, k),
            los_y(ox, oy, tx, ty, k),
        )
}

/// The target is visible from the observer: it lies in the map interior
/// (the outermost border ring is clipped away), within the sight radius,
/// and the line to it is clear.
pub open spec fn visible_spec(g: Grid, ox: int, oy: int, tx: int, ty: int, range: int) -> bool {
    &&& 1 <= tx < g.width - 1
    &&& 1 <= ty < g.height - 1
    &&& (tx - ox) * (tx - ox) + (ty - oy) * (ty - oy) <= range * range
    &&& clear_line(g, ox, oy, tx, ty)
}

/// What a correctly computed viewshed holds: exactly the visible cells, in
/// ascending scan order, each once.
pub open spec fn fov_ok(g: Grid, ox: int, oy: int, range: int, vis: Seq<Position>) -> bool {
    &&& (forall|j: int|
        0 <= j < vis.len() ==> visible_spec(
            g,
            ox,
            oy,
            (#[trigger] vis[j]).x as int,
            vis[j].y as int,
            range,
        ))
    &&& (forall|x: int, y: int|
        #[trigger] visible_spec(g, ox, oy, x, y, range) ==> exists|j: int|
            0 <= j < vis.len() && (#[trigger] vis[j]).x == x && vis[j].y == y)
    &&& (forall|j1: int, j2: int|
        0 <= j1 < j2 < vis.len() ==> ((#[trigger] vis[j1]).y as int, vis[j1].x as int)
            != ((#[trigger] vis[j2]).y as int, vis[j2].x as int) && (vis[j1].y < vis[j2].y || (
        vis[j1].y == vis[j2].y && vis[j1].x < vis[j2].x)))
}

/// The `k`-th cell of the sight line, by the same closed form the spec
/// functions use.
fn los_point(ox: i32, oy: i32, tx: i32, ty: i32, k: i32) -> (p: (i32, i32))
    requires
        -20_000 <= ox <= 20_000,
        -20_000 <= oy <= 20_000,
        -20_000 <= tx <= 20_000,
        -20_000 <= ty <= 20_000,
        0 <= k <= los_steps(ox as int, oy as int, tx as int, ty as int),
    ensures
        p.0 as int == los_x(ox as int, oy as int, tx as int, ty as int, k as int),
        p.1 as int == los_y(ox as int, oy as int, tx as int, ty as int, k as int),
        (ox <= tx ==> ox <= p.0 <= tx) && (tx <= ox ==> tx <= p.0 <= ox),
        (oy <= ty ==> oy <= p.1 <= ty) && (ty <= oy ==> ty <= p.1 <= oy),
{
    let dx: i64 = tx as i64 - ox as i64;
    let dy: i64 = ty as i64 - oy as i64;
    let adx: i64 = if dx >= 0 {
        dx
    } else {
        -dx
    };
    let ady: i64 = if dy >= 0 {
        dy
    } else {
        -dy
    };
    let sx: i64 = if dx > 0 {
        1
    } else if dx < 0 {
        -1
    } else {
        0
    };
    let sy: i64 = if dy > 0 {
        1
    } else if dy < 0 {
        -1
    } else {
        0
    };
    let ki: i64 = k as i64;
    proof {
        assert(0 <= 2 * (ki as int) * (ady as int) <= 4_000_000_000 && 0 <= 2 * (ki as int) * (
        adx as int) <= 4_000_000_000 && -40_001 <= (ki as int) * (sx as int) <= 40_001 && -40_001
            <= (ki as int) * (sy as int) <= 40_001) by (nonlinear_arith)
            requires
                0 <= ki <= 40_001,
                0 <= ady <= 40_001,
                0 <= adx <= 40_001,
                -1 <= sx <= 1,
                -1 <= sy <= 1,
        {}
    }
    if adx >= ady {
        let px: i64 = ox as i64 + ki * sx;
        let q: i64 = if adx > 0 {
            (2 * ki * ady + adx) / (2 * adx)
        } else {
            0
        };
        proof {
            if adx > 0 {
                assert(0 <= (2 * (ki as int) * (ady as int) + adx) / (2 * (adx as int))
                    <= ady) by (nonlinear_arith)
                    requires
                        1 <= adx,
                        0 <= ady <= adx,
                        0 <= ki <= adx,
                {}
            }
        }
        proof {
            assert((sy >= 0 ==> 0 <= (sy as int) * (q as int) <= (ady as int)) && (sy <= 0 ==> -(
            ady as int) <= (sy as int) * (q as int) <= 0)) by (nonlinear_arith)
                requires
                    -1 <= sy <= 1,
                    0 <= q <= ady,
            {}
        }
        let py: i64 = oy as i64 + sy * q;
        (px as i32, py as i32)
    } else {
        let q: i64 = (2 * ki * adx + ady) / (2 * ady);
        proof {
            assert(0 <= (2 * (ki as int) * (adx as int) + ady) / (2 * (ady as int))
                <= adx) by (nonlinear_arith)
                requires
                    1 <= ady,
                    0 <= adx < ady,
                    0 <= ki <= ady,
            {}
        }
        proof {
            assert((sx >= 0 ==> 0 <= (sx as int) * (q as int) <= (adx as int)) && (sx <= 0 ==> -(
            adx as int) <= (sx as int) * (q as int) <= 0)) by (nonlinear_arith)
                requires
                    -1 <= sx <= 1,
                    0 <= q <= adx,
            {}
        }
        let px: i64 = ox as i64 + sx * q;
        let py: i64 = oy as i64 + ki * sy;
        (px as i32, py as i32)
    }
}

/// Computes the set of cells the observer currently sees: a radius-bounded
/// sweep over the interior cells around it, keeping each cell whose sight
/// line is free of opaque tiles and view-blocking occupants.
#[verifier::loop_isolation(false)]
#[verifier::rlimit(100)]
pub fn field_of_view(g: &Grid, ox: i32, oy: i32, range: i32) -> (vis: Vec<Position>)
    requires
        g.inv(),
        g.width <= 10_000,
        g.height <= 10_000,
        g.in_bounds(ox as int, oy as int),
        0 <= range <= 1000,
    ensures
        fov_ok(*g, ox as int, oy as int, range as int, vis@),
{
    let mut vis: Vec<Position> = Vec::new();
    let y0: i32 = if oy - range > 1 {
        oy - range
    } else {
        1
    };
    let y1: i32 = if oy + range < g.height - 2 {
        oy + range
    } else {
        g.height - 2
    };
    let x0: i32 = if ox - range > 1 {
        ox - range
    } else {
        1
    };
    let x1: i32 = if ox + range < g.width - 2 {
        ox + range
    } else {
        g.width - 2
    };
    let mut y: i32 = y0;
    proof {
        assert forall|px: int, py: int|
            #[trigger] visible_spec(*g, ox as int, oy as int, px, py, range as int) && py < y0 implies exists|
            j: int,
        |
            0 <= j < vis.len() && (#[trigger] vis[j]).x == px && vis[j].y == py by {
            assert(oy - range <= py) by (nonlinear_arith)
                requires
                    (px - ox) * (px - ox) + (py - oy) * (py - oy) <= range as int * range,
                    0 <= range,
            {}
            assert(false);
        }
    }
    while y <= y1
        invariant
            y0 <= y <= y1 + 1 || (y == y0 && y1 < y0),
            forall|j: int|
                0 <= j < vis.len() ==> visible_spec(
                    *g,
                    ox as int,
                    oy as int,
                    (#[trigger] vis[j]).x as int,
                    vis[j].y as int,
                    range as int,
                ),
            forall|px: int, py: int|
                #[trigger] visible_spec(*g, ox as int, oy as int, px, py, range as int) && py < y ==> exists|
                    j: int,
                |
                    0 <= j < vis.len() && (#[trigger] vis[j]).x == px && vis[j].y == py,
            forall|j: int| 0 <= j < vis.len() ==> (#[trigger] vis[j]).y < y,
            forall|j1: int, j2: int|
                0 <= j1 < j2 < vis.len() ==> (vis[j1].y < vis[j2].y || (vis[j1].y == vis[j2].y
                    && (#[trigger] vis[j1]).x < (#[trigger] vis[j2]).x)),
        decreases y1 + 1 - y,
    {
        let mut x: i32 = x0;
        proof {
            assert forall|px: int, py: int|
                #[trigger] visible_spec(*g, ox as int, oy as int, px, py, range as int) && (py < y || (py == y
                    && px < x0)) implies exists|j: int|
                0 <= j < vis.len() && (#[trigger] vis[j]).x == px && vis[j].y == py by {
                if !(py < y) {
                    assert(ox - range <= px) by (nonlinear_arith)
                        requires
                            (px - ox) * (px - ox) + (py - oy) * (py - oy) <= range as int * range,
                            0 <= range,
                    {}
                    assert(false);
                }
            }
        }
        while x <= x1
            invariant
                y0 <= y <= y1,
                x0 <= x <= x1 + 1 || (x == x0 && x1 < x0),
                forall|j: int|
                    0 <= j < vis.len() ==> visible_spec(
                        *g,
                        ox as int,
                        oy as int,
                        (#[trigger] vis[j]).x as int,
                        vis[j].y as int,
                        range as int,
                    ),
                forall|px: int, py: int|
                    #[trigger] visible_spec(*g, ox as int, oy as int, px, py, range as int) && (py < y || (py
                        == y && px < x)) ==> exists|j: int|
                        0 <= j < vis.len() && (#[trigger] vis[j]).x == px && vis[j].y == py,
                forall|j: int|
                    0 <= j < vis.len() ==> (#[trigger] vis[j]).y < y || (vis[j].y == y && vis[j].x
                        < x),
                forall|j1: int, j2: int|
                    0 <= j1 < j2 < vis.len() ==> (vis[j1].y < vis[j2].y || (vis[j1].y == vis[j2].y
                        && (#[trigger] vis[j1]).x < (#[trigger] vis[j2]).x)),
            decreases x1 + 1 - x,
        {
            let dx: i64 = x as i64 - ox as i64;
            let dy: i64 = y as i64 - oy as i64;
            proof {
                assert(0 <= dx * dx <= 400_000_000 && 0 <= dy * dy
                    <= 400_000_000) by (nonlinear_arith)
                    requires
                        -20_000 <= dx <= 20_000,
                        -20_000 <= dy <= 20_000,
                {}
                assert(0 <= (range as i64) * (range as i64) <= 1_000_000) by (nonlinear_arith)
                    requires
                        0 <= range <= 1000,
                {}
            }
            if dx * dx + dy * dy <= (range as i64) * (range as i64) {
                let steps: i32 = {
                    let ax: i32 = if x >= ox {
                        x - ox
                    } else {
                        ox - x
                    };
                    let ay: i32 = if y >= oy {
                        y - oy
                    } else {
                        oy - y
                    };
                    if ax >= ay {
                        ax
                    } else {
                        ay
                    }
                };
                proof {
                    assert(steps == los_steps(ox as int, oy as int, x as int, y as int));
                }
                let mut clear: bool = true;
                let mut k: i32 = 1;
                while k < steps && clear
                    invariant
                        1 <= k,
                        steps == los_steps(ox as int, oy as int, x as int, y as int),
                        clear ==> k <= steps || steps < 1,
                        clear ==> (forall|kk: int|
                            0 < kk < k && kk < steps ==> !blocked_sight_at(
                                *g,
                                #[trigger] los_x(ox as int, oy as int, x as int, y as int, kk),
                                los_y(ox as int, oy as int, x as int, y as int, kk),
                            )),
                        !clear ==> !clear_line(*g, ox as int, oy as int, x as int, y as int),
                    decreases steps - k, (if clear {
                        1int
                    } else {
                        0int
                    }),
                {
                    let (lx, ly) = los_point(ox, oy, x, y, k);
                    proof {
                        assert(g.in_bounds(lx as int, ly as int));
                    }
                    let li = g.xy_idx(lx, ly);
                    if crate::tiletype::tile_opaque(g.tiles[li]) || g.view_blocked[li] {
                        proof {
                            assert(blocked_sight_at(*g, lx as int, ly as int));
                        }
                        clear = false;
                    } else {
                        k = k + 1;
                    }
                }
                if clear {
                    let ghost pre = vis@;
                    vis.push(Position { x, y });
                    proof {
                        assert(visible_spec(*g, ox as int, oy as int, x as int, y as int,
                            range as int)) by {
                            assert(clear_line(*g, ox as int, oy as int, x as int, y as int));
                        }
                        assert forall|px: int, py: int|
                            #[trigger] visible_spec(*g, ox as int, oy as int, px, py, range as int)
                            && (py < y || (py == y && px < x + 1)) implies exists|j: int|
                            0 <= j < vis.len() && (#[trigger] vis[j]).x == px && vis[j].y
                            == py by {
                            if py == y && px == x {
                                assert(vis[vis.len() - 1].x == px && vis[vis.len() - 1].y == py);
                            } else {
                                let j = choose|j: int|
                                    0 <= j < pre.len() && (#[trigger] pre[j]).x == px && pre[j].y
                                        == py;
                                assert(vis[j].x == px && vis[j].y == py);
                            }
                        }
                    }
                }
            }
            proof {
                assert forall|px: int, py: int|
                    #[trigger] visible_spec(*g, ox as int, oy as int, px, py, range as int) && (py < y || (py
                        == y && px < x + 1)) implies exists|j: int|
                    0 <= j < vis.len() && (#[trigger] vis[j]).x == px && vis[j].y == py by {
                    if py == y && px == x {
                        // a visible cell always lies inside the swept window
                        assert((px - ox) * (px - ox) + (py - oy) * (py - oy) <= range as int
                            * range);
                        assert(ox - range <= px <= ox + range && oy - range <= py <= oy
                            + range) by (nonlinear_arith)
                            requires
                                (px - ox) * (px - ox) + (py - oy) * (py - oy) <= range as int
                                    * range,
                                0 <= range,
                        {}
                    }
                }
            }
            x = x + 1;
        }
        proof {
            assert forall|px: int, py: int|
                #[trigger] visible_spec(*g, ox as int, oy as int, px, py, range as int) && py < y
                    + 1 implies exists|j: int|
                0 <= j < vis.len() && (#[trigger] vis[j]).x == px && vis[j].y == py by {
                if py == y {
                    assert(px <= ox + range) by (nonlinear_arith)
                        requires
                            (px - ox) * (px - ox) + (py - oy) * (py - oy) <= range as int * range,
                            0 <= range,
                    {}
                    assert(px <= x1);
                }
            }
        }
        y = y + 1;
    }
    proof {
        assert forall|px: int, py: int|
            #[trigger] visible_spec(*g, ox as int, oy as int, px, py, range as int) implies exists|j: int|
            0 <= j < vis.len() && (#[trigger] vis[j]).x == px && vis[j].y == py by {
            assert(ox - range <= px <= ox + range && oy - range <= py <= oy
                + range) by (nonlinear_arith)
                requires
                    (px - ox) * (px - ox) + (py - oy) * (py - oy) <= range as int * range,
                    0 <= range,
            {}
            assert(py <= y1);
            assert(py < y);
        }
    }
    vis
}


/// On open ground - no opaque tile and no view blocker anywhere - sight is
/// symmetric: one occupant sees another exactly when it is seen by it.
pub proof fn lemma_open_ground_symmetry(g: Grid, ax: int, ay: int, bx: int, by: int, range: int)
    requires
        forall|x: int, y: int| !g.opaque_at(x, y),
        forall|x: int, y: int| g.in_bounds(x, y) ==> !g.view_blocked[#[trigger] g.idx(x, y)],
        1 <= ax < g.width - 1,
        1 <= ay < g.height - 1,
        1 <= bx < g.width - 1,
        1 <= by < g.height - 1,
    ensures
        visible_spec(g, ax, ay, bx, by, range) <==> visible_spec(g, bx, by, ax, ay, range),
{
    assert((bx - ax) * (bx - ax) == (ax - bx) * (ax - bx) && (by - ay) * (by - ay) == (ay - by) * (
    ay - by)) by (nonlinear_arith) {}
    assert forall|x: int, y: int| !blocked_sight_at(g, x, y) by {
        if g.in_bounds(x, y) {
            assert(!g.view_blocked[g.idx(x, y)]);
        }
    }
    assert(clear_line(g, ax, ay, bx, by));
    assert(clear_line(g, bx, by, ax, ay));
}

/// The blocker stands strictly between observer and target on a shared
/// row, column or exact diagonal.
pub open spec fn strictly_between(ox: int, oy: int, tx: int, ty: int, bx: int, by: int) -> bool {
    ||| (oy == ty && oy == by && 0 < absi(bx - ox) < absi(tx - ox) && sgn(bx - ox) == sgn(tx - ox))
    ||| (ox == tx && ox == bx && 0 < absi(by - oy) < absi(ty - oy) && sgn(by - oy) == sgn(ty - oy))
    ||| (absi(tx - ox) == absi(ty - oy) && absi(bx - ox) == absi(by - oy) && 0 < absi(bx - ox)
        < absi(tx - ox) && sgn(bx - ox) == sgn(tx - ox) && sgn(by - oy) == sgn(ty - oy))
}

/// A view-blocking or opaque cell strictly between observer and target
/// occludes the target: it cannot be in the visible set.
pub proof fn lemma_between_occludes(
    g: Grid,
    ox: int,
    oy: int,
    tx: int,
    ty: int,
    bx: int,
    by: int,
    range: int,
)
    requires
        strictly_between(ox, oy, tx, ty, bx, by),
        blocked_sight_at(g, bx, by),
    ensures
        !visible_spec(g, ox, oy, tx, ty, range),
{
    if oy == ty && oy == by && 0 < absi(bx - ox) < absi(tx - ox) && sgn(bx - ox) == sgn(tx - ox) {
        let k = absi(bx - ox);
        let sv = sgn(tx - ox);
        assert(sv == 1 || sv == -1);
        assert(k * sv == bx - ox) by (nonlinear_arith)
            requires
                sv == 1 || sv == -1,
                sv == 1 ==> bx - ox == k,
                sv == -1 ==> bx - ox == -k,
        {}
        assert(los_x(ox, oy, tx, ty, k) == bx);
        assert(sgn(ty - oy) == 0);
        assert(los_y(ox, oy, tx, ty, k) == oy + 0 * ((2 * k * 0 + absi(tx - ox)) / (2 * absi(
            tx - ox,
        ))));
        assert(los_y(ox, oy, tx, ty, k) == oy);
        assert(0 < k < los_steps(ox, oy, tx, ty));
        assert(!clear_line(g, ox, oy, tx, ty));
    } else if ox == tx && ox == bx && 0 < absi(by - oy) < absi(ty - oy) && sgn(by - oy) == sgn(
        ty - oy,
    ) {
        let k = absi(by - oy);
        let sv = sgn(ty - oy);
        assert(sv == 1 || sv == -1);
        assert(k * sv == by - oy) by (nonlinear_arith)
            requires
                sv == 1 || sv == -1,
                sv == 1 ==> by - oy == k,
                sv == -1 ==> by - oy == -k,
        {}
        assert(los_y(ox, oy, tx, ty, k) == by);
        assert(sgn(tx - ox) == 0);
        assert(los_x(ox, oy, tx, ty, k) == ox + 0 * ((2 * k * 0 + absi(ty - oy)) / (2 * absi(
            ty - oy,
        ))));
        assert(los_x(ox, oy, tx, ty, k) == ox);
        assert(0 < k < los_steps(ox, oy, tx, ty));
        assert(!clear_line(g, ox, oy, tx, ty));
    } else {
        let k = absi(bx - ox);
        let adx = absi(tx - ox);
        let sx = sgn(tx - ox);
        let sy = sgn(ty - oy);
        assert(sx == 1 || sx == -1);
        assert(sy == 1 || sy == -1);
        assert(k * sx == bx - ox) by (nonlinear_arith)
            requires
                sx == 1 || sx == -1,
                sx == 1 ==> bx - ox == k,
                sx == -1 ==> bx - ox == -k,
        {}
        assert(los_x(ox, oy, tx, ty, k) == bx);
        let q = (2 * k * absi(ty - oy) + adx) / (2 * adx);
        assert(q == k) by (nonlinear_arith)
            requires
                1 <= adx,
                0 <= k <= adx,
                absi(ty - oy) == adx,
                q == (2 * k * adx + adx) / (2 * adx),
        {}
        assert(sy * q == by - oy) by (nonlinear_arith)
            requires
                sy == 1 || sy == -1,
                q == k,
                sy == 1 ==> by - oy == k,
                sy == -1 ==> by - oy == -k,
        {}
        assert(los_y(ox, oy, tx, ty, k) == by);
        assert(0 < k < los_steps(ox, oy, tx, ty));
        assert(!clear_line(g, ox, oy, tx, ty));
    }
}

/// Whether one of the listed positions maps to the flat index `i`.
pub open spec fn some_position_at(g: Grid, ps: Seq<Position>, i: int) -> bool {
    exists|j: int|
        0 <= j < ps.len() && g.idx((#[trigger] ps[j]).x as int, ps[j].y as int) == i
}

/// A per-occupant record of what it currently sees, recomputed lazily
/// when marked dirty.
pub struct Viewshed {
    pub visible_tiles: Vec<Position>,
    pub range: i32,
    pub dirty: bool,
}

impl Viewshed {
    /// A fresh viewshed, dirty so the first pass computes it.
    pub fn new(range: i32) -> (v: Viewshed)
        ensures
            v.range == range,
            v.dirty,
            v.visible_tiles.len() == 0,
    {
        Viewshed { visible_tiles: Vec::new(), range, dirty: true }
    }
}

/// Whether one of the listed positions stands on the flat index `i`.
fn any_position_at(g: &Grid, ps: &Vec<Position>, i: usize) -> (r: bool)
    requires
        g.inv(),
        forall|j: int|
            0 <= j < ps.len() ==> g.in_bounds((#[trigger] ps[j]).x as int, ps[j].y as int),
    ensures
        r == some_position_at(*g, ps@, i as int),
{
    let mut j: usize = 0;
    while j < ps.len()
        invariant
            g.inv(),
            j <= ps.len(),
            forall|j2: int|
                0 <= j2 < ps.len() ==> g.in_bounds((#[trigger] ps[j2]).x as int, ps[j2].y as int),
            forall|j2: int|
                0 <= j2 < j ==> g.idx((#[trigger] ps[j2]).x as int, ps[j2].y as int) != i,
        decreases ps.len() - j,
    {
        let p = ps[j];
        if g.xy_idx(p.x, p.y) == i {
            proof {
                assert(g.idx(ps[j as int].x as int, ps[j as int].y as int) == i);
            }
            return true;
        }
        j = j + 1;
    }
    proof {
        if some_position_at(*g, ps@, i as int) {
            let j2 = choose|j2: int|
                0 <= j2 < ps@.len() && g.idx((#[trigger] ps@[j2]).x as int, ps@[j2].y as int)
                    == i as int;
            assert(false);
        }
    }
    false
}

/// Rebuilds the view-blocking layer from scratch out of the current
/// positions of all blocking occupants.
#[verifier::loop_isolation(false)]
pub fn rebuild_view_blocked(g: &mut Grid, blockers: &Vec<Position>)
    requires
        old(g).inv(),
        forall|j: int|
            0 <= j < blockers.len() ==> old(g).in_bounds(
                (#[trigger] blockers[j]).x as int,
                blockers[j].y as int,
            ),
    ensures
        final(g).inv(),
        final(g).width == old(g).width,
        final(g).height == old(g).height,
        final(g).tiles == old(g).tiles,
        final(g).revealed_tiles == old(g).revealed_tiles,
        final(g).visible_tiles == old(g).visible_tiles,
        final(g).tile_content == old(g).tile_content,
        final(g).depth == old(g).depth,
        final(g).name == old(g).name,
        forall|i: int|
            0 <= i < old(g).tiles.len() ==> final(g).view_blocked[i] == some_position_at(
                *old(g),
                blockers@,
                i,
            ),
{
    let len = g.tiles.len();
    let mut vb: Vec<bool> = Vec::new();
    let mut i: usize = 0;
    while i < len
        invariant
            i <= len,
            vb.len() == i,
            forall|j: int| 0 <= j < i ==> vb[j] == some_position_at(*g, blockers@, j),
        decreases len - i,
    {
        vb.push(any_position_at(&*g, blockers, i));
        i = i + 1;
    }
    g.view_blocked = vb;
}

/// Recomputes a dirty viewshed with the field-of-view sweep and clears
/// its dirty flag; a clean viewshed is left untouched.
pub fn recompute_viewshed(vs: &mut Viewshed, g: &Grid, pos: Position)
    requires
        g.inv(),
        g.width <= 10_000,
        g.height <= 10_000,
        g.in_bounds(pos.x as int, pos.y as int),
        0 <= old(vs).range <= 1000,
    ensures
        !final(vs).dirty,
        final(vs).range == old(vs).range,
        old(vs).dirty ==> fov_ok(
            *g,
            pos.x as int,
            pos.y as int,
            old(vs).range as int,
            final(vs).visible_tiles@,
        ),
        !old(vs).dirty ==> final(vs).visible_tiles == old(vs).visible_tiles,
{
    if vs.dirty {
        vs.visible_tiles = field_of_view(g, pos.x, pos.y, vs.range);
        vs.dirty = false;
    }
}

/// Observer bookkeeping: the global visible layer is reset and every cell
/// the observer sees becomes visible and revealed; previously revealed
/// cells stay revealed.
#[verifier::loop_isolation(false)]
pub fn observer_reveal(g: &mut Grid, visible: &Vec<Position>)
    requires
        old(g).inv(),
        forall|j: int|
            0 <= j < visible.len() ==> old(g).in_bounds(
                (#[trigger] visible[j]).x as int,
                visible[j].y as int,
            ),
    ensures
        final(g).inv(),
        final(g).width == old(g).width,
        final(g).height == old(g).height,
        final(g).tiles == old(g).tiles,
        final(g).view_blocked == old(g).view_blocked,
        final(g).tile_content == old(g).tile_content,
        final(g).depth == old(g).depth,
        final(g).name == old(g).name,
        forall|i: int|
            0 <= i < old(g).tiles.len() ==> final(g).visible_tiles[i] == some_position_at(
                *old(g),
                visible@,
                i,
            ),
        forall|i: int|
            0 <= i < old(g).tiles.len() ==> final(g).revealed_tiles[i] == (old(g).revealed_tiles[i]
                || some_position_at(*old(g), visible@, i)),
{
    let len = g.tiles.len();
    let mut vis_layer: Vec<bool> = Vec::new();
    let mut rev_layer: Vec<bool> = Vec::new();
    let mut i: usize = 0;
    while i < len
        invariant
            i <= len,
            vis_layer.len() == i,
            rev_layer.len() == i,
            forall|j: int| 0 <= j < i ==> vis_layer[j] == some_position_at(*g, visible@, j),
            forall|j: int|
                0 <= j < i ==> rev_layer[j] == (g.revealed_tiles[j] || some_position_at(
                    *g,
                    visible@,
                    j,
                )),
        decreases len - i,
    {
        let m = any_position_at(&*g, visible, i);
        vis_layer.push(m);
        rev_layer.push(g.revealed_tiles[i] || m);
        i = i + 1;
    }
    g.visible_tiles = vis_layer;
    g.revealed_tiles = rev_layer;
}

/// Whether a vector holds an occupant identifier.
fn contains_u64(v: &Vec<u64>, val: u64) -> (r: bool)
    ensures
        r == v@.contains(val),
{
    let mut i: usize = 0;
    while i < v.len()
        invariant
            i <= v.len(),
            forall|j: int| 0 <= j < i ==> v[j] != val,
        decreases v.len() - i,
    {
        if v[i] == val {
            return true;
        }
        i = i + 1;
    }
    false
}

/// Every found identifier was hidden and stands on one of the visible
/// cells.
pub open spec fn found_ok(g: Grid, visible: Seq<Position>, hidden: Seq<u64>, found: Seq<u64>) -> bool {
    forall|k: int|
        0 <= k < found.len() ==> hidden.contains(#[trigger] found[k]) && (exists|j: int|
            0 <= j < visible.len() && g.tile_content[g.idx(
                (#[trigger] visible[j]).x as int,
                visible[j].y as int,
            )]@.contains(found[k]))
}

/// Walks the occupants standing on the observer's visible cells and, with
/// a fixed 1-in-24 chance per hidden occupant seen, reveals it. Every
/// identifier that comes back was hidden and stands on a visible cell;
/// which hidden occupants are found depends on the random draws.
#[verifier::loop_isolation(false)]
pub fn discover_hidden(
    g: &Grid,
    visible: &Vec<Position>,
    hidden: &Vec<u64>,
    rng: &mut rltk::RandomNumberGenerator,
) -> (found: Vec<u64>)
    requires
        g.inv(),
        forall|j: int|
            0 <= j < visible.len() ==> g.in_bounds(
                (#[trigger] visible[j]).x as int,
                visible[j].y as int,
            ),
    ensures
        found_ok(*g, visible@, hidden@, found@),
{
    let mut found: Vec<u64> = Vec::new();
    let mut t: usize = 0;
    while t < visible.len()
        invariant
            t <= visible.len(),
            found_ok(*g, visible@, hidden@, found@),
        decreases visible.len() - t,
    {
        let p = visible[t];
        let vi = g.xy_idx(p.x, p.y);
        let mut e: usize = 0;
        while e < g.tile_content[vi].len()
            invariant
                t < visible.len(),
                vi == g.idx((visible[t as int]).x as int, visible[t as int].y as int),
                vi < g.tile_content.len(),
                e <= g.tile_content[vi as int].len(),
                found_ok(*g, visible@, hidden@, found@),
            decreases g.tile_content[vi as int].len() - e,
        {
            let ent = g.tile_content[vi][e];
            if contains_u64(hidden, ent) {
                if roll(rng, 24) == 1 {
                    let ghost pre = found@;
                    found.push(ent);
                    proof {
                        assert(g.tile_content[vi as int]@[e as int] == ent);
                        assert(g.tile_content[vi as int]@.contains(ent));
                        assert(g.tile_content[g.idx(
                            (visible[t as int]).x as int,
                            visible[t as int].y as int,
                        )]@.contains(ent));
                        assert forall|k: int|
                            0 <= k < found@.len() implies hidden@.contains(#[trigger] found@[k])
                            && (exists|j: int|
                            0 <= j < visible@.len() && g.tile_content[g.idx(
                                (#[trigger] visible@[j]).x as int,
                                visible@[j].y as int,
                            )]@.contains(found@[k])) by {
                            if k < pre.len() {
                                assert(found@[k] == pre[k]);
                            } else {
                                assert(found@[k] == ent);
                                assert(g.tile_content[g.idx(
                                    (visible@[t as int]).x as int,
                                    visible@[t as int].y as int,
                                )]@.contains(ent));
                            }
                        }
                    }
                }
            }
            e = e + 1;
        }
        t = t + 1;
    }
    found
}

} // verus!
