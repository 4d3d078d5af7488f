//! Reachability analysis: flood-fill connectivity and a uniform-cost
//! distance field from a starting cell, used to cull unreachable regions
//! and to pick a distant exit. The traversal is iterative (an explicit
//! per-round sweep), never recursive, so stack depth stays bounded on
//! large grids.

use vstd::prelude::*;
use crate::grid::Grid;
use crate::tiletype::{TileType, spec_tile_walkable};

verus! {

/// Distance value of a cell that the flood fill never reached.
pub const UNREACHABLE: u32 = u32::MAX;

/// Whether `(x, y)` can be reached from `(sx, sy)` within `n` steps,
/// moving between 4-adjacent walkable cells.
pub open spec fn reach_n(g: Grid, sx: int, sy: int, x: int, y: int, n: nat) -> bool
    decreases n,
{
    if n == 0 {
        x == sx && y == sy && g.walkable_at(sx, sy)
    } else {
        reach_n(g, sx, sy, x, y, (n - 1) as nat) || (g.walkable_at(x, y) && (
        reach_n(g, sx, sy, x - 1, y, (n - 1) as nat)
            || reach_n(g, sx, sy, x + 1, y, (n - 1) as nat)
            || reach_n(g, sx, sy, x, y - 1, (n - 1) as nat)
            || reach_n(g, sx, sy, x, y + 1, (n - 1) as nat)))
    }
}

/// Whether `(x, y)` is reachable from `(sx, sy)` over walkable cells.
pub open spec fn reachable(g: Grid, sx: int, sy: int, x: int, y: int) -> bool {
    exists|n: nat| reach_n(g, sx, sy, x, y, n)
}

/// The shortest-path distance (in steps) from the start to a reachable cell:
/// the least `n` with `reach_n`.
pub open spec fn spec_dist(g: Grid, sx: int, sy: int, x: int, y: int) -> nat {
    choose|n: nat|
        #[trigger] reach_n(g, sx, sy, x, y, n) && (n == 0 || !reach_n(
            g,
            sx,
            sy,
            x,
            y,
            (n - 1) as nat,
        ))
}

/// Every level built by the generation pipeline satisfies this: each
/// walkable cell can be reached from the starting cell.
pub open spec fn all_walkable_reachable(g: Grid, sx: int, sy: int) -> bool {
    forall|x: int, y: int| g.walkable_at(x, y) ==> reachable(g, sx, sy, x, y)
}

/// A cell reached within `n` steps is walkable (and hence in bounds).
pub proof fn lemma_reach_walkable(g: Grid, sx: int, sy: int, x: int, y: int, n: nat)
    requires
        reach_n(g, sx, sy, x, y, n),
    ensures
        g.walkable_at(x, y),
    decreases n,
{
    if n > 0 {
        if reach_n(g, sx, sy, x, y, (n - 1) as nat) {
            lemma_reach_walkable(g, sx, sy, x, y, (n - 1) as nat);
        }
    }
}

/// Reachability within `n` steps implies reachability within any `m >= n`.
pub proof fn lemma_reach_mono(g: Grid, sx: int, sy: int, x: int, y: int, n: nat, m: nat)
    requires
        reach_n(g, sx, sy, x, y, n),
        n <= m,
    ensures
        reach_n(g, sx, sy, x, y, m),
    decreases m,
{
    if n < m {
        lemma_reach_mono(g, sx, sy, x, y, n, (m - 1) as nat);
    }
}

/// Once one more round adds nothing, no later round ever adds anything.
proof fn lemma_reach_stable(g: Grid, sx: int, sy: int, r: nat, m: nat)
    requires
        forall|x: int, y: int|
            g.in_bounds(x, y) ==> (reach_n(g, sx, sy, x, y, (r + 1) as nat) <==> reach_n(
                g,
                sx,
                sy,
                x,
                y,
                r,
            )),
        r <= m,
    ensures
        forall|x: int, y: int| reach_n(g, sx, sy, x, y, m) ==> reach_n(g, sx, sy, x, y, r),
    decreases m,
{
    if m > r {
        lemma_reach_stable(g, sx, sy, r, (m - 1) as nat);
        assert forall|x: int, y: int| reach_n(g, sx, sy, x, y, m) implies reach_n(
            g,
            sx,
            sy,
            x,
            y,
            r,
        ) by {
            if reach_n(g, sx, sy, x, y, (m - 1) as nat) {
            } else {
                // the second disjunct of `reach_n` holds at step `m`
                lemma_reach_walkable(g, sx, sy, x, y, m);
                if reach_n(g, sx, sy, x - 1, y, (m - 1) as nat) {
                    assert(reach_n(g, sx, sy, x - 1, y, r));
                } else if reach_n(g, sx, sy, x + 1, y, (m - 1) as nat) {
                    assert(reach_n(g, sx, sy, x + 1, y, r));
                } else if reach_n(g, sx, sy, x, y - 1, (m - 1) as nat) {
                    assert(reach_n(g, sx, sy, x, y - 1, r));
                } else {
                    assert(reach_n(g, sx, sy, x, y + 1, (m - 1) as nat));
                    assert(reach_n(g, sx, sy, x, y + 1, r));
                }
                assert(reach_n(g, sx, sy, x, y, (r + 1) as nat));
            }
        }
    }
}

/// A minimal step count exists below any witness.
proof fn lemma_minimal_layer(g: Grid, sx: int, sy: int, x: int, y: int, n: nat)
    requires
        reach_n(g, sx, sy, x, y, n),
    ensures
        exists|k: nat|
            k <= n && #[trigger] reach_n(g, sx, sy, x, y, k) && (k == 0 || !reach_n(
                g,
                sx,
                sy,
                x,
                y,
                (k - 1) as nat,
            )),
    decreases n,
{
    if n == 0 {
        assert(reach_n(g, sx, sy, x, y, 0) && (0 == 0 || !reach_n(g, sx, sy, x, y, 0)));
    } else if reach_n(g, sx, sy, x, y, (n - 1) as nat) {
        lemma_minimal_layer(g, sx, sy, x, y, (n - 1) as nat);
    } else {
        assert(reach_n(g, sx, sy, x, y, n) && !reach_n(g, sx, sy, x, y, (n - 1) as nat));
    }
}

/// `spec_dist` is the unique minimal layer; any `reach_n` witness bounds it.
pub proof fn lemma_dist_minimal(g: Grid, sx: int, sy: int, x: int, y: int, n: nat)
    requires
        reach_n(g, sx, sy, x, y, n),
    ensures
        spec_dist(g, sx, sy, x, y) <= n,
        reach_n(g, sx, sy, x, y, spec_dist(g, sx, sy, x, y)),
    decreases n,
{
    lemma_minimal_layer(g, sx, sy, x, y, n);
    let k = choose|k: nat|
        k <= n && #[trigger] reach_n(g, sx, sy, x, y, k) && (k == 0 || !reach_n(
            g,
            sx,
            sy,
            x,
            y,
            (k - 1) as nat,
        ));
    // any two minimal layers coincide
    let d = spec_dist(g, sx, sy, x, y);
    assert(reach_n(g, sx, sy, x, y, d) && (d == 0 || !reach_n(g, sx, sy, x, y, (d - 1) as nat)));
    if d < k {
        lemma_reach_mono(g, sx, sy, x, y, d, (k - 1) as nat);
        assert(false);
    } else if k < d {
        lemma_reach_mono(g, sx, sy, x, y, k, (d - 1) as nat);
        assert(false);
    }
}

/// How many cells a distance field has marked as reached.
pub open spec fn count_marked(d: Seq<u32>) -> int
    decreases d.len(),
{
    if d.len() == 0 {
        0
    } else {
        count_marked(d.drop_last()) + if d.last() != UNREACHABLE {
            1int
        } else {
            0int
        }
    }
}

proof fn lemma_count_bounds(d: Seq<u32>)
    ensures
        0 <= count_marked(d) <= d.len(),
    decreases d.len(),
{
    if d.len() > 0 {
        lemma_count_bounds(d.drop_last());
    }
}

proof fn lemma_count_mono(d1: Seq<u32>, d2: Seq<u32>)
    requires
        d1.len() == d2.len(),
        forall|i: int| 0 <= i < d1.len() && d1[i] != UNREACHABLE ==> d2[i] != UNREACHABLE,
    ensures
        count_marked(d1) <= count_marked(d2),
    decreases d1.len(),
{
    if d1.len() > 0 {
        assert forall|i: int|
            0 <= i < d1.drop_last().len() && d1.drop_last()[i] != UNREACHABLE implies d2.drop_last()[i]
            != UNREACHABLE by {
            assert(d1[i] != UNREACHABLE);
        }
        lemma_count_mono(d1.drop_last(), d2.drop_last());
    }
}

proof fn lemma_count_strict(d1: Seq<u32>, d2: Seq<u32>, j: int)
    requires
        d1.len() == d2.len(),
        forall|i: int| 0 <= i < d1.len() && d1[i] != UNREACHABLE ==> d2[i] != UNREACHABLE,
        0 <= j < d1.len(),
        d1[j] == UNREACHABLE,
        d2[j] != UNREACHABLE,
    ensures
        count_marked(d1) < count_marked(d2),
    decreases d1.len(),
{
    assert forall|i: int|
        0 <= i < d1.drop_last().len() && d1.drop_last()[i] != UNREACHABLE implies d2.drop_last()[i]
        != UNREACHABLE by {
        assert(d1[i] != UNREACHABLE);
    }
    if j == d1.len() - 1 {
        lemma_count_mono(d1.drop_last(), d2.drop_last());
    } else {
        lemma_count_strict(d1.drop_last(), d2.drop_last(), j);
    }
}

proof fn lemma_count_all_unreached(d: Seq<u32>)
    requires
        forall|i: int| 0 <= i < d.len() ==> d[i] == UNREACHABLE,
    ensures
        count_marked(d) == 0,
    decreases d.len(),
{
    if d.len() > 0 {
        assert forall|i: int| 0 <= i < d.drop_last().len() implies d.drop_last()[i] == UNREACHABLE by {
            assert(d[i] == UNREACHABLE);
        }
        lemma_count_all_unreached(d.drop_last());
    }
}

/// Whether the current round would mark the (so far unreached) cell
/// `(x, y)`: it is walkable and 4-adjacent to an already reached cell.
pub open spec fn round_marks(g: Grid, d: Seq<u32>, x: int, y: int) -> bool {
    g.walkable_at(x, y) && ((x > 0 && d[g.idx(x - 1, y)] != UNREACHABLE) || (x + 1 < g.width && d[
        g.idx(x + 1, y)] != UNREACHABLE) || (y > 0 && d[g.idx(x, y - 1)] != UNREACHABLE) || (y + 1
        < g.height && d[g.idx(x, y + 1)] != UNREACHABLE))
}

/// The breadth-first distance field from `(sx, sy)`: for every cell, the
/// number of steps of a shortest walkable path from the start, or
/// `UNREACHABLE` if no such path exists.
#[verifier::loop_isolation(false)]
#[verifier::rlimit(40)]
pub fn distance_field(g: &Grid, sx: i32, sy: i32) -> (d: Vec<u32>)
    requires
        g.inv(),
        g.walkable_at(sx as int, sy as int),
    ensures
        d.len() == g.tiles.len(),
        forall|x: int, y: int|
            g.in_bounds(x, y) ==> ((d[g.idx(x, y)] != UNREACHABLE) <==> reachable(
                *g,
                sx as int,
                sy as int,
                x,
                y,
            )),
        forall|x: int, y: int|
            #![trigger g.idx(x, y)]
            g.in_bounds(x, y) && d[g.idx(x, y)] != UNREACHABLE ==> reach_n(
                *g,
                sx as int,
                sy as int,
                x,
                y,
                d[g.idx(x, y)] as nat,
            ) && (d[g.idx(x, y)] > 0 ==> !reach_n(
                *g,
                sx as int,
                sy as int,
                x,
                y,
                (d[g.idx(x, y)] - 1) as nat,
            )),
        d[g.idx(sx as int, sy as int)] == 0,
{
    let ghost gsx = sx as int;
    let ghost gsy = sy as int;
    let len: usize = g.tiles.len();
    let mut d: Vec<u32> = Vec::new();
    let mut i: usize = 0;
    while i < len
        invariant
            i <= len,
            d.len() == i,
            forall|j: int| 0 <= j < i ==> d[j] == UNREACHABLE,
        decreases len - i,
    {
        d.push(UNREACHABLE);
        i = i + 1;
    }
    proof {
        lemma_count_all_unreached(d@);
    }
    let ghost d0 = d@;
    let si = g.xy_idx(sx, sy);
    d[si] = 0;
    proof {
        lemma_count_strict(d0, d@, si as int);
        lemma_count_bounds(d@);
        assert forall|x: int, y: int|
            g.in_bounds(x, y) implies ((d@[g.idx(x, y)] != UNREACHABLE) <==> reach_n(
            *g,
            gsx,
            gsy,
            x,
            y,
            0,
        )) by {
            g.lemma_idx_bounds(x, y);
            if d@[g.idx(x, y)] != UNREACHABLE {
                g.lemma_idx_injective(x, y, gsx, gsy);
            }
        }
    }
    let mut round: u32 = 1;
    let mut changed: bool = true;
    while changed
        invariant
            d.len() == len,
            1 <= round <= len,
            count_marked(d@) >= round,
            d@[g.idx(gsx, gsy)] == 0,
            forall|x: int, y: int|
                g.in_bounds(x, y) ==> ((d@[g.idx(x, y)] != UNREACHABLE) <==> reach_n(
                    *g,
                    gsx,
                    gsy,
                    x,
                    y,
                    (round - 1) as nat,
                )),
            forall|x: int, y: int|
                #![trigger g.idx(x, y)]
                g.in_bounds(x, y) && d@[g.idx(x, y)] != UNREACHABLE ==> d@[g.idx(x, y)] < round
                    && reach_n(*g, gsx, gsy, x, y, d@[g.idx(x, y)] as nat) && (d@[g.idx(x, y)] > 0
                    ==> !reach_n(*g, gsx, gsy, x, y, (d@[g.idx(x, y)] - 1) as nat)),
            !changed ==> (forall|x: int, y: int|
                g.in_bounds(x, y) ==> (reach_n(*g, gsx, gsy, x, y, round as nat) <==> reach_n(
                    *g,
                    gsx,
                    gsy,
                    x,
                    y,
                    (round - 1) as nat,
                ))),
        decreases len - round, (if changed {
            1int
        } else {
            0int
        }),
    {
        let ghost dpre = d@;
        let mut new_d: Vec<u32> = crate::grid::clone_vec_copy(&d);
        let mut any: bool = false;
        let mut x: i32 = 0;
        let mut y: i32 = 0;
        let mut i: usize = 0;
        while i < len
            invariant
                0 <= x < g.width,
                0 <= y <= g.height,
                y == g.height ==> x == 0,
                i == y * g.width + x,
                i <= len,
                new_d.len() == len,
                d@ == dpre,
                forall|px: int, py: int|
                    #![trigger g.idx(px, py)]
                    g.in_bounds(px, py) && g.idx(px, py) < i ==> new_d@[g.idx(px, py)] == (if d@[
                        g.idx(px, py)] != UNREACHABLE {
                        d@[g.idx(px, py)]
                    } else if round_marks(*g, d@, px, py) {
                        round
                    } else {
                        UNREACHABLE
                    }),
                forall|j: int| i <= j < len ==> new_d@[j] == d@[j],
                forall|j: int| 0 <= j < len && d@[j] != UNREACHABLE ==> new_d@[j] == d@[j],
                any <==> exists|j: int|
                    0 <= j < len && d@[j] == UNREACHABLE && new_d@[j] != UNREACHABLE,
            decreases len - i,
        {
            let ghost xo = x as int;
            let ghost yo = y as int;
            proof {
                assert(y < g.height) by (nonlinear_arith)
                    requires
                        i < len,
                        i == y * g.width + x,
                        len == g.width * g.height,
                        0 <= x < g.width,
                        0 <= y <= g.height,
                        y == g.height ==> x == 0,
                        1 <= g.width,
                        1 <= g.height,
                {}
                g.lemma_idx_bounds(xo, yo);
                if yo > 0 {
                    g.lemma_idx_bounds(xo, yo - 1);
                    assert((yo - 1) * g.width == yo * g.width - g.width) by (nonlinear_arith) {}
                }
                if yo + 1 < g.height {
                    g.lemma_idx_bounds(xo, yo + 1);
                    assert((yo + 1) * g.width == yo * g.width + g.width) by (nonlinear_arith) {}
                }
                if xo > 0 {
                    g.lemma_idx_bounds(xo - 1, yo);
                }
                if xo + 1 < g.width {
                    g.lemma_idx_bounds(xo + 1, yo);
                }
            }
            if new_d[i] == UNREACHABLE && tile_walkable_exec(g.tiles[i]) {
                let mut nbr: bool = false;
                if x > 0 {
                    if d[i - 1] != UNREACHABLE {
                        nbr = true;
                    }
                }
                if x + 1 < g.width {
                    if d[i + 1] != UNREACHABLE {
                        nbr = true;
                    }
                }
                if y > 0 {
                    if d[i - g.width as usize] != UNREACHABLE {
                        nbr = true;
                    }
                }
                if y + 1 < g.height {
                    if d[i + g.width as usize] != UNREACHABLE {
                        nbr = true;
                    }
                }
                proof {
                    assert(nbr == round_marks(*g, d@, xo, yo));
                }
                if nbr {
                    new_d[i] = round;
                    any = true;
                }
            }
            i = i + 1;
            x = x + 1;
            if x == g.width {
                x = 0;
                y = y + 1;
                proof {
                    assert((yo + 1) * g.width == yo * g.width + g.width) by (nonlinear_arith) {}
                }
            }
            proof {
                assert forall|px: int, py: int|
                    #![trigger g.idx(px, py)]
                    g.in_bounds(px, py) && g.idx(px, py) < i implies new_d@[g.idx(px, py)] == (if d@[
                    g.idx(px, py)] != UNREACHABLE {
                    d@[g.idx(px, py)]
                } else if round_marks(*g, d@, px, py) {
                    round
                } else {
                    UNREACHABLE
                }) by {
                    g.lemma_idx_bounds(px, py);
                    if g.idx(px, py) == i - 1 {
                        g.lemma_idx_injective(px, py, xo, yo);
                    }
                }
            }
        }
        // the sweep computed exactly the next reachability layer
        proof {
            assert forall|px: int, py: int|
                g.in_bounds(px, py) implies ((new_d@[g.idx(px, py)] != UNREACHABLE) <==> reach_n(
                *g,
                gsx,
                gsy,
                px,
                py,
                round as nat,
            )) by {
                g.lemma_idx_bounds(px, py);
                if px > 0 {
                    g.lemma_idx_bounds(px - 1, py);
                }
                if px + 1 < g.width {
                    g.lemma_idx_bounds(px + 1, py);
                }
                if py > 0 {
                    g.lemma_idx_bounds(px, py - 1);
                }
                if py + 1 < g.height {
                    g.lemma_idx_bounds(px, py + 1);
                }
                if reach_n(*g, gsx, gsy, px, py, round as nat) && !reach_n(
                    *g,
                    gsx,
                    gsy,
                    px,
                    py,
                    (round - 1) as nat,
                ) {
                    if reach_n(*g, gsx, gsy, px - 1, py, (round - 1) as nat) {
                        lemma_reach_walkable(*g, gsx, gsy, px - 1, py, (round - 1) as nat);
                    }
                    if reach_n(*g, gsx, gsy, px + 1, py, (round - 1) as nat) {
                        lemma_reach_walkable(*g, gsx, gsy, px + 1, py, (round - 1) as nat);
                    }
                    if reach_n(*g, gsx, gsy, px, py - 1, (round - 1) as nat) {
                        lemma_reach_walkable(*g, gsx, gsy, px, py - 1, (round - 1) as nat);
                    }
                    if reach_n(*g, gsx, gsy, px, py + 1, (round - 1) as nat) {
                        lemma_reach_walkable(*g, gsx, gsy, px, py + 1, (round - 1) as nat);
                    }
                }
            }
        }
        if any {
            proof {
                let j = choose|j: int|
                    0 <= j < len && d@[j] == UNREACHABLE && new_d@[j] != UNREACHABLE;
                lemma_count_strict(d@, new_d@, j);
                lemma_count_bounds(new_d@);
                g.lemma_idx_bounds(gsx, gsy);
                assert forall|x: int, y: int|
                    #![trigger g.idx(x, y)]
                    g.in_bounds(x, y) && new_d@[g.idx(x, y)] != UNREACHABLE implies new_d@[g.idx(
                    x,
                    y,
                )] < round + 1 && reach_n(*g, gsx, gsy, x, y, new_d@[g.idx(x, y)] as nat) && (
                new_d@[g.idx(x, y)] > 0 ==> !reach_n(
                    *g,
                    gsx,
                    gsy,
                    x,
                    y,
                    (new_d@[g.idx(x, y)] - 1) as nat,
                )) by {
                    g.lemma_idx_bounds(x, y);
                    if d@[g.idx(x, y)] == UNREACHABLE {
                        assert(new_d@[g.idx(x, y)] == round);
                        assert(reach_n(*g, gsx, gsy, x, y, round as nat));
                        assert(!reach_n(*g, gsx, gsy, x, y, (round - 1) as nat));
                    }
                }
            }
            d = new_d;
            round = round + 1;
        } else {
            proof {
                assert(new_d@ =~= d@);
            }
            changed = false;
        }
    }
    proof {
        let r = (round - 1) as nat;
        assert forall|x: int, y: int|
            g.in_bounds(x, y) implies ((d@[g.idx(x, y)] != UNREACHABLE) <==> reachable(
            *g,
            gsx,
            gsy,
            x,
            y,
        )) by {
            if d@[g.idx(x, y)] != UNREACHABLE {
                assert(reach_n(*g, gsx, gsy, x, y, r));
            }
            if reachable(*g, gsx, gsy, x, y) {
                let n = choose|n: nat| reach_n(*g, gsx, gsy, x, y, n);
                if n <= r {
                    lemma_reach_mono(*g, gsx, gsy, x, y, n, r);
                } else {
                    lemma_reach_stable(*g, gsx, gsy, r, n);
                }
            }
        }
        g.lemma_idx_bounds(gsx, gsy);
    }
    d
}

/// How many of the first `n` cells (by flat index) are reachable from
/// `(sx, sy)`.
pub open spec fn reached_count(g: Grid, sx: int, sy: int, n: int) -> int
    decreases n,
{
    if n <= 0 {
        0
    } else {
        reached_count(g, sx, sy, n - 1) + if reachable(g, sx, sy, g.x_of(n - 1), g.y_of(n - 1)) {
            1int
        } else {
            0int
        }
    }
}

proof fn lemma_count_prefix_is_reached_count(g: Grid, sx: int, sy: int, d: Seq<u32>, n: int)
    requires
        g.inv(),
        d.len() == g.tiles.len(),
        0 <= n <= d.len(),
        forall|x: int, y: int|
            g.in_bounds(x, y) ==> ((d[g.idx(x, y)] != UNREACHABLE) <==> reachable(g, sx, sy, x, y)),
    ensures
        count_marked(d.take(n)) == reached_count(g, sx, sy, n),
    decreases n,
{
    if n > 0 {
        lemma_count_prefix_is_reached_count(g, sx, sy, d, n - 1);
        assert(d.take(n).drop_last() =~= d.take(n - 1));
        assert(d.take(n).last() == d[n - 1]);
        g.lemma_idx_inverse(n - 1);
        assert(d[g.idx(g.x_of(n - 1), g.y_of(n - 1))] == d[n - 1]);
    }
}

/// A distance field's reached-cell count equals the number of reachable
/// cells of the grid.
pub proof fn lemma_count_is_reached_count(g: Grid, sx: int, sy: int, d: Seq<u32>)
    requires
        g.inv(),
        d.len() == g.tiles.len(),
        forall|x: int, y: int|
            g.in_bounds(x, y) ==> ((d[g.idx(x, y)] != UNREACHABLE) <==> reachable(g, sx, sy, x, y)),
    ensures
        count_marked(d) == reached_count(g, sx, sy, d.len() as int),
{
    lemma_count_prefix_is_reached_count(g, sx, sy, d, d.len() as int);
    assert(d.take(d.len() as int) =~= d);
}

/// Two grids that agree pointwise on walkability give every reachable
/// cell the same shortest-path distance.
pub proof fn lemma_dist_same_walkability(g1: Grid, g2: Grid, sx: int, sy: int, x: int, y: int)
    requires
        g1.width == g2.width,
        g1.height == g2.height,
        forall|cx: int, cy: int|
            g1.in_bounds(cx, cy) ==> (g2.walkable_at(cx, cy) == g1.walkable_at(cx, cy)),
        reachable(g1, sx, sy, x, y),
    ensures
        reachable(g2, sx, sy, x, y),
        spec_dist(g1, sx, sy, x, y) == spec_dist(g2, sx, sy, x, y),
{
    assert forall|cx: int, cy: int|
        g1.in_bounds(cx, cy) && reachable(g1, sx, sy, cx, cy) implies (g2.walkable_at(cx, cy)
        == g1.walkable_at(cx, cy)) by {}
    let n = choose|n: nat| reach_n(g1, sx, sy, x, y, n);
    lemma_reach_transfer(g1, g2, sx, sy, x, y, n);
    assert(reach_n(g2, sx, sy, x, y, n));
    let d1 = spec_dist(g1, sx, sy, x, y);
    let d2 = spec_dist(g2, sx, sy, x, y);
    lemma_dist_minimal(g1, sx, sy, x, y, n);
    assert(reach_n(g1, sx, sy, x, y, d1));
    lemma_reach_transfer(g1, g2, sx, sy, x, y, d1);
    lemma_dist_minimal(g2, sx, sy, x, y, d1);
    assert(d2 <= d1);
    assert forall|cx: int, cy: int|
        g2.in_bounds(cx, cy) && reachable(g2, sx, sy, cx, cy) implies (g1.walkable_at(cx, cy)
        == g2.walkable_at(cx, cy)) by {}
    assert(reach_n(g2, sx, sy, x, y, d2));
    lemma_reach_transfer(g2, g1, sx, sy, x, y, d2);
    lemma_dist_minimal(g1, sx, sy, x, y, d2);
    assert(d1 <= d2);
}

/// Reachability carries over to a grid that agrees on walkability at every
/// cell reachable in the first grid.
pub proof fn lemma_reach_transfer(g1: Grid, g2: Grid, sx: int, sy: int, x: int, y: int, n: nat)
    requires
        g1.width == g2.width,
        g1.height == g2.height,
        forall|cx: int, cy: int|
            g1.in_bounds(cx, cy) && reachable(g1, sx, sy, cx, cy) ==> (g2.walkable_at(cx, cy)
                == g1.walkable_at(cx, cy)),
        reach_n(g1, sx, sy, x, y, n),
    ensures
        reach_n(g2, sx, sy, x, y, n),
    decreases n,
{
    if n == 0 {
        assert(reachable(g1, sx, sy, sx, sy)) by {
            assert(reach_n(g1, sx, sy, sx, sy, 0));
        }
    } else {
        if reach_n(g1, sx, sy, x, y, (n - 1) as nat) {
            lemma_reach_transfer(g1, g2, sx, sy, x, y, (n - 1) as nat);
        } else {
            lemma_reach_walkable(g1, sx, sy, x, y, n);
            assert(reachable(g1, sx, sy, x, y)) by {
                assert(reach_n(g1, sx, sy, x, y, n));
            }
            if reach_n(g1, sx, sy, x - 1, y, (n - 1) as nat) {
                lemma_reach_transfer(g1, g2, sx, sy, x - 1, y, (n - 1) as nat);
            } else if reach_n(g1, sx, sy, x + 1, y, (n - 1) as nat) {
                lemma_reach_transfer(g1, g2, sx, sy, x + 1, y, (n - 1) as nat);
            } else if reach_n(g1, sx, sy, x, y - 1, (n - 1) as nat) {
                lemma_reach_transfer(g1, g2, sx, sy, x, y - 1, (n - 1) as nat);
            } else {
                lemma_reach_transfer(g1, g2, sx, sy, x, y + 1, (n - 1) as nat);
            }
        }
    }
}

/// Two grids that agree pointwise on walkability have the same reachability.
pub proof fn lemma_reach_same_walkability(g1: Grid, g2: Grid, sx: int, sy: int)
    requires
        g1.width == g2.width,
        g1.height == g2.height,
        forall|cx: int, cy: int|
            g1.in_bounds(cx, cy) ==> (g2.walkable_at(cx, cy) == g1.walkable_at(cx, cy)),
    ensures
        forall|x: int, y: int|
            reachable(g1, sx, sy, x, y) ==> reachable(g2, sx, sy, x, y),
{
    assert forall|x: int, y: int| reachable(g1, sx, sy, x, y) implies reachable(
        g2,
        sx,
        sy,
        x,
        y,
    ) by {
        let n = choose|n: nat| reach_n(g1, sx, sy, x, y, n);
        lemma_reach_transfer(g1, g2, sx, sy, x, y, n);
        assert(reach_n(g2, sx, sy, x, y, n));
    }
}

/// Rewrites every cell the flood fill cannot reach from `(sx, sy)` to
/// `Wall`. Afterwards every walkable cell of the grid is reachable from the
/// start (the post-cull invariant), and reachable cells keep their tile kind.
#[verifier::loop_isolation(false)]
pub fn cull_unreachable(g: &mut Grid, sx: i32, sy: i32)
    requires
        old(g).inv(),
        old(g).walkable_at(sx as int, sy as int),
    ensures
        final(g).inv(),
        final(g).width == old(g).width,
        final(g).height == old(g).height,
        final(g).depth == old(g).depth,
        final(g).name == old(g).name,
        final(g).revealed_tiles == old(g).revealed_tiles,
        final(g).visible_tiles == old(g).visible_tiles,
        final(g).view_blocked == old(g).view_blocked,
        final(g).tile_content == old(g).tile_content,
        final(g).tiles.len() == old(g).tiles.len(),
        forall|x: int, y: int|
            #![trigger old(g).idx(x, y)]
            old(g).in_bounds(x, y) ==> final(g).tiles[old(g).idx(x, y)] == (if reachable(
                *old(g),
                sx as int,
                sy as int,
                x,
                y,
            ) {
                old(g).tiles[old(g).idx(x, y)]
            } else {
                TileType::Wall
            }),
        final(g).walkable_at(sx as int, sy as int),
        all_walkable_reachable(*final(g), sx as int, sy as int),
{
    let ghost g1 = *g;
    let ghost gsx = sx as int;
    let ghost gsy = sy as int;
    let d = distance_field(&*g, sx, sy);
    let len: usize = g.tiles.len();
    let mut new_tiles: Vec<TileType> = Vec::new();
    let mut i: usize = 0;
    while i < len
        invariant
            i <= len,
            new_tiles.len() == i,
            forall|j: int|
                0 <= j < i ==> new_tiles[j] == (if d[j] != UNREACHABLE {
                    g1.tiles[j]
                } else {
                    TileType::Wall
                }),
        decreases len - i,
    {
        if d[i] != UNREACHABLE {
            new_tiles.push(g.tiles[i]);
        } else {
            new_tiles.push(TileType::Wall);
        }
        i = i + 1;
    }
    g.tiles = new_tiles;
    proof {
        let g2 = *g;
        assert forall|x: int, y: int|
            #![trigger g1.idx(x, y)]
            g1.in_bounds(x, y) implies g2.tiles[g1.idx(x, y)] == (if reachable(g1, gsx, gsy, x, y) {
            g1.tiles[g1.idx(x, y)]
        } else {
            TileType::Wall
        }) by {
            g1.lemma_idx_bounds(x, y);
        }
        assert(reachable(g1, gsx, gsy, gsx, gsy)) by {
            assert(reach_n(g1, gsx, gsy, gsx, gsy, 0));
        }
        assert(g2.walkable_at(gsx, gsy));
        assert forall|x: int, y: int| g2.walkable_at(x, y) implies reachable(
            g2,
            gsx,
            gsy,
            x,
            y,
        ) by {
            g1.lemma_idx_bounds(x, y);
            if !reachable(g1, gsx, gsy, x, y) {
                assert(g2.tiles[g1.idx(x, y)] == TileType::Wall);
                assert(false);
            }
            assert forall|cx: int, cy: int|
                g1.in_bounds(cx, cy) && reachable(g1, gsx, gsy, cx, cy) implies (g2.walkable_at(
                cx,
                cy,
            ) == g1.walkable_at(cx, cy)) by {
                g1.lemma_idx_bounds(cx, cy);
            }
            let n = choose|n: nat| reach_n(g1, gsx, gsy, x, y, n);
            lemma_reach_transfer(g1, g2, gsx, gsy, x, y, n);
            assert(reach_n(g2, gsx, gsy, x, y, n));
        }
    }
}

/// How many cells of a distance field were reached.
pub fn count_reached(d: &Vec<u32>) -> (c: usize)
    ensures
        c == count_marked(d@),
        c <= d.len(),
{
    let mut c: usize = 0;
    let mut i: usize = 0;
    proof {
        assert(d@.take(0) =~= Seq::<u32>::empty());
    }
    while i < d.len()
        invariant
            i <= d.len(),
            c == count_marked(d@.take(i as int)),
            0 <= c <= i,
        decreases d.len() - i,
    {
        proof {
            assert(d@.take(i + 1).drop_last() =~= d@.take(i as int));
            assert(d@.take(i + 1).last() == d@[i as int]);
        }
        if d[i] != UNREACHABLE {
            c = c + 1;
        }
        i = i + 1;
    }
    proof {
        assert(d@.take(d@.len() as int) =~= d@);
    }
    c
}

/// The flat index of the reachable cell with maximum shortest-path distance
/// from the start; among equally distant cells the lowest flat index wins,
/// so ties break deterministically.
#[verifier::loop_isolation(false)]
pub fn most_distant_reachable(g: &Grid, sx: i32, sy: i32) -> (r: usize)
    requires
        g.inv(),
        g.walkable_at(sx as int, sy as int),
    ensures
        r < g.tiles.len(),
        reachable(*g, sx as int, sy as int, g.x_of(r as int), g.y_of(r as int)),
        forall|x: int, y: int|
            #![trigger g.idx(x, y)]
            g.in_bounds(x, y) && reachable(*g, sx as int, sy as int, x, y) ==> spec_dist(
                *g,
                sx as int,
                sy as int,
                x,
                y,
            ) <= spec_dist(*g, sx as int, sy as int, g.x_of(r as int), g.y_of(r as int)) && (g.idx(
                x,
                y,
            ) < r ==> spec_dist(*g, sx as int, sy as int, x, y) < spec_dist(
                *g,
                sx as int,
                sy as int,
                g.x_of(r as int),
                g.y_of(r as int),
            )),
{
    let ghost gsx = sx as int;
    let ghost gsy = sy as int;
    let d = distance_field(g, sx, sy);
    proof {
        // every reached entry of the field equals the shortest-path distance
        assert forall|x: int, y: int|
            #![trigger g.idx(x, y)]
            g.in_bounds(x, y) && d[g.idx(x, y)] != UNREACHABLE implies d[g.idx(x, y)]
            == spec_dist(*g, gsx, gsy, x, y) by {
            g.lemma_idx_bounds(x, y);
            let dv = d[g.idx(x, y)] as nat;
            lemma_dist_minimal(*g, gsx, gsy, x, y, dv);
            let sd = spec_dist(*g, gsx, gsy, x, y);
            if sd < dv {
                lemma_reach_mono(*g, gsx, gsy, x, y, sd, (dv - 1) as nat);
                assert(false);
            }
        }
    }
    let si = g.xy_idx(sx, sy);
    let mut best: usize = 0;
    let mut bd: u32 = 0;
    let mut found: bool = false;
    let len: usize = g.tiles.len();
    let mut i: usize = 0;
    while i < len
        invariant
            i <= len,
            found ==> best < i && d[best as int] == bd && bd != UNREACHABLE,
            forall|j: int| 0 <= j < i && d[j] != UNREACHABLE ==> found && d[j] <= bd,
            forall|j: int| 0 <= j < i && j < best && d[j] != UNREACHABLE ==> d[j] < bd,
        decreases len - i,
    {
        if d[i] != UNREACHABLE && (!found || d[i] > bd) {
            best = i;
            bd = d[i];
            found = true;
        }
        i = i + 1;
    }
    proof {
        assert(d[si as int] != UNREACHABLE);
        assert(found);
        g.lemma_idx_inverse(best as int);
        let bx = g.x_of(best as int);
        let by = g.y_of(best as int);
        assert(d[g.idx(bx, by)] != UNREACHABLE);
        assert forall|x: int, y: int|
            #![trigger g.idx(x, y)]
            g.in_bounds(x, y) && reachable(*g, gsx, gsy, x, y) implies spec_dist(
            *g,
            gsx,
            gsy,
            x,
            y,
        ) <= spec_dist(*g, gsx, gsy, bx, by) && (g.idx(x, y) < best ==> spec_dist(
            *g,
            gsx,
            gsy,
            x,
            y,
        ) < spec_dist(*g, gsx, gsy, bx, by)) by {
            g.lemma_idx_bounds(x, y);
            assert(d[g.idx(x, y)] != UNREACHABLE);
            assert(d[g.idx(x, y)] == spec_dist(*g, gsx, gsy, x, y));
            assert(d[g.idx(bx, by)] == spec_dist(*g, gsx, gsy, bx, by));
        }
    }
    best
}

/// Executable mirror of `spec_tile_walkable`, private to the sweep.
fn tile_walkable_exec(tt: TileType) -> (r: bool)
    ensures
        r == spec_tile_walkable(tt),
{
    crate::tiletype::tile_walkable(tt)
}

} // verus!
