//! The cellular-automata initial generator: random noise, iterative
//! smoothing over each cell's 8-neighbourhood, a connectivity acceptance
//! test with regeneration on failure, start placement by a walk from the
//! centre, culling, distant-exit stamping and region spawning.

use vstd::prelude::*;
use crate::grid::{Grid, Position};
use crate::tiletype::TileType;
use crate::reach::{reachable, spec_dist, all_walkable_reachable, cull_unreachable,
    most_distant_reachable, distance_field, count_reached, reached_count,
    lemma_reach_same_walkability, lemma_count_is_reached_count, lemma_dist_same_walkability};
use crate::tiletype::spec_tile_walkable;
use crate::builder::{BuilderMap, BuildError, CellularParams, VoronoiParams, bm_inv,
    has_valid_start, voronoi_spawning_pass};
use crate::rng::roll;

verus! {

/// 1 when the cell holds `Wall`, else 0.
pub open spec fn wall_ind(g: Grid, x: int, y: int) -> int {
    if g.tiles[g.idx(x, y)] == TileType::Wall {
        1
    } else {
        0
    }
}

/// How many of the cell's 8 neighbours hold `Wall`.
pub open spec fn wall_count(g: Grid, x: int, y: int) -> int {
    wall_ind(g, x - 1, y) + wall_ind(g, x + 1, y) + wall_ind(g, x, y - 1) + wall_ind(g, x, y + 1)
        + wall_ind(g, x - 1, y - 1) + wall_ind(g, x + 1, y - 1) + wall_ind(g, x - 1, y + 1)
        + wall_ind(g, x + 1, y + 1)
}

/// What one smoothing pass writes into a cell: interior cells become
/// `Wall` when crowded (more than 4 wall neighbours) - and, on lenient
/// passes, also when isolated (at most 1) - else `Floor`; border cells are
/// untouched.
pub open spec fn smooth_at(g: Grid, x: int, y: int, lenient: bool) -> TileType {
    if 1 <= x < g.width - 1 && 1 <= y < g.height - 1 {
        if wall_count(g, x, y) > 4 || (lenient && wall_count(g, x, y) <= 1) {
            TileType::Wall
        } else {
            TileType::Floor
        }
    } else {
        g.tiles[g.idx(x, y)]
    }
}

/// Computes what one smoothing pass writes into a single cell.
#[verifier::rlimit(60)]
fn smooth_cell(g: &Grid, x: i32, y: i32, lenient: bool) -> (t: TileType)
    requires
        g.inv(),
        g.in_bounds(x as int, y as int),
    ensures
        t == smooth_at(*g, x as int, y as int, lenient),
{
    if x >= 1 && x < g.width - 1 && y >= 1 && y < g.height - 1 {
        let mut n: u32 = 0;
        if g.tiles[g.xy_idx(x - 1, y)] == TileType::Wall {
            n = n + 1;
        }
        if g.tiles[g.xy_idx(x + 1, y)] == TileType::Wall {
            n = n + 1;
        }
        if g.tiles[g.xy_idx(x, y - 1)] == TileType::Wall {
            n = n + 1;
        }
        if g.tiles[g.xy_idx(x, y + 1)] == TileType::Wall {
            n = n + 1;
        }
        if g.tiles[g.xy_idx(x - 1, y - 1)] == TileType::Wall {
            n = n + 1;
        }
        if g.tiles[g.xy_idx(x + 1, y - 1)] == TileType::Wall {
            n = n + 1;
        }
        if g.tiles[g.xy_idx(x - 1, y + 1)] == TileType::Wall {
            n = n + 1;
        }
        if g.tiles[g.xy_idx(x + 1, y + 1)] == TileType::Wall {
            n = n + 1;
        }
        proof {
            assert(n == wall_count(*g, x as int, y as int));
        }
        if n > 4 || (lenient && n <= 1) {
            TileType::Wall
        } else {
            TileType::Floor
        }
    } else {
        g.tiles[g.xy_idx(x, y)]
    }
}

/// What a successfully generated cavern level guarantees: a walkable
/// starting position on `Floor`; every walkable cell reachable from it;
/// exactly one `DownStairs` cell, distinct from the start, reachable, and
/// the most distant reachable cell (ties already broken); spawn regions
/// that partition the walkable cells; and a non-empty spawn list whose
/// cells all lie on the grid.
pub open spec fn cavern_level_ok(b: BuilderMap) -> bool {
    &&& has_valid_start(b)
    &&& ({
        let p = b.starting_position->0;
        let g = b.map;
        let si = g.idx(p.x as int, p.y as int);
        &&& g.tiles[si] == TileType::Floor
        &&& all_walkable_reachable(g, p.x as int, p.y as int)
        &&& (exists|e: int|
            0 <= e < g.tiles.len() && e != si && #[trigger] g.tiles[e] == TileType::DownStairs
                && reachable(g, p.x as int, p.y as int, g.x_of(e), g.y_of(e)) && (forall|i: int|
                0 <= i < g.tiles.len() && i != e ==> #[trigger] g.tiles[i]
                    != TileType::DownStairs) && (forall|x: int, y: int|
                #![trigger g.idx(x, y)]
                g.in_bounds(x, y) && reachable(g, p.x as int, p.y as int, x, y) ==> spec_dist(
                    g,
                    p.x as int,
                    p.y as int,
                    x,
                    y,
                ) <= spec_dist(g, p.x as int, p.y as int, g.x_of(e), g.y_of(e))))
        &&& b.spawn_regions.len() >= 1
        &&& (forall|s: int, c: usize|
            #![trigger b.spawn_regions[s]@.contains(c)]
            0 <= s < b.spawn_regions.len() && b.spawn_regions[s]@.contains(c) ==> c
                < g.tiles.len() && spec_tile_walkable(g.tiles[c as int]))
        &&& (forall|c: usize|
            c < g.tiles.len() && spec_tile_walkable(g.tiles[c as int]) ==> exists|s: int|
                0 <= s < b.spawn_regions.len() && #[trigger] b.spawn_regions[s]@.contains(c))
        &&& (forall|s1: int, s2: int, c: usize|
            0 <= s1 < s2 < b.spawn_regions.len() ==> !(#[trigger] b.spawn_regions[s1]@.contains(c)
                && #[trigger] b.spawn_regions[s2]@.contains(c)))
        &&& b.spawn_list.len() > 0
        &&& (forall|k: int| 0 <= k < b.spawn_list.len() ==> (#[trigger] b.spawn_list[k]).0 < g.tiles.len())
    })
}

/// The finished map descends from an accepted draft: a draft layout of
/// the same extent had an open flood cell from which strictly more than
/// `accept_percent` per cent of all cells were reachable, and the final
/// tiles are exactly that draft culled from the starting position, with
/// the exit cell stamped. Rejected drafts never surface.
pub open spec fn accepted_from_draft(
    b: BuilderMap,
    params: CellularParams,
    draft: Grid,
    fx: int,
    fy: int,
    e: int,
) -> bool {
    let g = b.map;
    let p = b.starting_position->0;
    &&& draft.inv()
    &&& draft.width == g.width
    &&& draft.height == g.height
    &&& draft.walkable_at(fx, fy)
    &&& 100 * reached_count(draft, fx, fy, draft.tiles.len() as int) > params.accept_percent
        * draft.tiles.len()
    &&& 0 <= e < g.tiles.len()
    &&& (forall|x: int, y: int|
        #![trigger g.idx(x, y)]
        g.in_bounds(x, y) ==> g.tiles[g.idx(x, y)] == (if g.idx(x, y) == e {
            TileType::DownStairs
        } else if reachable(draft, p.x as int, p.y as int, x, y) {
            draft.tiles[g.idx(x, y)]
        } else {
            TileType::Wall
        }))
}

/// Runs one smoothing pass over the whole grid, reading the old layout and
/// writing the new one cell by cell.
#[verifier::loop_isolation(false)]
#[verifier::rlimit(100)]
pub fn smoothing_pass(g: &mut Grid, lenient: bool)
    requires
        old(g).inv(),
    ensures
        final(g).inv(),
        final(g).width == old(g).width,
        final(g).height == old(g).height,
        final(g).depth == old(g).depth,
        final(g).name == old(g).name,
        final(g).revealed_tiles == old(g).revealed_tiles,
        final(g).visible_tiles == old(g).visible_tiles,
        final(g).view_blocked == old(g).view_blocked,
        final(g).tile_content == old(g).tile_content,
        final(g).tiles.len() == old(g).tiles.len(),
        forall|x: int, y: int|
            #![trigger old(g).idx(x, y)]
            old(g).in_bounds(x, y) ==> final(g).tiles[old(g).idx(x, y)] == smooth_at(
                *old(g),
                x,
                y,
                lenient,
            ),
{
    let ghost g0 = *g;
    let w = g.width;
    let h = g.height;
    let mut new_tiles: Vec<TileType> = Vec::new();
    let mut y: i32 = 0;
    while y < h
        invariant
            0 <= y <= h,
            new_tiles.len() == y * w,
            forall|px: int, py: int|
                #![trigger g0.idx(px, py)]
                g0.in_bounds(px, py) && g0.idx(px, py) < new_tiles.len() ==> new_tiles[g0.idx(
                    px,
                    py,
                )] == smooth_at(g0, px, py, lenient),
        decreases h - y,
    {
        let mut x: i32 = 0;
        while x < w
            invariant
                0 <= y < h,
                0 <= x <= w,
                new_tiles.len() == y * w + x,
                forall|px: int, py: int|
                    #![trigger g0.idx(px, py)]
                    g0.in_bounds(px, py) && g0.idx(px, py) < new_tiles.len() ==> new_tiles[g0.idx(
                        px,
                        py,
                    )] == smooth_at(g0, px, py, lenient),
            decreases w - x,
        {
            let v: TileType = smooth_cell(&*g, x, y, lenient);
            proof {
                g0.lemma_idx_bounds(x as int, y as int);
            }
            new_tiles.push(v);
            proof {
                assert forall|px: int, py: int|
                    #![trigger g0.idx(px, py)]
                    g0.in_bounds(px, py) && g0.idx(px, py) < new_tiles.len() implies new_tiles[
                g0.idx(px, py)] == smooth_at(g0, px, py, lenient) by {
                    if g0.idx(px, py) == new_tiles.len() - 1 {
                        g0.lemma_idx_injective(px, py, x as int, y as int);
                    }
                }
            }
            x = x + 1;
        }
        proof {
            assert((y + 1) * w == y * w + w) by (nonlinear_arith) {}
        }
        y = y + 1;
    }
    proof {
        assert(new_tiles.len() == g0.tiles.len()) by (nonlinear_arith)
            requires
                new_tiles.len() == h as int * w,
                g0.tiles.len() == w as int * h,
        {}
        assert forall|px: int, py: int|
            #![trigger g0.idx(px, py)]
            g0.in_bounds(px, py) implies new_tiles[g0.idx(px, py)] == smooth_at(
            g0,
            px,
            py,
            lenient,
        ) by {
            g0.lemma_idx_bounds(px, py);
        }
    }
    g.tiles = new_tiles;
}

/// Seeds every interior cell `Wall` with the configured probability and
/// `Floor` otherwise; the border ring stays `Wall`.
#[verifier::loop_isolation(false)]
fn randomize_interior(g: &mut Grid, rng: &mut rltk::RandomNumberGenerator, fill_percent: u32)
    requires
        old(g).inv(),
        old(g).width <= 10_000,
        old(g).height <= 10_000,
        fill_percent <= 100,
    ensures
        final(g).inv(),
        final(g).width == old(g).width,
        final(g).height == old(g).height,
        final(g).depth == old(g).depth,
        final(g).name == old(g).name,
        final(g).revealed_tiles == old(g).revealed_tiles,
        final(g).visible_tiles == old(g).visible_tiles,
        final(g).view_blocked == old(g).view_blocked,
        final(g).tile_content == old(g).tile_content,
        final(g).tiles.len() == old(g).tiles.len(),
        forall|i: int|
            0 <= i < final(g).tiles.len() ==> #[trigger] final(g).tiles[i] == TileType::Wall
                || final(g).tiles[i] == TileType::Floor || final(g).tiles[i] == old(g).tiles[i],
{
    let ghost gorig = *g;
    let w = g.width;
    let h = g.height;
    let mut y: i32 = 1;
    while y < h - 1
        invariant
            g.inv(),
            g.width == w,
            g.height == h,
            g.depth == old(g).depth,
            g.name == old(g).name,
            g.revealed_tiles == old(g).revealed_tiles,
            g.visible_tiles == old(g).visible_tiles,
            g.view_blocked == old(g).view_blocked,
            g.tile_content == old(g).tile_content,
            g.tiles.len() == old(g).tiles.len(),
            forall|i: int|
                0 <= i < g.tiles.len() ==> #[trigger] g.tiles[i] == TileType::Wall || g.tiles[i]
                    == TileType::Floor || g.tiles[i] == gorig.tiles[i],
            1 <= y <= (if h >= 2 { h - 1 } else { 1 }),
        decreases h - y,
    {
        let mut x: i32 = 1;
        while x < w - 1
            invariant
                g.inv(),
                g.width == w,
                g.height == h,
                g.depth == old(g).depth,
                g.name == old(g).name,
                g.revealed_tiles == old(g).revealed_tiles,
                g.visible_tiles == old(g).visible_tiles,
                g.view_blocked == old(g).view_blocked,
                g.tile_content == old(g).tile_content,
                g.tiles.len() == old(g).tiles.len(),
                forall|i: int|
                    0 <= i < g.tiles.len() ==> #[trigger] g.tiles[i] == TileType::Wall || g.tiles[i]
                        == TileType::Floor || g.tiles[i] == gorig.tiles[i],
                1 <= y < h,
                1 <= x <= (if w >= 2 { w - 1 } else { 1 }),
            decreases w - x,
        {
            let i = g.xy_idx(x, y);
            let r = roll(rng, 100);
            if r <= fill_percent as i32 {
                g.tiles[i] = TileType::Wall;
            } else {
                g.tiles[i] = TileType::Floor;
            }
            x = x + 1;
        }
        y = y + 1;
    }
}

/// Generates a cavern level: noise, smoothing, a connectivity acceptance
/// test (regenerating from fresh draws on failure, up to the attempt
/// budget), a start walked outward from the centre, a cull of unreachable
/// area, a `DownStairs` exit on the most distant reachable cell, and
/// region-based spawns. On success the start stands on `Floor`, every
/// walkable cell is reachable from it, a distinct reachable exit cell
/// holds `DownStairs`, and the spawn list is non-empty.
#[verifier::loop_isolation(false)]
#[verifier::rlimit(100)]
pub fn cellular_automata_generate(
    build: &mut BuilderMap,
    rng: &mut rltk::RandomNumberGenerator,
    params: CellularParams,
) -> (r: Result<(), BuildError>)
    requires
        bm_inv(*old(build)),
        params.fill_percent <= 100,
        params.accept_percent <= 100,
    ensures
        bm_inv(*final(build)),
        final(build).map.width == old(build).map.width,
        final(build).map.height == old(build).map.height,
        r is Err ==> r->Err_0 == BuildError::Degenerate,
        r is Ok ==> cavern_level_ok(*final(build)),
        r is Ok ==> exists|draft: Grid, fx: int, fy: int, e: int|
            #[trigger] accepted_from_draft(*final(build), params, draft, fx, fy, e),
{
    let w = build.map.width;
    let h = build.map.height;
    let depth = build.map.depth;
    let ghost mut g_draft: Grid = build.map;
    let ghost mut g_fx: int = 0;
    let ghost mut g_fy: int = 0;
    let mut attempt: u32 = 0;
    while attempt < params.max_attempts
        invariant
            bm_inv(*build),
            build.map.width == w,
            build.map.height == h,
            w == old(build).map.width,
            h == old(build).map.height,
        decreases params.max_attempts - attempt,
    {
        let name = build.map.name.as_str().to_string();
        let fresh = Grid::new(w, h, depth, name.as_str());
        build.map = fresh;
        build.starting_position = None;
        build.history = Vec::new();
        build.spawn_regions = Vec::new();
        build.spawn_list = Vec::new();
        randomize_interior(&mut build.map, rng, params.fill_percent);
        build.take_snapshot();
        let mut pass: u32 = 0;
        while pass < params.smoothing_passes
            invariant
                bm_inv(*build),
                build.map.width == w,
                build.map.height == h,
                build.spawn_list.len() == 0,
                forall|i: int|
                    0 <= i < build.map.tiles.len() ==> #[trigger] build.map.tiles[i]
                        == TileType::Wall || build.map.tiles[i] == TileType::Floor,
            decreases params.smoothing_passes - pass,
        {
            let ghost m0 = build.map;
            smoothing_pass(&mut build.map, pass < params.lenient_passes);
            proof {
                // each pass writes only Wall or Floor, or keeps a border
                // cell that already held one of the two
                assert forall|i: int|
                    0 <= i < build.map.tiles.len() implies #[trigger] build.map.tiles[i]
                    == TileType::Wall || build.map.tiles[i] == TileType::Floor by {
                    m0.lemma_idx_inverse(i);
                    assert(build.map.tiles[m0.idx(m0.x_of(i), m0.y_of(i))] == smooth_at(
                        m0,
                        m0.x_of(i),
                        m0.y_of(i),
                        pass < params.lenient_passes,
                    ));
                }
            }
            build.take_snapshot();
            pass = pass + 1;
        }
        // find a random open cell for the connectivity test
        let mut fx: i32 = 0;
        let mut fy: i32 = 0;
        let mut found: bool = false;
        let mut t: u32 = 0;
        while t < 1000 && !found
            invariant
                bm_inv(*build),
                build.map.width == w,
                build.map.height == h,
                found ==> build.map.in_bounds(fx as int, fy as int) && build.map.tiles[
                    build.map.idx(fx as int, fy as int)] == TileType::Floor,
            decreases 1000 - t, (if found { 0int } else { 1int }),
        {
            let x = roll(rng, w) - 1;
            let y = roll(rng, h) - 1;
            let i = build.map.xy_idx(x, y);
            if build.map.tiles[i] == TileType::Floor {
                fx = x;
                fy = y;
                found = true;
            }
            t = t + 1;
        }
        let mut ok_attempt = found;
        if ok_attempt {
            // acceptance: the reached fraction of all cells must beat the
            // threshold
            let d = distance_field(&build.map, fx, fy);
            let count = count_reached(&d);
            let total = build.map.tiles.len();
            proof {
                assert(total <= 100_000_000) by (nonlinear_arith)
                    requires
                        total == build.map.width * build.map.height,
                        1 <= build.map.width <= 10_000,
                        1 <= build.map.height <= 10_000,
                {}
                assert(params.accept_percent as int * total as int
                    <= 10_000_000_000) by (nonlinear_arith)
                    requires
                        params.accept_percent <= 100,
                        total <= 100_000_000,
                {}
            }
            if (100u64 * count as u64) <= (params.accept_percent as u64 * total as u64) {
                ok_attempt = false;
            }
            proof {
                if ok_attempt {
                    g_draft = build.map;
                    g_fx = fx as int;
                    g_fy = fy as int;
                    lemma_count_is_reached_count(build.map, g_fx, g_fy, d@);
                    assert(100 * reached_count(g_draft, g_fx, g_fy, g_draft.tiles.len() as int)
                        > params.accept_percent * g_draft.tiles.len());
                    assert(g_draft.walkable_at(g_fx, g_fy));
                    assert(forall|i: int|
                        0 <= i < g_draft.tiles.len() ==> #[trigger] g_draft.tiles[i]
                            == TileType::Wall || g_draft.tiles[i] == TileType::Floor);
                }
            }
        }
        let mut sx: i32 = w / 2;
        let mut sy: i32 = h / 2;
        if ok_attempt {
            // walk outward from the centre in one random direction until a
            // Floor cell appears; falling off the grid restarts the attempt
            let dir = roll(rng, 4);
            let dx: i32 = if dir == 1 {
                -1
            } else if dir == 2 {
                1
            } else {
                0
            };
            let dy: i32 = if dir == 3 {
                -1
            } else if dir == 4 {
                1
            } else {
                0
            };
            let mut start_found = false;
            let mut step: i32 = 0;
            let bound = w + h;
            while step < bound && !start_found
                invariant
                    bm_inv(*build),
                    build.map.width == w,
                    build.map.height == h,
                    0 <= step <= bound,
                    w + h == bound,
                    start_found ==> build.map.in_bounds(sx as int, sy as int) && build.map.tiles[
                        build.map.idx(sx as int, sy as int)] == TileType::Floor,
                    -20_000 <= sx <= 20_000,
                    -20_000 <= sy <= 20_000,
                decreases bound - step, (if start_found { 0int } else { 1int }),
            {
                if sx < 0 || sx >= w || sy < 0 || sy >= h {
                    step = bound;
                } else {
                    let i = build.map.xy_idx(sx, sy);
                    if build.map.tiles[i] == TileType::Floor {
                        start_found = true;
                    } else {
                        sx = sx + dx;
                        sy = sy + dy;
                        step = step + 1;
                    }
                }
            }
            if !start_found {
                ok_attempt = false;
            }
        }
        if ok_attempt {
            let ghost pre_cull = build.map;
            cull_unreachable(&mut build.map, sx, sy);
            build.take_snapshot();
            let ghost g1 = build.map;
            let e = most_distant_reachable(&build.map, sx, sy);
            let si = build.map.xy_idx(sx, sy);
            if e != si {
                proof {
                    g1.lemma_idx_inverse(e as int);
                    crate::reach::lemma_reach_walkable(
                        g1,
                        sx as int,
                        sy as int,
                        g1.x_of(e as int),
                        g1.y_of(e as int),
                        choose|n: nat|
                            crate::reach::reach_n(
                                g1,
                                sx as int,
                                sy as int,
                                g1.x_of(e as int),
                                g1.y_of(e as int),
                                n,
                            ),
                    );
                }
                build.map.tiles[e] = TileType::DownStairs;
                build.take_snapshot();
                let ghost g2 = build.map;
                proof {
                    // the swap keeps walkability pointwise, so reachability
                    // and the post-cull invariant carry over
                    assert forall|cx: int, cy: int|
                        g1.in_bounds(cx, cy) implies (g2.walkable_at(cx, cy) == g1.walkable_at(
                        cx,
                        cy,
                    )) by {
                        g1.lemma_idx_bounds(cx, cy);
                    }
                    lemma_reach_same_walkability(g1, g2, sx as int, sy as int);
                    assert(g2.tiles[si as int] == TileType::Floor);
                    assert(all_walkable_reachable(g2, sx as int, sy as int)) by {
                        assert forall|cx: int, cy: int|
                            g2.walkable_at(cx, cy) implies reachable(g2, sx as int, sy as int, cx,
                        cy) by {
                            assert(g1.walkable_at(cx, cy));
                            assert(reachable(g1, sx as int, sy as int, cx, cy));
                        }
                    }
                    assert(g2.tiles[e as int] == TileType::DownStairs);
                    assert(reachable(g2, sx as int, sy as int, g2.x_of(e as int), g2.y_of(e as int)));
                }
                match voronoi_spawning_pass(
                    build,
                    rng,
                    VoronoiParams { n_seeds: 8, n_kinds: 10 },
                ) {
                    Ok(()) => {
                        build.starting_position = Some(Position { x: sx, y: sy });
                        proof {
                            let g = build.map;
                            let sxi = sx as int;
                            let syi = sy as int;
                            let ei = e as int;
                            assert(g == g2);
                            assert(g.walkable_at(sxi, syi));
                            assert(exists|x: int, y: int| g2.walkable_at(x, y));
                            assert forall|k: int|
                                0 <= k < build.spawn_list.len() implies (
                            #[trigger] build.spawn_list[k]).0 < build.map.tiles.len() by {}
                            assert(pre_cull == g_draft);
                            // no second exit: the draft held only walls and
                            // floors, the cull writes walls, and the stamp
                            // touched one cell
                            assert forall|i: int|
                                0 <= i < g.tiles.len() && i != ei implies #[trigger] g.tiles[i]
                                != TileType::DownStairs by {
                                g_draft.lemma_idx_inverse(i);
                                let x = g_draft.x_of(i);
                                let y = g_draft.y_of(i);
                                assert(g1.tiles[g_draft.idx(x, y)] == (if reachable(
                                    g_draft,
                                    sxi,
                                    syi,
                                    x,
                                    y,
                                ) {
                                    g_draft.tiles[g_draft.idx(x, y)]
                                } else {
                                    TileType::Wall
                                }));
                            }
                            // the stamped cell is the most distant reachable
                            // cell of the finished map as well: the stamp
                            // kept walkability pointwise
                            let ex = g1.x_of(ei);
                            let ey = g1.y_of(ei);
                            assert(g2.x_of(ei) == ex && g2.y_of(ei) == ey);
                            assert forall|cx: int, cy: int|
                                g2.in_bounds(cx, cy) implies (g1.walkable_at(cx, cy)
                                == g2.walkable_at(cx, cy)) by {
                                g1.lemma_idx_bounds(cx, cy);
                            }
                            assert forall|x: int, y: int|
                                #![trigger g.idx(x, y)]
                                g.in_bounds(x, y) && reachable(g2, sxi, syi, x, y) implies spec_dist(
                                g2,
                                sxi,
                                syi,
                                x,
                                y,
                            ) <= spec_dist(g2, sxi, syi, ex, ey) by {
                                lemma_dist_same_walkability(g2, g1, sxi, syi, x, y);
                                assert(g1.idx(x, y) == g.idx(x, y));
                                assert(spec_dist(g1, sxi, syi, x, y) <= spec_dist(
                                    g1,
                                    sxi,
                                    syi,
                                    ex,
                                    ey,
                                ));
                                lemma_dist_same_walkability(g1, g2, sxi, syi, ex, ey);
                            }
                            assert(e < g.tiles.len() && ei != si as int && g.tiles[ei]
                                == TileType::DownStairs && reachable(
                                g,
                                sxi,
                                syi,
                                g.x_of(ei),
                                g.y_of(ei),
                            ));
                            // the accepted draft is a witness for the
                            // acceptance provenance
                            assert forall|x: int, y: int|
                                #![trigger g.idx(x, y)]
                                g.in_bounds(x, y) implies g.tiles[g.idx(x, y)] == (if g.idx(x, y)
                                == ei {
                                TileType::DownStairs
                            } else if reachable(g_draft, sxi, syi, x, y) {
                                g_draft.tiles[g.idx(x, y)]
                            } else {
                                TileType::Wall
                            }) by {
                                g_draft.lemma_idx_bounds(x, y);
                                assert(g.idx(x, y) == g_draft.idx(x, y));
                                assert(g1.tiles[g_draft.idx(x, y)] == (if reachable(
                                    g_draft,
                                    sxi,
                                    syi,
                                    x,
                                    y,
                                ) {
                                    g_draft.tiles[g_draft.idx(x, y)]
                                } else {
                                    TileType::Wall
                                }));
                            }
                            assert(accepted_from_draft(*build, params, g_draft, g_fx, g_fy, ei));
                        }
                        return Ok(());
                    },
                    Err(_) => {
                        // no walkable cell would contradict the start; the
                        // attempt simply restarts
                    },
                }
            }
        }
        attempt = attempt + 1;
    }
    Err(BuildError::Degenerate)
}


/// The self-contained cellular-automata level builder: it owns its working
/// state and exposes the finished grid, starting position, snapshot
/// history and spawn list.
pub struct CellularAutomataBuilder {
    pub build: BuilderMap,
    pub depth: i32,
}

impl CellularAutomataBuilder {
    /// A builder for a standard 80 by 50 cavern level at the given depth.
    pub fn new(new_depth: i32) -> (b: CellularAutomataBuilder)
        ensures
            bm_inv(b.build),
            b.build.map.width == 80,
            b.build.map.height == 50,
            b.build.map.depth == new_depth,
            b.build.starting_position is None,
            b.build.spawn_list.len() == 0,
            b.build.spawn_regions.len() == 0,
            b.build.history.len() == 0,
            forall|i: int|
                0 <= i < b.build.map.tiles.len() ==> b.build.map.tiles[i] == TileType::Wall,
            forall|i: int| 0 <= i < b.build.map.tiles.len() ==> !b.build.map.revealed_tiles[i],
            forall|i: int| 0 <= i < b.build.map.tiles.len() ==> !b.build.map.visible_tiles[i],
            b.depth == new_depth,
    {
        CellularAutomataBuilder {
            build: BuilderMap {
                map: Grid::new(80, 50, new_depth, "Cavern"),
                starting_position: None,
                history: Vec::new(),
                spawn_regions: Vec::new(),
                spawn_list: Vec::new(),
                show_snapshots: true,
            },
            depth: new_depth,
        }
    }

    /// Runs the full cavern generation against the builder's own state.
    pub fn build_map(&mut self, rng: &mut rltk::RandomNumberGenerator) -> (r: Result<
        (),
        BuildError,
    >)
        requires
            bm_inv(old(self).build),
        ensures
            bm_inv(final(self).build),
            r is Ok ==> cavern_level_ok(final(self).build),
            r is Err ==> r->Err_0 == BuildError::Degenerate,
    {
        cellular_automata_generate(&mut self.build, rng, CellularParams::standard())
    }

    /// A copy of the finished grid.
    pub fn get_map(&self) -> (g: Grid)
        ensures
            g.tiles@ == self.build.map.tiles@,
            g.revealed_tiles@ == self.build.map.revealed_tiles@,
            g.visible_tiles@ == self.build.map.visible_tiles@,
            g.view_blocked@ == self.build.map.view_blocked@,
            g.tile_content.len() == self.build.map.tile_content.len(),
            forall|j: int|
                0 <= j < g.tile_content.len() ==> #[trigger] g.tile_content[j]@
                    == self.build.map.tile_content[j]@,
            g.width == self.build.map.width,
            g.height == self.build.map.height,
            g.depth == self.build.map.depth,
            g.name@ == self.build.map.name@,
    {
        self.build.map.clone_grid()
    }

    /// The chosen starting position; the origin before a successful build.
    pub fn get_starting_position(&self) -> (p: Position)
        ensures
            self.build.starting_position is Some ==> p == self.build.starting_position->0,
            self.build.starting_position is None ==> p == (Position { x: 0, y: 0 }),
    {
        match self.build.starting_position {
            Some(p) => p,
            None => Position { x: 0, y: 0 },
        }
    }

    /// Copies of the recorded snapshots, in the order they were taken.
    pub fn get_snapshot_history(&self) -> (h: Vec<Grid>)
        ensures
            h.len() == self.build.history.len(),
            forall|j: int|
                0 <= j < h.len() ==> #[trigger] h[j].tiles@ == self.build.history[j].tiles@
                    && h[j].revealed_tiles@ == self.build.history[j].revealed_tiles@,
    {
        let mut h: Vec<Grid> = Vec::new();
        let mut j: usize = 0;
        while j < self.build.history.len()
            invariant
                j <= self.build.history.len(),
                h.len() == j,
                forall|k: int|
                    0 <= k < j ==> #[trigger] h[k].tiles@ == self.build.history[k].tiles@
                        && h[k].revealed_tiles@ == self.build.history[k].revealed_tiles@,
            decreases self.build.history.len() - j,
        {
            h.push(self.build.history[j].clone_grid());
            j = j + 1;
        }
        h
    }

    /// Appends the current grid, fully revealed, to the snapshot history.
    pub fn take_snapshot(&mut self)
        requires
            bm_inv(old(self).build),
        ensures
            bm_inv(final(self).build),
            final(self).build.map == old(self).build.map,
            final(self).build.starting_position == old(self).build.starting_position,
            final(self).build.spawn_list == old(self).build.spawn_list,
            final(self).build.spawn_regions == old(self).build.spawn_regions,
            final(self).build.show_snapshots == old(self).build.show_snapshots,
            old(self).build.show_snapshots ==> final(self).build.history.len() == old(
                self,
            ).build.history.len() + 1 && final(self).build.history[final(self).build.history.len()
                - 1].tiles@ == old(self).build.map.tiles@ && (forall|i: int|
                0 <= i < old(self).build.map.tiles.len() ==> #[trigger] final(self).build.history[
                    final(self).build.history.len() - 1].revealed_tiles[i] == true) && (forall|
                j: int,
            |
                0 <= j < old(self).build.history.len() ==> final(self).build.history[j] == old(
                    self,
                ).build.history[j]),
            !old(self).build.show_snapshots ==> final(self).build.history == old(
                self,
            ).build.history,
    {
        self.build.take_snapshot();
    }

    /// The spawn entries the generation produced.
    pub fn get_spawn_list(&self) -> (r: &Vec<(usize, u64)>)
        ensures
            r@ == self.build.spawn_list@,
    {
        &self.build.spawn_list
    }
}

} // verus!
