//! The builder chain: a shared working build state, an initial generator,
//! and an ordered list of composable meta passes (start placement, culling,
//! distant exit, region spawning, pattern-constraint resolution) that run
//! strictly in append order against that state.

use vstd::prelude::*;
use crate::grid::{Grid, Position};
use crate::tiletype::{TileType, spec_tile_walkable};
use crate::reach::{reachable, spec_dist, all_walkable_reachable, cull_unreachable,
    most_distant_reachable};
use crate::regions::{pick_seeds, voronoi_regions, spawn_from_regions, nearest_seed,
    lemma_seed_in_own_region, lemma_regions_partition};
use crate::constraints::{build_patterns, patterns_to_constraints, render_pattern_to_map,
    chunk_wf, extracted_patterns, dedup_patterns, patterns_view, compat, pattern_exit,
    pattern_marked, rendered_cell, exit_marked};
use crate::solver::solve_chunk_assignment;

verus! {

/// Why a build failed.
#[derive(Copy, Clone, PartialEq, Eq, Structural, Debug)]
pub enum BuildError {
    /// `start_with` was called on a chain that already has a starter.
    StarterAlreadySet,
    /// `build_map` was called before any starter was set.
    NoInitialBuilder,
    /// A pass needs the starting position, and no pass has placed one.
    NoStartingPosition,
    /// The map is degenerate: a generator gave up within its retry budget,
    /// or a pass found no walkable cell to work with.
    Degenerate,
    /// Pattern reconstruction found no consistent assignment within its
    /// retry budget.
    SolverExhausted,
}

/// Horizontal anchor for the starting-position pass.
#[allow(non_camel_case_types)]
#[derive(Copy, Clone, PartialEq, Eq, Structural, Debug)]
pub enum XStart {
    LEFT,
    CENTER,
    RIGHT,
}

/// Vertical anchor for the starting-position pass.
#[allow(non_camel_case_types)]
#[derive(Copy, Clone, PartialEq, Eq, Structural, Debug)]
pub enum YStart {
    TOP,
    CENTER,
    BOTTOM,
}

/// Tuning of the cellular-automata generator.
#[derive(Copy, Clone, PartialEq, Eq, Structural, Debug)]
pub struct CellularParams {
    /// Chance (in percent) that an interior cell starts as `Wall`.
    pub fill_percent: u32,
    /// Total smoothing passes.
    pub smoothing_passes: u32,
    /// Number of leading passes that also open up isolated cells.
    pub lenient_passes: u32,
    /// Accept the layout only if reached cells exceed this percentage of
    /// all cells.
    pub accept_percent: u32,
    /// Retry budget for the whole generate-evaluate cycle.
    pub max_attempts: u32,
}

impl CellularParams {
    /// The tuning the cavern levels ship with.
    pub fn standard() -> (p: CellularParams)
        ensures
            p == (CellularParams {
                fill_percent: 45u32,
                smoothing_passes: 12u32,
                lenient_passes: 10u32,
                accept_percent: 47u32,
                max_attempts: 100u32,
            }),
    {
        CellularParams {
            fill_percent: 45,
            smoothing_passes: 12,
            lenient_passes: 10,
            accept_percent: 47,
            max_attempts: 100,
        }
    }
}

/// Tuning of the randomized-walk generator.
#[derive(Copy, Clone, PartialEq, Eq, Structural, Debug)]
pub struct DrunkardParams {
    /// Steps a single digger takes before retiring.
    pub lifetime: u32,
    /// Stop once open floor reaches this percentage of all cells.
    pub floor_percent: u32,
    /// Retire the generation after this many diggers regardless.
    pub max_diggers: u32,
}

impl DrunkardParams {
    /// Long winding passages: long-lived diggers, low floor target.
    pub fn winding_passages() -> (p: DrunkardParams)
        ensures
            p == (DrunkardParams { lifetime: 100u32, floor_percent: 40u32, max_diggers: 2000u32 }),
    {
        DrunkardParams { lifetime: 100, floor_percent: 40, max_diggers: 2000 }
    }
}

/// Tuning of the region-spawning pass.
#[derive(Copy, Clone, PartialEq, Eq, Structural, Debug)]
pub struct VoronoiParams {
    /// How many seed cells to scatter.
    pub n_seeds: usize,
    /// How many entity kinds the spawn table offers.
    pub n_kinds: u32,
}

/// Tuning of the pattern-constraint pass.
#[derive(Copy, Clone, PartialEq, Eq, Structural, Debug)]
pub struct WfcParams {
    /// Side length of the square chunks.
    pub chunk_size: i32,
    /// Whether mirrored variants of each chunk join the pattern set.
    pub include_flipping: bool,
    /// Whether identical patterns are merged.
    pub dedupe: bool,
    /// Retry budget of the placement solver.
    pub max_attempts: u32,
}

/// The closed set of initial generators; exactly one runs per level.
#[derive(Copy, Clone, PartialEq, Eq, Structural, Debug)]
pub enum InitialBuilder {
    CellularAutomata(CellularParams),
    DrunkardsWalk(DrunkardParams),
    EmptyMap,
}

/// The closed set of composable meta passes.
#[derive(Copy, Clone, PartialEq, Eq, Structural, Debug)]
pub enum MetaBuilder {
    AreaStartingPosition(XStart, YStart),
    CullUnreachable,
    DistantExit,
    VoronoiSpawning(VoronoiParams),
    WaveformCollapse(WfcParams),
}

/// The working state shared by every pass of one generation run.
pub struct BuilderMap {
    pub map: Grid,
    pub starting_position: Option<Position>,
    pub history: Vec<Grid>,
    pub spawn_regions: Vec<Vec<usize>>,
    pub spawn_list: Vec<(usize, u64)>,
    pub show_snapshots: bool,
}

/// Well-formedness of the working state: a valid grid of bounded extent.
pub open spec fn bm_inv(b: BuilderMap) -> bool {
    &&& b.map.inv()
    &&& b.map.width <= 10_000
    &&& b.map.height <= 10_000
}

/// If a starting position has been placed, it stands on a walkable cell.
pub open spec fn start_consistent(b: BuilderMap) -> bool {
    match b.starting_position {
        Some(p) => b.map.walkable_at(p.x as int, p.y as int),
        None => true,
    }
}

/// The starting position is placed and walkable.
pub open spec fn has_valid_start(b: BuilderMap) -> bool {
    match b.starting_position {
        Some(p) => b.map.walkable_at(p.x as int, p.y as int),
        None => false,
    }
}

impl BuilderMap {
    /// Appends the current grid, fully revealed, to the snapshot history
    /// (when snapshotting is enabled).
    pub fn take_snapshot(&mut self)
        requires
            old(self).map.inv(),
        ensures
            final(self).map == old(self).map,
            final(self).starting_position == old(self).starting_position,
            final(self).spawn_regions == old(self).spawn_regions,
            final(self).spawn_list == old(self).spawn_list,
            final(self).show_snapshots == old(self).show_snapshots,
            old(self).show_snapshots ==> final(self).history.len() == old(self).history.len() + 1
                && final(self).history[final(self).history.len() - 1].tiles@ == old(
                self,
            ).map.tiles@ && (forall|i: int|
                0 <= i < old(self).map.tiles.len()
                    ==> #[trigger] final(self).history[final(self).history.len() - 1].revealed_tiles[i]
                    == true) && (forall|j: int|
                0 <= j < old(self).history.len() ==> final(self).history[j] == old(self).history[j]),
            !old(self).show_snapshots ==> final(self).history == old(self).history,
    {
        if self.show_snapshots {
            let mut snap = self.map.clone_grid();
            let n = snap.revealed_tiles.len();
            let mut revealed: Vec<bool> = Vec::new();
            let mut i: usize = 0;
            while i < n
                invariant
                    i <= n,
                    revealed.len() == i,
                    forall|j: int| 0 <= j < i ==> revealed[j] == true,
                decreases n - i,
            {
                revealed.push(true);
                i = i + 1;
            }
            snap.revealed_tiles = revealed;
            self.history.push(snap);
        }
    }
}

/// The squared Euclidean distance between two coordinates.
pub open spec fn sqdist(x1: int, y1: int, x2: int, y2: int) -> int {
    (x1 - x2) * (x1 - x2) + (y1 - y2) * (y1 - y2)
}

/// The horizontal anchor coordinate.
pub open spec fn xstart_target(xs: XStart, w: int) -> int {
    match xs {
        XStart::LEFT => 1,
        XStart::CENTER => w / 2,
        XStart::RIGHT => w - 2,
    }
}

/// The vertical anchor coordinate.
pub open spec fn ystart_target(ys: YStart, h: int) -> int {
    match ys {
        YStart::TOP => 1,
        YStart::CENTER => h / 2,
        YStart::BOTTOM => h - 2,
    }
}

/// Places the starting position on the walkable cell closest (by squared
/// Euclidean distance, ties to the lowest flat index) to the requested
/// anchor. Fails only when the grid has no walkable cell at all.
#[verifier::loop_isolation(false)]
pub fn area_starting_position(build: &mut BuilderMap, xs: XStart, ys: YStart) -> (r: Result<
    (),
    BuildError,
>)
    requires
        bm_inv(*old(build)),
    ensures
        bm_inv(*final(build)),
        final(build).map == old(build).map,
        final(build).spawn_regions == old(build).spawn_regions,
        final(build).spawn_list == old(build).spawn_list,
        final(build).show_snapshots == old(build).show_snapshots,
        r is Ok ==> has_valid_start(*final(build)),
        r is Ok ==> ({
            let p = final(build).starting_position->0;
            let tx = xstart_target(xs, old(build).map.width as int);
            let ty = ystart_target(ys, old(build).map.height as int);
            forall|x: int, y: int|
                #![trigger old(build).map.idx(x, y)]
                old(build).map.walkable_at(x, y) ==> sqdist(tx, ty, p.x as int, p.y as int)
                    <= sqdist(tx, ty, x, y) && (old(build).map.idx(x, y) < old(build).map.idx(
                    p.x as int,
                    p.y as int,
                ) ==> sqdist(tx, ty, p.x as int, p.y as int) < sqdist(tx, ty, x, y))
        }),
        r is Err ==> r->Err_0 == BuildError::Degenerate && (forall|x: int, y: int|
            !old(build).map.walkable_at(x, y)) && final(build).starting_position == old(
            build,
        ).starting_position,
{
    let g = &build.map;
    let w = g.width;
    let h = g.height;
    let tx: i64 = match xs {
        XStart::LEFT => 1,
        XStart::CENTER => (w / 2) as i64,
        XStart::RIGHT => (w - 2) as i64,
    };
    let ty: i64 = match ys {
        YStart::TOP => 1,
        YStart::CENTER => (h / 2) as i64,
        YStart::BOTTOM => (h - 2) as i64,
    };
    let ghost txi = tx as int;
    let ghost tyi = ty as int;
    let mut best_x: i32 = 0;
    let mut best_y: i32 = 0;
    let mut best_d: i64 = 0;
    let mut found: bool = false;
    let mut y: i32 = 0;
    while y < h
        invariant
            0 <= y <= h,
            txi == xstart_target(xs, g.width as int),
            tyi == ystart_target(ys, g.height as int),
            -1 <= txi <= g.width,
            -1 <= tyi <= g.height,
            g.width <= 10_000,
            g.height <= 10_000,
            found ==> g.walkable_at(best_x as int, best_y as int) && best_d == sqdist(
                txi,
                tyi,
                best_x as int,
                best_y as int,
            ) && (best_y as int) < y,
            forall|px: int, py: int|
                #![trigger g.idx(px, py)]
                py < y && g.walkable_at(px, py) ==> found && sqdist(txi, tyi, best_x as int,
                    best_y as int) <= sqdist(txi, tyi, px, py) && (g.idx(px, py) < g.idx(
                    best_x as int,
                    best_y as int,
                ) ==> sqdist(txi, tyi, best_x as int, best_y as int) < sqdist(txi, tyi, px, py)),
        decreases h - y,
    {
        let mut x: i32 = 0;
        while x < w
            invariant
                0 <= y < h,
                0 <= x <= w,
                txi == xstart_target(xs, g.width as int),
                tyi == ystart_target(ys, g.height as int),
                -1 <= txi <= g.width,
                -1 <= tyi <= g.height,
                g.width <= 10_000,
                g.height <= 10_000,
                found ==> g.walkable_at(best_x as int, best_y as int) && best_d == sqdist(
                    txi,
                    tyi,
                    best_x as int,
                    best_y as int,
                ) && ((best_y as int) < y || ((best_y as int) == y && (best_x as int) < x)),
                forall|px: int, py: int|
                    #![trigger g.idx(px, py)]
                    (py < y || (py == y && px < x)) && g.walkable_at(px, py) ==> found && sqdist(
                        txi,
                        tyi,
                        best_x as int,
                        best_y as int,
                    ) <= sqdist(txi, tyi, px, py) && (g.idx(px, py) < g.idx(
                        best_x as int,
                        best_y as int,
                    ) ==> sqdist(txi, tyi, best_x as int, best_y as int) < sqdist(
                        txi,
                        tyi,
                        px,
                        py,
                    )),
            decreases w - x,
        {
            let ghost found0 = found;
            let ghost b0x = best_x as int;
            let ghost b0y = best_y as int;
            let ghost bd0 = best_d as int;
            let i = g.xy_idx(x, y);
            if crate::tiletype::tile_walkable(g.tiles[i]) {
                let dx = tx - x as i64;
                let dy = ty - y as i64;
                proof {
                    assert(0 <= dx * dx <= 200_040_001 && 0 <= dy * dy
                        <= 200_040_001) by (nonlinear_arith)
                        requires
                            -10_001 <= dx <= 10_001,
                            -10_001 <= dy <= 10_001,
                    {}
                }
                let d = dx * dx + dy * dy;
                proof {
                    assert(d == sqdist(txi, tyi, x as int, y as int));
                }
                if !found || d < best_d {
                    best_x = x;
                    best_y = y;
                    best_d = d;
                    found = true;
                }
            }
            proof {
                let cx = x as int;
                let cy = y as int;
                assert forall|px: int, py: int|
                    #![trigger g.idx(px, py)]
                    (py < cy || (py == cy && px < cx + 1)) && g.walkable_at(px, py) implies found
                    && sqdist(txi, tyi, best_x as int, best_y as int) <= sqdist(txi, tyi, px, py)
                    && (g.idx(px, py) < g.idx(best_x as int, best_y as int) ==> sqdist(
                    txi,
                    tyi,
                    best_x as int,
                    best_y as int,
                ) < sqdist(txi, tyi, px, py)) by {
                    let bx = best_x as int;
                    let by2 = best_y as int;
                    if py == cy && px == cx {
                        if !(bx == px && by2 == py) {
                            // the kept minimum lies strictly earlier in scan order
                            assert(by2 < py || (by2 == py && bx < px));
                            assert(g.idx(bx, by2) < g.idx(px, py)) by (nonlinear_arith)
                                requires
                                    by2 < py || (by2 == py && bx < px),
                                    0 <= bx < g.width,
                                    0 <= px < g.width,
                                    1 <= g.width,
                            {}
                        }
                    } else {
                        if bx == cx && by2 == cy {
                            // the current cell became the minimum; it is
                            // strictly closer than the one it replaced
                            assert(found0);
                            assert(sqdist(txi, tyi, b0x, b0y) <= sqdist(txi, tyi, px, py));
                            assert(sqdist(txi, tyi, bx, by2) < bd0);
                        }
                    }
                }
            }
            x = x + 1;
        }
        y = y + 1;
    }
    if found {
        build.starting_position = Some(Position { x: best_x, y: best_y });
        proof {
            assert forall|px: int, py: int|
                #![trigger g.idx(px, py)]
                g.walkable_at(px, py) implies sqdist(txi, tyi, best_x as int, best_y as int)
                <= sqdist(txi, tyi, px, py) && (g.idx(px, py) < g.idx(best_x as int, best_y as int)
                ==> sqdist(txi, tyi, best_x as int, best_y as int) < sqdist(txi, tyi, px, py)) by {}
        }
        Ok(())
    } else {
        proof {
            assert forall|px: int, py: int| !g.walkable_at(px, py) by {
                if g.walkable_at(px, py) {
                    assert(py < g.height);
                }
            }
        }
        Err(BuildError::Degenerate)
    }
}

/// Rewrites every cell unreachable from the starting position to `Wall`.
/// Afterwards every walkable cell of the map is reachable from the start.
pub fn cull_unreachable_pass(build: &mut BuilderMap) -> (r: Result<(), BuildError>)
    requires
        bm_inv(*old(build)),
    ensures
        bm_inv(*final(build)),
        final(build).starting_position == old(build).starting_position,
        final(build).spawn_regions == old(build).spawn_regions,
        final(build).spawn_list == old(build).spawn_list,
        final(build).history == old(build).history,
        final(build).map.width == old(build).map.width,
        final(build).map.height == old(build).map.height,
        r is Err ==> final(build).map == old(build).map,
        r is Ok <==> has_valid_start(*old(build)),
        (r is Err && r->Err_0 == BuildError::NoStartingPosition) <==> old(
            build,
        ).starting_position is None,
        (r is Err && r->Err_0 == BuildError::Degenerate) <==> (old(
            build,
        ).starting_position is Some && !has_valid_start(*old(build))),
        r is Ok ==> has_valid_start(*final(build)) && ({
            let p = old(build).starting_position->0;
            all_walkable_reachable(final(build).map, p.x as int, p.y as int) && (forall|
                x: int,
                y: int,
            |
                #![trigger old(build).map.idx(x, y)]
                old(build).map.in_bounds(x, y) ==> final(build).map.tiles[old(build).map.idx(x, y)]
                    == (if reachable(old(build).map, p.x as int, p.y as int, x, y) {
                    old(build).map.tiles[old(build).map.idx(x, y)]
                } else {
                    TileType::Wall
                }))
        }),
{
    let p = match build.starting_position {
        Some(p) => p,
        None => {
            return Err(BuildError::NoStartingPosition);
        },
    };
    if p.x < 0 || p.x >= build.map.width || p.y < 0 || p.y >= build.map.height {
        return Err(BuildError::Degenerate);
    }
    let i = build.map.xy_idx(p.x, p.y);
    if !crate::tiletype::tile_walkable(build.map.tiles[i]) {
        return Err(BuildError::Degenerate);
    }
    cull_unreachable(&mut build.map, p.x, p.y);
    Ok(())
}

/// Stamps `DownStairs` on the reachable cell most distant from the start
/// (ties to the lowest flat index).
pub fn distant_exit_pass(build: &mut BuilderMap) -> (r: Result<(), BuildError>)
    requires
        bm_inv(*old(build)),
    ensures
        bm_inv(*final(build)),
        final(build).starting_position == old(build).starting_position,
        final(build).spawn_regions == old(build).spawn_regions,
        final(build).spawn_list == old(build).spawn_list,
        final(build).history == old(build).history,
        final(build).map.width == old(build).map.width,
        final(build).map.height == old(build).map.height,
        start_consistent(*old(build)) ==> start_consistent(*final(build)),
        r is Err ==> final(build).map == old(build).map,
        r is Ok <==> has_valid_start(*old(build)),
        (r is Err && r->Err_0 == BuildError::NoStartingPosition) <==> old(
            build,
        ).starting_position is None,
        (r is Err && r->Err_0 == BuildError::Degenerate) <==> (old(
            build,
        ).starting_position is Some && !has_valid_start(*old(build))),
        r is Ok ==> ({
            let p = old(build).starting_position->0;
            let g0 = old(build).map;
            exists|e: int|
                #![trigger g0.x_of(e)]
                0 <= e < g0.tiles.len() && final(build).map.tiles@ =~= g0.tiles@.update(
                    e,
                    TileType::DownStairs,
                ) && reachable(g0, p.x as int, p.y as int, g0.x_of(e), g0.y_of(e)) && (forall|
                    x: int,
                    y: int,
                |
                    #![trigger g0.idx(x, y)]
                    g0.in_bounds(x, y) && reachable(g0, p.x as int, p.y as int, x, y) ==> spec_dist(
                        g0,
                        p.x as int,
                        p.y as int,
                        x,
                        y,
                    ) <= spec_dist(g0, p.x as int, p.y as int, g0.x_of(e), g0.y_of(e)))
        }),
{
    let p = match build.starting_position {
        Some(p) => p,
        None => {
            return Err(BuildError::NoStartingPosition);
        },
    };
    if p.x < 0 || p.x >= build.map.width || p.y < 0 || p.y >= build.map.height {
        return Err(BuildError::Degenerate);
    }
    let i = build.map.xy_idx(p.x, p.y);
    if !crate::tiletype::tile_walkable(build.map.tiles[i]) {
        return Err(BuildError::Degenerate);
    }
    let ghost g0 = build.map;
    let e = most_distant_reachable(&build.map, p.x, p.y);
    build.map.tiles[e] = TileType::DownStairs;
    proof {
        g0.lemma_idx_inverse(e as int);
        if build.starting_position is Some {
            let sp = build.starting_position->0;
            if g0.walkable_at(sp.x as int, sp.y as int) {
                g0.lemma_idx_bounds(sp.x as int, sp.y as int);
            }
        }
    }
    Ok(())
}

/// Scatters seed cells, partitions walkable space into their regions, and
/// draws spawn entries from every region.
pub fn voronoi_spawning_pass(
    build: &mut BuilderMap,
    rng: &mut rltk::RandomNumberGenerator,
    params: VoronoiParams,
) -> (r: Result<(), BuildError>)
    requires
        bm_inv(*old(build)),
        1 <= params.n_seeds <= 1000,
        1 <= params.n_kinds <= 100_000,
    ensures
        bm_inv(*final(build)),
        final(build).map == old(build).map,
        final(build).starting_position == old(build).starting_position,
        final(build).history == old(build).history,
        final(build).show_snapshots == old(build).show_snapshots,
        r is Err ==> r->Err_0 == BuildError::Degenerate && (forall|x: int, y: int|
            !old(build).map.walkable_at(x, y)) && final(build).spawn_regions == old(
            build,
        ).spawn_regions && final(build).spawn_list == old(build).spawn_list,
        r is Ok ==> ({
            let g = old(build).map;
            let regions = final(build).spawn_regions;
            let spawns = final(build).spawn_list;
            &&& regions.len() >= 1
            &&& (forall|s: int, c: usize|
                #![trigger regions[s]@.contains(c)]
                0 <= s < regions.len() && regions[s]@.contains(c) ==> c < g.tiles.len()
                    && spec_tile_walkable(g.tiles[c as int]))
            &&& (forall|c: usize|
                c < g.tiles.len() && spec_tile_walkable(g.tiles[c as int]) ==> exists|s: int|
                    0 <= s < regions.len() && #[trigger] regions[s]@.contains(c))
            &&& (forall|s1: int, s2: int, c: usize|
                0 <= s1 < s2 < regions.len() ==> !(#[trigger] regions[s1]@.contains(c)
                    && #[trigger] regions[s2]@.contains(c)))
            &&& spawns.len() >= old(build).spawn_list.len()
            &&& (forall|k: int|
                0 <= k < old(build).spawn_list.len() ==> #[trigger] spawns[k] == old(
                    build,
                ).spawn_list[k])
            &&& (forall|k: int|
                old(build).spawn_list.len() <= k < spawns.len() ==> (#[trigger] spawns[k]).0
                    < g.tiles.len() && spec_tile_walkable(g.tiles[spawns[k].0 as int]) && 1
                    <= spawns[k].1 <= params.n_kinds)
            &&& (exists|x: int, y: int| g.walkable_at(x, y)) ==> spawns.len() > old(
                build,
            ).spawn_list.len()
        }),
{
    let ghost g = build.map;
    let seeds = pick_seeds(&build.map, rng, params.n_seeds);
    if seeds.len() == 0 {
        proof {
            assert forall|x: int, y: int| !g.walkable_at(x, y) by {
                if g.walkable_at(x, y) {
                    g.lemma_idx_bounds(x, y);
                    let c = g.idx(x, y) as usize;
                    assert(seeds@.contains(c));
                }
            }
        }
        return Err(BuildError::Degenerate);
    }
    let regions = voronoi_regions(&build.map, &seeds);
    let spawns = spawn_from_regions(&regions, rng, params.n_kinds);
    let ghost old_list = build.spawn_list@;
    let mut k: usize = 0;
    while k < spawns.len()
        invariant
            k <= spawns.len(),
            build.spawn_list@.len() == old_list.len() + k,
            forall|j: int| 0 <= j < old_list.len() ==> #[trigger] build.spawn_list@[j] == old_list[j],
            forall|j: int|
                old_list.len() <= j < build.spawn_list@.len() ==> #[trigger] build.spawn_list@[j]
                    == spawns@[j - old_list.len()],
            build.map == g,
            build.starting_position == old(build).starting_position,
            build.history == old(build).history,
            build.spawn_regions == old(build).spawn_regions,
            build.show_snapshots == old(build).show_snapshots,
        decreases spawns.len() - k,
    {
        build.spawn_list.push(spawns[k]);
        k = k + 1;
    }
    build.spawn_regions = regions;
    proof {
        let regions = build.spawn_regions;
        assert forall|s: int, c: usize|
            #![trigger regions[s]@.contains(c)]
            0 <= s < regions.len() && regions[s]@.contains(c) implies c < g.tiles.len()
            && spec_tile_walkable(g.tiles[c as int]) by {}
        assert forall|c: usize|
            c < g.tiles.len() && spec_tile_walkable(g.tiles[c as int]) implies exists|s: int|
            0 <= s < regions.len() && #[trigger] regions[s]@.contains(c) by {
            let rv = regions@.map_values(|v: Vec<usize>| v@);
            lemma_regions_partition(g, seeds@, rv, c);
            let s = choose|s: int| 0 <= s < rv.len() && #[trigger] rv[s].contains(c);
            assert(regions[s]@.contains(c));
        }
        assert forall|s1: int, s2: int, c: usize|
            0 <= s1 < s2 < regions.len() implies !(#[trigger] regions[s1]@.contains(c)
            && #[trigger] regions[s2]@.contains(c)) by {
            if regions[s1]@.contains(c) && regions[s2]@.contains(c) {
                assert(nearest_seed(g, seeds@, g.x_of(c as int), g.y_of(c as int)) == s1);
                assert(nearest_seed(g, seeds@, g.x_of(c as int), g.y_of(c as int)) == s2);
            }
        }
        if exists|x: int, y: int| g.walkable_at(x, y) {
            lemma_seed_in_own_region(g, seeds@);
            assert(regions[0]@.contains(seeds@[0]));
            assert(regions[0int].len() > 0);
            assert(build.spawn_list@.len() > old_list.len());
        }
        assert forall|k2: int|
            old_list.len() <= k2 < build.spawn_list@.len() implies (
        #[trigger] build.spawn_list@[k2]).0 < g.tiles.len() && spec_tile_walkable(
            g.tiles[build.spawn_list@[k2].0 as int],
        ) && 1 <= build.spawn_list@[k2].1 <= params.n_kinds by {
            let e = build.spawn_list@[k2];
            assert(e == spawns@[k2 - old_list.len()]);
            assert(crate::regions::cell_in_regions(regions@, e.0));
            let s = choose|s: int| 0 <= s < regions@.len() && #[trigger] regions@[s]@.contains(e.0);
            assert(regions[s]@.contains(e.0));
        }
    }
    Ok(())
}

/// The pattern set the pass extracts from a template grid.
pub open spec fn wfc_patterns(g: Grid, params: WfcParams) -> Seq<Seq<TileType>> {
    if params.dedupe {
        dedup_patterns(extracted_patterns(g, params.chunk_size as int, params.include_flipping))
    } else {
        extracted_patterns(g, params.chunk_size as int, params.include_flipping)
    }
}

/// The rebuilt grid `g` is a rendering of the chunk assignment `a` over
/// the patterns extracted from the template `g0`: every slot holds one
/// extracted pattern, every east- and south-adjacent pair of chosen
/// patterns is compatible in the joining direction, and each cell of the
/// slot area equals the rendering of its slot's pattern.
pub open spec fn wfc_rendering_ok(g0: Grid, g: Grid, params: WfcParams, a: Seq<usize>) -> bool {
    let cs = params.chunk_size as int;
    let pats = wfc_patterns(g0, params);
    let cw = g0.width as int / cs;
    let ch = g0.height as int / cs;
    &&& a.len() == cw * ch
    &&& (forall|i: int| 0 <= i < a.len() ==> (#[trigger] a[i]) < pats.len())
    &&& (forall|sx: int, sy: int|
        #![trigger a[sy * cw + sx]]
        0 <= sx < cw - 1 && 0 <= sy < ch ==> compat(
            pats[a[sy * cw + sx] as int],
            pats[a[sy * cw + sx + 1] as int],
            cs,
            3,
        ))
    &&& (forall|sx: int, sy: int|
        #![trigger a[sy * cw + sx]]
        0 <= sx < cw && 0 <= sy < ch - 1 ==> compat(
            pats[a[sy * cw + sx] as int],
            pats[a[(sy + 1) * cw + sx] as int],
            cs,
            1,
        ))
    &&& (forall|sx: int, sy: int, tx: int, ty: int|
        #![trigger g0.idx(sx * cs + tx, sy * cs + ty)]
        0 <= sx < cw && 0 <= sy < ch && 0 <= tx < cs && 0 <= ty < cs ==> g.tiles[g0.idx(
            sx * cs + tx,
            sy * cs + ty,
        )] == rendered_cell(pats[a[sy * cw + sx] as int], cs, tx, ty))
    &&& (forall|x: int, y: int|
        #![trigger g0.idx(x, y)]
        g0.in_bounds(x, y) && (x >= cw * cs || y >= ch * cs) ==> g.tiles[g0.idx(x, y)]
            == TileType::Wall)
}

/// Rebuilds the map from its own extracted patterns: chunks are placed so
/// that all adjacent pairs are compatible, then rendered; the starting
/// position is discarded because the layout changed.
#[verifier::loop_isolation(false)]
#[verifier::rlimit(100)]
pub fn waveform_collapse_pass(
    build: &mut BuilderMap,
    rng: &mut rltk::RandomNumberGenerator,
    params: WfcParams,
) -> (r: Result<(), BuildError>)
    requires
        bm_inv(*old(build)),
        1 <= params.chunk_size <= 100,
    ensures
        bm_inv(*final(build)),
        final(build).map.width == old(build).map.width,
        final(build).map.height == old(build).map.height,
        final(build).spawn_regions == old(build).spawn_regions,
        final(build).spawn_list == old(build).spawn_list,
        r is Ok ==> final(build).starting_position is None,
        r is Ok ==> exists|a: Seq<usize>|
            #[trigger] wfc_rendering_ok(old(build).map, final(build).map, params, a),
        r is Err ==> (r->Err_0 == BuildError::Degenerate || r->Err_0
            == BuildError::SolverExhausted),
{
    let ghost g0 = build.map;
    let cs = params.chunk_size;
    let ghost csi = cs as int;
    proof {
        assert(cs * cs <= 10_000) by (nonlinear_arith)
            requires
                1 <= cs <= 100,
        {}
    }
    let cw: usize = (build.map.width / cs) as usize;
    let ch: usize = (build.map.height / cs) as usize;
    if cw < 1 || ch < 1 {
        return Err(BuildError::Degenerate);
    }
    let patterns = build_patterns(&build.map, cs, params.include_flipping, params.dedupe);
    let ghost pv = patterns_view(patterns@);
    proof {
        assert(pv == wfc_patterns(g0, params));
    }
    if patterns.len() == 0 || patterns.len() > 1_000_000 {
        return Err(BuildError::Degenerate);
    }
    let chunks = patterns_to_constraints(patterns, cs);
    let assign = match solve_chunk_assignment(&chunks, cw, ch, rng, params.max_attempts) {
        Ok(a) => a,
        Err(e) => {
            return Err(e);
        },
    };
    let depth = build.map.depth;
    let w = build.map.width;
    let h = build.map.height;
    let mut fresh = crate::grid::Grid::new(w, h, depth, build.map.name.as_str());
    proof {
        assert(cw <= 10_000 && ch <= 10_000 && cw * ch <= 100_000_000) by (nonlinear_arith)
            requires
                cw == w as int / cs as int,
                ch == h as int / cs as int,
                1 <= cs,
                1 <= w <= 10_000,
                1 <= h <= 10_000,
                1 <= cw,
                1 <= ch,
        {}
    }
    proof {
        assert forall|x: int, y: int|
            #![trigger g0.idx(x, y)]
            g0.in_bounds(x, y) implies fresh.tiles[g0.idx(x, y)] == TileType::Wall by {
            g0.lemma_idx_bounds(x, y);
        }
    }
    let mut sy: usize = 0;
    while sy < ch
        invariant
            fresh.inv(),
            fresh.width == w,
            fresh.height == h,
            sy <= ch,
            forall|x: int, y: int|
                #![trigger g0.idx(x, y)]
                g0.in_bounds(x, y) && (x >= cw as int * csi || y >= ch as int * csi)
                    ==> fresh.tiles[g0.idx(x, y)] == TileType::Wall,
            forall|sx2: int, sy2: int, tx: int, ty: int|
                #![trigger g0.idx(sx2 * csi + tx, sy2 * csi + ty)]
                0 <= sx2 < cw && 0 <= sy2 < sy && 0 <= tx < csi && 0 <= ty < csi ==> fresh.tiles[
                    g0.idx(sx2 * csi + tx, sy2 * csi + ty)] == rendered_cell(
                    pv[assign@[sy2 * (cw as int) + sx2] as int],
                    csi,
                    tx,
                    ty,
                ),
        decreases ch - sy,
    {
        let mut sx: usize = 0;
        while sx < cw
            invariant
                fresh.inv(),
                fresh.width == w,
                fresh.height == h,
                sy < ch,
                sx <= cw,
                forall|x: int, y: int|
                    #![trigger g0.idx(x, y)]
                    g0.in_bounds(x, y) && (x >= cw as int * csi || y >= ch as int * csi)
                        ==> fresh.tiles[g0.idx(x, y)] == TileType::Wall,
                forall|sx2: int, sy2: int, tx: int, ty: int|
                    #![trigger g0.idx(sx2 * csi + tx, sy2 * csi + ty)]
                    0 <= sx2 < cw && 0 <= tx < csi && 0 <= ty < csi && (0 <= sy2 < sy || (sy2 == sy
                        && 0 <= sx2 < sx)) ==> fresh.tiles[g0.idx(sx2 * csi + tx, sy2 * csi + ty)]
                        == rendered_cell(pv[assign@[sy2 * (cw as int) + sx2] as int], csi, tx, ty),
            decreases cw - sx,
        {
            proof {
                assert(sy * cw + sx < cw * ch && sy as int * (cw as int) + sx == (sy * cw
                    + sx) as int) by (nonlinear_arith)
                    requires
                        0 <= sx < cw,
                        0 <= sy < ch,
                {}
                assert((sx + 1) * cs <= (w as int / cs as int) * cs && (w as int / cs as int) * cs
                    <= w && (sy + 1) * cs <= (h as int / cs as int) * cs && (h as int / cs as int)
                    * cs <= h && 0 <= sx * cs && sx * cs + cs == (sx + 1) * cs && 0 <= sy * cs
                    && sy * cs + cs == (sy + 1) * cs) by (nonlinear_arith)
                    requires
                        0 <= sx < cw,
                        0 <= sy < ch,
                        cw == w as int / cs as int,
                        ch == h as int / cs as int,
                        1 <= cs <= 100,
                        1 <= w,
                        1 <= h,
                {}
            }
            let slot: usize = sy * cw + sx;
            let px: i32 = (sx as i32) * cs;
            let py: i32 = (sy as i32) * cs;
            let ghost fresh0 = fresh;
            let ghost k = assign@[slot as int] as int;
            render_pattern_to_map(&mut fresh, &chunks[assign[slot]], cs, px, py);
            proof {
                let sxi = sx as int;
                let syi = sy as int;
                // the freshly rendered slot matches the pattern-level form
                assert forall|tx: int, ty: int|
                    0 <= tx < csi && 0 <= ty < csi implies fresh.tiles[g0.idx(
                    sxi * csi + tx,
                    syi * csi + ty,
                )] == rendered_cell(pv[k], csi, tx, ty) by {
                    assert(fresh0.idx(px + tx, py + ty) == g0.idx(sxi * csi + tx, syi * csi + ty));
                    assert(chunks[k].pattern@ == pv[k]);
                    assert(chunks[k].exits[0]@[tx] == pattern_exit(pv[k], csi, 0, tx));
                    assert(chunks[k].exits[1]@[tx] == pattern_exit(pv[k], csi, 1, tx));
                    assert(chunks[k].exits[2]@[ty] == pattern_exit(pv[k], csi, 2, ty));
                    assert(chunks[k].exits[3]@[ty] == pattern_exit(pv[k], csi, 3, ty));
                    assert(exit_marked(chunks[k], csi, tx, ty) == pattern_marked(
                        pv[k],
                        csi,
                        tx,
                        ty,
                    ));
                }
                // the leftover strip lies outside the rendered rectangle
                assert forall|x: int, y: int|
                    #![trigger g0.idx(x, y)]
                    g0.in_bounds(x, y) && (x >= cw as int * csi || y >= ch as int
                        * csi) implies fresh.tiles[g0.idx(x, y)] == TileType::Wall by {
                    assert((sxi + 1) * csi <= cw as int * csi && (syi + 1) * csi <= ch as int
                        * csi) by (nonlinear_arith)
                        requires
                            sxi < cw,
                            syi < ch,
                            1 <= csi,
                    {}
                    assert(fresh0.in_bounds(x, y));
                    assert(fresh.tiles[fresh0.idx(x, y)] == fresh0.tiles[fresh0.idx(x, y)]);
                    assert(fresh0.idx(x, y) == g0.idx(x, y));
                }
                // cells of earlier slots lie outside the rendered rectangle
                // and keep their already-correct value
                assert forall|sx2: int, sy2: int, tx: int, ty: int|
                    #![trigger g0.idx(sx2 * csi + tx, sy2 * csi + ty)]
                    0 <= sx2 < cw && 0 <= tx < csi && 0 <= ty < csi && (0 <= sy2 < sy || (sy2
                        == syi && 0 <= sx2 < sx)) implies fresh.tiles[g0.idx(
                    sx2 * csi + tx,
                    sy2 * csi + ty,
                )] == rendered_cell(pv[assign@[sy2 * (cw as int) + sx2] as int], csi, tx, ty) by {
                    let x2 = sx2 * csi + tx;
                    let y2 = sy2 * csi + ty;
                    assert((sy2 < syi ==> y2 < syi * csi) && (sx2 < sxi ==> x2 < sxi * csi) && 0
                        <= x2 && 0 <= y2 && (sx2 + 1) * csi <= (w as int / csi) * csi && (w as int
                        / csi) * csi <= w && (sy2 + 1) * csi <= (h as int / csi) * csi && (h as int
                        / csi) * csi <= h && x2 < (sx2 + 1) * csi && y2 < (sy2 + 1)
                        * csi) by (nonlinear_arith)
                        requires
                            0 <= tx < csi,
                            0 <= ty < csi,
                            1 <= csi,
                            0 <= sx2 < cw,
                            0 <= sy2 <= syi,
                            x2 == sx2 * csi + tx,
                            y2 == sy2 * csi + ty,
                            cw == w as int / csi,
                            syi < ch,
                            ch == h as int / csi,
                            1 <= w,
                            1 <= h,
                    {}
                    assert(fresh0.in_bounds(x2, y2));
                    assert(fresh.tiles[fresh0.idx(x2, y2)] == fresh0.tiles[fresh0.idx(x2, y2)]);
                    assert(fresh0.idx(x2, y2) == g0.idx(x2, y2));
                }
            }
            sx = sx + 1;
        }
        sy = sy + 1;
    }
    build.map = fresh;
    build.starting_position = None;
    proof {
        let a = assign@;
        let cwi = cw as int;
        let chi = ch as int;
        assert forall|sx: int, sy: int|
            #![trigger a[sy * cwi + sx]]
            0 <= sx < cwi - 1 && 0 <= sy < chi implies compat(
            pv[a[sy * cwi + sx] as int],
            pv[a[sy * cwi + sx + 1] as int],
            csi,
            3,
        ) by {
            assert(0 <= sy * cwi + sx && sy * cwi + sx + 1 < cwi * chi) by (nonlinear_arith)
                requires
                    0 <= sx < cwi - 1,
                    0 <= sy < chi,
            {}
            let ki = a[sy * cwi + sx] as int;
            let ji = a[sy * cwi + sx + 1] as int;
            assert(chunks[ki].compatible_with[3]@.contains(a[sy * cwi + sx + 1]));
            assert(chunks[ki].pattern@ == pv[ki]);
            assert(chunks[ji].pattern@ == pv[ji]);
        }
        assert forall|sx: int, sy: int|
            #![trigger a[sy * cwi + sx]]
            0 <= sx < cwi && 0 <= sy < chi - 1 implies compat(
            pv[a[sy * cwi + sx] as int],
            pv[a[(sy + 1) * cwi + sx] as int],
            csi,
            1,
        ) by {
            assert(0 <= sy * cwi + sx && sy * cwi + sx < (sy + 1) * cwi + sx && (sy + 1) * cwi
                + sx < cwi * chi) by (nonlinear_arith)
                requires
                    0 <= sx < cwi,
                    0 <= sy < chi - 1,
                    1 <= cwi,
            {}
            let ki = a[sy * cwi + sx] as int;
            let ji = a[(sy + 1) * cwi + sx] as int;
            assert(chunks[ki].compatible_with[1]@.contains(a[(sy + 1) * cwi + sx]));
            assert(chunks[ki].pattern@ == pv[ki]);
            assert(chunks[ji].pattern@ == pv[ji]);
        }
        assert(wfc_rendering_ok(g0, build.map, params, a));
    }
    Ok(())
}

} // verus!
