//! The randomized-walk initial generator: diggers stagger out from the
//! centre carving floor until the open fraction reaches its target or the
//! digger budget runs out. It always terminates and always leaves at least
//! one floor cell - the centre - which becomes the starting position.

use vstd::prelude::*;
use crate::grid::{Grid, Position};
use crate::tiletype::TileType;
use crate::builder::{BuilderMap, BuildError, DrunkardParams, bm_inv, has_valid_start};
use crate::rng::roll;

verus! {

/// A finished randomized-walk level: the start is placed on a `Floor`
/// cell that the walkers carved.
pub open spec fn walk_level_ok(b: BuilderMap) -> bool {
    &&& has_valid_start(b)
    &&& ({
        let p = b.starting_position->0;
        b.map.tiles[b.map.idx(p.x as int, p.y as int)] == TileType::Floor
    })
}

/// Carves a winding cave with randomized walkers.
#[verifier::loop_isolation(false)]
pub fn drunkards_walk_generate(
    build: &mut BuilderMap,
    rng: &mut rltk::RandomNumberGenerator,
    params: DrunkardParams,
) -> (r: Result<(), BuildError>)
    requires
        bm_inv(*old(build)),
        params.floor_percent <= 100,
    ensures
        bm_inv(*final(build)),
        final(build).map.width == old(build).map.width,
        final(build).map.height == old(build).map.height,
        r is Ok,
        walk_level_ok(*final(build)),
{
    let w = build.map.width;
    let h = build.map.height;
    let depth = build.map.depth;
    let name = build.map.name.as_str().to_string();
    let fresh = Grid::new(w, h, depth, name.as_str());
    build.map = fresh;
    build.starting_position = None;
    build.history = Vec::new();
    build.spawn_regions = Vec::new();
    build.spawn_list = Vec::new();
    let cx: i32 = w / 2;
    let cy: i32 = h / 2;
    let ci = build.map.xy_idx(cx, cy);
    build.map.tiles[ci] = TileType::Floor;
    let total = build.map.tiles.len();
    proof {
        assert(total <= 100_000_000) by (nonlinear_arith)
            requires
                total == build.map.width * build.map.height,
                1 <= build.map.width <= 10_000,
                1 <= build.map.height <= 10_000,
        {}
        assert(params.floor_percent as int * total as int <= 10_000_000_000) by (nonlinear_arith)
            requires
                params.floor_percent <= 100,
                total <= 100_000_000,
        {}
    }
    let mut floor_count: u64 = 1;
    let mut digger: u32 = 0;
    while digger < params.max_diggers
        invariant
            bm_inv(*build),
            build.map.width == w,
            build.map.height == h,
            ci < build.map.tiles.len(),
            ci == build.map.idx(cx as int, cy as int),
            build.map.in_bounds(cx as int, cy as int),
            build.map.tiles[ci as int] == TileType::Floor,
            floor_count <= 200_000_000,
        decreases params.max_diggers - digger,
    {
        if 100u64 * floor_count >= params.floor_percent as u64 * total as u64 {
            digger = params.max_diggers;
        } else {
            let mut x: i32 = cx;
            let mut y: i32 = cy;
            let mut life: u32 = 0;
            while life < params.lifetime
                invariant
                    bm_inv(*build),
                    build.map.width == w,
                    build.map.height == h,
                    ci < build.map.tiles.len(),
                    ci == build.map.idx(cx as int, cy as int),
                    build.map.in_bounds(cx as int, cy as int),
                    build.map.tiles[ci as int] == TileType::Floor,
                    build.map.in_bounds(x as int, y as int),
                    floor_count <= 200_000_000,
                decreases params.lifetime - life,
            {
                let i = build.map.xy_idx(x, y);
                if build.map.tiles[i] == TileType::Wall {
                    if floor_count < 100_000_000 {
                        floor_count = floor_count + 1;
                    }
                }
                build.map.tiles[i] = TileType::Floor;
                proof {
                    if i != ci {
                        assert(build.map.tiles[ci as int] == TileType::Floor);
                    }
                }
                let dir = roll(rng, 4);
                if dir == 1 && x > 1 {
                    x = x - 1;
                } else if dir == 2 && x < w - 2 {
                    x = x + 1;
                } else if dir == 3 && y > 1 {
                    y = y - 1;
                } else if dir == 4 && y < h - 2 {
                    y = y + 1;
                }
                life = life + 1;
            }
            digger = digger + 1;
        }
    }
    build.starting_position = Some(Position { x: cx, y: cy });
    Ok(())
}

} // verus!
