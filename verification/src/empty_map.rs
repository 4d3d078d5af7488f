//! The blank-room initial generator: a walled border around an open floor,
//! with the starting position at the centre.

use vstd::prelude::*;
use crate::grid::Position;
use crate::tiletype::TileType;
use crate::builder::{BuilderMap, BuildError, bm_inv, has_valid_start};

verus! {

/// What the blank-room layout holds at a coordinate: `Wall` on the border
/// ring, `Floor` inside.
pub open spec fn blank_at(w: int, h: int, x: int, y: int) -> TileType {
    if x == 0 || x == w - 1 || y == 0 || y == h - 1 {
        TileType::Wall
    } else {
        TileType::Floor
    }
}

/// A finished blank-room level: the start is placed on a walkable cell
/// and every cell holds exactly the walled-border, open-interior layout.
pub open spec fn blank_level_ok(b: BuilderMap) -> bool {
    &&& has_valid_start(b)
    &&& (forall|x: int, y: int|
        #![trigger b.map.idx(x, y)]
        b.map.in_bounds(x, y) ==> b.map.tiles[b.map.idx(x, y)] == blank_at(
            b.map.width as int,
            b.map.height as int,
            x,
            y,
        ))
}

/// Fills the build state with the blank-room layout and places the start
/// at the centre. Grids too small to hold any interior cell are rejected.
#[verifier::loop_isolation(false)]
pub fn empty_map_generate(build: &mut BuilderMap) -> (r: Result<(), BuildError>)
    requires
        bm_inv(*old(build)),
    ensures
        bm_inv(*final(build)),
        final(build).map.width == old(build).map.width,
        final(build).map.height == old(build).map.height,
        r is Err <==> (old(build).map.width < 3 || old(build).map.height < 3),
        r is Err ==> r->Err_0 == BuildError::Degenerate && *final(build) == *old(build),
        r is Ok ==> blank_level_ok(*final(build)),
        final(build).history == old(build).history,
        final(build).spawn_list == old(build).spawn_list,
        final(build).spawn_regions == old(build).spawn_regions,
        final(build).show_snapshots == old(build).show_snapshots,
        r is Ok ==> has_valid_start(*final(build)) && (forall|x: int, y: int|
            #![trigger final(build).map.idx(x, y)]
            final(build).map.in_bounds(x, y) ==> final(build).map.tiles[final(build).map.idx(x, y)]
                == blank_at(final(build).map.width as int, final(build).map.height as int, x, y))
            && (final(build).starting_position matches Some(p2) && p2.x as int == old(
            build,
        ).map.width as int / 2 && p2.y as int == old(build).map.height as int / 2),
{
    let w = build.map.width;
    let h = build.map.height;
    if w < 3 || h < 3 {
        return Err(BuildError::Degenerate);
    }
    let ghost g0 = build.map;
    let mut new_tiles: Vec<TileType> = Vec::new();
    let mut y: i32 = 0;
    while y < h
        invariant
            0 <= y <= h,
            new_tiles.len() == y * w,
            forall|px: int, py: int|
                #![trigger g0.idx(px, py)]
                g0.in_bounds(px, py) && g0.idx(px, py) < new_tiles.len() ==> new_tiles[g0.idx(
                    px,
                    py,
                )] == blank_at(w as int, h as int, px, py),
        decreases h - y,
    {
        let mut x: i32 = 0;
        while x < w
            invariant
                0 <= y < h,
                0 <= x <= w,
                new_tiles.len() == y * w + x,
                forall|px: int, py: int|
                    #![trigger g0.idx(px, py)]
                    g0.in_bounds(px, py) && g0.idx(px, py) < new_tiles.len() ==> new_tiles[g0.idx(
                        px,
                        py,
                    )] == blank_at(w as int, h as int, px, py),
            decreases w - x,
        {
            let v: TileType = if x == 0 || x == w - 1 || y == 0 || y == h - 1 {
                TileType::Wall
            } else {
                TileType::Floor
            };
            proof {
                g0.lemma_idx_bounds(x as int, y as int);
            }
            new_tiles.push(v);
            proof {
                assert forall|px: int, py: int|
                    #![trigger g0.idx(px, py)]
                    g0.in_bounds(px, py) && g0.idx(px, py) < new_tiles.len() implies new_tiles[
                g0.idx(px, py)] == blank_at(w as int, h as int, px, py) by {
                    if g0.idx(px, py) == new_tiles.len() - 1 {
                        g0.lemma_idx_injective(px, py, x as int, y as int);
                    }
                }
            }
            x = x + 1;
        }
        proof {
            assert((y + 1) * w == y * w + w) by (nonlinear_arith) {}
        }
        y = y + 1;
    }
    proof {
        assert(new_tiles.len() == g0.tiles.len()) by (nonlinear_arith)
            requires
                new_tiles.len() == h as int * w,
                g0.tiles.len() == w as int * h,
        {}
        assert forall|px: int, py: int|
            #![trigger g0.idx(px, py)]
            g0.in_bounds(px, py) implies new_tiles[g0.idx(px, py)] == blank_at(
            w as int,
            h as int,
            px,
            py,
        ) by {
            g0.lemma_idx_bounds(px, py);
        }
    }
    build.map.tiles = new_tiles;
    build.starting_position = Some(Position { x: w / 2, y: h / 2 });
    proof {
        let g = build.map;
        let mx = w as int / 2;
        let my = h as int / 2;
        assert(1 <= mx < w - 1 && 1 <= my < h - 1) by (nonlinear_arith)
            requires
                3 <= w,
                3 <= h,
                mx == w as int / 2,
                my == h as int / 2,
        {}
        assert(g.tiles[g0.idx(mx, my)] == blank_at(w as int, h as int, mx, my));
        assert(g.idx(mx, my) == g0.idx(mx, my));
        assert(g.walkable_at(mx, my));
        assert forall|x: int, y: int|
            #![trigger g.idx(x, y)]
            g.in_bounds(x, y) implies g.tiles[g.idx(x, y)] == blank_at(
            w as int,
            h as int,
            x,
            y,
        ) by {
            assert(g.idx(x, y) == g0.idx(x, y));
            assert(g.tiles[g0.idx(x, y)] == blank_at(w as int, h as int, x, y));
        }
    }
    Ok(())
}

/// The blank-room generator, boxed for use as a pluggable starter.
pub struct EmptyMapBuilder {}

impl EmptyMapBuilder {
    /// A fresh blank-room generator.
    pub fn new() -> (b: Box<EmptyMapBuilder>) {
        Box::new(EmptyMapBuilder {  })
    }

    /// Runs the generator against the shared build state and records a
    /// snapshot of the finished layout.
    pub fn build_map(
        &mut self,
        _rng: &mut rltk::RandomNumberGenerator,
        build_data: &mut BuilderMap,
    ) -> (r: Result<(), BuildError>)
        requires
            bm_inv(*old(build_data)),
        ensures
            bm_inv(*final(build_data)),
            final(build_data).map.width == old(build_data).map.width,
            final(build_data).map.height == old(build_data).map.height,
            r is Err <==> (old(build_data).map.width < 3 || old(build_data).map.height < 3),
            r is Err ==> r->Err_0 == BuildError::Degenerate && *final(build_data) == *old(
                build_data,
            ),
            r is Ok ==> blank_level_ok(*final(build_data)),
            r is Ok && old(build_data).show_snapshots ==> final(build_data).history.len() == old(
                build_data,
            ).history.len() + 1 && final(build_data).history[final(build_data).history.len()
                - 1].tiles@ == final(build_data).map.tiles@ && (forall|i: int|
                0 <= i < final(build_data).map.tiles.len()
                    ==> #[trigger] final(build_data).history[final(build_data).history.len() - 1].revealed_tiles[i] == true),
            r is Ok && !old(build_data).show_snapshots ==> final(build_data).history == old(
                build_data,
            ).history,
    {
        let r = empty_map_generate(build_data);
        if r.is_ok() {
            build_data.take_snapshot();
        }
        r
    }
}

} // verus!
