//! The tile grid: dimensions, tile kinds, per-tile boolean layers and the
//! per-cell occupant index. Index conversion (`xy_idx`) is the single source
//! of truth for the coordinate-to-index mapping.

use vstd::prelude::*;
use crate::tiletype::{TileType, spec_tile_walkable, spec_tile_opaque};

verus! {

/// A coordinate pair on the grid.
#[derive(PartialEq, Eq, Structural, Copy, Clone, Debug)]
pub struct Position {
    pub x: i32,
    pub y: i32,
}

/// The dense tile grid with its parallel boolean layers.
pub struct Grid {
    pub width: i32,
    pub height: i32,
    pub depth: i32,
    pub name: String,
    pub tiles: Vec<TileType>,
    pub revealed_tiles: Vec<bool>,
    pub visible_tiles: Vec<bool>,
    pub view_blocked: Vec<bool>,
    pub tile_content: Vec<Vec<u64>>,
}

impl Grid {
    /// Well-formedness: positive extents and every layer exactly
    /// `width * height` entries long.
    pub open spec fn inv(self) -> bool {
        &&& 1 <= self.width
        &&& 1 <= self.height
        &&& self.width * self.height <= i32::MAX
        &&& self.tiles.len() == self.width * self.height
        &&& self.revealed_tiles.len() == self.tiles.len()
        &&& self.visible_tiles.len() == self.tiles.len()
        &&& self.view_blocked.len() == self.tiles.len()
        &&& self.tile_content.len() == self.tiles.len()
    }

    pub open spec fn in_bounds(self, x: int, y: int) -> bool {
        0 <= x < self.width && 0 <= y < self.height
    }

    /// The flat index of a coordinate pair.
    pub open spec fn idx(self, x: int, y: int) -> int {
        y * self.width + x
    }

    pub open spec fn walkable_at(self, x: int, y: int) -> bool {
        self.in_bounds(x, y) && spec_tile_walkable(self.tiles[self.idx(x, y)])
    }

    pub open spec fn opaque_at(self, x: int, y: int) -> bool {
        self.in_bounds(x, y) && spec_tile_opaque(self.tiles[self.idx(x, y)])
    }

    /// A coordinate in bounds has a flat index within the tile vector.
    pub proof fn lemma_idx_bounds(self, x: int, y: int)
        requires
            self.inv(),
            self.in_bounds(x, y),
        ensures
            0 <= self.idx(x, y) < self.tiles.len(),
    {
        assert(0 <= y * self.width + x < self.width * self.height) by (nonlinear_arith)
            requires
                0 <= x < self.width,
                0 <= y < self.height,
        {}
    }

    /// Distinct in-bounds coordinates have distinct flat indices.
    pub proof fn lemma_idx_injective(self, x1: int, y1: int, x2: int, y2: int)
        requires
            self.inv(),
            self.in_bounds(x1, y1),
            self.in_bounds(x2, y2),
            self.idx(x1, y1) == self.idx(x2, y2),
        ensures
            x1 == x2 && y1 == y2,
    {
        assert(x1 == x2 && y1 == y2) by (nonlinear_arith)
            requires
                0 <= x1 < self.width,
                0 <= y1 < self.height,
                0 <= x2 < self.width,
                0 <= y2 < self.height,
                y1 * self.width + x1 == y2 * self.width + x2,
        {}
    }

    /// The x coordinate of a flat index.
    pub open spec fn x_of(self, i: int) -> int {
        i % (self.width as int)
    }

    /// The y coordinate of a flat index.
    pub open spec fn y_of(self, i: int) -> int {
        i / (self.width as int)
    }

    /// `x_of` and `y_of` invert `idx` on every valid flat index.
    pub proof fn lemma_idx_inverse(self, i: int)
        requires
            self.inv(),
            0 <= i < self.tiles.len(),
        ensures
            self.in_bounds(self.x_of(i), self.y_of(i)),
            self.idx(self.x_of(i), self.y_of(i)) == i,
    {
        assert(0 <= i % (self.width as int) < self.width && (i / (self.width as int)) * self.width
            + i % (self.width as int) == i && 0 <= i / (self.width as int)
            < self.height) by (nonlinear_arith)
            requires
                1 <= self.width,
                1 <= self.height,
                0 <= i < self.width * self.height,
        {}
    }

    /// Converts a bounds-checked coordinate pair to a flat index.
    /// Out-of-range input is a caller error, rejected here by contract.
    pub fn xy_idx(&self, x: i32, y: i32) -> (r: usize)
        requires
            self.inv(),
            self.in_bounds(x as int, y as int),
        ensures
            r == self.idx(x as int, y as int),
            r < self.tiles.len(),
    {
        proof {
            self.lemma_idx_bounds(x as int, y as int);
        }
        (y as usize) * (self.width as usize) + (x as usize)
    }

    /// A fresh grid: every tile `Wall`, nothing revealed, visible or
    /// view-blocked, and no occupants indexed.
    pub fn new(width: i32, height: i32, depth: i32, name: &str) -> (g: Grid)
        requires
            1 <= width,
            1 <= height,
            width * height <= i32::MAX,
        ensures
            g.inv(),
            g.width == width,
            g.height == height,
            g.depth == depth,
            g.name@ == name@,
            forall|i: int| 0 <= i < g.tiles.len() ==> g.tiles[i] == TileType::Wall,
            forall|i: int| 0 <= i < g.tiles.len() ==> !g.revealed_tiles[i],
            forall|i: int| 0 <= i < g.tiles.len() ==> !g.visible_tiles[i],
            forall|i: int| 0 <= i < g.tiles.len() ==> !g.view_blocked[i],
            forall|i: int| 0 <= i < g.tiles.len() ==> g.tile_content[i]@ =~= Seq::<u64>::empty(),
    {
        let n: usize = (width as usize) * (height as usize);
        let mut tiles: Vec<TileType> = Vec::new();
        let mut revealed: Vec<bool> = Vec::new();
        let mut visible: Vec<bool> = Vec::new();
        let mut blocked: Vec<bool> = Vec::new();
        let mut content: Vec<Vec<u64>> = Vec::new();
        let mut i: usize = 0;
        while i < n
            invariant
                i <= n,
                tiles.len() == i,
                revealed.len() == i,
                visible.len() == i,
                blocked.len() == i,
                content.len() == i,
                forall|j: int| 0 <= j < i ==> tiles[j] == TileType::Wall,
                forall|j: int| 0 <= j < i ==> !revealed[j],
                forall|j: int| 0 <= j < i ==> !visible[j],
                forall|j: int| 0 <= j < i ==> !blocked[j],
                forall|j: int| 0 <= j < i ==> content[j]@ =~= Seq::<u64>::empty(),
            decreases n - i,
        {
            tiles.push(TileType::Wall);
            revealed.push(false);
            visible.push(false);
            blocked.push(false);
            content.push(Vec::new());
            i = i + 1;
        }
        Grid {
            width,
            height,
            depth,
            name: name.to_string(),
            tiles,
            revealed_tiles: revealed,
            visible_tiles: visible,
            view_blocked: blocked,
            tile_content: content,
        }
    }
}

/// Copies a vector of plain (copyable) values element by element.
pub(crate) fn clone_vec_copy<T: Copy>(v: &Vec<T>) -> (r: Vec<T>)
    ensures
        r@ =~= v@,
{
    let mut r: Vec<T> = Vec::new();
    let mut i: usize = 0;
    while i < v.len()
        invariant
            i <= v.len(),
            r.len() == i,
            forall|j: int| 0 <= j < i ==> r[j] == v[j],
        decreases v.len() - i,
    {
        r.push(v[i]);
        i = i + 1;
    }
    r
}

/// Copies the per-cell occupant index element by element.
pub(crate) fn clone_content(v: &Vec<Vec<u64>>) -> (r: Vec<Vec<u64>>)
    ensures
        r.len() == v.len(),
        forall|j: int| 0 <= j < v.len() ==> r[j]@ =~= v[j]@,
{
    let mut r: Vec<Vec<u64>> = Vec::new();
    let mut i: usize = 0;
    while i < v.len()
        invariant
            i <= v.len(),
            r.len() == i,
            forall|j: int| 0 <= j < i ==> r[j]@ =~= v[j]@,
        decreases v.len() - i,
    {
        r.push(clone_vec_copy(&v[i]));
        i = i + 1;
    }
    r
}

impl Grid {
    /// A field-for-field copy of the grid.
    pub fn clone_grid(&self) -> (g: Grid)
        ensures
            g.width == self.width,
            g.height == self.height,
            g.depth == self.depth,
            g.name@ == self.name@,
            g.tiles@ =~= self.tiles@,
            g.revealed_tiles@ =~= self.revealed_tiles@,
            g.visible_tiles@ =~= self.visible_tiles@,
            g.view_blocked@ =~= self.view_blocked@,
            g.tile_content.len() == self.tile_content.len(),
            forall|j: int|
                0 <= j < self.tile_content.len() ==> g.tile_content[j]@ =~= self.tile_content[j]@,
    {
        let name: String = self.name.as_str().to_string();
        Grid {
            width: self.width,
            height: self.height,
            depth: self.depth,
            name,
            tiles: clone_vec_copy(&self.tiles),
            revealed_tiles: clone_vec_copy(&self.revealed_tiles),
            visible_tiles: clone_vec_copy(&self.visible_tiles),
            view_blocked: clone_vec_copy(&self.view_blocked),
            tile_content: clone_content(&self.tile_content),
        }
    }
}

} // verus!
