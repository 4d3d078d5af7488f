//! Tile kinds and their pure classification functions.

use vstd::prelude::*;

verus! {

/// The closed set of tile kinds a grid cell can hold.
#[derive(PartialEq, Eq, Structural, Hash, Copy, Clone, Debug)]
pub enum TileType {
    Wall,
    Stalagmite,
    Stalactite,
    Floor,
    DownStairs,
    UpStairs,
    Road,
    Grass,
    ShallowWater,
    DeepWater,
    WoodFloor,
    Bridge,
    Gravel,
}

/// Whether an occupant can stand on / move through a tile of this kind.
pub open spec fn spec_tile_walkable(tt: TileType) -> bool {
    match tt {
        TileType::Floor
        | TileType::DownStairs
        | TileType::UpStairs
        | TileType::Road
        | TileType::Grass
        | TileType::ShallowWater
        | TileType::WoodFloor
        | TileType::Bridge
        | TileType::Gravel => true,
        _ => false,
    }
}

/// Whether a tile of this kind blocks line of sight.
pub open spec fn spec_tile_opaque(tt: TileType) -> bool {
    match tt {
        TileType::Wall | TileType::Stalagmite | TileType::Stalactite => true,
        _ => false,
    }
}

/// Walkability of a tile kind; unrecognized kinds block by default.
pub fn tile_walkable(tt: TileType) -> (r: bool)
    ensures
        r == spec_tile_walkable(tt),
{
    match tt {
        TileType::Floor
        | TileType::DownStairs
        | TileType::UpStairs
        | TileType::Road
        | TileType::Grass
        | TileType::ShallowWater
        | TileType::WoodFloor
        | TileType::Bridge
        | TileType::Gravel => true,
        _ => false,
    }
}

/// Opacity of a tile kind; only solid rock formations block sight.
pub fn tile_opaque(tt: TileType) -> (r: bool)
    ensures
        r == spec_tile_opaque(tt),
{
    match tt {
        TileType::Wall | TileType::Stalagmite | TileType::Stalactite => true,
        _ => false,
    }
}

} // verus!
