use dungeon_core::{tile_walkable, tile_opaque, TileType, Grid, tile_idx_in_chunk};

#[test]
fn walkable_kinds() {
    assert!(tile_walkable(TileType::Floor));
    assert!(tile_walkable(TileType::DownStairs));
    assert!(tile_walkable(TileType::UpStairs));
    assert!(tile_walkable(TileType::Road));
    assert!(tile_walkable(TileType::Grass));
    assert!(tile_walkable(TileType::ShallowWater));
    assert!(tile_walkable(TileType::WoodFloor));
    assert!(tile_walkable(TileType::Bridge));
    assert!(tile_walkable(TileType::Gravel));
    assert!(!tile_walkable(TileType::Wall));
    assert!(!tile_walkable(TileType::Stalagmite));
    assert!(!tile_walkable(TileType::Stalactite));
    assert!(!tile_walkable(TileType::DeepWater));
}

#[test]
fn opaque_kinds() {
    assert!(tile_opaque(TileType::Wall));
    assert!(tile_opaque(TileType::Stalagmite));
    assert!(tile_opaque(TileType::Stalactite));
    assert!(!tile_opaque(TileType::Floor));
    assert!(!tile_opaque(TileType::DeepWater));
    assert!(!tile_opaque(TileType::Grass));
}

#[test]
fn grid_layout() {
    let g = Grid::new(10, 6, 1, "test");
    assert_eq!(g.width, 10);
    assert_eq!(g.height, 6);
    assert_eq!(g.tiles.len(), 60);
    assert_eq!(g.revealed_tiles.len(), 60);
    assert_eq!(g.xy_idx(3, 2), 23);
    assert_eq!(g.xy_idx(0, 0), 0);
    assert_eq!(g.xy_idx(9, 5), 59);
    assert!(g.tiles.iter().all(|t| *t == TileType::Wall));
}

#[test]
fn chunk_indexing() {
    assert_eq!(tile_idx_in_chunk(8, 0, 0), 0);
    assert_eq!(tile_idx_in_chunk(8, 3, 2), 19);
    assert_eq!(tile_idx_in_chunk(8, 7, 7), 63);
}
