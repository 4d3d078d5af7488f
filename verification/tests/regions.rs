use dungeon_core::{Grid, TileType, pick_seeds, voronoi_regions, spawn_from_regions,
    tile_walkable};
use rltk::RandomNumberGenerator;

fn open_ground(width: i32, height: i32) -> Grid {
    let mut g = Grid::new(width, height, 1, "ground");
    for y in 1..height - 1 {
        for x in 1..width - 1 {
            let i = g.xy_idx(x, y);
            g.tiles[i] = TileType::Floor;
        }
    }
    g
}

/// Region partitioning: every walkable cell lies in exactly one region,
/// the union of the regions is the walkable set, and no cell repeats.
#[test]
fn regions_partition_walkable_cells() {
    let g = open_ground(24, 18);
    let mut rng = RandomNumberGenerator::seeded(13);
    let seeds = pick_seeds(&g, &mut rng, 6);
    assert!(!seeds.is_empty());
    for s in seeds.iter() {
        assert!(tile_walkable(g.tiles[*s]));
    }
    let regions = voronoi_regions(&g, &seeds);
    assert_eq!(regions.len(), seeds.len());
    let mut membership = vec![0usize; g.tiles.len()];
    for region in regions.iter() {
        let mut last: Option<usize> = None;
        for cell in region.iter() {
            assert!(tile_walkable(g.tiles[*cell]));
            membership[*cell] += 1;
            if let Some(prev) = last {
                assert!(*cell > prev, "region cells are listed in ascending order");
            }
            last = Some(*cell);
        }
    }
    for i in 0..g.tiles.len() {
        if tile_walkable(g.tiles[i]) {
            assert_eq!(membership[i], 1, "walkable cell {} must lie in exactly one region", i);
        } else {
            assert_eq!(membership[i], 0, "non-walkable cell {} must lie in no region", i);
        }
    }
}

#[test]
fn nearest_seed_wins_with_tie_to_earliest() {
    let g = open_ground(11, 5);
    // two seeds on the same row; the midpoint ties and goes to the first
    let s1 = g.xy_idx(2, 2);
    let s2 = g.xy_idx(8, 2);
    let seeds = vec![s1, s2];
    let regions = voronoi_regions(&g, &seeds);
    let mid = g.xy_idx(5, 2);
    assert!(regions[0].contains(&mid));
    assert!(!regions[1].contains(&mid));
    let near_second = g.xy_idx(7, 2);
    assert!(regions[1].contains(&near_second));
}

#[test]
fn spawns_come_from_regions() {
    let g = open_ground(20, 16);
    let mut rng = RandomNumberGenerator::seeded(21);
    let seeds = pick_seeds(&g, &mut rng, 4);
    let regions = voronoi_regions(&g, &seeds);
    let spawns = spawn_from_regions(&regions, &mut rng, 10);
    assert!(!spawns.is_empty());
    for (cell, kind) in spawns.iter() {
        assert!(regions.iter().any(|r| r.contains(cell)));
        assert!(*kind >= 1 && *kind <= 10);
    }
}
