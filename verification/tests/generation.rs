use dungeon_core::{CellularAutomataBuilder, EmptyMapBuilder, BuilderMap, BuilderChain, Grid,
    TileType, distance_field, UNREACHABLE, limestone_cavern_builder, tile_walkable,
    InitialBuilder, BuildError, DrunkardParams, drunkards_walk_generate, cull_unreachable_pass,
    distant_exit_pass, cull_unreachable, most_distant_reachable, area_starting_position, XStart,
    YStart, empty_map_generate};
use rltk::RandomNumberGenerator;

fn fresh_build(width: i32, height: i32) -> BuilderMap {
    BuilderMap {
        map: Grid::new(width, height, 1, "test"),
        starting_position: None,
        history: Vec::new(),
        spawn_regions: Vec::new(),
        spawn_list: Vec::new(),
        show_snapshots: false,
    }
}

/// An 80 by 50 cavern from a fixed seed: the start stands on Floor, a
/// distinct DownStairs exit is reachable from it, and spawn entries exist.
#[test]
fn cavern_scenario_80_by_50() {
    let mut done = false;
    for seed in 1u64..=8 {
        let mut rng = RandomNumberGenerator::seeded(seed);
        let mut builder = CellularAutomataBuilder::new(1);
        if builder.build_map(&mut rng).is_ok() {
            let map = builder.get_map();
            let start = builder.get_starting_position();
            let si = map.xy_idx(start.x, start.y);
            assert_eq!(map.tiles[si], TileType::Floor);
            assert!(!builder.get_spawn_list().is_empty());
            let exit = map
                .tiles
                .iter()
                .position(|t| *t == TileType::DownStairs)
                .expect("an exit cell must exist");
            assert_ne!(exit, si);
            let stairs = map.tiles.iter().filter(|t| **t == TileType::DownStairs).count();
            assert_eq!(stairs, 1, "exactly one exit cell");
            let d = distance_field(&map, start.x, start.y);
            assert_ne!(d[exit], UNREACHABLE);
            // the exit is the most distant reachable cell
            let max_d = (0..map.tiles.len())
                .filter(|i| d[*i] != UNREACHABLE)
                .map(|i| d[i])
                .max()
                .unwrap();
            assert_eq!(d[exit], max_d);
            // post-cull invariant: every walkable cell is reachable
            for i in 0..map.tiles.len() {
                if tile_walkable(map.tiles[i]) {
                    assert_ne!(d[i], UNREACHABLE, "walkable cell {} unreachable", i);
                }
            }
            done = true;
            break;
        }
    }
    assert!(done, "no seed produced an accepted cavern");
}

/// The same seed and configuration give byte-identical grids.
#[test]
fn deterministic_generation() {
    let mut rng1 = RandomNumberGenerator::seeded(42);
    let mut rng2 = RandomNumberGenerator::seeded(42);
    let mut b1 = CellularAutomataBuilder::new(3);
    let mut b2 = CellularAutomataBuilder::new(3);
    let r1 = b1.build_map(&mut rng1);
    let r2 = b2.build_map(&mut rng2);
    assert_eq!(r1.is_ok(), r2.is_ok());
    assert_eq!(b1.get_map().tiles, b2.get_map().tiles);
    let p1 = b1.get_starting_position();
    let p2 = b2.get_starting_position();
    assert_eq!((p1.x, p1.y), (p2.x, p2.y));
    assert_eq!(b1.get_spawn_list(), b2.get_spawn_list());
}

#[test]
fn blank_room_layout() {
    let mut rng = RandomNumberGenerator::seeded(7);
    let mut builder = EmptyMapBuilder::new();
    let mut build = fresh_build(9, 7);
    assert!(builder.build_map(&mut rng, &mut build).is_ok());
    for y in 0..7 {
        for x in 0..9 {
            let i = build.map.xy_idx(x, y);
            if x == 0 || x == 8 || y == 0 || y == 6 {
                assert_eq!(build.map.tiles[i], TileType::Wall);
            } else {
                assert_eq!(build.map.tiles[i], TileType::Floor);
            }
        }
    }
    let p = build.starting_position.expect("start placed");
    assert_eq!((p.x, p.y), (4, 3));
}

#[test]
fn blank_room_too_small_is_degenerate() {
    let mut rng = RandomNumberGenerator::seeded(7);
    let mut builder = EmptyMapBuilder::new();
    let mut build = fresh_build(2, 2);
    assert!(builder.build_map(&mut rng, &mut build).is_err());
}

/// The limestone cavern chain: every walkable cell of the finished map is
/// reachable from the starting position, and the exit is the most distant
/// reachable cell.
#[test]
fn limestone_chain_end_to_end() {
    let mut rng = RandomNumberGenerator::seeded(11);
    let mut chain = limestone_cavern_builder(1, &mut rng, 60, 40);
    chain.build_map(&mut rng).expect("chain build succeeds");
    let build = &chain.build_data;
    let p = build.starting_position.expect("start placed");
    let si = build.map.xy_idx(p.x, p.y);
    assert!(tile_walkable(build.map.tiles[si]));
    let d = distance_field(&build.map, p.x, p.y);
    for i in 0..build.map.tiles.len() {
        if tile_walkable(build.map.tiles[i]) {
            assert_ne!(d[i], UNREACHABLE, "walkable cell {} unreachable", i);
        }
    }
    // the DownStairs cell realizes the maximum distance (lowest index wins)
    let exit = build
        .map
        .tiles
        .iter()
        .position(|t| *t == TileType::DownStairs)
        .expect("an exit cell must exist");
    let max_d = (0..build.map.tiles.len())
        .filter(|i| d[*i] != UNREACHABLE)
        .map(|i| d[i])
        .max()
        .unwrap();
    assert_eq!(d[exit], max_d);
    let first_max = (0..build.map.tiles.len())
        .find(|i| d[*i] != UNREACHABLE && d[*i] == max_d)
        .unwrap();
    assert_eq!(exit, first_max);
    assert!(!build.spawn_list.is_empty());
    for (cell, kind) in build.spawn_list.iter() {
        assert!(*cell < build.map.tiles.len());
        assert!(tile_walkable(build.map.tiles[*cell]));
        assert!(*kind >= 1 && *kind <= 10);
    }
}

#[test]
fn chain_rejects_second_starter() {
    let mut chain = BuilderChain::new(1, 10, 10, "t");
    assert!(chain.start_with(InitialBuilder::EmptyMap).is_ok());
    assert_eq!(
        chain.start_with(InitialBuilder::EmptyMap),
        Err(BuildError::StarterAlreadySet)
    );
}

#[test]
fn chain_without_starter_fails() {
    let mut rng = RandomNumberGenerator::seeded(5);
    let mut chain = BuilderChain::new(1, 10, 10, "t");
    assert_eq!(chain.build_map(&mut rng), Err(BuildError::NoInitialBuilder));
}

#[test]
fn drunkard_leaves_floor_at_centre() {
    let mut rng = RandomNumberGenerator::seeded(9);
    let mut build = fresh_build(30, 20);
    let params = DrunkardParams::winding_passages();
    assert!(drunkards_walk_generate(&mut build, &mut rng, params).is_ok());
    let p = build.starting_position.expect("start placed");
    assert_eq!((p.x, p.y), (15, 10));
    let i = build.map.xy_idx(p.x, p.y);
    assert_eq!(build.map.tiles[i], TileType::Floor);
}

#[test]
fn passes_demand_a_starting_position() {
    let mut build = fresh_build(10, 10);
    assert_eq!(cull_unreachable_pass(&mut build), Err(BuildError::NoStartingPosition));
    assert_eq!(distant_exit_pass(&mut build), Err(BuildError::NoStartingPosition));
}

/// Culling walls off everything the start cannot reach, and the distant
/// exit is the farthest cell of the remaining corridor.
#[test]
fn corridor_cull_and_distant_exit() {
    let mut g = Grid::new(8, 5, 1, "corridor");
    for x in 1..=3 {
        let i = g.xy_idx(x, 1);
        g.tiles[i] = TileType::Floor;
    }
    let isolated = g.xy_idx(6, 3);
    g.tiles[isolated] = TileType::Floor;
    cull_unreachable(&mut g, 1, 1);
    assert_eq!(g.tiles[isolated], TileType::Wall, "unreachable area is walled off");
    assert_eq!(g.tiles[g.xy_idx(2, 1)], TileType::Floor, "reachable cells keep their kind");
    let exit = most_distant_reachable(&g, 1, 1);
    assert_eq!(exit, g.xy_idx(3, 1));
}

/// The starting-position pass picks the walkable cell nearest its anchor.
#[test]
fn area_start_snaps_to_anchor() {
    let mut build = fresh_build(11, 9);
    empty_map_generate(&mut build).expect("blank room");
    area_starting_position(&mut build, XStart::LEFT, YStart::CENTER).expect("start placed");
    let p = build.starting_position.expect("start placed");
    assert_eq!((p.x, p.y), (1, 4));
    area_starting_position(&mut build, XStart::RIGHT, YStart::CENTER).expect("start placed");
    let p = build.starting_position.expect("start placed");
    assert_eq!((p.x, p.y), (9, 4));
}

/// A chain with the blank-room starter and no passes succeeds on any grid
/// that can hold an interior.
#[test]
fn blank_chain_with_no_passes_succeeds() {
    let mut rng = RandomNumberGenerator::seeded(2);
    let mut chain = BuilderChain::new(1, 12, 8, "room");
    chain.start_with(InitialBuilder::EmptyMap).expect("starter set");
    chain.build_map(&mut rng).expect("blank room always builds");
    let p = chain.build_data.starting_position.expect("start placed");
    let i = chain.build_data.map.xy_idx(p.x, p.y);
    assert_eq!(chain.build_data.map.tiles[i], TileType::Floor);
}
