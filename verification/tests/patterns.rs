use dungeon_core::{Grid, TileType, build_patterns, patterns_to_constraints,
    render_pattern_to_map, solve_chunk_assignment, MapChunk, BuildError, BuilderMap, WfcParams,
    waveform_collapse_pass, tile_walkable};
use rltk::RandomNumberGenerator;

fn floor_rect(g: &mut Grid, x0: i32, y0: i32, x1: i32, y1: i32) {
    for y in y0..=y1 {
        for x in x0..=x1 {
            let i = g.xy_idx(x, y);
            g.tiles[i] = TileType::Floor;
        }
    }
}

/// Pattern extraction with chunk size 8 over a template holding one
/// isolated fully-enclosed room: the room's chunk has no exits and is
/// compatible with every other exit-less chunk in all four directions.
#[test]
fn enclosed_room_chunk_has_no_exits() {
    let mut g = Grid::new(16, 16, 1, "template");
    // a room strictly inside chunk (0, 0): no edge cell of the chunk opens
    floor_rect(&mut g, 2, 2, 5, 5);
    let patterns = build_patterns(&g, 8, false, false);
    assert_eq!(patterns.len(), 4);
    let chunks = patterns_to_constraints(patterns, 8);
    assert!(!chunks[0].has_exits);
    // every other chunk is all wall, hence exit-less as well
    for j in 1..4 {
        assert!(!chunks[j].has_exits);
    }
    for d in 0..4 {
        for j in 0..4usize {
            assert!(
                chunks[0].compatible_with[d].contains(&j),
                "exit-less chunks must accept each other (direction {})",
                d
            );
        }
    }
}

/// Direction consistency: a chunk listed compatible to the east presents a
/// matching opening on the shared edge.
#[test]
fn east_compatibility_needs_matching_openings() {
    let mut g = Grid::new(8, 16, 1, "template");
    // chunk 0 (rows 0..8): an east-edge opening at row 3
    {
        let i = g.xy_idx(7, 3);
        g.tiles[i] = TileType::Floor;
        let i2 = g.xy_idx(6, 3);
        g.tiles[i2] = TileType::Floor;
    }
    // chunk 1 (rows 8..16): a west-edge opening at row 3 of the chunk
    {
        let i = g.xy_idx(0, 11);
        g.tiles[i] = TileType::Floor;
        let i2 = g.xy_idx(1, 11);
        g.tiles[i2] = TileType::Floor;
    }
    let patterns = build_patterns(&g, 8, false, false);
    assert_eq!(patterns.len(), 2);
    let chunks = patterns_to_constraints(patterns, 8);
    assert!(chunks[0].exits[3][3], "chunk 0 opens east at offset 3");
    assert!(chunks[1].exits[2][3], "chunk 1 opens west at offset 3");
    // east neighbour with the matching opening is accepted
    assert!(chunks[0].compatible_with[3].contains(&1));
    // an east opening against a closed west edge cannot align
    assert!(!chunks[0].compatible_with[3].contains(&0));
    // a west opening against a closed east edge cannot align either
    assert!(!chunks[1].compatible_with[2].contains(&1));
}

#[test]
fn flipping_doubles_and_mirrors() {
    let mut g = Grid::new(4, 4, 1, "template");
    {
        let i = g.xy_idx(0, 1);
        g.tiles[i] = TileType::Floor;
    }
    let patterns = build_patterns(&g, 4, true, false);
    assert_eq!(patterns.len(), 2);
    // the mirrored variant holds the opening on the opposite side
    assert_eq!(patterns[0][4], TileType::Floor);
    assert_eq!(patterns[1][7], TileType::Floor);
}

#[test]
fn dedupe_keeps_first_occurrences() {
    let g = Grid::new(16, 8, 1, "template");
    // all four chunks are identical walls
    let patterns = build_patterns(&g, 4, false, true);
    assert_eq!(patterns.len(), 1);
    let both = build_patterns(&g, 4, false, false);
    assert_eq!(both.len(), 8);
}

#[test]
fn render_copies_pattern_and_marks_exits() {
    let mut g = Grid::new(10, 10, 1, "out");
    let cs = 3;
    let mut pattern = vec![TileType::Wall; 9];
    pattern[4] = TileType::Floor;
    let mut exits = vec![vec![false; 3], vec![false; 3], vec![false; 3], vec![false; 3]];
    exits[0][1] = true; // north edge, offset 1
    let chunk = MapChunk { pattern, exits, has_exits: true, compatible_with: vec![
        Vec::new(),
        Vec::new(),
        Vec::new(),
        Vec::new(),
    ] };
    render_pattern_to_map(&mut g, &chunk, cs, 2, 2);
    // the marked exit cell became DownStairs
    assert_eq!(g.tiles[g.xy_idx(3, 2)], TileType::DownStairs);
    // the pattern body was copied
    assert_eq!(g.tiles[g.xy_idx(3, 3)], TileType::Floor);
    assert_eq!(g.tiles[g.xy_idx(2, 2)], TileType::Wall);
    // rendered cells are visible, others untouched
    assert!(g.visible_tiles[g.xy_idx(3, 3)]);
    assert!(!g.visible_tiles[g.xy_idx(0, 0)]);
    assert_eq!(g.tiles[g.xy_idx(0, 0)], TileType::Wall);
}

#[test]
fn solver_fills_compatible_grid() {
    let mut g = Grid::new(8, 8, 1, "template");
    floor_rect(&mut g, 0, 0, 7, 7);
    let patterns = build_patterns(&g, 4, false, true);
    let chunks = patterns_to_constraints(patterns, 4);
    let mut rng = RandomNumberGenerator::seeded(3);
    let assign = solve_chunk_assignment(&chunks, 3, 2, &mut rng, 10).expect("solvable");
    assert_eq!(assign.len(), 6);
    for slot in assign.iter() {
        assert!(*slot < chunks.len());
    }
}

#[test]
fn solver_reports_exhaustion() {
    // a single chunk whose east edge opens but whose west edge is closed
    // can never stand beside itself
    let mut g = Grid::new(4, 4, 1, "template");
    for y in 0..4 {
        let i = g.xy_idx(3, y);
        g.tiles[i] = TileType::Floor;
    }
    let patterns = build_patterns(&g, 4, false, false);
    let chunks = patterns_to_constraints(patterns, 4);
    let mut rng = RandomNumberGenerator::seeded(3);
    assert_eq!(
        solve_chunk_assignment(&chunks, 2, 1, &mut rng, 5),
        Err(BuildError::SolverExhausted)
    );
}

/// The pattern-constraint pass rebuilds the map out of its own chunks and
/// discards the stale starting position.
#[test]
fn waveform_collapse_rebuilds_map() {
    let mut g = Grid::new(12, 12, 1, "template");
    floor_rect(&mut g, 0, 0, 11, 11);
    let mut build = BuilderMap {
        map: g,
        starting_position: Some(dungeon_core::Position { x: 6, y: 6 }),
        history: Vec::new(),
        spawn_regions: Vec::new(),
        spawn_list: Vec::new(),
        show_snapshots: false,
    };
    let mut rng = RandomNumberGenerator::seeded(17);
    let params = WfcParams { chunk_size: 4, include_flipping: true, dedupe: true, max_attempts: 10 };
    waveform_collapse_pass(&mut build, &mut rng, params).expect("collapsible template");
    assert_eq!(build.map.width, 12);
    assert_eq!(build.map.height, 12);
    assert!(build.starting_position.is_none());
    // the all-floor template reproduces walkable chunks
    assert!(build.map.tiles.iter().any(|t| tile_walkable(*t)));
}
