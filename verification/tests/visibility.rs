use dungeon_core::{Grid, Position, TileType, field_of_view, rebuild_view_blocked,
    observer_reveal, recompute_viewshed, discover_hidden, Viewshed};
use rltk::RandomNumberGenerator;

fn open_ground(width: i32, height: i32) -> Grid {
    let mut g = Grid::new(width, height, 1, "ground");
    for i in 0..g.tiles.len() {
        g.tiles[i] = TileType::Floor;
    }
    g
}

fn sees(vis: &Vec<Position>, x: i32, y: i32) -> bool {
    vis.iter().any(|p| p.x == x && p.y == y)
}

/// A view-blocking occupant strictly between observer and target occludes
/// the target.
#[test]
fn blocker_between_occludes_target() {
    let mut g = open_ground(20, 20);
    rebuild_view_blocked(&mut g, &vec![Position { x: 10, y: 10 }]);
    let vis = field_of_view(&g, 8, 10, 8);
    assert!(sees(&vis, 9, 10));
    assert!(sees(&vis, 10, 10), "the blocker's own cell is still seen");
    assert!(!sees(&vis, 11, 10), "cells past the blocker are occluded");
    assert!(!sees(&vis, 12, 10));
}

/// An opaque wall strictly between observer and target occludes it too,
/// on rows, columns and diagonals.
#[test]
fn wall_between_occludes_target() {
    let mut g = open_ground(20, 20);
    let i = g.xy_idx(10, 10);
    g.tiles[i] = TileType::Wall;
    // column
    let vis = field_of_view(&g, 10, 7, 8);
    assert!(!sees(&vis, 10, 13));
    // diagonal
    let vis2 = field_of_view(&g, 7, 7, 8);
    assert!(!sees(&vis2, 12, 12));
}

/// On empty terrain within range, sight is symmetric.
#[test]
fn open_ground_symmetry() {
    let g = open_ground(20, 20);
    let a = (5, 5);
    let b = (9, 8);
    let from_a = field_of_view(&g, a.0, a.1, 8);
    let from_b = field_of_view(&g, b.0, b.1, 8);
    assert!(sees(&from_a, b.0, b.1));
    assert!(sees(&from_b, a.0, a.1));
    // and a pair out of range is invisible both ways
    let c = (17, 17);
    let from_c = field_of_view(&g, c.0, c.1, 8);
    assert!(!sees(&from_a, c.0, c.1));
    assert!(!sees(&from_c, a.0, a.1));
}

/// The sweep clips to the interior: the outermost border ring is never
/// listed visible.
#[test]
fn border_ring_is_clipped() {
    let g = open_ground(12, 12);
    let vis = field_of_view(&g, 1, 1, 10);
    for p in vis.iter() {
        assert!(p.x >= 1 && p.x <= 10 && p.y >= 1 && p.y <= 10);
    }
}

#[test]
fn viewshed_recomputes_only_when_dirty() {
    let g = open_ground(16, 16);
    let mut vs = Viewshed::new(6);
    assert!(vs.dirty);
    recompute_viewshed(&mut vs, &g, Position { x: 8, y: 8 });
    assert!(!vs.dirty);
    assert!(sees(&vs.visible_tiles, 9, 8));
    let before = vs.visible_tiles.len();
    // clean viewshed: a pass from another position must not change it
    recompute_viewshed(&mut vs, &g, Position { x: 2, y: 2 });
    assert_eq!(vs.visible_tiles.len(), before);
    assert!(sees(&vs.visible_tiles, 9, 8));
}

#[test]
fn observer_reveal_marks_layers() {
    let mut g = open_ground(16, 16);
    let vis = field_of_view(&g, 8, 8, 4);
    observer_reveal(&mut g, &vis);
    let seen = g.xy_idx(9, 8);
    let unseen = g.xy_idx(1, 1);
    assert!(g.visible_tiles[seen]);
    assert!(g.revealed_tiles[seen]);
    assert!(!g.visible_tiles[unseen]);
    assert!(!g.revealed_tiles[unseen]);
    // a later pass elsewhere resets visibility but keeps the reveal
    let vis2 = field_of_view(&g, 2, 2, 1);
    observer_reveal(&mut g, &vis2);
    assert!(!g.visible_tiles[seen]);
    assert!(g.revealed_tiles[seen]);
}

#[test]
fn discovery_only_reveals_seen_hidden_occupants() {
    let mut g = open_ground(16, 16);
    let trap_cell = g.xy_idx(9, 8);
    g.tile_content[trap_cell].push(77);
    let far_cell = g.xy_idx(1, 1);
    g.tile_content[far_cell].push(88);
    let vis = field_of_view(&g, 8, 8, 4);
    let hidden = vec![77u64, 88u64];
    let mut rng = RandomNumberGenerator::seeded(1);
    // run many passes: whatever the draws, only the seen occupant can turn up
    let mut spotted = false;
    for _ in 0..200 {
        let found = discover_hidden(&g, &vis, &hidden, &mut rng);
        for e in found.iter() {
            assert_eq!(*e, 77, "only the occupant on a visible cell is discoverable");
            spotted = true;
        }
    }
    assert!(spotted, "1-in-24 discovery should fire within 200 passes");
}
