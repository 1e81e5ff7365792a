use tesseract_world::block::{Block, BlockName};
use tesseract_world::region::{chunk_texture_loc, player_corner, LoadedRegion};
use tesseract_world::world::World;

#[test]
fn texture_slots_wrap_every_four_chunks() {
    assert_eq!(chunk_texture_loc([0, 0, 0, 0]), 0);
    assert_eq!(chunk_texture_loc([1, 0, 0, 0]), 1);
    assert_eq!(chunk_texture_loc([0, 1, 0, 0]), 4);
    assert_eq!(chunk_texture_loc([0, 0, 1, 0]), 16);
    assert_eq!(chunk_texture_loc([0, 0, 0, 1]), 64);
    assert_eq!(chunk_texture_loc([3, 3, 3, 3]), 255);
    assert_eq!(chunk_texture_loc([-1, 0, 0, 0]), 3);
    assert_eq!(chunk_texture_loc([4, 5, -2, -5]), 0 + 4 * (1 + 4 * (2 + 4 * 3)));
}

#[test]
fn corner_for_viewer() {
    assert_eq!(player_corner([1, 1, 1, 1]), [-2, -2, -2, -2]);
    assert_eq!(player_corner([4, 11, 12, 20]), [-1, -1, 0, 1]);
    assert_eq!(player_corner([-5, 3, 0, 100]), [-3, -2, -2, 11]);
    // the viewer stands 12 to 19 blocks inside the window's 32 on every axis
    for x in -40..40isize {
        let k = player_corner([x, 0, 0, 0])[0];
        let from_low = x - 8 * k;
        assert!((12..20).contains(&from_low));
        assert!((12..21).contains(&(8 * (k + 4) - x)));
    }
}

#[test]
fn first_move_loads_the_whole_window() {
    let mut r = LoadedRegion::new();
    assert_eq!(r.corner(), None);
    assert!(!r.mesh_dirty());
    let loads = r.move_to([0, 0, 0, 0]);
    assert_eq!(loads.len(), 256);
    assert_eq!(loads[0], [0, 0, 0, 0]);
    assert_eq!(loads[1], [0, 0, 0, 1]);
    assert_eq!(loads[255], [3, 3, 3, 3]);
    assert_eq!(r.corner(), Some([0, 0, 0, 0]));
    assert!(r.mesh_dirty());
}

#[test]
fn moving_one_chunk_loads_one_slab() {
    let mut r = LoadedRegion::new();
    let _ = r.move_to([0, 0, 0, 0]);
    let loads = r.move_to([1, 0, 0, 0]);
    assert_eq!(loads.len(), 64);
    assert!(loads.iter().all(|c| c[0] == 4));
    assert!(r.is_chunk_loaded([4, 3, 2, 1]));
    assert!(!r.is_chunk_loaded([0, 0, 0, 0]));
}

#[test]
fn moving_to_the_same_corner_loads_nothing() {
    let mut r = LoadedRegion::new();
    let _ = r.move_to([2, -1, 0, 5]);
    assert!(r.move_to([2, -1, 0, 5]).is_empty());
    assert_eq!(r.corner(), Some([2, -1, 0, 5]));
}

#[test]
fn block_changes_inside_and_outside_the_window() {
    let mut r = LoadedRegion::new();
    assert_eq!(r.block_changed([1, 1, 1, 1], false), None);
    assert!(!r.mesh_dirty());
    let _ = r.move_to([0, 0, 0, 0]);
    assert_eq!(r.block_changed([40, 1, 1, 1], true), None);
    assert_eq!(r.block_changed([1, 1, 1, -1], true), None);
    assert_eq!(
        r.block_changed([9, 2, 3, 25], true),
        Some((1 + 4 * (0 + 4 * (0 + 4 * 3)), [1 + 8 * 2, 3 + 8 * 1]))
    );
    assert!(r.mesh_dirty());
}

#[test]
fn material_only_change_keeps_mesh_current() {
    let mut w = World::new();
    let mut r = LoadedRegion::new();
    let _ = r.move_to([12, 12, 12, 12]);
    let _ = r.redo_mesh(&w);
    assert!(!r.mesh_dirty());
    let flipped = w.set([100, 100, 100, 100], Block::create(BlockName::Stone));
    assert!(flipped);
    let recolored = w.set([100, 100, 100, 100], Block::create(BlockName::Grass));
    assert!(!recolored);
    assert_eq!(
        r.block_changed([100, 100, 100, 100], recolored),
        Some((0, [4 + 8 * 4, 4 + 8 * 4]))
    );
    assert!(!r.mesh_dirty());
    let _ = r.block_changed([100, 100, 100, 100], flipped);
    assert!(r.mesh_dirty());
}

#[test]
fn no_window_means_no_mesh() {
    let mut r = LoadedRegion::new();
    assert!(r.redo_mesh(&World::new()).is_empty());
    assert!(!r.mesh_dirty());
}

#[test]
fn window_mesh_sees_a_placed_block() {
    let mut w = World::new();
    w.set([100, 100, 100, 100], Block::create(BlockName::Stone));
    let mut r = LoadedRegion::new();
    let _ = r.move_to([12, 12, 12, 12]);
    assert!(r.mesh_dirty());
    let quads = r.redo_mesh(&w);
    assert_eq!(quads.len(), 24);
    assert!(!r.mesh_dirty());
}

#[test]
fn opacity_change_just_outside_the_window_marks_mesh_stale() {
    // the mesher samples one voxel below the window's first block
    let mut w = World::new();
    let mut r = LoadedRegion::new();
    let _ = r.move_to([12, 12, 12, 12]);
    let before = r.redo_mesh(&w);
    assert!(before.is_empty());
    assert!(!r.mesh_dirty());
    let flipped = w.set([95, 100, 100, 100], Block::create(BlockName::Stone));
    assert!(flipped);
    assert_eq!(r.block_changed([95, 100, 100, 100], flipped), None);
    assert!(r.mesh_dirty());
    let after = r.redo_mesh(&w);
    assert!(!after.is_empty());
    assert!(after.iter().all(|q| q.corner[0] == 96));
}

#[test]
fn material_change_outside_the_window_changes_nothing() {
    let mut r = LoadedRegion::new();
    let _ = r.move_to([0, 0, 0, 0]);
    let _ = r.redo_mesh(&World::new());
    assert_eq!(r.block_changed([-50, 3, 3, 3], false), None);
    assert!(!r.mesh_dirty());
}
