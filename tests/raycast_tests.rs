use tesseract_world::block::{Block, BlockName};
use tesseract_world::raycast::{raycast, FIXED_ONE};
use tesseract_world::world::World;

const HALF: i64 = FIXED_ONE / 2;

#[test]
fn straight_hit() {
    let mut w = World::new();
    w.set([0, 0, 2, 0], Block::create(BlockName::Stone));
    let r = raycast(&w, [HALF; 4], [0, 0, 1, 0], 5 * FIXED_ONE);
    assert_eq!(r, (Some([0, 0, 1, 0]), Some([0, 0, 2, 0])));
}

#[test]
fn straight_miss() {
    let w = World::new();
    let r = raycast(&w, [HALF; 4], [0, 0, 1, 0], 5 * FIXED_ONE);
    assert_eq!(r, (None, None));
}

#[test]
fn hit_just_inside_the_bound() {
    let mut w = World::new();
    w.set([0, 0, 5, 0], Block::create(BlockName::Stone));
    // the boundary into z = 5 lies 4.5 blocks away
    let r = raycast(&w, [HALF; 4], [0, 0, 1, 0], 5 * FIXED_ONE);
    assert_eq!(r, (Some([0, 0, 4, 0]), Some([0, 0, 5, 0])));
    let short = raycast(&w, [HALF; 4], [0, 0, 1, 0], 4 * FIXED_ONE + HALF);
    assert_eq!(short, (None, None));
}

#[test]
fn zero_axes_are_never_stepped() {
    let w = World::new();
    // z only, a long way through air
    let origin = [3 * FIXED_ONE + HALF, 5 * FIXED_ONE + 7, HALF, -2 * FIXED_ONE + 9];
    let r = raycast(&w, origin, [0, 0, 3, 0], 1000 * FIXED_ONE);
    assert_eq!(r, (None, None));
    let mut w2 = World::new();
    w2.set([3, 5, 700, -2], Block::create(BlockName::Stone));
    let r2 = raycast(&w2, origin, [0, 0, 3, 0], 1000 * FIXED_ONE);
    assert_eq!(r2, (Some([3, 5, 699, -2]), Some([3, 5, 700, -2])));
}

#[test]
fn negative_direction() {
    let mut w = World::new();
    w.set([5, 5, 5, 1], Block::create(BlockName::Stone));
    let origin = [5 * FIXED_ONE + HALF, 5 * FIXED_ONE + HALF, 5 * FIXED_ONE + HALF, 4 * FIXED_ONE + HALF];
    let r = raycast(&w, origin, [0, 0, 0, -1], 10 * FIXED_ONE);
    assert_eq!(r, (Some([5, 5, 5, 2]), Some([5, 5, 5, 1])));
}

#[test]
fn opaque_start_voxel() {
    let mut w = World::new();
    w.set([0, 0, 0, 0], Block::create(BlockName::Grass));
    let r = raycast(&w, [HALF; 4], [1, 0, 0, 0], 5 * FIXED_ONE);
    assert_eq!(r, (None, Some([0, 0, 0, 0])));
}

#[test]
fn zero_distance_finds_nothing() {
    let w = World::new();
    assert_eq!(raycast(&w, [HALF; 4], [1, 0, 0, 0], 0), (None, None));
}

#[test]
fn zero_direction_finds_only_the_start() {
    let w = World::new();
    let origin = [3 * FIXED_ONE, 3 * FIXED_ONE, 3 * FIXED_ONE, 3 * FIXED_ONE];
    assert_eq!(raycast(&w, origin, [0, 0, 0, 0], 5 * FIXED_ONE), (None, None));
}

#[test]
fn diagonal_tie_steps_lower_axis_first() {
    let mut w = World::new();
    w.set([6, 5, 5, 5], Block::create(BlockName::Stone));
    w.set([5, 6, 5, 5], Block::create(BlockName::Stone));
    let origin = [5 * FIXED_ONE + HALF, 5 * FIXED_ONE + HALF, 5 * FIXED_ONE + HALF, 5 * FIXED_ONE + HALF];
    let r = raycast(&w, origin, [1, 1, 0, 0], 5 * FIXED_ONE);
    assert_eq!(r, (Some([5, 5, 5, 5]), Some([6, 5, 5, 5])));
}

#[test]
fn slanted_ray_walks_through_voxels() {
    let mut w = World::new();
    w.set([7, 5, 3, 3], Block::create(BlockName::Stone));
    w.set([7, 4, 3, 3], Block::create(BlockName::Stone));
    // from (3.5, 3.5, 3.5, 3.5) along (2, 1, 0, 0): x crosses at 0.25, 0.75,
    // 1.25, 1.75; y crosses at 0.5, 1.5, so (7, 4) is passed by
    let origin = [3 * FIXED_ONE + HALF, 3 * FIXED_ONE + HALF, 3 * FIXED_ONE + HALF, 3 * FIXED_ONE + HALF];
    let r = raycast(&w, origin, [2, 1, 0, 0], 10 * FIXED_ONE);
    assert_eq!(r, (Some([6, 5, 3, 3]), Some([7, 5, 3, 3])));
}
