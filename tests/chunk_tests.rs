use tesseract_world::block::{Block, BlockName};
use tesseract_world::chunk::{chunk_position, generate_block, Chunk, CHUNK_SIZE, CHUNK_VOLUME};

#[test]
fn split_negative_one() {
    let (chunk, local) = chunk_position([-1, 0, 7, 8]);
    assert_eq!(chunk, [-1, 0, 0, 1]);
    assert_eq!(local, [7, 0, 7, 0]);
}

#[test]
fn split_join_round_trip() {
    let samples: [isize; 9] = [-17, -9, -8, -1, 0, 1, 7, 8, 1000];
    for &c in samples.iter() {
        let (chunk, local) = chunk_position([c, -c, c + 3, 2 * c]);
        let p = [c, -c, c + 3, 2 * c];
        for i in 0..4 {
            assert!(0 <= local[i] && local[i] < CHUNK_SIZE as isize);
            assert_eq!(chunk[i] * CHUNK_SIZE as isize + local[i], p[i]);
        }
    }
}

#[test]
fn split_extreme_coordinates() {
    let (chunk, local) = chunk_position([isize::MIN, isize::MAX, -8, -16]);
    assert_eq!(chunk, [isize::MIN / 8, isize::MAX / 8, -1, -2]);
    assert_eq!(local, [0, 7, 0, 0]);
}

#[test]
fn generator_fills_with_air() {
    for p in [[0, 0, 5, -3], [0, 0, 0, 0], [3, 0, 0, 0], [1, 1, 1, 1], [isize::MIN, 7, isize::MAX, -1]] {
        assert_eq!(generate_block(p).name(), BlockName::Air);
    }
}

#[test]
fn new_chunk_follows_generator() {
    for which in [[0, 0, 0, 0], [-1, 2, 0, 0]] {
        let c = Chunk::new(which);
        assert!(c.material_bytes().iter().all(|&b| b == 0));
        assert_eq!(c.get([0, 0, 0, 0]).name(), BlockName::Air);
        assert_eq!(c.get([7, 7, 0, 1]).name(), BlockName::Air);
    }
}

#[test]
fn chunk_bytes_in_storage_order() {
    let mut c = Chunk::new([0, 0, 0, 0]);
    *c.get_mut([1, 0, 0, 0]) = Block::create(BlockName::Stone);
    *c.get_mut([0, 1, 0, 0]) = Block::create(BlockName::Grass);
    *c.get_mut([0, 0, 1, 0]) = Block::create(BlockName::Stone);
    *c.get_mut([0, 0, 0, 1]) = Block::create(BlockName::Grass);
    *c.get_mut([7, 7, 7, 7]) = Block::create(BlockName::Grass);
    let bytes = c.material_bytes();
    assert_eq!(bytes.len(), CHUNK_VOLUME);
    // index = x + 8 * (y + 8 * (z + 8 * w))
    assert_eq!(bytes[0], 0);
    assert_eq!(bytes[1], 1);
    assert_eq!(bytes[8], 2);
    assert_eq!(bytes[64], 1);
    assert_eq!(bytes[512], 2);
    assert_eq!(bytes[4095], 2);
    assert_eq!(bytes.iter().filter(|&&b| b != 0).count(), 5);
}

#[test]
fn chunks_generated_twice_are_identical() {
    for which in [[0, 0, 0, 0], [-1, 0, 3, -2], [5, 5, 0, 0]] {
        let a = Chunk::new(which);
        let b = Chunk::new(which);
        assert_eq!(a.material_bytes(), b.material_bytes());
    }
}

#[test]
fn chunk_slot_replacement() {
    let mut c = Chunk::new([1, 1, 1, 1]);
    assert_eq!(c.get([2, 3, 4, 5]).name(), BlockName::Air);
    *c.get_mut([2, 3, 4, 5]) = Block::create(BlockName::Stone);
    assert_eq!(c.get([2, 3, 4, 5]).name(), BlockName::Stone);
    assert_eq!(c.material_bytes()[2 + 8 * (3 + 8 * (4 + 8 * 5))], 1);
    assert_eq!(c.get([2, 3, 4, 6]).name(), BlockName::Air);
}

#[test]
fn chunk_passes_its_bytes() {
    let c = Chunk::new([0, 0, 0, 0]);
    let mut seen: Vec<u8> = Vec::new();
    c.pass_as_slice(|s| seen.extend_from_slice(s));
    assert_eq!(seen, c.material_bytes());
}
