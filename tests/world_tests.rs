use tesseract_world::block::{Block, BlockName};
use tesseract_world::chunk::{generate_block, Chunk};
use tesseract_world::world::World;

#[test]
fn fresh_world_reads_air_everywhere() {
    let w = World::new();
    for p in [
        [0, 0, 0, 0],
        [0, 0, -4, 9],
        [3, -2, 0, 0],
        [1, 1, 1, 1],
        [-5, 3, 2, -7],
        [isize::MIN, isize::MAX, 0, -1],
    ] {
        assert_eq!(w.get(p), BlockName::Air);
    }
}

#[test]
fn read_after_write() {
    let mut w = World::new();
    let cases: [([isize; 4], BlockName); 5] = [
        ([1, 2, 3, 4], BlockName::Stone),
        ([-1, -1, -1, -1], BlockName::Grass),
        ([0, 0, 0, 0], BlockName::Air),
        ([-9, 17, -33, 8], BlockName::Stone),
        ([1, 2, 3, 4], BlockName::Grass),
    ];
    for (p, b) in cases {
        w.set(p, Block::create(b));
        assert_eq!(w.get(p), b);
    }
    assert_eq!(w.get([1, 2, 3, 5]), BlockName::Air);
    assert_eq!(w.get([-1, -1, -1, -2]), BlockName::Air);
}

#[test]
fn set_reports_transparency_change() {
    let mut w = World::new();
    assert!(w.set([2, 2, 2, 2], Block::create(BlockName::Stone)));
    assert!(!w.set([2, 2, 2, 2], Block::create(BlockName::Grass)));
    assert!(w.set([2, 2, 2, 2], Block::create(BlockName::Air)));
    assert!(!w.set([3, 3, 3, 3], Block::create(BlockName::Air)));
}

#[test]
fn get_mut_replaces_in_place() {
    let mut w = World::new();
    {
        let slot = w.get_mut([-3, 4, -5, 6]);
        assert_eq!(slot.name(), BlockName::Air);
        *slot = Block::create(BlockName::Stone);
    }
    assert_eq!(w.get([-3, 4, -5, 6]), BlockName::Stone);
    assert_eq!(w.get([-3, 4, -5, 7]), BlockName::Air);
}

#[test]
fn neighbouring_chunks_stay_apart() {
    let mut w = World::new();
    w.set([-1, 5, 5, 5], Block::create(BlockName::Stone));
    assert_eq!(w.get([7, 5, 5, 5]), BlockName::Air);
    assert_eq!(w.get([-1, 5, 5, 5]), BlockName::Stone);
    assert_eq!(w.get([-9, 5, 5, 5]), BlockName::Air);
}

#[test]
fn chunk_bytes_of_untouched_chunk_match_generator() {
    let w = World::new();
    assert_eq!(w.chunk_bytes([0, 0, 0, 0]), Chunk::new([0, 0, 0, 0]).material_bytes());
    assert_eq!(w.chunk_bytes([-2, 1, 0, 0]), Chunk::new([-2, 1, 0, 0]).material_bytes());
}

#[test]
fn chunk_bytes_show_writes() {
    let mut w = World::new();
    w.set([9, 10, 11, 12], Block::create(BlockName::Grass));
    let bytes = w.chunk_bytes([1, 1, 1, 1]);
    assert_eq!(bytes[1 + 8 * (2 + 8 * (3 + 8 * 4))], 2);
    assert_eq!(bytes[0], generate_block([8, 8, 8, 8]).name().id());
    let mut seen: Vec<u8> = Vec::new();
    w.pass_chunk_as_slice([1, 1, 1, 1], |s| seen.extend_from_slice(s));
    assert_eq!(seen, bytes);
}

#[test]
fn many_chunks_written_in_any_order() {
    let mut w = World::new();
    let mut written: Vec<[isize; 4]> = Vec::new();
    let mut seed: i64 = 12345;
    for n in 0..200 {
        seed = (seed * 1103515245 + 12345) % 2147483648;
        let p = [
            (seed % 97) as isize - 48,
            ((seed / 97) % 89) as isize - 44,
            ((seed / 8633) % 83) as isize - 41,
            n as isize - 100,
        ];
        let b = if n % 2 == 0 { BlockName::Stone } else { BlockName::Grass };
        w.set(p, Block::create(b));
        written.push(p);
    }
    for (n, p) in written.iter().enumerate() {
        let later = written[n + 1..].iter().any(|q| q == p);
        if !later {
            let expect = if n % 2 == 0 { BlockName::Stone } else { BlockName::Grass };
            assert_eq!(w.get(*p), expect);
        }
    }
    assert_eq!(w.get([1000, 1000, 1000, 1000]), BlockName::Air);
}
