use tesseract_world::block::{Block, BlockName};

#[test]
fn block_keeps_its_material() {
    let b = Block::create(BlockName::Grass);
    assert_eq!(b.name(), BlockName::Grass);
    assert!(b == BlockName::Grass);
    assert!(!(b == BlockName::Stone));
}

#[test]
fn only_air_is_transparent() {
    assert!(Block::create(BlockName::Air).is_transparent());
    assert!(!Block::create(BlockName::Stone).is_transparent());
    assert!(!Block::create(BlockName::Grass).is_transparent());
    assert!(BlockName::Air.is_transparent());
    assert!(!BlockName::Stone.is_transparent());
}

#[test]
fn material_ids() {
    assert_eq!(BlockName::Air.id(), 0);
    assert_eq!(BlockName::Stone.id(), 1);
    assert_eq!(BlockName::Grass.id(), 2);
}
