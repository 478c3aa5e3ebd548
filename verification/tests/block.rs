use game::block::{
    derive_voxels, voxel_index, Block, BlockIndex, ChiselData, Chunk, Voxel,
    CHUNK_BLOCK_COUNT, CHUNK_VOXEL_COUNT,
};
use game::registry::BlockId;
use std::collections::BTreeMap;

#[test]
fn uniform_stone_block_fills_its_subcube() {
    let blocks = vec![Block::new(BlockId(1)); CHUNK_BLOCK_COUNT];
    let voxels = derive_voxels(&blocks, &BTreeMap::new());
    assert!(voxels.iter().all(|v| v.block == BlockId(1)));
}

#[test]
fn all_air_blocks_derive_to_all_air() {
    let blocks = vec![Block::new(BlockId::air()); CHUNK_BLOCK_COUNT];
    let voxels = derive_voxels(&blocks, &BTreeMap::new());
    assert!(voxels.iter().all(|v| v.block == BlockId::air()));
}

#[test]
fn chiseled_block_uses_sparse_occupancy() {
    // One Stone block at index 0; chisel only voxel (0,0,0) solid.
    let mut blocks = vec![Block::new(BlockId::air()); CHUNK_BLOCK_COUNT];
    blocks[0] = Block::new(BlockId(1));
    let mut c = ChiselData::new(vec![BlockId(1)]);
    c.set(0, 0, 0, true, 0);
    let mut chisel = BTreeMap::new();
    chisel.insert(BlockIndex(0).0, c);

    let voxels = derive_voxels(&blocks, &chisel);
    assert_eq!(voxels[voxel_index(0, 0, 0)].block, BlockId(1));
    assert_eq!(
        voxels[voxel_index(1, 0, 0)].block,
        BlockId::air(),
        "rest of the chiseled block is empty"
    );
}

#[test]
fn derive_is_deterministic() {
    let mut blocks = vec![Block::new(BlockId::air()); CHUNK_BLOCK_COUNT];
    blocks[3] = Block::new(BlockId(1));
    let a = derive_voxels(&blocks, &BTreeMap::new());
    let b = derive_voxels(&blocks, &BTreeMap::new());
    assert_eq!(a, b);
}

#[test]
fn block_index_roundtrips() {
    for i in 0..CHUNK_BLOCK_COUNT as u8 {
        let (x, y, z) = BlockIndex(i).xyz();
        assert_eq!(BlockIndex::from_xyz(x, y, z), BlockIndex(i));
    }
}

#[test]
fn voxel_index_is_x_fastest() {
    assert_eq!(voxel_index(0, 0, 0), 0);
    assert_eq!(voxel_index(1, 0, 0), 1);
    assert_eq!(voxel_index(0, 1, 0), 32);
    assert_eq!(voxel_index(0, 0, 1), 1024);
    assert_eq!(voxel_index(31, 31, 31), CHUNK_VOXEL_COUNT - 1);
    assert_eq!(voxel_index(5, 3, 2), 5 + 96 + 2048);
}

#[test]
fn block_index_coordinates() {
    assert_eq!(BlockIndex::from_xyz(1, 0, 0), BlockIndex(1));
    assert_eq!(BlockIndex::from_xyz(0, 1, 0), BlockIndex(2));
    assert_eq!(BlockIndex::from_xyz(0, 0, 1), BlockIndex(4));
    assert_eq!(BlockIndex(7).xyz(), (1, 1, 1));
    assert_eq!(BlockIndex(6).xyz(), (0, 1, 1));
}

#[test]
fn block_new_zeroes_state_and_default_is_air() {
    let b = Block::new(BlockId(3));
    assert_eq!(b.id, BlockId(3));
    assert_eq!(b.data, [0, 0, 0]);
    assert_eq!(Block::default(), Block::new(BlockId::air()));
    assert!(Voxel::default().is_empty());
    assert!(!Voxel::new(BlockId(2)).is_empty());
}

#[test]
fn chisel_palette_and_occupancy() {
    let mut c = ChiselData::new(vec![BlockId(1), BlockId(2)]);
    assert!(!c.is_solid(3, 4, 5));
    // The palette entry is reported whether or not the voxel is solid.
    assert_eq!(c.material_at(3, 4, 5), BlockId(1));
    c.set(3, 4, 5, true, 1);
    assert!(c.is_solid(3, 4, 5));
    assert_eq!(c.material_at(3, 4, 5), BlockId(2));
    assert!(!c.is_solid(4, 4, 5));
    c.set(3, 4, 5, false, 7);
    assert!(!c.is_solid(3, 4, 5));
    // A palette index past the palette reads as air.
    assert_eq!(c.material_at(3, 4, 5), BlockId::air());
}

#[test]
fn chiseled_block_takes_its_palette_material_in_place() {
    // Block 1 (x = 1) holds a chisel with two materials.
    let mut blocks = vec![Block::new(BlockId::air()); CHUNK_BLOCK_COUNT];
    blocks[1] = Block::new(BlockId(1));
    let mut c = ChiselData::new(vec![BlockId(1), BlockId(4)]);
    c.set(2, 0, 0, true, 1);
    c.set(15, 15, 15, true, 0);
    let mut chisel = BTreeMap::new();
    chisel.insert(1u8, c);
    let voxels = derive_voxels(&blocks, &chisel);
    assert_eq!(voxels[voxel_index(16 + 2, 0, 0)].block, BlockId(4));
    assert_eq!(voxels[voxel_index(31, 15, 15)].block, BlockId(1));
    assert_eq!(voxels[voxel_index(16, 0, 0)].block, BlockId::air());
    assert_eq!(voxels.iter().filter(|v| !v.is_empty()).count(), 2);
}

#[test]
fn flat_floor_is_stone_below_depth_and_air_above() {
    let stone = BlockId(2);
    let chunk = Chunk::flat_floor(8, stone);
    let voxels = derive_voxels(&chunk.blocks, &chunk.chisel);
    assert_eq!(voxels.len(), CHUNK_VOXEL_COUNT);
    for z in 0..32 {
        for y in 0..32 {
            for x in 0..32 {
                let expect = if y < 8 { stone } else { BlockId::air() };
                assert_eq!(voxels[voxel_index(x, y, z)].block, expect);
            }
        }
    }
}

#[test]
fn flat_floor_at_block_boundary_needs_no_chisel() {
    let chunk = Chunk::flat_floor(16, BlockId(2));
    assert!(chunk.chisel.is_empty());
    let voxels = derive_voxels(&chunk.blocks, &chunk.chisel);
    assert_eq!(voxels[voxel_index(0, 15, 0)].block, BlockId(2));
    assert_eq!(voxels[voxel_index(0, 16, 0)].block, BlockId::air());
}

#[test]
fn default_chunk_is_all_air() {
    let chunk = Chunk::default();
    assert_eq!(chunk.blocks.len(), CHUNK_BLOCK_COUNT);
    assert!(chunk.blocks.iter().all(|b| b.id == BlockId::air()));
    assert!(chunk.chisel.is_empty());
}

#[test]
fn cloned_chisel_detail_keeps_its_voxels() {
    let mut c = ChiselData::new(vec![BlockId(1), BlockId(4)]);
    c.set(0, 0, 0, true, 1);
    c.set(15, 15, 15, true, 0);
    c.set(3, 7, 9, false, 1);
    let d = c.clone();
    for vz in 0..16 {
        for vy in 0..16 {
            for vx in 0..16 {
                assert_eq!(d.is_solid(vx, vy, vz), c.is_solid(vx, vy, vz));
                assert_eq!(d.material_at(vx, vy, vz), c.material_at(vx, vy, vz));
            }
        }
    }
    assert!(d.is_solid(0, 0, 0));
    assert_eq!(d.material_at(0, 0, 0), BlockId(4));
    assert_eq!(d.material_at(15, 15, 15), BlockId(1));
    // A cloned chunk derives the same voxels.
    let chunk = Chunk::flat_floor(9, BlockId(2));
    let copy = chunk.clone();
    assert_eq!(
        derive_voxels(&copy.blocks, &copy.chisel),
        derive_voxels(&chunk.blocks, &chunk.chisel)
    );
}
