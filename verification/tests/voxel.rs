use game::block::{derive_voxels, voxel_index, Block, Voxel, CHUNK_BLOCK_COUNT, CHUNK_VOXEL_COUNT};
use game::registry::BlockId;
use game::voxel::{solid_voxel_cells, ChunkCoords, VoxelType};
use std::collections::BTreeMap;

#[test]
fn chunk_coords_new() {
    let c = ChunkCoords::new(1, 2, 3);
    assert_eq!((c.x, c.y, c.z), (1, 2, 3));
}

#[test]
fn voxel_type_defaults_to_air() {
    assert_eq!(VoxelType::default(), VoxelType::Air);
}

#[test]
fn solid_cells_are_delinearized_positions() {
    let mut voxels = vec![Voxel::new(BlockId::air()); CHUNK_VOXEL_COUNT];
    voxels[voxel_index(5, 3, 2)] = Voxel::new(BlockId(1));
    voxels[voxel_index(0, 0, 0)] = Voxel::new(BlockId(2));
    voxels[voxel_index(31, 31, 31)] = Voxel::new(BlockId(1));
    let cells = solid_voxel_cells(&voxels);
    assert_eq!(cells, vec![[0, 0, 0], [5, 3, 2], [31, 31, 31]]);
}

#[test]
fn all_air_chunk_has_no_cells() {
    let voxels = vec![Voxel::default(); CHUNK_VOXEL_COUNT];
    assert!(solid_voxel_cells(&voxels).is_empty());
}

#[test]
fn one_solid_block_gives_its_subcube() {
    let mut blocks = vec![Block::new(BlockId::air()); CHUNK_BLOCK_COUNT];
    blocks[7] = Block::new(BlockId(1));
    let voxels = derive_voxels(&blocks, &BTreeMap::new());
    let cells = solid_voxel_cells(&voxels);
    assert_eq!(cells.len(), 4096);
    assert_eq!(cells[0], [16, 16, 16]);
    assert_eq!(cells[4095], [31, 31, 31]);
}
