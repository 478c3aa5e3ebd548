//! Chunk placement and the voxel-level view a chunk's collider is built
//! from.

use vstd::prelude::*;
use block_mesh::ndshape::ConstShape;

use crate::block::{Voxel, CHUNK_VOXEL_COUNT};
use crate::registry::BlockId;

verus! {

/// Position of a chunk in the chunk grid of a region.
#[derive(Debug, Clone, Copy, PartialEq, Eq, Structural, PartialOrd, Ord, Hash)]
pub struct ChunkCoords {
    pub x: usize,
    pub y: usize,
    pub z: usize,
}

impl ChunkCoords {
    pub fn new(x: usize, y: usize, z: usize) -> (r: ChunkCoords)
        ensures
            r.x == x,
            r.y == y,
            r.z == z,
    {
        ChunkCoords { x, y, z }
    }
}

/// The mesher's two-way classification of a voxel.
#[derive(Debug, Clone, Copy, PartialEq, Eq, Structural, PartialOrd, Ord, Hash)]
pub enum VoxelType {
    Black,
    Air,
}

impl Default for VoxelType {
    fn default() -> (r: VoxelType)
        ensures
            r == VoxelType::Air,
    {
        VoxelType::Air
    }
}

/// The grid cell `(x, y, z)` of linear chunk position `i`, x fastest.
pub open spec fn cell_of(i: int) -> [i32; 3] {
    [(i % 32) as i32, ((i % 1024) / 32) as i32, (i / 1024) as i32]
}

/// `ConstShape3u32::<32, 32, 32>::delinearize`: `z = i / 1024`, then
/// `y = (i - 1024 z) / 32` and `x = (i - 1024 z) % 32`, the inverse of
/// `linearize` on the chunk.
#[verifier::external_body]
fn chunk_shape_delinearize(i: u32) -> (r: [u32; 3])
    ensures
        r[0] == i % 32,
        r[1] == (i % 1024) / 32,
        r[2] == i / 1024,
{
    block_mesh::ndshape::ConstShape3u32::<32, 32, 32>::delinearize(i)
}

/// The linear positions below `n` whose voxel is solid, ascending.
pub open spec fn solid_positions(voxels: Seq<Voxel>, n: int) -> Seq<int> {
    Seq::new(n as nat, |i: int| i).filter(|i: int| voxels[i].block != BlockId::spec_air())
}

/// The cells of every solid (non-air) voxel of a derived chunk, in linear
/// order: one collider cell per solid voxel, spanning `[g, g + 1)` in the
/// chunk body's local space.
pub fn solid_voxel_cells(voxels: &Vec<Voxel>) -> (r: Vec<[i32; 3]>)
    requires
        voxels@.len() == CHUNK_VOXEL_COUNT,
    ensures
        r@ == solid_positions(voxels@, CHUNK_VOXEL_COUNT as int).map_values(|i: int| cell_of(i)),
{
    let ghost pred = |i: int| voxels@[i].block != BlockId::spec_air();
    let mut out: Vec<[i32; 3]> = Vec::new();
    let mut i: usize = 0;
    proof {
        assert(Seq::new(0nat, |j: int| j) =~= Seq::<int>::empty());
        assert(Seq::<int>::empty().filter(pred) =~= Seq::<int>::empty());
    }
    while i < CHUNK_VOXEL_COUNT
        invariant
            i <= CHUNK_VOXEL_COUNT,
            voxels@.len() == CHUNK_VOXEL_COUNT,
            pred == (|i: int| voxels@[i].block != BlockId::spec_air()),
            out@ == solid_positions(voxels@, i as int).map_values(|j: int| cell_of(j)),
        decreases CHUNK_VOXEL_COUNT - i,
    {
        let ghost prev = Seq::new(i as nat, |j: int| j);
        proof {
            assert(Seq::new((i + 1) as nat, |j: int| j) =~= prev.push(i as int));
            prev.lemma_filter_push(i as int, pred);
        }
        if !voxels[i].is_empty() {
            let c = chunk_shape_delinearize(i as u32);
            let cell: [i32; 3] = [c[0] as i32, c[1] as i32, c[2] as i32];
            proof {
                assert(cell@ =~= cell_of(i as int)@);
            }
            out.push(cell);
            proof {
                assert(out@ =~= solid_positions(voxels@, i + 1).map_values(|j: int| cell_of(j)));
            }
        } else {
            proof {
                assert(out@ =~= solid_positions(voxels@, i + 1).map_values(|j: int| cell_of(j)));
            }
        }
        i = i + 1;
    }
    out
}

} // verus!
