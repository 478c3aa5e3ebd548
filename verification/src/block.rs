//! The block layer: a `Block` (16³ voxels) is the authoritative gameplay
//! unit; voxels are a subdivision derived on demand via [`derive_voxels`].
//! Sub-block detail ("chiseling") is sparse: only chiseled blocks carry a
//! dense 16³ [`ChiselData`].

use vstd::prelude::*;
use block_mesh::ndshape::ConstShape;

use std::collections::BTreeMap;

use crate::registry::BlockId;

verus! {

/// Voxels per block edge.
pub const BLOCK_VOXELS: usize = 16;
/// Voxels per chunk edge.
pub const CHUNK_VOXELS: usize = 32;
/// Blocks per chunk edge.
pub const CHUNK_BLOCKS: usize = 2;
/// Blocks per chunk.
pub const CHUNK_BLOCK_COUNT: usize = 8;
/// Voxels per block.
pub const BLOCK_VOXEL_COUNT: usize = 4096;
/// Voxels per chunk.
pub const CHUNK_VOXEL_COUNT: usize = 32768;

/// Linear position of voxel `(x, y, z)` in a 32³ chunk, x fastest.
pub open spec fn voxel_index_spec(x: int, y: int, z: int) -> int {
    x + 32 * y + 1024 * z
}

/// `ConstShape3u32::<32, 32, 32>::linearize`: `x + 32 * y + 1024 * z`
/// (the strides `[1, 32, 1024]`; the two products are wrapping, the sum is
/// not). The contract states that value on inputs where nothing wraps.
#[verifier::external_body]
fn chunk_shape_linearize(p: [u32; 3]) -> (r: u32)
    requires
        p[0] + 32 * p[1] + 1024 * p[2] <= u32::MAX,
    ensures
        r == p[0] + 32 * p[1] + 1024 * p[2],
{
    block_mesh::ndshape::ConstShape3u32::<32, 32, 32>::linearize(p)
}

/// Linear voxel index within a chunk, matching the 32³ chunk shape.
pub fn voxel_index(x: usize, y: usize, z: usize) -> (r: usize)
    requires
        x + 32 * y + 1024 * z <= u32::MAX,
    ensures
        r == voxel_index_spec(x as int, y as int, z as int),
{
    let p: [u32; 3] = [x as u32, y as u32, z as u32];
    chunk_shape_linearize(p) as usize
}


/// Index of a block within a chunk, linear over `CHUNK_BLOCKS³` (0..8),
/// x fastest.
#[derive(Copy, Clone, PartialEq, Eq, Structural, PartialOrd, Ord, Hash, Debug)]
pub struct BlockIndex(pub u8);

/// Linear block position of block coordinates `(bx, by, bz)`.
pub open spec fn block_index_spec(bx: int, by: int, bz: int) -> int {
    bx + 2 * by + 4 * bz
}

impl BlockIndex {
    /// Block index of block coordinates; the linear position is truncated
    /// to a byte, so coordinates of a 2×2×2 chunk map into `0..8`.
    pub fn from_xyz(bx: usize, by: usize, bz: usize) -> (r: BlockIndex)
        requires
            bx + 2 * by + 4 * bz <= usize::MAX,
        ensures
            r.0 == (block_index_spec(bx as int, by as int, bz as int) as u8),
    {
        BlockIndex((bx + by * CHUNK_BLOCKS + bz * CHUNK_BLOCKS * CHUNK_BLOCKS) as u8)
    }

    /// Block coordinates `(i % 2, (i / 2) % 2, i / 4)` of this index.
    pub fn xyz(self) -> (r: (usize, usize, usize))
        ensures
            r.0 == self.0 % 2,
            r.1 == (self.0 / 2) % 2,
            r.2 == self.0 / 4,
    {
        let i = self.0 as usize;
        (i % CHUNK_BLOCKS, (i / CHUNK_BLOCKS) % CHUNK_BLOCKS, i / (CHUNK_BLOCKS * CHUNK_BLOCKS))
    }
}

/// Every block index of a chunk survives `xyz` then `from_xyz` unchanged.
pub proof fn lemma_block_index_roundtrip(i: u8)
    requires
        i < 8,
    ensures
        block_index_spec((i % 2) as int, ((i / 2) % 2) as int, (i / 4) as int) == i,
{
}

/// Block coordinates inside the chunk survive `from_xyz` then `xyz`
/// unchanged.
pub proof fn lemma_block_coords_roundtrip(bx: int, by: int, bz: int)
    requires
        0 <= bx < 2,
        0 <= by < 2,
        0 <= bz < 2,
    ensures
        ({
            let i = block_index_spec(bx, by, bz);
            &&& 0 <= i < 8
            &&& i % 2 == bx
            &&& (i / 2) % 2 == by
            &&& i / 4 == bz
        }),
{
}

/// The authoritative per-cell gameplay value. `data` is reserved for future
/// block state (zeroed for now).
#[derive(Copy, Clone, PartialEq, Eq, Hash, Debug)]
pub struct Block {
    pub id: BlockId,
    pub data: [u8; 3],
}

impl Block {
    /// A block of material `id` with zeroed state.
    pub fn new(id: BlockId) -> (r: Block)
        ensures
            r.id == id,
            r.data@ == seq![0u8, 0u8, 0u8],
    {
        let r = Block { id, data: [0u8; 3] };
        assert(r.data@ =~= seq![0u8, 0u8, 0u8]);
        r
    }
}

impl Default for Block {
    /// An air block with zeroed state.
    fn default() -> (r: Block)
        ensures
            r.id == BlockId::air(),
            r.data@ == seq![0u8, 0u8, 0u8],
    {
        Block::new(BlockId::air())
    }
}

/// One voxel of the derived 32³ chunk array: the material it shows.
#[derive(Copy, Clone, PartialEq, Eq, Structural, Hash, Debug)]
pub struct Voxel {
    pub block: BlockId,
}

impl Voxel {
    pub fn new(block: BlockId) -> (r: Voxel)
        ensures
            r.block == block,
    {
        Voxel { block }
    }

    /// Whether the voxel is empty space (air) to the mesher, as opposed to
    /// an opaque solid.
    pub fn is_empty(&self) -> (r: bool)
        ensures
            r == (self.block == BlockId::air()),
    {
        self.block.0 == crate::registry::AIR_ID
    }
}

impl Default for Voxel {
    fn default() -> (r: Voxel)
        ensures
            r.block == BlockId::air(),
    {
        Voxel::new(BlockId::air())
    }
}


/// Linear position of voxel `(vx, vy, vz)` inside one block, x fastest.
pub open spec fn local_index_spec(vx: int, vy: int, vz: int) -> int {
    vx + 16 * vy + 256 * vz
}

/// Whether bit `b` of `w` is set.
pub open spec fn bit_set(w: u64, b: int) -> bool {
    (w >> (b as u64)) & 1u64 == 1u64
}

proof fn lemma_bit_after_or(w: u64, b: u64, c: u64)
    requires
        b < 64,
        c < 64,
    ensures
        ((w | (1u64 << b)) >> c) & 1u64 == (if c == b { 1u64 } else { (w >> c) & 1u64 }),
{
    assert(((w | (1u64 << b)) >> c) & 1u64 == (if c == b { 1u64 } else { (w >> c) & 1u64 }))
        by (bit_vector)
        requires
            b < 64,
            c < 64,
    ;
}

proof fn lemma_bit_after_clear(w: u64, b: u64, c: u64)
    requires
        b < 64,
        c < 64,
    ensures
        ((w & !(1u64 << b)) >> c) & 1u64 == (if c == b { 0u64 } else { (w >> c) & 1u64 }),
{
    assert(((w & !(1u64 << b)) >> c) & 1u64 == (if c == b { 0u64 } else { (w >> c) & 1u64 }))
        by (bit_vector)
        requires
            b < 64,
            c < 64,
    ;
}

proof fn lemma_zero_word_bits(c: u64)
    requires
        c < 64,
    ensures
        (0u64 >> c) & 1u64 == 0u64,
{
    assert((0u64 >> c) & 1u64 == 0u64) by (bit_vector);
}

/// Dense 16³ sub-block detail for a chiseled block: a 4096-bit occupancy
/// bitset (1 = solid), a per-voxel palette index, and a small palette.
#[derive(PartialEq, Eq, Hash, Debug)]
pub struct ChiselData {
    occupancy: Vec<u64>,
    material: Vec<u8>,
    palette: Vec<BlockId>,
}

impl ChiselData {
    /// The bitset holds 64 words and the palette-index array 4096 entries.
    #[verifier::type_invariant]
    spec fn sized(self) -> bool {
        &&& self.occupancy@.len() == 64
        &&& self.material@.len() == 4096
    }

    /// Whether voxel `i` (a local index in `0..4096`) is solid.
    pub closed spec fn solid(self, i: int) -> bool {
        bit_set(self.occupancy@[i / 64], i % 64)
    }

    /// The palette index stored for voxel `i`.
    pub closed spec fn material_index(self, i: int) -> u8 {
        self.material@[i]
    }

    /// The block's material palette.
    pub closed spec fn palette(self) -> Seq<BlockId> {
        self.palette@
    }

    /// The material voxel `i` shows when solid: its palette entry, or air
    /// when the index is past the palette.
    pub open spec fn block_at(self, i: int) -> BlockId {
        let m = self.material_index(i) as int;
        if m < self.palette().len() {
            self.palette()[m]
        } else {
            BlockId::air()
        }
    }

    /// All-empty detail over the given palette, every palette index 0.
    pub fn new(palette: Vec<BlockId>) -> (r: ChiselData)
        ensures
            forall|i: int| 0 <= i < 4096 ==> !(#[trigger] r.solid(i)),
            forall|i: int| 0 <= i < 4096 ==> #[trigger] r.material_index(i) == 0,
            r.palette() == palette@,
    {
        let r = ChiselData {
            occupancy: vec![0u64; 64],
            material: vec![0u8; 4096],
            palette,
        };
        assert forall|i: int| 0 <= i < 4096 implies !(#[trigger] r.solid(i)) by {
            lemma_zero_word_bits((i % 64) as u64);
        }
        r
    }

    fn local_index(vx: usize, vy: usize, vz: usize) -> (r: usize)
        requires
            local_index_spec(vx as int, vy as int, vz as int) <= usize::MAX,
        ensures
            r == local_index_spec(vx as int, vy as int, vz as int),
    {
        vx + vy * BLOCK_VOXELS + vz * BLOCK_VOXELS * BLOCK_VOXELS
    }

    /// Sets voxel `(vx, vy, vz)` solid or empty and records its palette
    /// index; every other voxel is unchanged.
    pub fn set(&mut self, vx: usize, vy: usize, vz: usize, solid: bool, material_idx: u8)
        requires
            local_index_spec(vx as int, vy as int, vz as int) < 4096,
        ensures
            forall|i: int|
                0 <= i < 4096 ==> #[trigger] final(self).solid(i) == (if i == local_index_spec(
                    vx as int,
                    vy as int,
                    vz as int,
                ) {
                    solid
                } else {
                    old(self).solid(i)
                }),
            forall|i: int|
                0 <= i < 4096 ==> #[trigger] final(self).material_index(i) == (if i
                    == local_index_spec(vx as int, vy as int, vz as int) {
                    material_idx
                } else {
                    old(self).material_index(i)
                }),
            final(self).palette() == old(self).palette(),
    {
        proof {
            use_type_invariant(&*self);
        }
        let i = Self::local_index(vx, vy, vz);
        let w = i / 64;
        let b = i % 64;
        let old_word = self.occupancy[w];
        let bit: u64 = 1u64 << (b as u64);
        let new_word = if solid {
            old_word | bit
        } else {
            old_word & !bit
        };
        let ghost pre = *self;
        self.occupancy[w] = new_word;
        self.material[i] = material_idx;
        proof {
            assert forall|j: int| 0 <= j < 4096 implies #[trigger] self.solid(j) == (if j == i {
                solid
            } else {
                pre.solid(j)
            }) by {
                let c = (j % 64) as u64;
                if j / 64 == w as int {
                    if solid {
                        lemma_bit_after_or(old_word, b as u64, c);
                    } else {
                        lemma_bit_after_clear(old_word, b as u64, c);
                    }
                }
            }
        }
    }

    /// Whether voxel `(vx, vy, vz)` is solid.
    pub fn is_solid(&self, vx: usize, vy: usize, vz: usize) -> (r: bool)
        requires
            local_index_spec(vx as int, vy as int, vz as int) < 4096,
        ensures
            r == self.solid(local_index_spec(vx as int, vy as int, vz as int)),
    {
        proof {
            use_type_invariant(self);
        }
        let i = Self::local_index(vx, vy, vz);
        (self.occupancy[i / 64] >> ((i % 64) as u64)) & 1u64 == 1u64
    }

    /// The material of voxel `(vx, vy, vz)`: its palette entry, or air when
    /// its palette index is past the palette.
    pub fn material_at(&self, vx: usize, vy: usize, vz: usize) -> (r: BlockId)
        requires
            local_index_spec(vx as int, vy as int, vz as int) < 4096,
        ensures
            r == self.block_at(local_index_spec(vx as int, vy as int, vz as int)),
    {
        proof {
            use_type_invariant(self);
        }
        let i = Self::local_index(vx, vy, vz);
        let m = self.material[i] as usize;
        if m < self.palette.len() {
            self.palette[m]
        } else {
            BlockId::air()
        }
    }
}

impl Clone for ChiselData {
    /// A copy with the same voxels, palette indices and palette.
    fn clone(&self) -> (r: Self)
        ensures
            r.palette() == self.palette(),
            forall|i: int| 0 <= i < 4096 ==> #[trigger] r.solid(i) == self.solid(i),
            forall|i: int| 0 <= i < 4096 ==> #[trigger] r.material_index(i) == self.material_index(i),
    {
        proof {
            use_type_invariant(self);
        }
        let r = ChiselData {
            occupancy: self.occupancy.clone(),
            material: self.material.clone(),
            palette: self.palette.clone(),
        };
        proof {
            assert(r.occupancy@ =~= self.occupancy@);
            assert(r.material@ =~= self.material@);
            assert(r.palette@ =~= self.palette@);
        }
        r
    }
}


/// The material of chunk voxel `(x, y, z)` derived from the block layer: a
/// chiseled block shows its solid voxels' materials and air elsewhere; any
/// other block shows its own material throughout.
pub open spec fn derived_block(
    blocks: Seq<Block>,
    chisel: Map<u8, ChiselData>,
    x: int,
    y: int,
    z: int,
) -> BlockId {
    let bi = block_index_spec(x / 16, y / 16, z / 16);
    let li = local_index_spec(x % 16, y % 16, z % 16);
    if chisel.contains_key(bi as u8) {
        let c = chisel[bi as u8];
        if c.solid(li) {
            c.block_at(li)
        } else {
            BlockId::air()
        }
    } else {
        blocks[bi].id
    }
}

/// `derived_block` at a linear chunk index.
pub open spec fn derived_at(blocks: Seq<Block>, chisel: Map<u8, ChiselData>, j: int) -> BlockId {
    derived_block(blocks, chisel, j % 32, (j / 32) % 32, j / 1024)
}

proof fn lemma_voxel_index_parts(x: int, y: int, z: int)
    requires
        0 <= x < 32,
        0 <= y < 32,
        0 <= z < 32,
    ensures
        ({
            let j = voxel_index_spec(x, y, z);
            &&& 0 <= j < 32768
            &&& j % 32 == x
            &&& (j / 32) % 32 == y
            &&& j / 1024 == z
        }),
{
    let j = voxel_index_spec(x, y, z);
    assert(j % 32 == x && (j / 32) % 32 == y && j / 1024 == z) by (nonlinear_arith)
        requires
            0 <= x < 32,
            0 <= y < 32,
            0 <= z < 32,
            j == x + 32 * y + 1024 * z,
    ;
}

/// The chisel entry of block `key`, if that block is chiseled.
fn chisel_entry(chisel: &BTreeMap<u8, ChiselData>, key: u8) -> (r: Option<&ChiselData>)
    ensures
        match r {
            Some(c) => chisel@.contains_key(key) && *c == chisel@[key],
            None => !chisel@.contains_key(key),
        },
{
    broadcast use vstd::laws_cmp::group_laws_cmp;

    chisel.get(&key)
}

/// Records `c` as the chisel entry of block `key`.
fn chisel_put(chisel: &mut BTreeMap<u8, ChiselData>, key: u8, c: ChiselData)
    ensures
        final(chisel)@ == old(chisel)@.insert(key, c),
{
    broadcast use vstd::laws_cmp::group_laws_cmp;

    chisel.insert(key, c);
}

/// `v` is the voxel array derived from the block layer: 32³ voxels, each
/// showing `derived_block` at its position.
pub open spec fn is_derivation(blocks: Seq<Block>, chisel: Map<u8, ChiselData>, v: Seq<Voxel>) -> bool {
    &&& v.len() == CHUNK_VOXEL_COUNT
    &&& forall|x: int, y: int, z: int|
        0 <= x < 32 && 0 <= y < 32 && 0 <= z < 32 ==> (#[trigger] v[voxel_index_spec(
            x,
            y,
            z,
        )]).block == derived_block(blocks, chisel, x, y, z)
}

proof fn lemma_index_decompose(j: int)
    requires
        0 <= j < 32768,
    ensures
        0 <= j % 32 < 32,
        0 <= (j / 32) % 32 < 32,
        0 <= j / 1024 < 32,
        j == voxel_index_spec(j % 32, (j / 32) % 32, j / 1024),
{
    assert(j == j % 32 + 32 * ((j / 32) % 32) + 1024 * (j / 1024)) by (nonlinear_arith)
        requires
            0 <= j < 32768,
    ;
}

/// Derivation is deterministic: two voxel arrays derived from the same
/// block layer are equal.
pub proof fn lemma_derivation_unique(
    blocks: Seq<Block>,
    chisel: Map<u8, ChiselData>,
    a: Seq<Voxel>,
    b: Seq<Voxel>,
)
    requires
        is_derivation(blocks, chisel, a),
        is_derivation(blocks, chisel, b),
    ensures
        a == b,
{
    assert forall|j: int| 0 <= j < a.len() implies a[j] == b[j] by {
        lemma_index_decompose(j);
        let x = j % 32;
        let y = (j / 32) % 32;
        let z = j / 1024;
        assert(a[voxel_index_spec(x, y, z)].block == b[voxel_index_spec(x, y, z)].block);
    }
    assert(a =~= b);
}

/// Derives the 32³ voxel array from the authoritative block layer. `blocks`
/// is indexed by block index, so it holds exactly the chunk's 8 blocks.
pub fn derive_voxels(blocks: &Vec<Block>, chisel: &BTreeMap<u8, ChiselData>) -> (r: Vec<Voxel>)
    requires
        blocks@.len() == CHUNK_BLOCK_COUNT,
    ensures
        is_derivation(blocks@, chisel@, r@),
{
    let mut voxels: Vec<Voxel> = Vec::with_capacity(CHUNK_VOXEL_COUNT);
    let mut z: usize = 0;
    while z < CHUNK_VOXELS
        invariant
            z <= 32,
            blocks@.len() == 8,
            voxels@.len() == 1024 * z,
            forall|j: int|
                0 <= j < voxels@.len() ==> (#[trigger] voxels@[j]).block == derived_at(
                    blocks@,
                    chisel@,
                    j,
                ),
        decreases 32 - z,
    {
        let mut y: usize = 0;
        while y < CHUNK_VOXELS
            invariant
                z < 32,
                y <= 32,
                blocks@.len() == 8,
                    voxels@.len() == 1024 * z + 32 * y,
                forall|j: int|
                    0 <= j < voxels@.len() ==> (#[trigger] voxels@[j]).block == derived_at(
                        blocks@,
                        chisel@,
                        j,
                    ),
            decreases 32 - y,
        {
            let mut x: usize = 0;
            while x < CHUNK_VOXELS
                invariant
                    z < 32,
                    y < 32,
                    x <= 32,
                    blocks@.len() == 8,
                            voxels@.len() == 1024 * z + 32 * y + x,
                    forall|j: int|
                        0 <= j < voxels@.len() ==> (#[trigger] voxels@[j]).block == derived_at(
                            blocks@,
                            chisel@,
                            j,
                        ),
                decreases 32 - x,
            {
                let bi: usize = x / BLOCK_VOXELS + (y / BLOCK_VOXELS) * CHUNK_BLOCKS + (z
                    / BLOCK_VOXELS) * CHUNK_BLOCKS * CHUNK_BLOCKS;
                let vx: usize = x % BLOCK_VOXELS;
                let vy: usize = y % BLOCK_VOXELS;
                let vz: usize = z % BLOCK_VOXELS;
                let key: u8 = bi as u8;
                let id = match chisel_entry(chisel, key) {
                    Some(c) => {
                        if c.is_solid(vx, vy, vz) {
                            c.material_at(vx, vy, vz)
                        } else {
                            BlockId::air()
                        }
                    },
                    None => blocks[bi].id,
                };
                proof {
                    lemma_voxel_index_parts(x as int, y as int, z as int);
                }
                voxels.push(Voxel::new(id));
                x = x + 1;
            }
            y = y + 1;
        }
        z = z + 1;
    }
    proof {
        assert forall|x: int, y: int, z: int|
            0 <= x < 32 && 0 <= y < 32 && 0 <= z < 32 implies (#[trigger] voxels@[voxel_index_spec(
            x,
            y,
            z,
        )]).block == derived_block(blocks@, chisel@, x, y, z) by {
            lemma_voxel_index_parts(x, y, z);
        }
    }
    voxels
}


/// x coordinate of local index `li` inside its block.
pub open spec fn local_x(li: int) -> int {
    li % 16
}

/// y coordinate (layer) of local index `li` inside its block.
pub open spec fn local_y(li: int) -> int {
    (li / 16) % 16
}

/// z coordinate of local index `li` inside its block.
pub open spec fn local_z(li: int) -> int {
    li / 256
}

proof fn lemma_local_index_parts(vx: int, vy: int, vz: int)
    requires
        0 <= vx < 16,
        0 <= vy < 16,
        0 <= vz < 16,
    ensures
        ({
            let li = local_index_spec(vx, vy, vz);
            &&& 0 <= li < 4096
            &&& local_x(li) == vx
            &&& local_y(li) == vy
            &&& local_z(li) == vz
        }),
{
    let li = local_index_spec(vx, vy, vz);
    assert(li % 16 == vx && (li / 16) % 16 == vy && li / 256 == vz) by (nonlinear_arith)
        requires
            0 <= vx < 16,
            0 <= vy < 16,
            0 <= vz < 16,
            li == vx + 16 * vy + 256 * vz,
    ;
}

proof fn lemma_local_index_of_parts(li: int)
    requires
        0 <= li < 4096,
    ensures
        0 <= local_x(li) < 16,
        0 <= local_y(li) < 16,
        0 <= local_z(li) < 16,
        local_index_spec(local_x(li), local_y(li), local_z(li)) == li,
{
    assert(0 <= li % 16 < 16 && 0 <= (li / 16) % 16 < 16 && 0 <= li / 256 < 16 && (li % 16) + 16
        * ((li / 16) % 16) + 256 * (li / 256) == li) by (nonlinear_arith)
        requires
            0 <= li < 4096,
    ;
}

/// Makes every voxel of layer `vy` solid with palette index 0.
fn fill_layer(c: &mut ChiselData, vy: usize)
    requires
        vy < 16,
    ensures
        final(c).palette() == old(c).palette(),
        forall|li: int|
            0 <= li < 4096 ==> #[trigger] final(c).solid(li) == (if local_y(li) == vy {
                true
            } else {
                old(c).solid(li)
            }),
        forall|li: int|
            0 <= li < 4096 ==> #[trigger] final(c).material_index(li) == (if local_y(li) == vy {
                0u8
            } else {
                old(c).material_index(li)
            }),
{
    let ghost c0 = *c;
    let mut vx: usize = 0;
    while vx < BLOCK_VOXELS
        invariant
            vx <= 16,
            vy < 16,
            c.palette() == c0.palette(),
            forall|li: int|
                0 <= li < 4096 ==> #[trigger] c.solid(li) == (if local_y(li) == vy && local_x(li)
                    < vx {
                    true
                } else {
                    c0.solid(li)
                }),
            forall|li: int|
                0 <= li < 4096 ==> #[trigger] c.material_index(li) == (if local_y(li) == vy
                    && local_x(li) < vx {
                    0u8
                } else {
                    c0.material_index(li)
                }),
        decreases 16 - vx,
    {
        let mut vz: usize = 0;
        while vz < BLOCK_VOXELS
            invariant
                vx < 16,
                vz <= 16,
                vy < 16,
                    c.palette() == c0.palette(),
                forall|li: int|
                    0 <= li < 4096 ==> #[trigger] c.solid(li) == (if local_y(li) == vy && (
                    local_x(li) < vx || (local_x(li) == vx && local_z(li) < vz)) {
                        true
                    } else {
                        c0.solid(li)
                    }),
                forall|li: int|
                    0 <= li < 4096 ==> #[trigger] c.material_index(li) == (if local_y(li) == vy
                        && (local_x(li) < vx || (local_x(li) == vx && local_z(li) < vz)) {
                        0u8
                    } else {
                        c0.material_index(li)
                    }),
            decreases 16 - vz,
        {
            proof {
                lemma_local_index_parts(vx as int, vy as int, vz as int);
            }
            c.set(vx, vy, vz, true, 0);
            proof {
                assert forall|li: int| 0 <= li < 4096 implies local_index_spec(
                    vx as int,
                    vy as int,
                    vz as int,
                ) == li <==> (local_x(li) == vx && local_y(li) == vy && local_z(li) == vz) by {
                    lemma_local_index_of_parts(li);
                }
            }
            vz = vz + 1;
        }
        vx = vx + 1;
    }
}

/// A chiseled block whose voxels are solid (palette index 0) exactly in
/// layers below `height`, over the single-material palette `[material]`.
fn chisel_slab(height: usize, material: BlockId) -> (r: ChiselData)
    ensures
        r.palette() == seq![material],
        forall|li: int| 0 <= li < 4096 ==> #[trigger] r.solid(li) == (local_y(li) < height),
        forall|li: int| 0 <= li < 4096 ==> #[trigger] r.material_index(li) == 0,
{
    let mut palette: Vec<BlockId> = Vec::new();
    palette.push(material);
    let mut c = ChiselData::new(palette);
    let mut vy: usize = 0;
    while vy < BLOCK_VOXELS
        invariant
            vy <= 16,
            c.palette() == seq![material],
            forall|li: int|
                0 <= li < 4096 ==> #[trigger] c.solid(li) == (local_y(li) < vy && local_y(li)
                    < height),
            forall|li: int| 0 <= li < 4096 ==> #[trigger] c.material_index(li) == 0,
        decreases 16 - vy,
    {
        if vy < height {
            fill_layer(&mut c, vy);
        }
        vy = vy + 1;
    }
    proof {
        assert forall|li: int| 0 <= li < 4096 implies #[trigger] c.solid(li) == (local_y(li)
            < height) by {
            lemma_local_index_of_parts(li);
        }
    }
    c
}

/// One chunk's authoritative block layer: 8 blocks plus sparse sub-block
/// detail, keyed by block index (a block is chiseled iff present here).
#[derive(Clone, Debug, Hash)]
pub struct Chunk {
    pub blocks: Vec<Block>,
    pub chisel: BTreeMap<u8, ChiselData>,
}

/// The block layer of a flat floor: material `stone` in voxel layers below
/// `depth`, air above.
pub open spec fn floor_block(y: int, depth: int, stone: BlockId) -> BlockId {
    if y < depth {
        stone
    } else {
        BlockId::air()
    }
}

/// Whether block `k` of a chunk is built as the flat floor of `depth`
/// requires: whole `stone` below the floor, air above, a chiseled slab
/// where the floor surface cuts through.
pub open spec fn floor_block_ok(
    blocks: Seq<Block>,
    chisel: Map<u8, ChiselData>,
    k: int,
    depth: int,
    stone: BlockId,
) -> bool {
    let y0 = 16 * ((k / 2) % 2);
    if y0 + 16 <= depth {
        blocks[k].id == stone && !chisel.contains_key(k as u8)
    } else if y0 >= depth {
        blocks[k].id == BlockId::air() && !chisel.contains_key(k as u8)
    } else {
        &&& blocks[k].id == stone
        &&& chisel.contains_key(k as u8)
        &&& chisel[k as u8].palette() == seq![stone]
        &&& forall|li: int|
            0 <= li < 4096 ==> #[trigger] chisel[k as u8].solid(li) == (y0 + local_y(li) < depth)
        &&& forall|li: int| 0 <= li < 4096 ==> #[trigger] chisel[k as u8].material_index(li) == 0
    }
}

impl Chunk {
    /// Solid `stone` floor for voxel heights `y < depth`, air above, built at
    /// block granularity: blocks fully below the floor are whole stone,
    /// blocks straddling it become a chiseled slab, blocks above are air.
    pub fn flat_floor(depth: u32, stone: BlockId) -> (r: Chunk)
        ensures
            r.blocks@.len() == CHUNK_BLOCK_COUNT,
            forall|x: int, y: int, z: int|
                0 <= x < 32 && 0 <= y < 32 && 0 <= z < 32 ==> #[trigger] derived_block(
                    r.blocks@,
                    r.chisel@,
                    x,
                    y,
                    z,
                ) == floor_block(y, depth as int, stone),
            forall|k: int|
                0 <= k < 8 ==> #[trigger] floor_block_ok(
                    r.blocks@,
                    r.chisel@,
                    k,
                    depth as int,
                    stone,
                ),
            forall|k: u8| #[trigger] r.chisel@.contains_key(k) ==> k < 8,
    {
        let depth = depth as usize;
        let mut blocks: Vec<Block> = Vec::new();
        let mut k: usize = 0;
        while k < CHUNK_BLOCK_COUNT
            invariant
                k <= 8,
                blocks@.len() == k,
                forall|j: int| 0 <= j < k ==> (#[trigger] blocks@[j]).id == BlockId::air(),
            decreases 8 - k,
        {
            blocks.push(Block::new(BlockId::air()));
            k = k + 1;
        }
        let mut chisel: BTreeMap<u8, ChiselData> = BTreeMap::new();
        let mut i: usize = 0;
        while i < CHUNK_BLOCK_COUNT
            invariant
                i <= 8,
                blocks@.len() == 8,
                    forall|k: u8| #[trigger] chisel@.contains_key(k) ==> k < i,
                forall|k: int|
                    0 <= k < i ==> #[trigger] floor_block_ok(
                        blocks@,
                        chisel@,
                        k,
                        depth as int,
                        stone,
                    ),
                forall|k: int| i <= k < 8 ==> (#[trigger] blocks@[k]).id == BlockId::air(),
            decreases 8 - i,
        {
            let (_bx, by, _bz) = BlockIndex(i as u8).xyz();
            let y0 = by * BLOCK_VOXELS;
            let y1 = y0 + BLOCK_VOXELS;
            let ghost pre_blocks = blocks@;
            let ghost pre_chisel = chisel@;
            if y1 <= depth {
                blocks.set(i, Block::new(stone));
            } else if y0 >= depth {
            } else {
                blocks.set(i, Block::new(stone));
                let c = chisel_slab(depth - y0, stone);
                chisel_put(&mut chisel, i as u8, c);
                proof {
                    assert forall|li: int| 0 <= li < 4096 implies #[trigger] chisel@[i as u8].solid(
                        li,
                    ) == (y0 + local_y(li) < depth) by {
                        lemma_local_index_of_parts(li);
                    }
                }
            }
            proof {
                assert forall|k: int| 0 <= k < i implies #[trigger] floor_block_ok(
                    blocks@,
                    chisel@,
                    k,
                    depth as int,
                    stone,
                ) by {
                    assert(floor_block_ok(pre_blocks, pre_chisel, k, depth as int, stone));
                    assert(blocks@[k] == pre_blocks[k]);
                    assert((k as u8) != (i as u8));
                }
                assert(floor_block_ok(blocks@, chisel@, i as int, depth as int, stone));
            }
            i = i + 1;
        }
        proof {
            assert forall|x: int, y: int, z: int|
                0 <= x < 32 && 0 <= y < 32 && 0 <= z < 32 implies #[trigger] derived_block(
                blocks@,
                chisel@,
                x,
                y,
                z,
            ) == floor_block(y, depth as int, stone) by {
                let bi = block_index_spec(x / 16, y / 16, z / 16);
                lemma_block_coords_roundtrip(x / 16, y / 16, z / 16);
                assert(floor_block_ok(blocks@, chisel@, bi, depth as int, stone));
                let li = local_index_spec(x % 16, y % 16, z % 16);
                lemma_local_index_parts(x % 16, y % 16, z % 16);
                assert(y == 16 * (y / 16) + y % 16);
            }
        }
        Chunk { blocks, chisel }
    }
}

impl Default for Chunk {
    /// All air, nothing chiseled.
    fn default() -> (r: Chunk)
        ensures
            r.blocks@.len() == CHUNK_BLOCK_COUNT,
            r.chisel@ == Map::<u8, ChiselData>::empty(),
            forall|k: int| 0 <= k < 8 ==> (#[trigger] r.blocks@[k]).id == BlockId::air(),
    {
        let mut blocks: Vec<Block> = Vec::new();
        let mut k: usize = 0;
        while k < CHUNK_BLOCK_COUNT
            invariant
                k <= 8,
                blocks@.len() == k,
                forall|j: int| 0 <= j < k ==> (#[trigger] blocks@[j]).id == BlockId::air(),
            decreases 8 - k,
        {
            blocks.push(Block::default());
            k = k + 1;
        }
        Chunk { blocks, chisel: BTreeMap::new() }
    }
}

} // verus!
