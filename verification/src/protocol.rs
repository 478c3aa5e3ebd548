//! Wire-level vocabulary shared by client and server: region coordinates,
//! ids, and the small enums that cross the boundary.

use vstd::prelude::*;

verus! {

pub type Tick = usize;
pub type EventId = usize;
pub type EntityId = usize;
pub type ClientId = usize;

/// Chunks per region edge.
pub const REGION_CHUNKS: usize = 8;
/// Region edge length in world units (8 chunks of 32 voxels).
pub const REGION_UNITS: i32 = 256;
/// A ghost not refreshed for this many host ticks is removed.
pub const GHOST_TTL_TICKS: usize = 25;

/// Regions tile the horizontal plane in fixed 256-unit squares. Signed and
/// unbounded: the world grows in every direction.
#[derive(Debug, Clone, Copy, PartialEq, Eq, Structural, PartialOrd, Ord, Hash)]
pub struct RegionCoords {
    pub x: i32,
    pub z: i32,
}

impl RegionCoords {
    pub fn new(x: i32, z: i32) -> (r: RegionCoords)
        ensures
            r.x == x,
            r.z == z,
    {
        RegionCoords { x, z }
    }

    /// The coordinates as an ordered pair, the key regions are stored under.
    pub open spec fn spec_key(self) -> (i32, i32) {
        (self.x, self.z)
    }

    /// The coordinates as an ordered pair, the key regions are stored under.
    #[verifier::when_used_as_spec(spec_key)]
    pub fn key(self) -> (r: (i32, i32))
        ensures
            r == (self.x, self.z),
    {
        (self.x, self.z)
    }

    /// The region stored under `k`.
    pub fn from_key(k: (i32, i32)) -> (r: RegionCoords)
        ensures
            r.x == k.0,
            r.z == k.1,
    {
        RegionCoords { x: k.0, z: k.1 }
    }

    /// The 3×3 window of regions centered on `self`, the client's desired
    /// loaded set: x offsets outer, z offsets inner, each from -1 to 1.
    pub fn window_3x3(&self) -> (r: Vec<RegionCoords>)
        requires
            i32::MIN < self.x < i32::MAX,
            i32::MIN < self.z < i32::MAX,
        ensures
            r@.len() == 9,
            forall|i: int|
                0 <= i < 9 ==> (#[trigger] r@[i]).x == self.x + (i / 3 - 1) && r@[i].z == self.z
                    + (i % 3 - 1),
    {
        let mut out: Vec<RegionCoords> = Vec::with_capacity(9);
        let mut dx: i32 = -1;
        while dx <= 1
            invariant
                -1 <= dx <= 2,
                i32::MIN < self.x < i32::MAX,
                i32::MIN < self.z < i32::MAX,
                out@.len() == 3 * (dx + 1),
                forall|i: int|
                    0 <= i < out@.len() ==> (#[trigger] out@[i]).x == self.x + (i / 3 - 1)
                        && out@[i].z == self.z + (i % 3 - 1),
            decreases 2 - dx,
        {
            let mut dz: i32 = -1;
            while dz <= 1
                invariant
                    -1 <= dx <= 1,
                    -1 <= dz <= 2,
                    i32::MIN < self.x < i32::MAX,
                    i32::MIN < self.z < i32::MAX,
                    out@.len() == 3 * (dx + 1) + (dz + 1),
                    forall|i: int|
                        0 <= i < out@.len() ==> (#[trigger] out@[i]).x == self.x + (i / 3 - 1)
                            && out@[i].z == self.z + (i % 3 - 1),
                decreases 2 - dz,
            {
                out.push(RegionCoords::new(self.x + dx, self.z + dz));
                dz = dz + 1;
            }
            dx = dx + 1;
        }
        out
    }
}

impl Default for RegionCoords {
    fn default() -> (r: RegionCoords)
        ensures
            r.x == 0,
            r.z == 0,
    {
        RegionCoords::new(0, 0)
    }
}

pub type RegionId = RegionCoords;

/// The neighbour that takes over an entity, given for each axis whether
/// the entity is past the low edge (-1), past the high edge (1) or inside
/// (0), hysteresis included: none while both axes are inside.
pub fn departure_from_axes(ax: i32, az: i32) -> (r: Option<(i32, i32)>)
    requires
        -1 <= ax <= 1,
        -1 <= az <= 1,
    ensures
        r == if ax == 0 && az == 0 {
            None
        } else {
            Some((ax, az))
        },
{
    if ax == 0 && az == 0 {
        None
    } else {
        Some((ax, az))
    }
}

/// The neighbours whose ghost margin an entity is inside, given for each
/// axis whether it is within the margin of the low edge (-1), of the high
/// edge (1) or of neither (0). The order is fixed, x edge, z edge, then
/// the corner, so every region mirrors in the same order.
pub fn ghost_offsets_from_axes(dx: i32, dz: i32) -> (r: Vec<(i32, i32)>)
    requires
        -1 <= dx <= 1,
        -1 <= dz <= 1,
    ensures
        r@ == (if dx != 0 {
            seq![(dx, 0i32)]
        } else {
            seq![]
        }) + (if dz != 0 {
            seq![(0i32, dz)]
        } else {
            seq![]
        }) + (if dx != 0 && dz != 0 {
            seq![(dx, dz)]
        } else {
            seq![]
        }),
{
    let mut out: Vec<(i32, i32)> = Vec::new();
    if dx != 0 {
        out.push((dx, 0));
    }
    if dz != 0 {
        out.push((0, dz));
    }
    if dx != 0 && dz != 0 {
        out.push((dx, dz));
    }
    proof {
        let a: Seq<(i32, i32)> = if dx != 0 {
            seq![(dx, 0i32)]
        } else {
            seq![]
        };
        let b: Seq<(i32, i32)> = if dz != 0 {
            seq![(0i32, dz)]
        } else {
            seq![]
        };
        let c: Seq<(i32, i32)> = if dx != 0 && dz != 0 {
            seq![(dx, dz)]
        } else {
            seq![]
        };
        assert(out@ =~= a + b + c);
    }
    out
}

/// Connection/sync state surfaced to the client HUD.
#[derive(Debug, Clone, Copy, PartialEq, Eq, Structural)]
pub enum ConnectionState {
    Connecting,
    CatchingUp,
    Ready,
}

impl Default for ConnectionState {
    fn default() -> (r: ConnectionState)
        ensures
            r == ConnectionState::Connecting,
    {
        ConnectionState::Connecting
    }
}

/// Why a region stopped processing events.
#[derive(Debug, Clone, Copy, PartialEq, Eq, Structural)]
pub enum GameError {
    CrashedOnServerEvent,
    QuitRequested,
}

/// Which world a region belongs to.
#[derive(Debug, Clone, Copy, PartialEq, Eq, Structural)]
pub enum WorldId {
    Default,
}

/// What an entity is, for rendering and gameplay.
#[derive(Debug, Clone, Copy, PartialEq, Eq, Structural, Hash)]
pub enum EntityKind {
    Player,
}

impl Default for EntityKind {
    fn default() -> (r: EntityKind)
        ensures
            r == EntityKind::Player,
    {
        EntityKind::Player
    }
}

/// Whether a game-data update is being applied or rolled back.
#[derive(Copy, Clone, Debug, PartialEq, Eq, Structural)]
pub enum GameDataTransactionKind {
    Do,
    Undo,
}

/// A serializable wrapper of a `usize`.
#[derive(Debug, Clone, PartialEq, Eq, Structural)]
pub struct Usize {
    data: usize,
}

impl Usize {
    pub closed spec fn value(self) -> usize {
        self.data
    }

    /// The wrapped value.
    pub fn get(&self) -> (r: usize)
        ensures
            r == self.value(),
    {
        self.data
    }
}

impl Default for Usize {
    fn default() -> (r: Usize)
        ensures
            r.value() == 0,
    {
        Usize { data: 0 }
    }
}

impl vstd::std_specs::convert::FromSpecImpl<usize> for Usize {
    open spec fn obeys_from_spec() -> bool {
        true
    }

    closed spec fn from_spec(v: usize) -> Usize {
        Usize { data: v }
    }
}

impl From<usize> for Usize {
    fn from(value: usize) -> (r: Usize)
        ensures
            r.value() == value,
    {
        Usize { data: value }
    }
}

/// Serialized region state, the parking-lot format: opaque bytes, kept
/// apart from live state so parking never aliases it.
#[derive(Debug, Clone, PartialEq, Eq)]
pub struct SerializedRegion(pub Vec<u8>);

} // verus!
