//! Data-driven block registry. Each `BlockDef` carries an explicit, stable
//! `id`; `BlockId` is the single material identity used at both block and
//! voxel granularity. Id 0 is reserved for air.

use vstd::prelude::*;

verus! {

/// Numeric material identity, assigned by the manifest. `AIR` is reserved.
#[derive(Debug, Clone, Copy, PartialEq, Eq, Structural, Hash, PartialOrd, Ord)]
pub struct BlockId(pub u16);

/// The id reserved for air.
pub const AIR_ID: u16 = 0;

impl BlockId {
    /// The reserved air id.
    pub open spec fn spec_air() -> BlockId {
        BlockId(AIR_ID)
    }

    /// The reserved air id, `BlockId(0)`.
    #[verifier::when_used_as_spec(spec_air)]
    pub fn air() -> (r: BlockId)
        ensures
            r == BlockId(AIR_ID),
    {
        BlockId(AIR_ID)
    }
}

impl Default for BlockId {
    fn default() -> (r: BlockId)
        ensures
            r == BlockId(AIR_ID),
    {
        BlockId(0)
    }
}


/// How a block's faces are textured. `Untextured` blocks (air) never mesh.
#[derive(Debug, Clone, PartialEq, Eq)]
pub enum TextureSpec {
    Untextured,
    All(String),
    Faces { top: String, side: String, bottom: String },
}

/// One manifest entry.
#[derive(Debug, Clone)]
pub struct BlockDef {
    pub id: u16,
    pub name: String,
    pub textures: TextureSpec,
}

/// Why a block manifest was rejected.
#[derive(Debug)]
pub enum RegistryError {
    Parse(String),
    DuplicateId(u16),
    DuplicateName(String),
    MissingAir,
    BadAir,
}

/// Entry `i` reuses the name of an earlier entry.
pub open spec fn name_taken(defs: Seq<BlockDef>, i: int) -> bool {
    exists|j: int| 0 <= j < i && #[trigger] defs[j].name@ == defs[i].name@
}

/// Entry `i` reuses the id of an earlier entry.
pub open spec fn id_taken(defs: Seq<BlockDef>, i: int) -> bool {
    exists|j: int| 0 <= j < i && #[trigger] defs[j].id == defs[i].id
}

/// Entry `i` is the first one that reuses an earlier name or id.
pub open spec fn first_clash(defs: Seq<BlockDef>, i: int) -> bool {
    &&& 0 <= i < defs.len()
    &&& (name_taken(defs, i) || id_taken(defs, i))
    &&& forall|k: int| 0 <= k < i ==> !name_taken(defs, k) && !id_taken(defs, k)
}

/// No entry reuses an earlier name or id.
pub open spec fn clash_free(defs: Seq<BlockDef>) -> bool {
    forall|k: int| 0 <= k < defs.len() ==> !name_taken(defs, k) && !id_taken(defs, k)
}

/// The air entry is named "air" and untextured.
pub open spec fn air_ok(d: BlockDef) -> bool {
    d.name@ == seq!['a', 'i', 'r'] && d.textures is Untextured
}

/// Parsed, validated registry, indexed by ascending `BlockId`, with unique
/// ids and unique names.
#[derive(Debug)]
pub struct BlockRegistry {
    defs: Vec<BlockDef>,
}

impl BlockRegistry {
    #[verifier::type_invariant]
    spec fn ordered(self) -> bool {
        forall|i: int, j: int|
            0 <= i < j < self.defs@.len() ==> (#[trigger] self.defs@[i]).id < (
            #[trigger] self.defs@[j]).id && self.defs@[i].name@ != self.defs@[j].name@
    }

    /// The entries, in ascending id order.
    pub closed spec fn defs(self) -> Seq<BlockDef> {
        self.defs@
    }

    /// An empty registry.
    pub fn new() -> (r: BlockRegistry)
        ensures
            r.defs() == Seq::<BlockDef>::empty(),
    {
        BlockRegistry { defs: Vec::new() }
    }

    /// Validates the manifest entries, in order: the first entry that
    /// reuses an earlier name is `DuplicateName`, else one that reuses an
    /// earlier id is `DuplicateId`; then id 0 must exist (`MissingAir`) and
    /// be named "air" and untextured (`BadAir`). On success the registry
    /// holds exactly the given entries, in ascending id order.
    pub fn from_defs(defs: Vec<BlockDef>) -> (r: Result<BlockRegistry, RegistryError>)
        ensures
            match r {
                Ok(reg) => {
                    &&& clash_free(defs@)
                    &&& exists|i: int|
                        0 <= i < defs@.len() && (#[trigger] defs@[i]).id == AIR_ID && air_ok(
                            defs@[i],
                        )
                    &&& reg.defs().to_multiset() == defs@.to_multiset()
                    &&& forall|i: int, j: int|
                        0 <= i < j < reg.defs().len() ==> (#[trigger] reg.defs()[i]).id < (
                        #[trigger] reg.defs()[j]).id
                },
                Err(RegistryError::DuplicateName(n)) => exists|i: int|
                    first_clash(defs@, i) && #[trigger] name_taken(defs@, i) && n@
                        == defs@[i].name@,
                Err(RegistryError::DuplicateId(id)) => exists|i: int|
                    first_clash(defs@, i) && !(#[trigger] name_taken(defs@, i)) && id
                        == defs@[i].id,
                Err(RegistryError::MissingAir) => clash_free(defs@) && forall|i: int|
                    0 <= i < defs@.len() ==> (#[trigger] defs@[i]).id != AIR_ID,
                Err(RegistryError::BadAir) => clash_free(defs@) && exists|i: int|
                    0 <= i < defs@.len() && (#[trigger] defs@[i]).id == AIR_ID && !air_ok(
                        defs@[i],
                    ),
                Err(RegistryError::Parse(_)) => false,
            },
    {
        let n = defs.len();
        // Pass 1: the first entry that reuses a name or an id.
        let mut i: usize = 0;
        while i < n
            invariant
                n == defs@.len(),
                i <= n,
                forall|k: int| 0 <= k < i ==> !name_taken(defs@, k) && !id_taken(defs@, k),
            decreases n - i,
        {
            let mut found_name = false;
            let mut found_id = false;
            let mut j: usize = 0;
            while j < i
                invariant
                    n == defs@.len(),
                    j <= i < n,
                    found_name <==> exists|m: int|
                        0 <= m < j && #[trigger] defs@[m].name@ == defs@[i as int].name@,
                    found_id <==> exists|m: int|
                        0 <= m < j && #[trigger] defs@[m].id == defs@[i as int].id,
                decreases i - j,
            {
                if defs[j].name == defs[i].name {
                    found_name = true;
                }
                if defs[j].id == defs[i].id {
                    found_id = true;
                }
                j = j + 1;
            }
            if found_name {
                let name = defs[i].name.clone();
                proof {
                    assert(first_clash(defs@, i as int));
                    assert(name_taken(defs@, i as int));
                }
                return Err(RegistryError::DuplicateName(name));
            }
            if found_id {
                proof {
                    assert(first_clash(defs@, i as int));
                    assert(!name_taken(defs@, i as int));
                }
                return Err(RegistryError::DuplicateId(defs[i].id));
            }
            i = i + 1;
        }
        // Pass 2: id 0 must be air.
        let mut a: usize = 0;
        while a < n && defs[a].id != AIR_ID
            invariant
                n == defs@.len(),
                a <= n,
                forall|k: int| 0 <= k < a ==> (#[trigger] defs@[k]).id != AIR_ID,
            decreases n - a,
        {
            a = a + 1;
        }
        if a == n {
            return Err(RegistryError::MissingAir);
        }
        let air_name = String::from_str("air");
        proof {
            reveal_strlit("air");
        }
        let named_air = defs[a].name == air_name;
        let untextured = match defs[a].textures {
            TextureSpec::Untextured => true,
            _ => false,
        };
        proof {
            assert("air"@ =~= seq!['a', 'i', 'r']);
            assert(named_air == (defs@[a as int].name@ == seq!['a', 'i', 'r']));
            assert(untextured == (defs@[a as int].textures is Untextured));
            assert(clash_free(defs@));
            assert(defs@[a as int].id == AIR_ID);
        }
        if !(named_air && untextured) {
            assert(!air_ok(defs@[a as int]));
            return Err(RegistryError::BadAir);
        }
        assert(air_ok(defs@[a as int]));
        // Pass 3: move the entries into ascending id order.
        let ghost orig = defs@;
        let mut rest = defs;
        let mut sorted: Vec<BlockDef> = Vec::new();
        let ghost mut src: Seq<int> = Seq::empty();
        proof {
            assert(orig.take(0) =~= Seq::<BlockDef>::empty());
            assert(sorted@ =~= Seq::<BlockDef>::empty());
        }
        let mut k: usize = 0;
        while k < n
            invariant
                n == orig.len(),
                k <= n,
                clash_free(orig),
                rest@ == orig.skip(k as int),
                sorted@.to_multiset() == orig.take(k as int).to_multiset(),
                sorted@.len() == k,
                src.len() == sorted@.len(),
                forall|m: int|
                    0 <= m < sorted@.len() ==> 0 <= #[trigger] src[m] < k && sorted@[m]
                        == orig[src[m]],
                forall|p: int, q: int|
                    0 <= p < q < sorted@.len() ==> (#[trigger] sorted@[p]).id < (
                    #[trigger] sorted@[q]).id && sorted@[p].name@ != sorted@[q].name@,
            decreases n - k,
        {
            let d = rest.remove(0);
            assert(d == orig[k as int]);
            let mut p: usize = 0;
            while p < sorted.len() && sorted[p].id <= d.id
                invariant
                    p <= sorted@.len(),
                    k < n,
                    n == orig.len(),
                    d == orig[k as int],
                    clash_free(orig),
                    src.len() == sorted@.len(),
                    forall|m: int|
                        0 <= m < sorted@.len() ==> 0 <= #[trigger] src[m] < k && sorted@[m]
                            == orig[src[m]],
                    forall|m: int| 0 <= m < p ==> (#[trigger] sorted@[m]).id < d.id,
                decreases sorted@.len() - p,
            {
                proof {
                    let o = src[p as int];
                    assert(!id_taken(orig, k as int));
                    assert(orig[o].id != orig[k as int].id);
                }
                p = p + 1;
            }
            let ghost pre = sorted@;
            proof {
                assert(forall|m: int| p <= m < pre.len() ==> (#[trigger] pre[m]).id > d.id) by {
                    assert forall|m: int| p <= m < pre.len() implies (#[trigger] pre[m]).id
                        > d.id by {
                        if p < pre.len() {
                            assert(pre[p as int].id > d.id);
                            if m > p {
                                assert(pre[p as int].id < pre[m].id);
                            }
                        }
                    }
                }
                assert forall|m: int| 0 <= m < pre.len() implies (#[trigger] pre[m]).name@
                    != d.name@ by {
                    let o = src[m];
                    assert(orig[o] == pre[m]);
                    assert(!name_taken(orig, k as int));
                }
            }
            sorted.insert(p, d);
            proof {
                vstd::seq_lib::to_multiset_insert(pre, p as int, d);
                assert(orig.take(k + 1) == orig.take(k as int).push(d));
                vstd::seq_lib::to_multiset_build(orig.take(k as int), d);
                src = src.insert(p as int, k as int);
                assert forall|m: int| 0 <= m < sorted@.len() implies 0 <= #[trigger] src[m] < k + 1
                    && sorted@[m] == orig[src[m]] by {
                    if m < p {
                        assert(sorted@[m] == pre[m]);
                    } else if m == p {
                        assert(orig[k as int] == sorted@[m]);
                    } else {
                        assert(sorted@[m] == pre[m - 1]);
                    }
                }
            }
            k = k + 1;
        }
        proof {
            assert(orig.take(n as int) == orig);
        }
        Ok(BlockRegistry { defs: sorted })
    }

    /// The id of the block named `name`, if any.
    pub fn id_of(&self, name: &str) -> (r: Option<BlockId>)
        ensures
            match r {
                Some(id) => exists|i: int|
                    0 <= i < self.defs().len() && (#[trigger] self.defs()[i]).name@ == name@
                        && self.defs()[i].id == id.0,
                None => forall|i: int|
                    0 <= i < self.defs().len() ==> (#[trigger] self.defs()[i]).name@ != name@,
            },
    {
        let key = String::from_str(name);
        let mut i: usize = 0;
        while i < self.defs.len()
            invariant
                i <= self.defs@.len(),
                key@ == name@,
                forall|k: int| 0 <= k < i ==> (#[trigger] self.defs@[k]).name@ != name@,
            decreases self.defs@.len() - i,
        {
            if self.defs[i].name == key {
                return Some(BlockId(self.defs[i].id));
            }
            i = i + 1;
        }
        None
    }

    /// The definition of block `id`, if registered.
    pub fn def(&self, id: BlockId) -> (r: Option<&BlockDef>)
        ensures
            match r {
                Some(d) => exists|i: int|
                    0 <= i < self.defs().len() && #[trigger] self.defs()[i] == *d && d.id == id.0,
                None => forall|i: int|
                    0 <= i < self.defs().len() ==> (#[trigger] self.defs()[i]).id != id.0,
            },
    {
        let mut i: usize = 0;
        while i < self.defs.len()
            invariant
                i <= self.defs@.len(),
                forall|k: int| 0 <= k < i ==> (#[trigger] self.defs@[k]).id != id.0,
            decreases self.defs@.len() - i,
        {
            if self.defs[i].id == id.0 {
                return Some(&self.defs[i]);
            }
            i = i + 1;
        }
        None
    }

    /// Every `(id, definition)` pair, in ascending id order.
    pub fn iter(&self) -> (r: Vec<(BlockId, &BlockDef)>)
        ensures
            r@.len() == self.defs().len(),
            forall|i: int|
                0 <= i < r@.len() ==> (#[trigger] r@[i]).0 == BlockId(self.defs()[i].id) && *r@[i].1
                    == self.defs()[i],
            forall|i: int, j: int|
                0 <= i < j < r@.len() ==> (#[trigger] r@[i]).0.0 < (#[trigger] r@[j]).0.0,
    {
        proof {
            use_type_invariant(self);
        }
        let mut out: Vec<(BlockId, &BlockDef)> = Vec::new();
        let mut i: usize = 0;
        while i < self.defs.len()
            invariant
                i <= self.defs@.len(),
                out@.len() == i,
                forall|k: int|
                    0 <= k < i ==> (#[trigger] out@[k]).0 == BlockId(self.defs@[k].id) && *out@[k].1
                        == self.defs@[k],
            decreases self.defs@.len() - i,
        {
            let d = &self.defs[i];
            out.push((BlockId(d.id), d));
            i = i + 1;
        }
        proof {
            assert forall|p: int, q: int| 0 <= p < q < out@.len() implies (#[trigger] out@[p]).0.0 < (
            #[trigger] out@[q]).0.0 by {
                assert(self.defs@[p].id < self.defs@[q].id);
            }
        }
        out
    }
}

/// The manifest entries make a valid registry: no name or id is reused
/// and the air entry exists and is well-formed.
pub open spec fn manifest_valid(defs: Seq<BlockDef>) -> bool {
    &&& clash_free(defs)
    &&& exists|i: int| 0 <= i < defs.len() && (#[trigger] defs[i]).id == AIR_ID && air_ok(defs[i])
}

/// The shared block registry from the manifest's entries. A malformed
/// manifest is a fatal startup misconfiguration, so the entries must be
/// valid; the registry holds exactly them, in ascending id order.
pub fn load_registry(defs: Vec<BlockDef>) -> (r: BlockRegistry)
    requires
        manifest_valid(defs@),
    ensures
        r.defs().to_multiset() == defs@.to_multiset(),
        forall|i: int, j: int|
            0 <= i < j < r.defs().len() ==> (#[trigger] r.defs()[i]).id < (
            #[trigger] r.defs()[j]).id,
{
    let ghost d = defs@;
    match BlockRegistry::from_defs(defs) {
        Ok(reg) => reg,
        Err(e) => {
            proof {
                let a = choose|i: int| 0 <= i < d.len() && (#[trigger] d[i]).id == AIR_ID && air_ok(d[i]);
                match e {
                    RegistryError::BadAir => {
                        let b = choose|i: int|
                            0 <= i < d.len() && (#[trigger] d[i]).id == AIR_ID && !air_ok(d[i]);
                        if a < b {
                            assert(id_taken(d, b));
                        } else if b < a {
                            assert(id_taken(d, a));
                        }
                    },
                    RegistryError::MissingAir => {
                        assert(d[a].id != AIR_ID);
                    },
                    _ => {},
                }
            }
            vstd::pervasive::unreached()
        },
    }
}

impl Default for BlockRegistry {
    /// An empty registry.
    fn default() -> (r: BlockRegistry)
        ensures
            r.defs() == Seq::<BlockDef>::empty(),
    {
        BlockRegistry::new()
    }
}

} // verus!
