//! Array-texture layers for block faces. Layer 0 is the missing-texture
//! checkerboard; every texture file that loads gets the next layer, in the
//! order the registry first uses it (blocks by ascending id, a block's
//! faces top, side, bottom), and a file shared by several faces or blocks
//! gets one layer. Each textured block maps to its `[top, side, bottom]`
//! layers; untextured blocks (air) are left out.

use vstd::prelude::*;
use std::collections::BTreeMap;

use crate::registry::{BlockDef, BlockId, BlockRegistry, TextureSpec};

verus! {

/// The `[top, side, bottom]` layers of each textured block, keyed by its
/// block id number.
#[derive(Debug, Clone, Default)]
pub struct BlockTextureLayers(pub BTreeMap<u16, [u32; 3]>);

/// The texture files a block's faces name, top, side, bottom.
pub open spec fn face_paths(t: TextureSpec) -> Seq<Seq<char>> {
    match t {
        TextureSpec::Untextured => seq![],
        TextureSpec::All(p) => seq![p@],
        TextureSpec::Faces { top, side, bottom } => seq![top@, side@, bottom@],
    }
}

/// `acc` followed by the members of `ps` it lacks, in order, each once.
pub open spec fn add_new(acc: Seq<Seq<char>>, ps: Seq<Seq<char>>) -> Seq<Seq<char>>
    decreases ps.len(),
{
    if ps.len() == 0 {
        acc
    } else {
        let a = add_new(acc, ps.drop_last());
        if a.contains(ps.last()) {
            a
        } else {
            a.push(ps.last())
        }
    }
}

/// Every texture file the entries name, each once, in first-use order.
pub open spec fn first_use_paths(defs: Seq<BlockDef>) -> Seq<Seq<char>>
    decreases defs.len(),
{
    if defs.len() == 0 {
        seq![]
    } else {
        add_new(first_use_paths(defs.drop_last()), face_paths(defs.last().textures))
    }
}

/// The first position of `p` in `paths`, or the length when absent.
pub open spec fn position(paths: Seq<Seq<char>>, p: Seq<char>) -> int
    decreases paths.len(),
{
    if paths.len() == 0 {
        0
    } else if paths[0] == p {
        0
    } else {
        1 + position(paths.drop_first(), p)
    }
}

/// How many of the files loaded.
pub open spec fn loaded_count(loaded: Seq<Option<u32>>) -> nat
    decreases loaded.len(),
{
    if loaded.len() == 0 {
        0
    } else {
        loaded_count(loaded.drop_last()) + if loaded.last() is Some {
            1nat
        } else {
            0nat
        }
    }
}

/// The layer of file `p`: one past the number of files loaded before it
/// when it loaded, the missing-texture layer 0 otherwise.
pub open spec fn path_layer(paths: Seq<Seq<char>>, loaded: Seq<Option<u32>>, p: Seq<char>) -> u32 {
    let i = position(paths, p);
    if 0 <= i < loaded.len() && loaded[i] is Some {
        (1 + loaded_count(loaded.take(i))) as u32
    } else {
        0
    }
}

/// The `[top, side, bottom]` layers of a block's faces.
pub open spec fn face_layers(paths: Seq<Seq<char>>, loaded: Seq<Option<u32>>, t: TextureSpec) -> [u32; 3] {
    match t {
        TextureSpec::Untextured => [0u32, 0u32, 0u32],
        TextureSpec::All(p) => [
            path_layer(paths, loaded, p@),
            path_layer(paths, loaded, p@),
            path_layer(paths, loaded, p@),
        ],
        TextureSpec::Faces { top, side, bottom } => [
            path_layer(paths, loaded, top@),
            path_layer(paths, loaded, side@),
            path_layer(paths, loaded, bottom@),
        ],
    }
}

/// The layer table of the entries: each textured entry's id with its face
/// layers.
pub open spec fn layer_map(
    defs: Seq<BlockDef>,
    paths: Seq<Seq<char>>,
    loaded: Seq<Option<u32>>,
) -> Map<u16, [u32; 3]>
    decreases defs.len(),
{
    if defs.len() == 0 {
        Map::empty()
    } else {
        let rest = layer_map(defs.drop_last(), paths, loaded);
        if defs.last().textures is Untextured {
            rest
        } else {
            rest.insert(defs.last().id, face_layers(paths, loaded, defs.last().textures))
        }
    }
}

/// Every file that loaded has the same edge length.
pub open spec fn same_size(loaded: Seq<Option<u32>>) -> bool {
    forall|i: int, j: int|
        0 <= i < loaded.len() && 0 <= j < loaded.len() && loaded[i] is Some && loaded[j] is Some
            ==> loaded[i] == loaded[j]
}

/// The edge length of the first file that loaded, or 16 when none did.
pub open spec fn texture_size(loaded: Seq<Option<u32>>) -> u32
    decreases loaded.len(),
{
    if loaded.len() == 0 {
        16
    } else {
        match loaded[0] {
            Some(s) => s,
            None => texture_size(loaded.drop_first()),
        }
    }
}

/// `add_new` keeps what it is given, in place, and adds no duplicate.
proof fn lemma_add_new_distinct(acc: Seq<Seq<char>>, ps: Seq<Seq<char>>)
    requires
        acc.no_duplicates(),
    ensures
        add_new(acc, ps).no_duplicates(),
        acc.len() <= add_new(acc, ps).len(),
        forall|i: int| 0 <= i < acc.len() ==> #[trigger] add_new(acc, ps)[i] == acc[i],
    decreases ps.len(),
{
    if ps.len() > 0 {
        lemma_add_new_distinct(acc, ps.drop_last());
        let a = add_new(acc, ps.drop_last());
        if !a.contains(ps.last()) {
            assert forall|i: int, j: int|
                0 <= i < a.push(ps.last()).len() && 0 <= j < a.push(ps.last()).len() && i
                    != j implies a.push(ps.last())[i] != a.push(ps.last())[j] by {
                if i < a.len() && j < a.len() {
                } else if i < a.len() {
                    assert(a.contains(a[i]));
                } else if j < a.len() {
                    assert(a.contains(a[j]));
                }
            }
        }
    }
}

/// The files the entries name are listed once each.
pub proof fn lemma_first_use_paths_distinct(defs: Seq<BlockDef>)
    ensures
        first_use_paths(defs).no_duplicates(),
    decreases defs.len(),
{
    if defs.len() > 0 {
        lemma_first_use_paths_distinct(defs.drop_last());
        lemma_add_new_distinct(first_use_paths(defs.drop_last()), face_paths(defs.last().textures));
    }
}

proof fn lemma_position_found(paths: Seq<Seq<char>>, p: Seq<char>, i: int)
    requires
        0 <= i < paths.len(),
        paths[i] == p,
        paths.no_duplicates(),
    ensures
        position(paths, p) == i,
    decreases paths.len(),
{
    if i > 0 {
        assert(paths[0] != p);
        assert(paths.drop_first()[i - 1] == p);
        lemma_position_found(paths.drop_first(), p, i - 1);
    }
}

proof fn lemma_position_absent(paths: Seq<Seq<char>>, p: Seq<char>)
    requires
        !paths.contains(p),
    ensures
        position(paths, p) == paths.len(),
    decreases paths.len(),
{
    if paths.len() > 0 {
        assert(paths[0] != p);
        assert(!paths.drop_first().contains(p)) by {
            if paths.drop_first().contains(p) {
                let k = choose|k: int| 0 <= k < paths.drop_first().len() && paths.drop_first()[k] == p;
                assert(paths[k + 1] == p);
            }
        }
        lemma_position_absent(paths.drop_first(), p);
    }
}

proof fn lemma_loaded_count_grows(loaded: Seq<Option<u32>>, i: int, j: int)
    requires
        0 <= i <= j <= loaded.len(),
    ensures
        loaded_count(loaded.take(i)) <= loaded_count(loaded.take(j)),
        i < j && loaded[i] is Some ==> loaded_count(loaded.take(i)) < loaded_count(loaded.take(j)),
        loaded_count(loaded.take(j)) <= j,
    decreases j,
{
    if j > 0 {
        assert(loaded.take(j).drop_last() =~= loaded.take(j - 1));
        let i2 = if i < j {
            i
        } else {
            j - 1
        };
        lemma_loaded_count_grows(loaded, i2, j - 1);
        if i == j - 1 {
            assert(loaded.take(j).last() == loaded[i]);
        }
    } else {
        assert(loaded.take(0) =~= Seq::<Option<u32>>::empty());
    }
}

/// Layers follow files: faces naming the same file share its layer, a
/// file that loaded lives at a layer past the missing-texture layer 0, one
/// that did not resolves to 0, and two different files that loaded never
/// share a layer.
pub proof fn lemma_layers_follow_files(
    paths: Seq<Seq<char>>,
    loaded: Seq<Option<u32>>,
    p: Seq<char>,
    q: Seq<char>,
)
    requires
        paths.no_duplicates(),
        loaded.len() == paths.len(),
        loaded.len() < u32::MAX,
    ensures
        p == q ==> path_layer(paths, loaded, p) == path_layer(paths, loaded, q),
        path_layer(paths, loaded, p) >= 1 <==> (paths.contains(p) && loaded[position(
            paths,
            p,
        )] is Some),
        paths.contains(p) && paths.contains(q) && p != q && loaded[position(paths, p)] is Some
            && loaded[position(paths, q)] is Some ==> path_layer(paths, loaded, p) != path_layer(
            paths,
            loaded,
            q,
        ),
{
    let lp = path_layer(paths, loaded, p);
    let ip = position(paths, p);
    let iq = position(paths, q);
    if paths.contains(p) {
        let k = choose|k: int| 0 <= k < paths.len() && paths[k] == p;
        lemma_position_found(paths, p, k);
        lemma_loaded_count_grows(loaded, ip, ip);
    } else {
        lemma_position_absent(paths, p);
    }
    if paths.contains(q) {
        let k = choose|k: int| 0 <= k < paths.len() && paths[k] == q;
        lemma_position_found(paths, q, k);
    } else {
        lemma_position_absent(paths, q);
    }
    if paths.contains(p) && paths.contains(q) && p != q && loaded[ip] is Some && loaded[iq] is Some {
        assert(ip != iq);
        if ip < iq {
            lemma_loaded_count_grows(loaded, ip, iq);
            lemma_loaded_count_grows(loaded, iq, iq);
        } else {
            lemma_loaded_count_grows(loaded, iq, ip);
            lemma_loaded_count_grows(loaded, ip, ip);
        }
    }
}

/// The texture views of a list of file names.
pub open spec fn path_views(v: Seq<String>) -> Seq<Seq<char>> {
    v.map_values(|s: String| s@)
}

/// Adds `p` at the end unless it is there already.
fn add_path(out: &mut Vec<String>, p: &String)
    ensures
        path_views(final(out)@) == if path_views(old(out)@).contains(p@) {
            path_views(old(out)@)
        } else {
            path_views(old(out)@).push(p@)
        },
{
    let mut i: usize = 0;
    while i < out.len()
        invariant
            i <= out@.len(),
            out@ == old(out)@,
            forall|j: int| 0 <= j < i ==> path_views(out@)[j] != p@,
        decreases out@.len() - i,
    {
        if out[i] == *p {
            proof {
                assert(path_views(out@)[i as int] == p@);
            }
            return;
        }
        i = i + 1;
    }
    out.push(p.clone());
    proof {
        assert(path_views(out@) =~= path_views(old(out)@).push(p@));
    }
}

/// The position of `p` in `paths`, or the length when absent.
fn path_position(paths: &Vec<String>, p: &String) -> (r: usize)
    ensures
        r == position(path_views(paths@), p@),
{
    let ghost vs = path_views(paths@);
    let mut i: usize = 0;
    proof {
        assert(vs.skip(0) =~= vs);
    }
    while i < paths.len()
        invariant
            i <= paths@.len(),
            vs == path_views(paths@),
            position(vs, p@) == i + position(vs.skip(i as int), p@),
        decreases paths@.len() - i,
    {
        proof {
            assert(vs.skip(i as int).drop_first() =~= vs.skip(i + 1));
        }
        if paths[i] == *p {
            return i;
        }
        i = i + 1;
    }
    proof {
        assert(vs.skip(i as int) =~= Seq::<Seq<char>>::empty());
    }
    i
}

/// Every texture file the registry's blocks name, each once, in the order
/// the blocks (ascending id) and their faces (top, side, bottom) first use
/// it.
pub fn texture_paths(reg: &BlockRegistry) -> (r: Vec<String>)
    ensures
        path_views(r@) == first_use_paths(reg.defs()),
{
    let entries = reg.iter();
    let mut out: Vec<String> = Vec::new();
    let mut i: usize = 0;
    proof {
        assert(path_views(out@) =~= Seq::<Seq<char>>::empty());
    }
    while i < entries.len()
        invariant
            i <= entries@.len(),
            entries@.len() == reg.defs().len(),
            forall|k: int| 0 <= k < entries@.len() ==> *(#[trigger] entries@[k]).1 == reg.defs()[k],
            path_views(out@) == first_use_paths(reg.defs().take(i as int)),
        decreases entries@.len() - i,
    {
        let d = entries[i].1;
        proof {
            assert(reg.defs().take(i + 1).drop_last() =~= reg.defs().take(i as int));
            assert(reg.defs().take(i + 1).last() == *d);
        }
        let ghost acc = path_views(out@);
        match &d.textures {
            TextureSpec::Untextured => {
                proof {
                    assert(face_paths(d.textures) =~= Seq::<Seq<char>>::empty());
                    assert(add_new(acc, face_paths(d.textures)) == acc);
                }
            },
            TextureSpec::All(p) => {
                add_path(&mut out, p);
                proof {
                    let ps = face_paths(d.textures);
                    assert(ps.drop_last() =~= Seq::<Seq<char>>::empty());
                    assert(add_new(acc, ps.drop_last()) == acc);
                    assert(add_new(acc, ps) == path_views(out@));
                }
            },
            TextureSpec::Faces { top, side, bottom } => {
                let ghost a0 = path_views(out@);
                add_path(&mut out, top);
                let ghost a1 = path_views(out@);
                add_path(&mut out, side);
                let ghost a2 = path_views(out@);
                add_path(&mut out, bottom);
                proof {
                    let ps = face_paths(d.textures);
                    assert(ps.drop_last() =~= seq![top@, side@]);
                    assert(ps.drop_last().drop_last() =~= seq![top@]);
                    assert(ps.drop_last().drop_last().drop_last() =~= Seq::<Seq<char>>::empty());
                    assert(add_new(acc, ps.drop_last().drop_last().drop_last()) == acc);
                    assert(add_new(acc, ps.drop_last().drop_last()) == a1);
                    assert(add_new(acc, ps.drop_last()) == a2);
                    assert(add_new(acc, ps) == path_views(out@));
                }
            },
        }
        proof {
            assert(first_use_paths(reg.defs().take(i + 1)) == add_new(
                first_use_paths(reg.defs().take(i as int)),
                face_paths(d.textures),
            ));
        }
        i = i + 1;
    }
    proof {
        assert(reg.defs().take(i as int) =~= reg.defs());
    }
    out
}

/// The layer of file `p` given the per-file layer numbers.
fn layer_of(paths: &Vec<String>, loaded: &Vec<Option<u32>>, layer_no: &Vec<u32>, p: &String) -> (r: u32)
    requires
        layer_no@.len() == loaded@.len(),
        forall|j: int|
            0 <= j < loaded@.len() && (#[trigger] loaded@[j]) is Some ==> layer_no@[j] == 1
                + loaded_count(loaded@.take(j)),
    ensures
        r == path_layer(path_views(paths@), loaded@, p@),
{
    let i = path_position(paths, p);
    if i < loaded.len() {
        match loaded[i] {
            Some(_) => layer_no[i],
            None => 0,
        }
    } else {
        0
    }
}

/// The layer table for the registry, given for each file of
/// `texture_paths` (in that order) its edge length if it loaded; and the
/// edge length shared by all layers (16 when nothing loaded).
pub fn build_layer_table(reg: &BlockRegistry, loaded: &Vec<Option<u32>>) -> (r: (
    BlockTextureLayers,
    u32,
))
    requires
        loaded@.len() == first_use_paths(reg.defs()).len(),
        loaded@.len() < u32::MAX,
        same_size(loaded@),
    ensures
        r.0.0@ == layer_map(reg.defs(), first_use_paths(reg.defs()), loaded@),
        r.1 == texture_size(loaded@),
{
    let paths = texture_paths(reg);
    // Per-file layer numbers.
    let mut layer_no: Vec<u32> = Vec::new();
    let mut count: u32 = 0;
    let mut j: usize = 0;
    while j < loaded.len()
        invariant
            j <= loaded@.len() < u32::MAX,
            layer_no@.len() == j,
            count == loaded_count(loaded@.take(j as int)),
            count <= j,
            forall|m: int|
                0 <= m < j && (#[trigger] loaded@[m]) is Some ==> layer_no@[m] == 1 + loaded_count(
                    loaded@.take(m),
                ),
        decreases loaded@.len() - j,
    {
        proof {
            assert(loaded@.take(j + 1).drop_last() =~= loaded@.take(j as int));
        }
        match loaded[j] {
            Some(_) => {
                layer_no.push(count + 1);
                count = count + 1;
            },
            None => {
                layer_no.push(0);
            },
        }
        j = j + 1;
    }
    let entries = reg.iter();
    let ghost pv = path_views(paths@);
    let mut out: BTreeMap<u16, [u32; 3]> = BTreeMap::new();
    let mut i: usize = 0;
    proof {
        assert(out@ =~= layer_map(reg.defs().take(0), pv, loaded@));
    }
    while i < entries.len()
        invariant
            i <= entries@.len(),
            entries@.len() == reg.defs().len(),
            forall|k: int|
                0 <= k < entries@.len() ==> (#[trigger] entries@[k]).0 == BlockId(reg.defs()[k].id)
                    && *entries@[k].1 == reg.defs()[k],
            pv == path_views(paths@),
            pv == first_use_paths(reg.defs()),
            layer_no@.len() == loaded@.len(),
            forall|m: int|
                0 <= m < loaded@.len() && (#[trigger] loaded@[m]) is Some ==> layer_no@[m] == 1
                    + loaded_count(loaded@.take(m)),
            out@ == layer_map(reg.defs().take(i as int), pv, loaded@),
        decreases entries@.len() - i,
    {
        let (id, d) = entries[i];
        proof {
            assert(reg.defs().take(i + 1).drop_last() =~= reg.defs().take(i as int));
            assert(reg.defs().take(i + 1).last() == *d);
        }
        match &d.textures {
            TextureSpec::Untextured => {},
            TextureSpec::All(p) => {
                let l = layer_of(&paths, loaded, &layer_no, p);
                layers_put(&mut out, id.0, [l, l, l]);
                proof {
                    assert(out@ =~= layer_map(reg.defs().take(i + 1), pv, loaded@));
                }
            },
            TextureSpec::Faces { top, side, bottom } => {
                let t = layer_of(&paths, loaded, &layer_no, top);
                let s = layer_of(&paths, loaded, &layer_no, side);
                let b = layer_of(&paths, loaded, &layer_no, bottom);
                layers_put(&mut out, id.0, [t, s, b]);
                proof {
                    assert(out@ =~= layer_map(reg.defs().take(i + 1), pv, loaded@));
                }
            },
        }
        i = i + 1;
    }
    proof {
        assert(reg.defs().take(i as int) =~= reg.defs());
    }
    // The shared edge length: the first file that loaded.
    let mut size: u32 = 16;
    let mut k: usize = loaded.len();
    while k > 0
        invariant
            k <= loaded@.len(),
            size == texture_size(loaded@.skip(k as int)),
        decreases k,
    {
        proof {
            assert(loaded@.skip(k - 1).drop_first() =~= loaded@.skip(k as int));
        }
        match loaded[k - 1] {
            Some(s) => {
                size = s;
            },
            None => {},
        }
        k = k - 1;
    }
    proof {
        assert(loaded@.skip(0) =~= loaded@);
    }
    (BlockTextureLayers(out), size)
}

/// Edge length of one checkerboard cell: a quarter of the texture, at
/// least one pixel.
pub open spec fn checker_cell(size: u32) -> u32 {
    if size / 4 > 1 {
        size / 4
    } else {
        1
    }
}

/// The missing-texture pixel at `(x, y)`: magenta where the cell
/// coordinates sum to an even number, black elsewhere.
pub open spec fn checker_pixel(size: u32, x: int, y: int) -> [u8; 4] {
    if (x / checker_cell(size) as int + y / checker_cell(size) as int) % 2 == 0 {
        [255u8, 0u8, 255u8, 255u8]
    } else {
        [0u8, 0u8, 0u8, 255u8]
    }
}

/// The layer-0 texture: a high-contrast magenta/black checkerboard of
/// `size`×`size` RGBA pixels, row by row, sized like the block textures so
/// the array texture stays uniform.
pub fn missing_texture_pixels(size: u32) -> (r: Vec<[u8; 4]>)
    requires
        size * size <= usize::MAX,
    ensures
        r@.len() == size * size,
        forall|y: int, x: int|
            0 <= y < size && 0 <= x < size ==> #[trigger] r@[y * size + x] == checker_pixel(size, x, y),
{
    let cell: u32 = if size / 4 > 1 {
        size / 4
    } else {
        1
    };
    let mut out: Vec<[u8; 4]> = Vec::new();
    let mut y: u32 = 0;
    while y < size
        invariant
            y <= size,
            size * size <= usize::MAX,
            cell == checker_cell(size),
            out@.len() == y * size,
            forall|yy: int, xx: int|
                0 <= yy < y && 0 <= xx < size ==> #[trigger] out@[yy * size + xx] == checker_pixel(
                    size,
                    xx,
                    yy,
                ),
        decreases size - y,
    {
        let mut x: u32 = 0;
        while x < size
            invariant
                x <= size,
                y < size,
                size * size <= usize::MAX,
                cell == checker_cell(size),
                out@.len() == y * size + x,
                forall|yy: int, xx: int|
                    0 <= yy < y && 0 <= xx < size ==> #[trigger] out@[yy * size + xx]
                        == checker_pixel(size, xx, yy),
                forall|xx: int| 0 <= xx < x ==> #[trigger] out@[y * size + xx] == checker_pixel(size, xx, y as int),
            decreases size - x,
        {
            let cells: u64 = (x / cell) as u64 + (y / cell) as u64;
            let px: [u8; 4] = if cells % 2 == 0 {
                [255, 0, 255, 255]
            } else {
                [0, 0, 0, 255]
            };
            proof {
                assert(y * size + x + 1 <= size * size) by (nonlinear_arith)
                    requires
                        y < size,
                        x < size,
                ;
            }
            out.push(px);
            proof {
                assert(px@ =~= checker_pixel(size, x as int, y as int)@);
                assert forall|yy: int, xx: int|
                    0 <= yy < y && 0 <= xx < size implies #[trigger] out@[yy * size + xx]
                    == checker_pixel(size, xx, yy) by {
                    assert(yy * size + xx < y * size) by (nonlinear_arith)
                        requires
                            0 <= yy < y,
                            0 <= xx < size,
                    ;
                }
            }
            x = x + 1;
        }
        proof {
            assert forall|yy: int, xx: int|
                0 <= yy < y + 1 && 0 <= xx < size implies #[trigger] out@[yy * size + xx]
                == checker_pixel(size, xx, yy) by {
                if yy == y {
                    assert(out@[y * size + xx] == checker_pixel(size, xx, y as int));
                }
            }
            assert((y + 1) * size == y * size + size) by (nonlinear_arith);
        }
        y = y + 1;
    }
    out
}

/// Records the layers of block `id`.
fn layers_put(m: &mut BTreeMap<u16, [u32; 3]>, id: u16, l: [u32; 3])
    ensures
        final(m)@ == old(m)@.insert(id, l),
{
    broadcast use vstd::laws_cmp::group_laws_cmp;

    m.insert(id, l);
}

impl BlockTextureLayers {
    /// The layers of block `id`, if it is textured.
    pub fn get(&self, id: BlockId) -> (r: Option<[u32; 3]>)
        ensures
            r == if self.0@.contains_key(id.0) {
                Some(self.0@[id.0])
            } else {
                None
            },
    {
        broadcast use vstd::laws_cmp::group_laws_cmp;

        match self.0.get(&id.0) {
            Some(l) => Some(*l),
            None => None,
        }
    }
}

} // verus!
