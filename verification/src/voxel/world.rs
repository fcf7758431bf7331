use vstd::prelude::*;

use crate::math::{IVec2, IVec3};
use crate::voxel::chunk_map::ChunkMap;
use crate::voxel::data::{
    ChunkVoxels, VoxelKind, halo_side, mirrored_cell, direction_side, is_cardinal, MESH_CHANGED,
    COLLIDER_CHANGED,
};
use crate::voxel::rebuild::{border_halos, border_halo_list, chunk_directions};
use crate::voxel::settings::{split_position, VoxelSettings};

verus! {

/// What reading the world through `chunks` gives at an integer world position:
/// the cell of the chunk that holds it, `None` when that chunk is absent or the
/// height lies outside it.
pub open spec fn read_world(chunk_size: int, chunks: Map<IVec2, ChunkVoxels>, world: IVec3) -> Option<
    VoxelKind,
> {
    let (chunk, local) = split_position(chunk_size, world);
    if chunks.dom().contains(chunk) {
        chunks[chunk].voxel(local)
    } else {
        None
    }
}

/// The voxel at an integer world position among the given chunks; `None` when
/// its chunk is not there or the height is outside the chunk.
pub fn world_voxel(settings: &VoxelSettings, chunks: &ChunkMap<ChunkVoxels>, world: IVec3) -> (kind:
    Option<VoxelKind>)
    requires
        settings.chunk_size > 0,
    ensures
        kind == read_world(settings.chunk_size as int, chunks@, world),
{
    let (chunk, local) = settings.split_world_position(world);
    match chunks.get(chunk) {
        Some(voxels) => voxels.get(local),
        None => None,
    }
}

/// The chunk direction that a halo side faces.
pub open spec fn side_direction(side: int) -> IVec2 {
    if side == 0 {
        IVec2 { x: -1i32, y: 0 }
    } else if side == 1 {
        IVec2 { x: 1, y: 0 }
    } else if side == 2 {
        IVec2 { x: 0, y: -1i32 }
    } else {
        IVec2 { x: 0, y: 1 }
    }
}

/// Every chunk has the world's width and height.
pub open spec fn uniform_chunks(size: int, height: int, chunks: Map<IVec2, ChunkVoxels>) -> bool {
    forall|c: IVec2|
        #[trigger] chunks.dom().contains(c) ==> chunks[c].spec_size() == size && chunks[c].spec_height()
            == height
}

/// The halo sample of chunk `c` at `p` equals the mirrored cell of `n` when `n`
/// is the neighbour on the side that `p` lies on.
pub open spec fn halo_agrees(chunks: Map<IVec2, ChunkVoxels>, c: IVec2, n: IVec2, p: IVec3) -> bool {
    match halo_side(chunks[c].spec_size(), chunks[c].spec_height(), p) {
        Some((side, offset)) => (n.x == c.x + side_direction(side).x && n.y == c.y + side_direction(
            side,
        ).y) ==> chunks[c].halo_voxel(p) == chunks[n].voxel(
            mirrored_cell(chunks[c].spec_size(), side, offset, p.y as int),
        ),
        None => true,
    }
}

/// Every halo sample mirrors the neighbouring chunk's border, wherever that
/// neighbour is present.
pub open spec fn halos_agree(chunks: Map<IVec2, ChunkVoxels>) -> bool {
    forall|c: IVec2, n: IVec2, p: IVec3|
        chunks.dom().contains(c) && chunks.dom().contains(n) ==> #[trigger] halo_agrees(chunks, c, n, p)
}

/// Whether `(c, p)` is one of the neighbour halo samples listed in `list` for an
/// edit in `chunk`.
pub open spec fn border_target(list: Seq<(IVec2, IVec3)>, chunk: IVec2, c: IVec2, p: IVec3) -> bool {
    exists|j: int|
        0 <= j < list.len() && c.x == chunk.x + (#[trigger] list[j]).0.x && c.y == chunk.y
            + list[j].0.y && p == list[j].1
}

/// The halo sample of chunk `c` at `p` after the first `k` listed neighbour
/// samples were set to `kind`, starting from `before` (an absent sample stays absent).
pub open spec fn halo_after(
    list: Seq<(IVec2, IVec3)>,
    k: int,
    chunk: IVec2,
    c: IVec2,
    p: IVec3,
    kind: VoxelKind,
    before: Option<VoxelKind>,
) -> Option<VoxelKind>
    decreases k,
{
    if k <= 0 {
        before
    } else {
        let prev = halo_after(list, k - 1, chunk, c, p, kind, before);
        if c.x == chunk.x + list[k - 1].0.x && c.y == chunk.y + list[k - 1].0.y && p == list[k - 1].1
            && prev is Some {
            Some(kind)
        } else {
            prev
        }
    }
}

proof fn lemma_halo_after(
    list: Seq<(IVec2, IVec3)>,
    k: int,
    chunk: IVec2,
    c: IVec2,
    p: IVec3,
    kind: VoxelKind,
    before: Option<VoxelKind>,
)
    requires
        0 <= k <= list.len(),
    ensures
        halo_after(list, k, chunk, c, p, kind, before) == if before is Some && border_target(
            list.take(k),
            chunk,
            c,
            p,
        ) {
            Some(kind)
        } else {
            before
        },
    decreases k,
{
    if k > 0 {
        lemma_halo_after(list, k - 1, chunk, c, p, kind, before);
        let t = list.take(k);
        let s = list.take(k - 1);
        if border_target(s, chunk, c, p) {
            let j = choose|j: int|
                0 <= j < s.len() && c.x == chunk.x + (#[trigger] s[j]).0.x && c.y == chunk.y
                    + s[j].0.y && p == s[j].1;
            assert(t[j] == s[j]);
        }
        if border_target(t, chunk, c, p) && !border_target(s, chunk, c, p) {
            let j = choose|j: int|
                0 <= j < t.len() && c.x == chunk.x + (#[trigger] t[j]).0.x && c.y == chunk.y
                    + t[j].0.y && p == t[j].1;
            if j < k - 1 {
                assert(s[j] == t[j]);
            }
        }
        if c.x == chunk.x + list[k - 1].0.x && c.y == chunk.y + list[k - 1].0.y && p == list[k
            - 1].1 {
            assert(t[k - 1] == list[k - 1]);
        }
    } else {
        assert(list.take(0).len() == 0);
    }
}

/// The listed neighbour samples of an edit at `local` are exactly the halo
/// positions, in the chunks that border `chunk`, that mirror `local`.
proof fn lemma_border_targets(size: int, height: int, chunk: IVec2, local: IVec3, c: IVec2, p: IVec3)
    requires
        0 < size <= i32::MAX,
        0 <= local.x < size,
        0 <= local.z < size,
        0 <= local.y < height,
    ensures
        border_target(border_halo_list(local, size), chunk, c, p) <==> (halo_side(size, height, p) matches Some(
            (side, offset),
        ) && c.x + side_direction(side).x == chunk.x && c.y + side_direction(side).y == chunk.y
            && mirrored_cell(size, side, offset, p.y as int) == local),
{
    let list = border_halo_list(local, size);
    let a = if local.x == 0 {
        seq![(IVec2 { x: -1i32, y: 0 }, IVec3 { x: size as i32, y: local.y, z: local.z })]
    } else {
        Seq::empty()
    };
    let b = if local.x == size - 1 {
        seq![(IVec2 { x: 1, y: 0 }, IVec3 { x: -1i32, y: local.y, z: local.z })]
    } else {
        Seq::empty()
    };
    let cc = if local.z == 0 {
        seq![(IVec2 { x: 0, y: -1i32 }, IVec3 { x: local.x, y: local.y, z: size as i32 })]
    } else {
        Seq::empty()
    };
    let d = if local.z == size - 1 {
        seq![(IVec2 { x: 0, y: 1 }, IVec3 { x: local.x, y: local.y, z: -1i32 })]
    } else {
        Seq::empty()
    };
    assert(list == a + b + cc + d);
    let right = halo_side(size, height, p) matches Some((side, offset)) && c.x + side_direction(
        side,
    ).x == chunk.x && c.y + side_direction(side).y == chunk.y && mirrored_cell(
        size,
        side,
        offset,
        p.y as int,
    ) == local;
    if border_target(list, chunk, c, p) {
        let j = choose|j: int|
            0 <= j < list.len() && c.x == chunk.x + (#[trigger] list[j]).0.x && c.y == chunk.y
                + list[j].0.y && p == list[j].1;
        let e = list[j];
        if a.len() == 1 && e == a[0] {
        } else if b.len() == 1 && e == b[0] {
        } else if cc.len() == 1 && e == cc[0] {
        } else {
            assert(d.len() == 1 && e == d[0]) by {
                if j < a.len() {
                    assert(e == a[j]);
                } else if j < a.len() + b.len() {
                    assert(e == (a + b)[j]);
                    assert(e == b[j - a.len()]);
                } else if j < a.len() + b.len() + cc.len() {
                    assert(e == (a + b + cc)[j]);
                    assert(e == cc[j - a.len() - b.len()]);
                } else {
                    assert(e == d[j - a.len() - b.len() - cc.len()]);
                }
            }
        }
        assert(right);
    }
    if right {
        let (side, offset) = halo_side(size, height, p).unwrap();
        if side == 0 {
            assert(local.x == size - 1);
            let j = a.len() as int;
            assert(list[j] == b[0]);
        } else if side == 1 {
            assert(local.x == 0);
            assert(list[0] == a[0]);
        } else if side == 2 {
            assert(local.z == size - 1);
            let j = (a.len() + b.len() + cc.len()) as int;
            assert(list[j] == d[0]);
        } else {
            assert(local.z == 0);
            let j = (a.len() + b.len()) as int;
            assert(list[j] == cc[0]);
        }
    }
}

/// Distinct world positions split into distinct chunk-local pairs.
proof fn lemma_split_injective(size: int, w1: IVec3, w2: IVec3)
    requires
        0 < size <= i32::MAX,
        split_position(size, w1) == split_position(size, w2),
    ensures
        w1 == w2,
{
    let (x1, z1, x2, z2) = (w1.x as int, w1.z as int, w2.x as int, w2.z as int);
    assert forall|v: int| i32::MIN <= v <= i32::MAX implies i32::MIN <= #[trigger] (v / size)
        <= i32::MAX by {
        assert(i32::MIN <= v / size <= i32::MAX) by (nonlinear_arith)
            requires
                size > 0,
                i32::MIN <= v <= i32::MAX,
        ;
    }
    assert(0 <= x1 % size < size && 0 <= x2 % size < size);
    assert(0 <= z1 % size < size && 0 <= z2 % size < size);
    assert(x1 / size == x2 / size);
    assert(z1 / size == z2 / size);
    assert(x1 % size == x2 % size);
    assert(z1 % size == z2 % size);
    vstd::arithmetic::div_mod::lemma_fundamental_div_mod(x1, size);
    vstd::arithmetic::div_mod::lemma_fundamental_div_mod(x2, size);
    vstd::arithmetic::div_mod::lemma_fundamental_div_mod(z1, size);
    vstd::arithmetic::div_mod::lemma_fundamental_div_mod(z2, size);
}

/// Sets one cell of the chunk stored under `key`; the chunk keeps its place.
fn set_in(chunks: &mut ChunkMap<ChunkVoxels>, key: IVec2, local: IVec3, kind: VoxelKind) -> (changed:
    bool)
    requires
        old(chunks)@.dom().contains(key),
    ensures
        final(chunks)@.dom() == old(chunks)@.dom(),
        final(chunks).key_order() == old(chunks).key_order(),
        forall|c: IVec2| c != key ==> #[trigger] final(chunks)@[c] == old(chunks)@[c],
        changed == (old(chunks)@[key].voxel(local) matches Some(prev) && prev != kind),
        final(chunks)@[key].spec_size() == old(chunks)@[key].spec_size(),
        final(chunks)@[key].spec_height() == old(chunks)@[key].spec_height(),
        final(chunks)@[key].halo() == old(chunks)@[key].halo(),
        old(chunks)@[key].in_bounds(local) ==> final(chunks)@[key].voxel(local) == Some(kind),
        forall|q: IVec3| q != local ==> #[trigger] final(chunks)@[key].voxel(q) == old(chunks)@[key].voxel(q),
        changed ==> final(chunks)@[key].spec_modified(),
        changed ==> final(chunks)@[key].spec_changes() == (if old(chunks)@[key].voxel(
            local,
        ).unwrap().spec_is_solid() != kind.spec_is_solid() {
            (old(chunks)@[key].spec_changes() | MESH_CHANGED) | COLLIDER_CHANGED
        } else {
            old(chunks)@[key].spec_changes() | MESH_CHANGED
        }),
        !changed ==> final(chunks)@ == old(chunks)@,
{
    let placeholder = ChunkVoxels::generated(1, 0, Vec::new(), Vec::new());
    let mut voxels = match chunks.insert(key, placeholder) {
        Some(v) => v,
        None => return false,
    };
    let changed = voxels.set(local, kind);
    chunks.insert(key, voxels);
    proof {
        assert(chunks@.dom() =~= old(chunks)@.dom());
        if !changed {
            assert(chunks@ =~= old(chunks)@);
        }
    }
    changed
}

/// Sets one halo sample of the chunk stored under `key`; the chunk keeps its place.
fn set_halo_in(chunks: &mut ChunkMap<ChunkVoxels>, key: IVec2, local: IVec3, kind: VoxelKind)
    requires
        old(chunks)@.dom().contains(key),
    ensures
        final(chunks)@.dom() == old(chunks)@.dom(),
        final(chunks).key_order() == old(chunks).key_order(),
        forall|c: IVec2| c != key ==> #[trigger] final(chunks)@[c] == old(chunks)@[c],
        final(chunks)@[key].spec_size() == old(chunks)@[key].spec_size(),
        final(chunks)@[key].spec_height() == old(chunks)@[key].spec_height(),
        final(chunks)@[key].cells() == old(chunks)@[key].cells(),
        final(chunks)@[key].spec_modified() == old(chunks)@[key].spec_modified(),
        old(chunks)@[key].halo_voxel(local) is Some ==> final(chunks)@[key].halo_voxel(local) == Some(
            kind,
        ),
        forall|q: IVec3|
            q != local ==> #[trigger] final(chunks)@[key].halo_voxel(q) == old(chunks)@[key].halo_voxel(q),
        (old(chunks)@[key].halo_voxel(local) matches Some(prev) && prev != kind) ==> final(chunks)@[key].spec_changes() == old(chunks)@[key].spec_changes() | MESH_CHANGED,
        !(old(chunks)@[key].halo_voxel(local) matches Some(prev) && prev != kind) ==> final(chunks)@ == old(chunks)@,
        marked_if_halo_changed(final(chunks)@[key], old(chunks)@[key]),
{
    let placeholder = ChunkVoxels::generated(1, 0, Vec::new(), Vec::new());
    let mut voxels = match chunks.insert(key, placeholder) {
        Some(v) => v,
        None => return,
    };
    let changed = voxels.set_halo(local, kind);
    chunks.insert(key, voxels);
    proof {
        assert(chunks@.dom() =~= old(chunks)@.dom());
        if !changed {
            assert(chunks@ =~= old(chunks)@);
        }
    }
}

/// The chunk one `step` away from `chunk`.
pub open spec fn target_of(chunk: IVec2, step: IVec2) -> IVec2 {
    IVec2 { x: (chunk.x + step.x) as i32, y: (chunk.y + step.y) as i32 }
}

/// The rank of a cardinal step in the order the border list names them.
spec fn step_rank(d: IVec2) -> int {
    if d.x == -1 {
        0
    } else if d.x == 1 {
        1
    } else if d.y == -1 {
        2
    } else {
        3
    }
}

/// The neighbours an edit reaches are all different chunks.
proof fn lemma_border_list_distinct(local: IVec3, size: int)
    ensures
        forall|i: int, j: int|
            0 <= i < j < border_halo_list(local, size).len() ==> (#[trigger] border_halo_list(
                local,
                size,
            )[i]).0 != (#[trigger] border_halo_list(local, size)[j]).0,
{
    let list = border_halo_list(local, size);
    let a = if local.x == 0 {
        seq![(IVec2 { x: -1i32, y: 0 }, IVec3 { x: size as i32, y: local.y, z: local.z })]
    } else {
        Seq::empty()
    };
    let b = if local.x == size - 1 {
        seq![(IVec2 { x: 1, y: 0 }, IVec3 { x: -1i32, y: local.y, z: local.z })]
    } else {
        Seq::empty()
    };
    let cc = if local.z == 0 {
        seq![(IVec2 { x: 0, y: -1i32 }, IVec3 { x: local.x, y: local.y, z: size as i32 })]
    } else {
        Seq::empty()
    };
    let d = if local.z == size - 1 {
        seq![(IVec2 { x: 0, y: 1 }, IVec3 { x: local.x, y: local.y, z: -1i32 })]
    } else {
        Seq::empty()
    };
    assert(list == a + b + cc + d);
    // The index of an entry is the number of entries of lower rank.
    assert forall|j: int| 0 <= j < list.len() implies j == (if a.len() > 0 && step_rank(
        (#[trigger] list[j]).0,
    ) > 0 {
        1int
    } else {
        0
    }) + (if b.len() > 0 && step_rank(list[j].0) > 1 {
        1int
    } else {
        0
    }) + (if cc.len() > 0 && step_rank(list[j].0) > 2 {
        1int
    } else {
        0
    }) by {
        if j < a.len() {
            assert(list[j] == a[j]);
        } else if j < a.len() + b.len() {
            assert(list[j] == (a + b)[j]);
        } else if j < a.len() + b.len() + cc.len() {
            assert(list[j] == (a + b + cc)[j]);
        }
    }
}

/// Each listed neighbour sample of an edit lies one chunk away along x or z.
proof fn lemma_border_list_steps(local: IVec3, size: int)
    ensures
        forall|j: int|
            0 <= j < border_halo_list(local, size).len() ==> -1 <= (#[trigger] border_halo_list(
                local,
                size,
            )[j]).0.x <= 1 && -1 <= border_halo_list(local, size)[j].0.y <= 1 && (border_halo_list(
                local,
                size,
            )[j].0.x != 0 || border_halo_list(local, size)[j].0.y != 0),
{
    let list = border_halo_list(local, size);
    assert forall|j: int| 0 <= j < list.len() implies -1 <= (#[trigger] list[j]).0.x <= 1 && -1
        <= list[j].0.y <= 1 && (list[j].0.x != 0 || list[j].0.y != 0) by {
        let a = if local.x == 0 {
            seq![(IVec2 { x: -1i32, y: 0 }, IVec3 { x: size as i32, y: local.y, z: local.z })]
        } else {
            Seq::empty()
        };
        let b = if local.x == size - 1 {
            seq![(IVec2 { x: 1, y: 0 }, IVec3 { x: -1i32, y: local.y, z: local.z })]
        } else {
            Seq::empty()
        };
        let cc = if local.z == 0 {
            seq![(IVec2 { x: 0, y: -1i32 }, IVec3 { x: local.x, y: local.y, z: size as i32 })]
        } else {
            Seq::empty()
        };
        let d = if local.z == size - 1 {
            seq![(IVec2 { x: 0, y: 1 }, IVec3 { x: local.x, y: local.y, z: -1i32 })]
        } else {
            Seq::empty()
        };
        assert(list == a + b + cc + d);
        if j < a.len() {
            assert(list[j] == a[j]);
        } else if j < a.len() + b.len() {
            assert(list[j] == (a + b)[j]);
        } else if j < a.len() + b.len() + cc.len() {
            assert(list[j] == (a + b + cc)[j]);
        }
    }
}

/// Writes one voxel at an integer world position. The chunk is looked up among
/// the loaded chunks, then among the stored ones; `None` when neither holds it
/// (the caller then generates it into `stored` and writes again). When the
/// cell changed, each chunk bordering it gets the new kind in the matching
/// halo sample, in the loaded copy where one is loaded, else in the stored one.
/// Returns whether the cell changed.
#[verifier::rlimit(100)]
pub fn set_world_voxel(
    settings: &VoxelSettings,
    loaded: &mut ChunkMap<ChunkVoxels>,
    stored: &mut ChunkMap<ChunkVoxels>,
    world: IVec3,
    kind: VoxelKind,
) -> (changed: Option<bool>)
    requires
        settings.chunk_size > 0,
        uniform_chunks(settings.chunk_size as int, settings.max_height as int, old(loaded)@),
        uniform_chunks(settings.chunk_size as int, settings.max_height as int, old(stored)@),
        i32::MIN < split_position(settings.chunk_size as int, world).0.x < i32::MAX,
        i32::MIN < split_position(settings.chunk_size as int, world).0.y < i32::MAX,
    ensures
        ({
            let size = settings.chunk_size as int;
            let height = settings.max_height as int;
            let (chunk, local) = split_position(size, world);
            let in_loaded = old(loaded)@.dom().contains(chunk);
            let in_stored = old(stored)@.dom().contains(chunk);
            let target = if in_loaded {
                old(loaded)@
            } else {
                old(stored)@
            };
            let written = if 0 <= world.y < height {
                Some(kind)
            } else {
                None
            };
            &&& (changed is None <==> !in_loaded && !in_stored)
            &&& changed is None ==> final(loaded)@ == old(loaded)@ && final(stored)@ == old(stored)@
            &&& changed is Some ==> changed == Some(
                target[chunk].voxel(local) matches Some(prev) && prev != kind,
            )
            &&& final(loaded)@.dom() == old(loaded)@.dom()
            &&& final(stored)@.dom() == old(stored)@.dom()
            &&& final(loaded).key_order() == old(loaded).key_order()
            &&& final(stored).key_order() == old(stored).key_order()
            &&& uniform_chunks(size, height, final(loaded)@)
            &&& uniform_chunks(size, height, final(stored)@)
            &&& in_loaded ==> read_world(size, final(loaded)@, world) == written
            &&& (!in_loaded && in_stored) ==> read_world(size, final(stored)@, world) == written
            &&& forall|w: IVec3|
                w != world ==> #[trigger] read_world(size, final(loaded)@, w) == read_world(
                    size,
                    old(loaded)@,
                    w,
                )
            &&& forall|w: IVec3|
                w != world ==> #[trigger] read_world(size, final(stored)@, w) == read_world(
                    size,
                    old(stored)@,
                    w,
                )
            &&& in_loaded ==> forall|w: IVec3|
                #[trigger] read_world(size, final(stored)@, w) == read_world(size, old(stored)@, w)
            &&& !in_loaded ==> forall|w: IVec3|
                #[trigger] read_world(size, final(loaded)@, w) == read_world(size, old(loaded)@, w)
            &&& changed == Some(true) && in_loaded ==> final(loaded)@[chunk].spec_modified()
            &&& changed == Some(true) && !in_loaded ==> final(stored)@[chunk].spec_modified()
            &&& changed == Some(true) ==> forall|n: IVec2, p: IVec3|
                #[trigger] border_target(border_halo_list(local, size), chunk, n, p) ==> (
                final(loaded)@.dom().contains(n) ==> final(loaded)@[n].halo_voxel(p) == Some(kind))
                && ((!final(loaded)@.dom().contains(n) && final(stored)@.dom().contains(n))
                ==> final(stored)@[n].halo_voxel(p) == Some(kind))
            &&& halos_agree(old(loaded)@) ==> halos_agree(final(loaded)@)
            &&& forall|c: IVec2|
                #[trigger] final(loaded)@.dom().contains(c) && c != chunk ==> final(loaded)@[c].spec_changes()
                    == old(loaded)@[c].spec_changes() || final(loaded)@[c].spec_changes() == old(loaded)@[c].spec_changes() | MESH_CHANGED
            &&& forall|c: IVec2, p: IVec3|
                final(loaded)@.dom().contains(c) && c != chunk && #[trigger] final(loaded)@[c].halo_voxel(p)
                    != old(loaded)@[c].halo_voxel(p) ==> final(loaded)@[c].spec_changes() == old(loaded)@[c].spec_changes() | MESH_CHANGED
            &&& forall|c: IVec2|
                #[trigger] final(stored)@.dom().contains(c) && c != chunk ==> final(stored)@[c].spec_changes()
                    == old(stored)@[c].spec_changes() || final(stored)@[c].spec_changes() == old(stored)@[c].spec_changes() | MESH_CHANGED
            &&& forall|c: IVec2|
                #[trigger] final(loaded)@.dom().contains(c) && c != chunk ==> marked_if_halo_changed(
                    final(loaded)@[c],
                    old(loaded)@[c],
                )
            &&& forall|c: IVec2|
                #[trigger] final(stored)@.dom().contains(c) && c != chunk ==> marked_if_halo_changed(
                    final(stored)@[c],
                    old(stored)@[c],
                )
            &&& forall|c: IVec2, p: IVec3|
                final(stored)@.dom().contains(c) && c != chunk && #[trigger] final(stored)@[c].halo_voxel(p)
                    != old(stored)@[c].halo_voxel(p) ==> final(stored)@[c].spec_changes() == old(stored)@[c].spec_changes() | MESH_CHANGED
            &&& changed == Some(true) && in_loaded ==> final(loaded)@[chunk].spec_changes() == (if target[chunk].voxel(
                local,
            ).unwrap().spec_is_solid() != kind.spec_is_solid() {
                (target[chunk].spec_changes() | MESH_CHANGED) | COLLIDER_CHANGED
            } else {
                target[chunk].spec_changes() | MESH_CHANGED
            })
            &&& changed == Some(true) && !in_loaded ==> final(stored)@[chunk].spec_changes() == (if target[chunk].voxel(
                local,
            ).unwrap().spec_is_solid() != kind.spec_is_solid() {
                (target[chunk].spec_changes() | MESH_CHANGED) | COLLIDER_CHANGED
            } else {
                target[chunk].spec_changes() | MESH_CHANGED
            })
        }),
{
    let ghost size = settings.chunk_size as int;
    let ghost height = settings.max_height as int;
    let (chunk, local) = settings.split_world_position(world);
    let in_loaded = loaded.contains_key(chunk);
    let changed = if in_loaded {
        set_in(loaded, chunk, local, kind)
    } else if stored.contains_key(chunk) {
        set_in(stored, chunk, local, kind)
    } else {
        return None;
    };
    let ghost mid_loaded = loaded@;
    let ghost mid_stored = stored@;
    proof {
        assert forall|w: IVec3| w != world implies #[trigger] read_world(size, mid_loaded, w)
            == read_world(size, old(loaded)@, w) by {
            if split_position(size, w) == split_position(size, world) {
                lemma_split_injective(size, w, world);
            }
        }
        assert forall|w: IVec3| w != world implies #[trigger] read_world(size, mid_stored, w)
            == read_world(size, old(stored)@, w) by {
            if split_position(size, w) == split_position(size, world) {
                lemma_split_injective(size, w, world);
            }
        }
    }
    if !changed {
        return Some(false);
    }
    let halos = border_halos(local, settings.chunk_size);
    proof {
        lemma_border_list_steps(local, size);
    }
    let mut k: usize = 0;
    while k < halos.len()
        invariant
            0 <= k <= halos@.len(),
            halos@ == border_halo_list(local, size),
            forall|j: int|
                0 <= j < halos@.len() ==> -1 <= (#[trigger] halos@[j]).0.x <= 1 && -1
                    <= halos@[j].0.y <= 1 && (halos@[j].0.x != 0 || halos@[j].0.y != 0),
            mid_loaded.dom().contains(chunk) ==> loaded@[chunk] == mid_loaded[chunk],
            mid_stored.dom().contains(chunk) ==> stored@[chunk] == mid_stored[chunk],
            i32::MIN < chunk.x < i32::MAX,
            i32::MIN < chunk.y < i32::MAX,
            loaded@.dom() == mid_loaded.dom(),
            stored@.dom() == mid_stored.dom(),
            loaded.key_order() == old(loaded).key_order(),
            stored.key_order() == old(stored).key_order(),
            forall|c: IVec2|
                mid_loaded.dom().contains(c) ==> (#[trigger] loaded@[c]).cells()
                    == mid_loaded[c].cells() && loaded@[c].spec_size() == mid_loaded[c].spec_size()
                    && loaded@[c].spec_height() == mid_loaded[c].spec_height()
                    && loaded@[c].spec_modified() == mid_loaded[c].spec_modified(),
            forall|c: IVec2|
                mid_stored.dom().contains(c) ==> (#[trigger] stored@[c]).cells()
                    == mid_stored[c].cells() && stored@[c].spec_size() == mid_stored[c].spec_size()
                    && stored@[c].spec_height() == mid_stored[c].spec_height()
                    && stored@[c].spec_modified() == mid_stored[c].spec_modified(),
            forall|c: IVec2|
                #[trigger] mid_loaded.dom().contains(c) ==> loaded@[c].spec_changes()
                    == mid_loaded[c].spec_changes() || loaded@[c].spec_changes()
                    == mid_loaded[c].spec_changes() | MESH_CHANGED,
            forall|c: IVec2|
                #[trigger] mid_loaded.dom().contains(c) ==> marked_if_halo_changed(loaded@[c], mid_loaded[c]),
            forall|c: IVec2|
                #[trigger] mid_stored.dom().contains(c) ==> marked_if_halo_changed(stored@[c], mid_stored[c]),
            forall|j: int|
                k <= j < halos@.len() ==> loaded@[target_of(chunk, (#[trigger] halos@[j]).0)] == mid_loaded[target_of(chunk, halos@[j].0)]
                    && stored@[target_of(chunk, halos@[j].0)] == mid_stored[target_of(chunk, halos@[j].0)],
            forall|c: IVec2, p: IVec3|
                mid_loaded.dom().contains(c) && #[trigger] loaded@[c].halo_voxel(p)
                    != mid_loaded[c].halo_voxel(p) ==> loaded@[c].spec_changes()
                    == mid_loaded[c].spec_changes() | MESH_CHANGED,
            forall|c: IVec2|
                #[trigger] mid_stored.dom().contains(c) ==> stored@[c].spec_changes()
                    == mid_stored[c].spec_changes() || stored@[c].spec_changes()
                    == mid_stored[c].spec_changes() | MESH_CHANGED,
            forall|c: IVec2, p: IVec3|
                mid_stored.dom().contains(c) && #[trigger] stored@[c].halo_voxel(p)
                    != mid_stored[c].halo_voxel(p) ==> stored@[c].spec_changes()
                    == mid_stored[c].spec_changes() | MESH_CHANGED,
            forall|c: IVec2, p: IVec3|
                mid_loaded.dom().contains(c) ==> #[trigger] loaded@[c].halo_voxel(p) == halo_after(
                    halos@,
                    k as int,
                    chunk,
                    c,
                    p,
                    kind,
                    mid_loaded[c].halo_voxel(p),
                ),
            forall|c: IVec2, p: IVec3|
                mid_stored.dom().contains(c) ==> #[trigger] stored@[c].halo_voxel(p) == if mid_loaded.dom().contains(c) {
                    mid_stored[c].halo_voxel(p)
                } else {
                    halo_after(halos@, k as int, chunk, c, p, kind, mid_stored[c].halo_voxel(p))
                },
        decreases halos@.len() - k,
    {
        let (d, h) = halos[k];
        let n = IVec2 { x: chunk.x + d.x, y: chunk.y + d.y };
        let ghost before_loaded = loaded@;
        let ghost before_stored = stored@;
        proof {
            assert(n == target_of(chunk, halos@[k as int].0));
            assert(loaded@[n] == mid_loaded[n] && stored@[n] == mid_stored[n]);
        }
        if loaded.contains_key(n) {
            set_halo_in(loaded, n, h, kind);
        } else if stored.contains_key(n) {
            set_halo_in(stored, n, h, kind);
        }
        proof {
            assert(forall|x: u8| #[trigger] (x | 1u8) | 1u8 == x | 1u8) by (bit_vector);
            assert forall|c: IVec2| #[trigger] mid_loaded.dom().contains(c) implies marked_if_halo_changed(loaded@[c], mid_loaded[c]) by {
                if c != n {
                    assert(loaded@[c] == before_loaded[c]);
                }
            }
            assert forall|c: IVec2| #[trigger] mid_stored.dom().contains(c) implies marked_if_halo_changed(stored@[c], mid_stored[c]) by {
                if c != n {
                    assert(stored@[c] == before_stored[c]);
                }
            }
            assert forall|j: int|
                k + 1 <= j < halos@.len() implies loaded@[target_of(chunk, (#[trigger] halos@[j]).0)] == mid_loaded[target_of(chunk, halos@[j].0)]
                    && stored@[target_of(chunk, halos@[j].0)] == mid_stored[target_of(chunk, halos@[j].0)] by {
                lemma_border_list_distinct(local, size);
                assert(halos@[k as int].0 != halos@[j].0);
                let t = target_of(chunk, halos@[j].0);
                assert(t != n);
                assert(loaded@[t] == before_loaded[t]);
                assert(stored@[t] == before_stored[t]);
            }
            assert forall|c: IVec2, p: IVec3|
                mid_loaded.dom().contains(c) && #[trigger] loaded@[c].halo_voxel(p)
                    != mid_loaded[c].halo_voxel(p) implies loaded@[c].spec_changes()
                    == mid_loaded[c].spec_changes() | MESH_CHANGED by {
                if before_loaded[c].halo_voxel(p) != mid_loaded[c].halo_voxel(p) {
                } else {
                    assert(before_loaded[c].halo_voxel(p) != loaded@[c].halo_voxel(p));
                }
            }
            assert forall|c: IVec2, p: IVec3|
                mid_stored.dom().contains(c) && #[trigger] stored@[c].halo_voxel(p)
                    != mid_stored[c].halo_voxel(p) implies stored@[c].spec_changes()
                    == mid_stored[c].spec_changes() | MESH_CHANGED by {
                if before_stored[c].halo_voxel(p) != mid_stored[c].halo_voxel(p) {
                } else {
                    assert(before_stored[c].halo_voxel(p) != stored@[c].halo_voxel(p));
                }
            }
            assert forall|c: IVec2, p: IVec3| mid_loaded.dom().contains(c) implies #[trigger] loaded@[c].halo_voxel(p)
                == halo_after(halos@, k + 1, chunk, c, p, kind, mid_loaded[c].halo_voxel(p)) by {
                assert(before_loaded[c].halo_voxel(p) == halo_after(halos@, k as int, chunk, c, p, kind, mid_loaded[c].halo_voxel(p)));
            }
            assert forall|c: IVec2, p: IVec3| mid_stored.dom().contains(c) implies #[trigger] stored@[c].halo_voxel(p)
                == if mid_loaded.dom().contains(c) {
                    mid_stored[c].halo_voxel(p)
                } else {
                    halo_after(halos@, k + 1, chunk, c, p, kind, mid_stored[c].halo_voxel(p))
                } by {
                assert(before_stored[c].halo_voxel(p) == if mid_loaded.dom().contains(c) {
                    mid_stored[c].halo_voxel(p)
                } else {
                    halo_after(halos@, k as int, chunk, c, p, kind, mid_stored[c].halo_voxel(p))
                });
            }
        }
        k = k + 1;
    }
    proof {
        let list = halos@;
        assert(list.take(list.len() as int) == list);
        assert forall|w: IVec3|
            #[trigger] read_world(size, loaded@, w) == read_world(size, mid_loaded, w) by {
            let (c, l) = split_position(size, w);
            if mid_loaded.dom().contains(c) {
                assert(loaded@[c].cells() == mid_loaded[c].cells());
            }
        }
        assert forall|w: IVec3|
            #[trigger] read_world(size, stored@, w) == read_world(size, mid_stored, w) by {
            let (c, l) = split_position(size, w);
            if mid_stored.dom().contains(c) {
                assert(stored@[c].cells() == mid_stored[c].cells());
            }
        }
        assert forall|n: IVec2, p: IVec3|
            #[trigger] border_target(border_halo_list(local, size), chunk, n, p) implies (
            loaded@.dom().contains(n) ==> loaded@[n].halo_voxel(p) == Some(kind)) && ((
            !loaded@.dom().contains(n) && stored@.dom().contains(n)) ==> stored@[n].halo_voxel(p)
                == Some(kind)) by {
            lemma_border_targets(size, height, chunk, local, n, p);
            if loaded@.dom().contains(n) {
                lemma_halo_after(list, list.len() as int, chunk, n, p, kind, mid_loaded[n].halo_voxel(p));
                assert(loaded@[n].halo_voxel(p) == halo_after(list, list.len() as int, chunk, n, p, kind, mid_loaded[n].halo_voxel(p)));
            } else if stored@.dom().contains(n) {
                lemma_halo_after(list, list.len() as int, chunk, n, p, kind, mid_stored[n].halo_voxel(p));
                assert(stored@[n].halo_voxel(p) == halo_after(list, list.len() as int, chunk, n, p, kind, mid_stored[n].halo_voxel(p)));
            }
        }
        if halos_agree(old(loaded)@) {
            assert forall|c: IVec2, n: IVec2, p: IVec3|
                loaded@.dom().contains(c) && loaded@.dom().contains(n) implies #[trigger] halo_agrees(
                loaded@,
                c,
                n,
                p,
            ) by {
                assert(halo_agrees(old(loaded)@, c, n, p));
                match halo_side(size, height, p) {
                    Some((side, offset)) => {
                        if n.x == c.x + side_direction(side).x && n.y == c.y + side_direction(side).y {
                            lemma_border_targets(size, height, chunk, local, c, p);
                            lemma_halo_after(list, list.len() as int, chunk, c, p, kind, mid_loaded[c].halo_voxel(p));
                            assert(loaded@[c].halo_voxel(p) == halo_after(list, list.len() as int, chunk, c, p, kind, mid_loaded[c].halo_voxel(p)));
                            let m = mirrored_cell(size, side, offset, p.y as int);
                            assert(loaded@[n].cells() == mid_loaded[n].cells());
                            assert(loaded@[n].voxel(m) == mid_loaded[n].voxel(m));
                            if c != chunk {
                                assert(mid_loaded[c] == old(loaded)@[c]);
                            }
                            if n != chunk {
                                assert(mid_loaded[n] == old(loaded)@[n]);
                            }
                        }
                    },
                    None => {},
                }
            }
        }
    }
    Some(true)
}

/// The chunk one step from `c` towards halo side `side`.
pub open spec fn step(c: IVec2, side: int) -> IVec2 {
    IVec2 {
        x: (c.x + side_direction(side).x) as i32,
        y: (c.y + side_direction(side).y) as i32,
    }
}

/// The halo side of a neighbour that faces back towards side `side`.
pub open spec fn facing_side(side: int) -> int {
    if side == 0 {
        1
    } else if side == 1 {
        0
    } else if side == 2 {
        3
    } else {
        2
    }
}

/// The chunk a position designates: the loaded one, else the stored one.
pub open spec fn lookup(loaded: Map<IVec2, ChunkVoxels>, stored: Map<IVec2, ChunkVoxels>, c: IVec2) -> Option<
    ChunkVoxels,
> {
    if loaded.dom().contains(c) {
        Some(loaded[c])
    } else if stored.dom().contains(c) {
        Some(stored[c])
    } else {
        None
    }
}

/// The halo samples of `c` on `side` equal the mirrored cells of `neighbor`.
pub open spec fn halo_mirrors(c: ChunkVoxels, side: int, neighbor: ChunkVoxels) -> bool {
    forall|p: IVec3|
        #[trigger] c.halo_voxel(p) == match halo_side(c.spec_size(), c.spec_height(), p) {
            Some((s, offset)) => if s == side {
                neighbor.voxel(mirrored_cell(c.spec_size(), s, offset, p.y as int))
            } else {
                c.halo_voxel(p)
            },
            None => c.halo_voxel(p),
        }
}

/// `a` and `b` have the same dimensions, cells and edit mark, and the same halo
/// samples except on the sides that `keep` leaves out.
pub open spec fn same_but_sides(a: ChunkVoxels, b: ChunkVoxels, keep: spec_fn(int) -> bool) -> bool {
    &&& a.spec_size() == b.spec_size()
    &&& a.spec_height() == b.spec_height()
    &&& a.cells() == b.cells()
    &&& a.spec_modified() == b.spec_modified()
    &&& forall|p: IVec3|
        #[trigger] a.halo_voxel(p) == match halo_side(a.spec_size(), a.spec_height(), p) {
            Some((s, offset)) => if keep(s) {
                b.halo_voxel(p)
            } else {
                a.halo_voxel(p)
            },
            None => b.halo_voxel(p),
        }
}

/// Copies into the halo of the loaded chunk at `position`, on `side`, the
/// border of the neighbour there (loaded, else stored) when that neighbour
/// carries edits.
fn pull_border(
    loaded: &mut ChunkMap<ChunkVoxels>,
    stored: &ChunkMap<ChunkVoxels>,
    position: IVec2,
    direction: IVec2,
)
    requires
        old(loaded)@.dom().contains(position),
        is_cardinal(direction),
        i32::MIN < position.x < i32::MAX,
        i32::MIN < position.y < i32::MAX,
        uniform_chunks(old(loaded)@[position].spec_size(), old(loaded)@[position].spec_height(), old(loaded)@),
        uniform_chunks(old(loaded)@[position].spec_size(), old(loaded)@[position].spec_height(), stored@),
    ensures
        final(loaded)@.dom() == old(loaded)@.dom(),
        final(loaded).key_order() == old(loaded).key_order(),
        forall|c: IVec2| c != position ==> #[trigger] final(loaded)@[c] == old(loaded)@[c],
        ({
            let side = direction_side(direction);
            let n = step(position, side);
            let f = final(loaded)@[position];
            let o = old(loaded)@[position];
            match lookup(old(loaded)@, stored@, n) {
                Some(v) => if v.spec_modified() {
                    &&& halo_mirrors(f, side, v)
                    &&& same_but_sides(f, o, |s: int| s != side)
                    &&& marked_if_halo_changed(f, o)
                    &&& f.halo().len() == o.halo().len()
                    &&& forall|i: int|
                        0 <= i < o.halo().len() && (i / o.spec_size()) % 4 != side
                            ==> #[trigger] f.halo()[i] == o.halo()[i]
                } else {
                    f == o
                },
                None => f == o,
            }
        }),
{
    let n = IVec2 { x: position.x + direction.x, y: position.y + direction.y };
    let neighbor: Option<ChunkVoxels> = match loaded.get(n) {
        Some(v) => Some(v.clone()),
        None => match stored.get(n) {
            Some(v) => Some(v.clone()),
            None => None,
        },
    };
    let ghost side = direction_side(direction);
    assert(n == step(position, side));
    let neighbor = match neighbor {
        Some(v) => v,
        None => return,
    };
    if !neighbor.modified() {
        return;
    }
    let placeholder = ChunkVoxels::generated(1, 0, Vec::new(), Vec::new());
    let mut voxels = match loaded.insert(position, placeholder) {
        Some(v) => v,
        None => return,
    };
    let ghost o = voxels;
    voxels.sync_halo(direction, &neighbor);
    let ghost f = voxels;
    loaded.insert(position, voxels);
    proof {
        assert(loaded@.dom() =~= old(loaded)@.dom());
        let v = lookup(old(loaded)@, stored@, n).unwrap();
        assert(neighbor.spec_size() == v.spec_size() && neighbor.cells() == v.cells()
            && neighbor.spec_height() == v.spec_height());
        assert(halo_mirrors(f, side, v));
        assert(same_but_sides(f, o, |s: int| s != side));
    }
}

/// Copies the border cells of `snapshot` (the chunk at `position`) into the
/// facing halo side of the loaded neighbour towards `direction`, if loaded.
fn push_border(
    loaded: &mut ChunkMap<ChunkVoxels>,
    snapshot: &ChunkVoxels,
    position: IVec2,
    direction: IVec2,
)
    requires
        is_cardinal(direction),
        i32::MIN < position.x < i32::MAX,
        i32::MIN < position.y < i32::MAX,
        uniform_chunks(snapshot.spec_size(), snapshot.spec_height(), old(loaded)@),
    ensures
        final(loaded)@.dom() == old(loaded)@.dom(),
        final(loaded).key_order() == old(loaded).key_order(),
        ({
            let side = direction_side(direction);
            let n = step(position, side);
            &&& forall|c: IVec2| c != n ==> #[trigger] final(loaded)@[c] == old(loaded)@[c]
            &&& old(loaded)@.dom().contains(n) ==> {
                let f = final(loaded)@[n];
                let o = old(loaded)@[n];
                &&& halo_mirrors(f, facing_side(side), *snapshot)
                &&& same_but_sides(f, o, |s: int| s != facing_side(side))
                &&& marked_if_halo_changed(f, o)
            }
        }),
{
    let n = IVec2 { x: position.x + direction.x, y: position.y + direction.y };
    let ghost side = direction_side(direction);
    assert(n == step(position, side));
    if !loaded.contains_key(n) {
        return;
    }
    let back = IVec2 { x: -direction.x, y: -direction.y };
    assert(is_cardinal(back));
    assert(direction_side(back) == facing_side(side));
    let placeholder = ChunkVoxels::generated(1, 0, Vec::new(), Vec::new());
    let mut voxels = match loaded.insert(n, placeholder) {
        Some(v) => v,
        None => return,
    };
    let ghost o = voxels;
    voxels.sync_halo(back, snapshot);
    let ghost f = voxels;
    loaded.insert(n, voxels);
    proof {
        assert(loaded@.dom() =~= old(loaded)@.dom());
        assert(halo_mirrors(f, facing_side(side), *snapshot));
        assert(same_but_sides(f, o, |s: int| s != facing_side(side)));
    }
}

/// The halo samples of `a` on `side` are those of `b`.
pub open spec fn side_unchanged(a: ChunkVoxels, b: ChunkVoxels, side: int) -> bool {
    forall|p: IVec3|
        #[trigger] a.halo_voxel(p) == match halo_side(a.spec_size(), a.spec_height(), p) {
            Some((s, offset)) => if s == side {
                b.halo_voxel(p)
            } else {
                a.halo_voxel(p)
            },
            None => a.halo_voxel(p),
        }
}

/// Side `side` of `f` after pulling from `neighbor`: a copy of its border when
/// the neighbour carries edits, else as in `o`.
pub open spec fn pulled(f: ChunkVoxels, o: ChunkVoxels, side: int, neighbor: Option<ChunkVoxels>) -> bool {
    match neighbor {
        Some(v) => if v.spec_modified() {
            halo_mirrors(f, side, v)
        } else {
            side_unchanged(f, o, side)
        },
        None => side_unchanged(f, o, side),
    }
}

/// `a` and `b` have the same dimensions, cells and edit mark.
pub open spec fn same_cells(a: ChunkVoxels, b: ChunkVoxels) -> bool {
    &&& a.spec_size() == b.spec_size()
    &&& a.spec_height() == b.spec_height()
    &&& a.cells() == b.cells()
    &&& a.spec_modified() == b.spec_modified()
}

/// Every side of the chunk at `position` pulls from its edited neighbours.
fn pull_all(loaded: &mut ChunkMap<ChunkVoxels>, stored: &ChunkMap<ChunkVoxels>, position: IVec2)
    requires
        old(loaded)@.dom().contains(position),
        i32::MIN < position.x < i32::MAX,
        i32::MIN < position.y < i32::MAX,
        uniform_chunks(old(loaded)@[position].spec_size(), old(loaded)@[position].spec_height(), old(loaded)@),
        uniform_chunks(old(loaded)@[position].spec_size(), old(loaded)@[position].spec_height(), stored@),
    ensures
        final(loaded)@.dom() == old(loaded)@.dom(),
        final(loaded).key_order() == old(loaded).key_order(),
        forall|c: IVec2| c != position ==> #[trigger] final(loaded)@[c] == old(loaded)@[c],
        same_cells(final(loaded)@[position], old(loaded)@[position]),
        marked_if_halo_changed(final(loaded)@[position], old(loaded)@[position]),
        forall|s: int|
            0 <= s < 4 ==> #[trigger] pulled(
                final(loaded)@[position],
                old(loaded)@[position],
                s,
                lookup(old(loaded)@, stored@, step(position, s)),
            ),
{
    let directions = chunk_directions();
    let ghost o = loaded@[position];
    let mut k: usize = 0;
    while k < 4
        invariant
            0 <= k <= 4,
            directions@ == seq![
                IVec2 { x: -1i32, y: 0 },
                IVec2 { x: 1, y: 0 },
                IVec2 { x: 0, y: -1i32 },
                IVec2 { x: 0, y: 1 },
            ],
            o == old(loaded)@[position],
            old(loaded)@.dom().contains(position),
            i32::MIN < position.x < i32::MAX,
            i32::MIN < position.y < i32::MAX,
            uniform_chunks(o.spec_size(), o.spec_height(), old(loaded)@),
            uniform_chunks(o.spec_size(), o.spec_height(), stored@),
            loaded@.dom() == old(loaded)@.dom(),
            loaded.key_order() == old(loaded).key_order(),
            forall|c: IVec2| c != position ==> #[trigger] loaded@[c] == old(loaded)@[c],
            same_cells(loaded@[position], o),
            marked_if_halo_changed(loaded@[position], o),
            loaded@[position].halo().len() == o.halo().len(),
            forall|i: int|
                0 <= i < o.halo().len() && (i / o.spec_size()) % 4 >= k
                    ==> #[trigger] loaded@[position].halo()[i] == o.halo()[i],
            forall|s: int|
                0 <= s < k ==> #[trigger] pulled(
                    loaded@[position],
                    o,
                    s,
                    lookup(old(loaded)@, stored@, step(position, s)),
                ),
            forall|s: int| k <= s < 4 ==> #[trigger] side_unchanged(loaded@[position], o, s),
        decreases 4 - k,
    {
        let ghost before = loaded@[position];
        let ghost before_map = loaded@;
        let direction = directions[k];
        assert(direction_side(direction) == k);
        assert(is_cardinal(direction));
        assert(uniform_chunks(loaded@[position].spec_size(), loaded@[position].spec_height(), loaded@)) by {
            assert forall|c: IVec2| #[trigger] loaded@.dom().contains(c) implies loaded@[c].spec_size()
                == o.spec_size() && loaded@[c].spec_height() == o.spec_height() by {
                if c != position {
                    assert(old(loaded)@.dom().contains(c));
                }
            }
        }
        pull_border(loaded, stored, position, direction);
        proof {
            assert(forall|x: u8| #[trigger] (x | 1u8) | 1u8 == x | 1u8) by (bit_vector);
            let f = loaded@[position];
            let n = step(position, k as int);
            assert(n != position);
            assert(lookup(before_map, stored@, n) == lookup(old(loaded)@, stored@, n));
            assert forall|s: int| 0 <= s < k + 1 implies #[trigger] pulled(
                f,
                o,
                s,
                lookup(old(loaded)@, stored@, step(position, s)),
            ) by {
                if s < k {
                    assert(pulled(before, o, s, lookup(old(loaded)@, stored@, step(position, s))));
                } else {
                    assert(side_unchanged(before, o, s));
                }
            }
            if f.halo() != o.halo() && before.halo() != o.halo() {
                // An earlier side already differs, and this step leaves it alone.
                if f.halo() == before.halo() {
                } else {
                    assert(exists|j: int| 0 <= j < o.halo().len() && before.halo()[j] != o.halo()[j]) by {
                        if !(exists|j: int| 0 <= j < o.halo().len() && before.halo()[j] != o.halo()[j]) {
                            assert(before.halo() =~= o.halo());
                        }
                    }
                    let j = choose|j: int| 0 <= j < o.halo().len() && before.halo()[j] != o.halo()[j];
                    if (j / o.spec_size()) % 4 >= k {
                        assert(before.halo()[j] == o.halo()[j]);
                    }
                    assert(f.halo()[j] == before.halo()[j]);
                }
            }
            if f.halo() == o.halo() && before.halo() != o.halo() {
                assert(exists|j: int| 0 <= j < o.halo().len() && before.halo()[j] != o.halo()[j]) by {
                    if !(exists|j: int| 0 <= j < o.halo().len() && before.halo()[j] != o.halo()[j]) {
                        assert(before.halo() =~= o.halo());
                    }
                }
                let j = choose|j: int| 0 <= j < o.halo().len() && before.halo()[j] != o.halo()[j];
                if (j / o.spec_size()) % 4 >= k {
                    assert(before.halo()[j] == o.halo()[j]);
                }
                assert(f.halo()[j] == before.halo()[j]);
            }
            assert forall|s: int| k + 1 <= s < 4 implies #[trigger] side_unchanged(f, o, s) by {
                assert(side_unchanged(before, o, s));
            }
        }
        k = k + 1;
    }
}

/// Whether `c` is one of the four chunks next to `position`.
pub open spec fn borders(position: IVec2, c: IVec2) -> bool {
    ||| c == step(position, 0)
    ||| c == step(position, 1)
    ||| c == step(position, 2)
    ||| c == step(position, 3)
}

/// `f` carries the mesh rebuild bit on top of the bits of `o` exactly when its
/// halo samples differ from those of `o`.
pub open spec fn marked_if_halo_changed(f: ChunkVoxels, o: ChunkVoxels) -> bool {
    f.spec_changes() == if f.halo() == o.halo() {
        o.spec_changes()
    } else {
        o.spec_changes() | MESH_CHANGED
    }
}

/// The neighbour on `side` after it copied the border of `snapshot` into the
/// halo side that faces back.
pub open spec fn pushed(f: ChunkVoxels, o: ChunkVoxels, side: int, snapshot: ChunkVoxels) -> bool {
    &&& halo_mirrors(f, facing_side(side), snapshot)
    &&& same_but_sides(f, o, |t: int| t != facing_side(side))
    &&& marked_if_halo_changed(f, o)
}

/// Each loaded neighbour of `position` copies the border of `snapshot` into its
/// facing halo side.
fn push_all(loaded: &mut ChunkMap<ChunkVoxels>, snapshot: &ChunkVoxels, position: IVec2)
    requires
        i32::MIN < position.x < i32::MAX,
        i32::MIN < position.y < i32::MAX,
        uniform_chunks(snapshot.spec_size(), snapshot.spec_height(), old(loaded)@),
    ensures
        final(loaded)@.dom() == old(loaded)@.dom(),
        final(loaded).key_order() == old(loaded).key_order(),
        forall|c: IVec2| !borders(position, c) ==> #[trigger] final(loaded)@[c] == old(loaded)@[c],
        forall|s: int|
            0 <= s < 4 && old(loaded)@.dom().contains(step(position, s)) ==> #[trigger] pushed(
                final(loaded)@[step(position, s)],
                old(loaded)@[step(position, s)],
                s,
                *snapshot,
            ),
{
    let directions = chunk_directions();
    let mut k: usize = 0;
    while k < 4
        invariant
            0 <= k <= 4,
            directions@ == seq![
                IVec2 { x: -1i32, y: 0 },
                IVec2 { x: 1, y: 0 },
                IVec2 { x: 0, y: -1i32 },
                IVec2 { x: 0, y: 1 },
            ],
            i32::MIN < position.x < i32::MAX,
            i32::MIN < position.y < i32::MAX,
            uniform_chunks(snapshot.spec_size(), snapshot.spec_height(), old(loaded)@),
            loaded@.dom() == old(loaded)@.dom(),
            loaded.key_order() == old(loaded).key_order(),
            forall|c: IVec2|
                (forall|s: int| 0 <= s < k ==> c != #[trigger] step(position, s)) ==> #[trigger] loaded@[c]
                    == old(loaded)@[c],
            forall|s: int|
                0 <= s < k && old(loaded)@.dom().contains(step(position, s)) ==> #[trigger] pushed(
                    loaded@[step(position, s)],
                    old(loaded)@[step(position, s)],
                    s,
                    *snapshot,
                ),
        decreases 4 - k,
    {
        let ghost before_map = loaded@;
        let direction = directions[k];
        assert(direction_side(direction) == k);
        assert(is_cardinal(direction));
        assert(uniform_chunks(snapshot.spec_size(), snapshot.spec_height(), loaded@)) by {
            assert forall|c: IVec2| #[trigger] loaded@.dom().contains(c) implies loaded@[c].spec_size()
                == snapshot.spec_size() && loaded@[c].spec_height() == snapshot.spec_height() by {
                assert(old(loaded)@.dom().contains(c));
                if exists|s: int| 0 <= s < k && c == #[trigger] step(position, s) {
                    let s = choose|s: int| 0 <= s < k && c == #[trigger] step(position, s);
                    assert(pushed(loaded@[c], old(loaded)@[c], s, *snapshot));
                } else {
                    assert(loaded@[c] == old(loaded)@[c]);
                }
            }
        }
        push_border(loaded, snapshot, position, direction);
        proof {
            let n = step(position, k as int);
            assert forall|s: int| 0 <= s < k && old(loaded)@.dom().contains(step(position, s)) implies #[trigger] pushed(
                loaded@[step(position, s)],
                old(loaded)@[step(position, s)],
                s,
                *snapshot,
            ) by {
                assert(step(position, s) != n);
                assert(pushed(before_map[step(position, s)], old(loaded)@[step(position, s)], s, *snapshot));
            }
            if old(loaded)@.dom().contains(n) {
                assert(forall|s: int| 0 <= s < k ==> n != #[trigger] step(position, s));
                assert(before_map[n] == old(loaded)@[n]);
            }
            assert forall|c: IVec2|
                (forall|s: int| 0 <= s < k + 1 ==> c != #[trigger] step(position, s)) implies #[trigger] loaded@[c]
                    == old(loaded)@[c] by {
                assert(c != step(position, k as int));
                assert(before_map[c] == old(loaded)@[c]);
            }
        }
        k = k + 1;
    }
    proof {
        assert forall|c: IVec2| !borders(position, c) implies #[trigger] loaded@[c] == old(loaded)@[c] by {
            assert(forall|s: int| 0 <= s < 4 ==> c != #[trigger] step(position, s)) by {
                assert forall|s: int| 0 <= s < 4 implies c != #[trigger] step(position, s) by {
                    if s == 0 {
                    } else if s == 1 {
                    } else if s == 2 {
                    } else {
                    }
                }
            }
        }
    }
}

/// Brings halos up to date around a chunk just added to `loaded` at
/// `position`: each side of the chunk copies the border of the neighbour there
/// (the loaded one, else the stored one) when that neighbour carries edits;
/// then, when the chunk itself carries edits, each loaded neighbour copies the
/// chunk's border into the halo side that faces it.
pub fn sync_spawned_halos(loaded: &mut ChunkMap<ChunkVoxels>, stored: &ChunkMap<ChunkVoxels>, position: IVec2)
    requires
        old(loaded)@.dom().contains(position),
        i32::MIN < position.x < i32::MAX,
        i32::MIN < position.y < i32::MAX,
        uniform_chunks(old(loaded)@[position].spec_size(), old(loaded)@[position].spec_height(), old(loaded)@),
        uniform_chunks(old(loaded)@[position].spec_size(), old(loaded)@[position].spec_height(), stored@),
    ensures
        ({
            let o = old(loaded)@[position];
            let f = final(loaded)@[position];
            &&& final(loaded)@.dom() == old(loaded)@.dom()
            &&& final(loaded).key_order() == old(loaded).key_order()
            &&& uniform_chunks(o.spec_size(), o.spec_height(), final(loaded)@)
            &&& same_cells(f, o)
            &&& marked_if_halo_changed(f, o)
            &&& forall|s: int|
                0 <= s < 4 ==> #[trigger] pulled(f, o, s, lookup(old(loaded)@, stored@, step(position, s)))
            &&& o.spec_modified() ==> forall|s: int|
                0 <= s < 4 && old(loaded)@.dom().contains(step(position, s)) ==> #[trigger] pushed(
                    final(loaded)@[step(position, s)],
                    old(loaded)@[step(position, s)],
                    s,
                    o,
                )
            &&& !o.spec_modified() ==> forall|c: IVec2|
                c != position ==> #[trigger] final(loaded)@[c] == old(loaded)@[c]
            &&& forall|c: IVec2|
                c != position && !borders(position, c) ==> #[trigger] final(loaded)@[c] == old(loaded)@[c]
            &&& forall|n: IVec2, p: IVec3|
                final(loaded)@.dom().contains(n) && borders(position, n) && old(loaded)@[n].spec_modified()
                    ==> #[trigger] halo_agrees(final(loaded)@, position, n, p)
            &&& o.spec_modified() ==> forall|n: IVec2, p: IVec3|
                final(loaded)@.dom().contains(n) && borders(position, n) ==> #[trigger] halo_agrees(
                    final(loaded)@,
                    n,
                    position,
                    p,
                )
        }),
{
    let snapshot = match loaded.get(position) {
        Some(v) => v.clone(),
        None => return,
    };
    let ghost o = old(loaded)@[position];
    pull_all(loaded, stored, position);
    let ghost mid = loaded@;
    if snapshot.modified() {
        proof {
            assert forall|c: IVec2| #[trigger] loaded@.dom().contains(c) implies loaded@[c].spec_size()
                == snapshot.spec_size() && loaded@[c].spec_height() == snapshot.spec_height() by {
                if c != position {
                    assert(old(loaded)@.dom().contains(c));
                }
            }
        }
        push_all(loaded, &snapshot, position);
    }
    proof {
        let f = loaded@[position];
        assert(f == mid[position]) by {
            if snapshot.spec_modified() {
                assert(!borders(position, position));
            }
        }
        assert forall|m: IVec3| #[trigger] snapshot.voxel(m) == o.voxel(m) by {}
        assert forall|c: IVec2| #[trigger] loaded@.dom().contains(c) implies loaded@[c].spec_size()
            == o.spec_size() && loaded@[c].spec_height() == o.spec_height() by {
            assert(old(loaded)@.dom().contains(c));
            if c != position && borders(position, c) && snapshot.spec_modified() {
                let s = if c == step(position, 0) {
                    0
                } else if c == step(position, 1) {
                    1
                } else if c == step(position, 2) {
                    2
                } else {
                    3
                };
                assert(pushed(loaded@[step(position, s)], mid[step(position, s)], s, snapshot));
            }
        }
        if o.spec_modified() {
            assert forall|s: int|
                0 <= s < 4 && old(loaded)@.dom().contains(step(position, s)) implies #[trigger] pushed(
                    loaded@[step(position, s)],
                    old(loaded)@[step(position, s)],
                    s,
                    o,
                ) by {
                let n = step(position, s);
                assert(n != position);
                assert(mid[n] == old(loaded)@[n]);
                assert(pushed(loaded@[n], mid[n], s, snapshot));
                assert forall|p: IVec3| #[trigger] loaded@[n].halo_voxel(p) == match halo_side(
                    loaded@[n].spec_size(),
                    loaded@[n].spec_height(),
                    p,
                ) {
                    Some((t, offset)) => if t == facing_side(s) {
                        o.voxel(mirrored_cell(loaded@[n].spec_size(), t, offset, p.y as int))
                    } else {
                        loaded@[n].halo_voxel(p)
                    },
                    None => loaded@[n].halo_voxel(p),
                } by {
                    match halo_side(loaded@[n].spec_size(), loaded@[n].spec_height(), p) {
                        Some((t, offset)) => {
                            let m = mirrored_cell(loaded@[n].spec_size(), t, offset, p.y as int);
                            assert(snapshot.voxel(m) == o.voxel(m));
                        },
                        None => {},
                    }
                }
            }
        }
        assert forall|n: IVec2, p: IVec3|
            loaded@.dom().contains(n) && borders(position, n) && old(loaded)@[n].spec_modified() implies #[trigger] halo_agrees(
            loaded@,
            position,
            n,
            p,
        ) by {
            lemma_sides_distinct(position);
            assert(n != position);
            match halo_side(f.spec_size(), f.spec_height(), p) {
                Some((t, offset)) => {
                    if n.x == position.x + side_direction(t).x && n.y == position.y + side_direction(t).y {
                        assert(n == step(position, t));
                        assert(pulled(f, o, t, lookup(old(loaded)@, stored@, step(position, t))));
                        assert(lookup(old(loaded)@, stored@, n) == Some(old(loaded)@[n]));
                        assert(loaded@[n].cells() == old(loaded)@[n].cells()) by {
                            if snapshot.spec_modified() {
                                assert(pushed(loaded@[step(position, t)], mid[step(position, t)], t, snapshot));
                            }
                        }
                    }
                },
                None => {},
            }
        }
        if o.spec_modified() {
            assert forall|n: IVec2, p: IVec3|
                loaded@.dom().contains(n) && borders(position, n) implies #[trigger] halo_agrees(
                loaded@,
                n,
                position,
                p,
            ) by {
                lemma_sides_distinct(position);
                let s = if n == step(position, 0) {
                    0
                } else if n == step(position, 1) {
                    1
                } else if n == step(position, 2) {
                    2
                } else {
                    3
                };
                assert(n == step(position, s));
                assert(pushed(loaded@[n], old(loaded)@[n], s, o));
                let g = loaded@[n];
                match halo_side(g.spec_size(), g.spec_height(), p) {
                    Some((t, offset)) => {
                        if position.x == n.x + side_direction(t).x && position.y == n.y + side_direction(t).y {
                            assert(t == facing_side(s));
                        }
                    },
                    None => {},
                }
            }
        }
    }
}

/// The four neighbours of a chunk are distinct from it and from one another,
/// and each lies on exactly one side.
proof fn lemma_sides_distinct(position: IVec2)
    requires
        i32::MIN < position.x < i32::MAX,
        i32::MIN < position.y < i32::MAX,
    ensures
        forall|s: int, t: int|
            0 <= s < 4 && 0 <= t < 4 && s != t ==> #[trigger] step(position, s) != #[trigger] step(
                position,
                t,
            ),
        forall|s: int| 0 <= s < 4 ==> #[trigger] step(position, s) != position,
        forall|s: int|
            0 <= s < 4 ==> (#[trigger] step(position, s)).x == position.x + side_direction(s).x && step(
                position,
                s,
            ).y == position.y + side_direction(s).y,
{
}

/// Adds a freshly spawned chunk to `loaded` with both rebuild bits set; a
/// position that is already loaded keeps its chunk. Returns whether the chunk
/// was added.
pub fn load_chunk(loaded: &mut ChunkMap<ChunkVoxels>, position: IVec2, voxels: ChunkVoxels) -> (added:
    bool)
    ensures
        added == !old(loaded)@.dom().contains(position),
        !added ==> final(loaded)@ == old(loaded)@ && final(loaded).key_order() == old(loaded).key_order(),
        added ==> final(loaded)@.dom() == old(loaded)@.dom().insert(position),
        added ==> final(loaded).key_order() == old(loaded).key_order().push(position),
        added ==> forall|c: IVec2| c != position ==> #[trigger] final(loaded)@[c] == old(loaded)@[c],
        added ==> same_cells(final(loaded)@[position], voxels),
        added ==> final(loaded)@[position].halo() == voxels.halo(),
        added ==> final(loaded)@[position].spec_changes() == MESH_CHANGED | COLLIDER_CHANGED,
{
    if loaded.contains_key(position) {
        return false;
    }
    let mut voxels = voxels;
    voxels.mark_all_changed();
    loaded.insert(position, voxels);
    proof {
        assert(loaded@.dom() =~= old(loaded)@.dom().insert(position));
    }
    true
}

/// Takes a chunk out of `loaded`; when it carries edits it is kept in
/// `stored` so that it comes back as it was. Returns whether it was loaded.
pub fn unload_chunk(
    loaded: &mut ChunkMap<ChunkVoxels>,
    stored: &mut ChunkMap<ChunkVoxels>,
    position: IVec2,
) -> (was_loaded: bool)
    ensures
        was_loaded == old(loaded)@.dom().contains(position),
        final(loaded)@ == old(loaded)@.remove(position),
        final(stored)@ == if was_loaded && old(loaded)@[position].spec_modified() {
            old(stored)@.insert(position, old(loaded)@[position])
        } else {
            old(stored)@
        },
{
    match loaded.remove(position) {
        Some(voxels) => {
            if voxels.modified() {
                stored.insert(position, voxels);
            }
            true
        },
        None => false,
    }
}

/// Clears the rebuild bits of the loaded chunk at `position` and returns them
/// (0 when it is not loaded).
pub fn take_chunk_changes(loaded: &mut ChunkMap<ChunkVoxels>, position: IVec2) -> (changes: u8)
    ensures
        final(loaded)@.dom() == old(loaded)@.dom(),
        final(loaded).key_order() == old(loaded).key_order(),
        forall|c: IVec2| c != position ==> #[trigger] final(loaded)@[c] == old(loaded)@[c],
        !old(loaded)@.dom().contains(position) ==> changes == 0 && final(loaded)@ == old(loaded)@,
        old(loaded)@.dom().contains(position) ==> {
            &&& changes == old(loaded)@[position].spec_changes()
            &&& final(loaded)@[position].spec_changes() == 0
            &&& same_cells(final(loaded)@[position], old(loaded)@[position])
            &&& final(loaded)@[position].halo() == old(loaded)@[position].halo()
        },
{
    if !loaded.contains_key(position) {
        return 0;
    }
    let placeholder = ChunkVoxels::generated(1, 0, Vec::new(), Vec::new());
    let mut voxels = match loaded.insert(position, placeholder) {
        Some(v) => v,
        None => return 0,
    };
    let changes = voxels.take_changes();
    loaded.insert(position, voxels);
    proof {
        assert(loaded@.dom() =~= old(loaded)@.dom());
    }
    changes
}

} // verus!
