use vstd::prelude::*;

use crate::math::{IVec2, IVec3};
use crate::voxel::chunk_map::ChunkMap;
use crate::voxel::data::COLLIDER_CHANGED;

verus! {

/// Neighbour chunks whose halo mirrors a local position, with the position in
/// the neighbour's halo: one entry per chunk border the position touches.
pub open spec fn border_halo_list(local: IVec3, size: int) -> Seq<(IVec2, IVec3)> {
    let a = if local.x == 0 {
        seq![(IVec2 { x: -1i32, y: 0 }, IVec3 { x: size as i32, y: local.y, z: local.z })]
    } else {
        Seq::empty()
    };
    let b = if local.x == size - 1 {
        seq![(IVec2 { x: 1, y: 0 }, IVec3 { x: -1i32, y: local.y, z: local.z })]
    } else {
        Seq::empty()
    };
    let c = if local.z == 0 {
        seq![(IVec2 { x: 0, y: -1i32 }, IVec3 { x: local.x, y: local.y, z: size as i32 })]
    } else {
        Seq::empty()
    };
    let d = if local.z == size - 1 {
        seq![(IVec2 { x: 0, y: 1 }, IVec3 { x: local.x, y: local.y, z: -1i32 })]
    } else {
        Seq::empty()
    };
    a + b + c + d
}

/// An edit of a cell reaches exactly the neighbours across the chunk borders the
/// cell lies on: one entry per such border, each naming a one-chunk step and the
/// neighbour's halo sample at the same world position as the cell (the cell's
/// coordinates shifted back by one chunk width along the step).
pub proof fn lemma_border_halo_law(local: IVec3, size: int)
    requires
        0 < size <= i32::MAX,
        0 <= local.x < size,
        0 <= local.z < size,
    ensures
        (forall|j: int|
            0 <= j < border_halo_list(local, size).len() ==> {
                let (d, h) = #[trigger] border_halo_list(local, size)[j];
                &&& d.x * d.x + d.y * d.y == 1
                &&& h.y == local.y
                &&& h.x == local.x - size * d.x
                &&& h.z == local.z - size * d.y
            }),
        (local.x == 0) <==> (exists|j: int|
            0 <= j < border_halo_list(local, size).len() && (#[trigger] border_halo_list(local, size)[j]).0
                == (IVec2 { x: -1i32, y: 0 })),
        (local.x == size - 1) <==> (exists|j: int|
            0 <= j < border_halo_list(local, size).len() && (#[trigger] border_halo_list(local, size)[j]).0
                == (IVec2 { x: 1i32, y: 0 })),
        (local.z == 0) <==> (exists|j: int|
            0 <= j < border_halo_list(local, size).len() && (#[trigger] border_halo_list(local, size)[j]).0
                == (IVec2 { x: 0i32, y: -1i32 })),
        (local.z == size - 1) <==> (exists|j: int|
            0 <= j < border_halo_list(local, size).len() && (#[trigger] border_halo_list(local, size)[j]).0
                == (IVec2 { x: 0i32, y: 1 })),
{
    let list = border_halo_list(local, size);
    let ea = (IVec2 { x: -1i32, y: 0 }, IVec3 { x: size as i32, y: local.y, z: local.z });
    let eb = (IVec2 { x: 1i32, y: 0 }, IVec3 { x: -1i32, y: local.y, z: local.z });
    let ec = (IVec2 { x: 0i32, y: -1i32 }, IVec3 { x: local.x, y: local.y, z: size as i32 });
    let ed = (IVec2 { x: 0i32, y: 1i32 }, IVec3 { x: local.x, y: local.y, z: -1i32 });
    let a = if local.x == 0 {
        seq![ea]
    } else {
        Seq::empty()
    };
    let b = if local.x == size - 1 {
        seq![eb]
    } else {
        Seq::empty()
    };
    let cc = if local.z == 0 {
        seq![ec]
    } else {
        Seq::empty()
    };
    let d = if local.z == size - 1 {
        seq![ed]
    } else {
        Seq::empty()
    };
    assert(list == a + b + cc + d);
    assert forall|j: int| 0 <= j < list.len() implies (#[trigger] list[j] == ea && local.x == 0) || (
    list[j] == eb && local.x == size - 1) || (list[j] == ec && local.z == 0) || (list[j] == ed
        && local.z == size - 1) by {
        if j < a.len() {
            assert(list[j] == a[j]);
        } else if j < a.len() + b.len() {
            assert(list[j] == (a + b)[j]);
        } else if j < a.len() + b.len() + cc.len() {
            assert(list[j] == (a + b + cc)[j]);
        }
    }
    assert forall|j: int| 0 <= j < list.len() implies {
        let (d, h) = #[trigger] list[j];
        &&& d.x * d.x + d.y * d.y == 1
        &&& h.y == local.y
        &&& h.x == local.x - size * d.x
        &&& h.z == local.z - size * d.y
    } by {
        let (d, h) = list[j];
        let (dx, dy) = (d.x as int, d.y as int);
        assert(dx * dx + dy * dy == 1 && size * dx == -size * (-dx) && size * dy == -size * (-dy)
            && (dx == -1 ==> size * dx == -size) && (dx == 1 ==> size * dx == size) && (dx == 0
            ==> size * dx == 0) && (dy == -1 ==> size * dy == -size) && (dy == 1 ==> size * dy
            == size) && (dy == 0 ==> size * dy == 0)) by (nonlinear_arith)
            requires
                (dx == -1 && dy == 0) || (dx == 1 && dy == 0) || (dx == 0 && dy == -1) || (dx == 0
                    && dy == 1),
        ;
        if list[j] == ea {
            assert(h.x == size);
        } else if list[j] == ec {
            assert(h.z == size);
        }
    }
    if local.x == 0 {
        assert(list[0] == ea);
    }
    if local.x == size - 1 {
        assert(list[a.len() as int] == eb);
    }
    if local.z == 0 {
        assert(list[(a.len() + b.len()) as int] == ec);
    }
    if local.z == size - 1 {
        assert(list[(a.len() + b.len() + cc.len()) as int] == ed);
    }
}

/// The halos that must follow an edit of `local` in a chunk `size` cells wide:
/// for each border the position touches, the neighbour's direction and the
/// position of the mirrored sample in that neighbour.
pub fn border_halos(local: IVec3, size: i32) -> (halos: Vec<(IVec2, IVec3)>)
    requires
        size > 0,
    ensures
        halos@ == border_halo_list(local, size as int),
{
    let mut halos: Vec<(IVec2, IVec3)> = Vec::new();
    if local.x == 0 {
        halos.push((IVec2 { x: -1, y: 0 }, IVec3 { x: size, y: local.y, z: local.z }));
    }
    if local.x == size - 1 {
        halos.push((IVec2 { x: 1, y: 0 }, IVec3 { x: -1, y: local.y, z: local.z }));
    }
    if local.z == 0 {
        halos.push((IVec2 { x: 0, y: -1 }, IVec3 { x: local.x, y: local.y, z: size }));
    }
    if local.z == size - 1 {
        halos.push((IVec2 { x: 0, y: 1 }, IVec3 { x: local.x, y: local.y, z: -1 }));
    }
    proof {
        let s = size as int;
        let a = if local.x == 0 {
            seq![(IVec2 { x: -1i32, y: 0 }, IVec3 { x: s as i32, y: local.y, z: local.z })]
        } else {
            Seq::empty()
        };
        let b = if local.x == s - 1 {
            seq![(IVec2 { x: 1, y: 0 }, IVec3 { x: -1i32, y: local.y, z: local.z })]
        } else {
            Seq::empty()
        };
        let c = if local.z == 0 {
            seq![(IVec2 { x: 0, y: -1i32 }, IVec3 { x: local.x, y: local.y, z: s as i32 })]
        } else {
            Seq::empty()
        };
        let d = if local.z == s - 1 {
            seq![(IVec2 { x: 0, y: 1 }, IVec3 { x: local.x, y: local.y, z: -1i32 })]
        } else {
            Seq::empty()
        };
        assert(halos@ =~= a + b + c + d);
    }
    halos
}


/// The neighbour halos an edit of `local` in chunk `chunk` must update: the
/// neighbouring chunk's position and the halo position inside it.
pub fn halo_neighbors(chunk: IVec2, local: IVec3, size: i32) -> (targets: Vec<(IVec2, IVec3)>)
    requires
        size > 0,
        i32::MIN < chunk.x < i32::MAX,
        i32::MIN < chunk.y < i32::MAX,
    ensures
        targets@ == border_halo_list(local, size as int).map_values(
            |h: (IVec2, IVec3)| (IVec2 { x: (chunk.x + h.0.x) as i32, y: (chunk.y + h.0.y) as i32 }, h.1),
        ),
{
    let halos = border_halos(local, size);
    let mut targets: Vec<(IVec2, IVec3)> = Vec::new();
    let mut i: usize = 0;
    while i < halos.len()
        invariant
            0 <= i <= halos@.len(),
            i32::MIN < chunk.x < i32::MAX,
            i32::MIN < chunk.y < i32::MAX,
            halos@ == border_halo_list(local, size as int),
            forall|k: int| 0 <= k < halos@.len() ==> -1 <= (#[trigger] halos@[k]).0.x <= 1 && -1 <= halos@[k].0.y <= 1,
            targets@ == halos@.take(i as int).map_values(
                |h: (IVec2, IVec3)| (IVec2 { x: (chunk.x + h.0.x) as i32, y: (chunk.y + h.0.y) as i32 }, h.1),
            ),
        decreases halos@.len() - i,
    {
        let (offset, halo) = halos[i];
        targets.push((IVec2 { x: chunk.x + offset.x, y: chunk.y + offset.y }, halo));
        i = i + 1;
        assert(targets@ =~= halos@.take(i as int).map_values(
            |h: (IVec2, IVec3)| (IVec2 { x: (chunk.x + h.0.x) as i32, y: (chunk.y + h.0.y) as i32 }, h.1),
        ));
    }
    assert(halos@.take(i as int) =~= halos@);
    targets
}

/// The four chunk neighbours, in the order halos are synchronised.
pub fn chunk_directions() -> (directions: [IVec2; 4])
    ensures
        directions@ == seq![
            IVec2 { x: -1i32, y: 0 },
            IVec2 { x: 1, y: 0 },
            IVec2 { x: 0, y: -1i32 },
            IVec2 { x: 0, y: 1 },
        ],
{
    let directions = [
        IVec2 { x: -1, y: 0 },
        IVec2 { x: 1, y: 0 },
        IVec2 { x: 0, y: -1 },
        IVec2 { x: 0, y: 1 },
    ];
    assert(directions@ =~= seq![
        IVec2 { x: -1i32, y: 0 },
        IVec2 { x: 1, y: 0 },
        IVec2 { x: 0, y: -1i32 },
        IVec2 { x: 0, y: 1 },
    ]);
    directions
}

/// The direction pointing back.
pub fn opposite(direction: IVec2) -> (back: IVec2)
    requires
        direction.x > i32::MIN,
        direction.y > i32::MIN,
    ensures
        back.x == -direction.x,
        back.y == -direction.y,
{
    IVec2 { x: -direction.x, y: -direction.y }
}

/// World-space origin (x, z) of a chunk or of a region's first chunk.
pub fn chunk_origin(position: IVec2, chunk_size: i32) -> (origin: IVec2)
    requires
        i32::MIN <= position.x * chunk_size <= i32::MAX,
        i32::MIN <= position.y * chunk_size <= i32::MAX,
    ensures
        origin.x == position.x * chunk_size,
        origin.y == position.y * chunk_size,
{
    IVec2 { x: position.x * chunk_size, y: position.y * chunk_size }
}

/// What a finished build does to the chunk's collider.
#[derive(Clone, Copy, Debug, PartialEq, Eq, Structural)]
pub enum ColliderPlan {
    Keep,
    Replace,
    Remove,
}

/// Keeps the collider unless the collider bit is set; then replaces it with
/// one built from the solid cells, or removes it when there are none.
pub fn collider_plan(flags: u8, solid_count: usize) -> (plan: ColliderPlan)
    ensures
        plan == if flags & COLLIDER_CHANGED == 0 {
            ColliderPlan::Keep
        } else if solid_count == 0 {
            ColliderPlan::Remove
        } else {
            ColliderPlan::Replace
        },
{
    if flags & COLLIDER_CHANGED == 0 {
        ColliderPlan::Keep
    } else if solid_count == 0 {
        ColliderPlan::Remove
    } else {
        ColliderPlan::Replace
    }
}

/// What to do with the water child mesh of a chunk or region.
#[derive(Clone, Copy, Debug, PartialEq, Eq, Structural)]
pub enum WaterChildAction {
    /// Give the existing child the new mesh.
    Update,
    /// Spawn a child for the new mesh.
    Spawn,
    /// The water is gone: despawn the child.
    Despawn,
    /// No water before or after.
    Nothing,
}

pub fn water_child_action(has_water: bool, has_child: bool) -> (action: WaterChildAction)
    ensures
        action == if has_water && has_child {
            WaterChildAction::Update
        } else if has_water {
            WaterChildAction::Spawn
        } else if has_child {
            WaterChildAction::Despawn
        } else {
            WaterChildAction::Nothing
        },
{
    match (has_water, has_child) {
        (true, true) => WaterChildAction::Update,
        (true, false) => WaterChildAction::Spawn,
        (false, true) => WaterChildAction::Despawn,
        (false, false) => WaterChildAction::Nothing,
    }
}

/// A finished chunk generation: the task leaves `pending`; if the chunk was
/// loaded meanwhile the result is dropped (`None`); otherwise the chunk spawns
/// with its stored edits if there are any (`Some(Some(voxels))`) or with the
/// generated cells (`Some(None)`).
pub fn finish_generation<E, S>(
    position: IVec2,
    pending: &mut ChunkMap<E>,
    loaded: &ChunkMap<E>,
    stored: &mut ChunkMap<S>,
) -> (outcome: Option<Option<S>>)
    ensures
        final(pending)@ == old(pending)@.remove(position),
        loaded@.dom().contains(position) ==> outcome is None && final(stored)@ == old(stored)@,
        !loaded@.dom().contains(position) ==> final(stored)@ == old(stored)@.remove(position)
            && outcome == Some(
            if old(stored)@.dom().contains(position) {
                Some(old(stored)@[position])
            } else {
                None
            },
        ),
{
    pending.remove(position);
    if loaded.contains_key(position) {
        return None;
    }
    Some(stored.remove(position))
}

} // verus!
