use vstd::prelude::*;

use crate::math::IVec2;
use crate::voxel::chunk_map::ChunkMap;
use crate::voxel::settings::VoxelSettings;

verus! {

pub open spec fn length_squared(v: IVec2) -> int {
    v.x * v.x + v.y * v.y
}

/// Offsets within the streaming disc of the given radius.
pub open spec fn in_disc(v: IVec2, radius: int) -> bool {
    length_squared(v) <= radius * radius
}

/// Strict streaming order: nearer first, then by x, then by y.
pub open spec fn streams_before(a: IVec2, b: IVec2) -> bool {
    ||| length_squared(a) < length_squared(b)
    ||| length_squared(a) == length_squared(b) && a.x < b.x
    ||| length_squared(a) == length_squared(b) && a.x == b.x && a.y < b.y
}

/// The streaming disc of radius `r` holds exactly the offsets whose squared
/// length is at most `r * r`.
pub proof fn lemma_disc_law(v: IVec2, radius: int)
    ensures
        in_disc(v, radius) <==> v.x * v.x + v.y * v.y <= radius * radius,
{
}

/// The streaming order puts nearer offsets first and orders any two different
/// offsets one way only; equally near offsets go by x, then by y.
pub proof fn lemma_stream_order_law(a: IVec2, b: IVec2)
    ensures
        streams_before(a, b) ==> a.x * a.x + a.y * a.y <= b.x * b.x + b.y * b.y,
        a.x * a.x + a.y * a.y < b.x * b.x + b.y * b.y ==> streams_before(a, b),
        !streams_before(a, a),
        a != b ==> (streams_before(a, b) != streams_before(b, a)),
        (a.x * a.x + a.y * a.y == b.x * b.x + b.y * b.y && a.x < b.x) ==> streams_before(a, b),
{
}

/// Whether the enumeration, standing at squared length `d` and cell `(x, y)`,
/// has already passed `v`.
spec fn passed(v: IVec2, d: int, x: int, y: int) -> bool {
    ||| length_squared(v) < d
    ||| length_squared(v) == d && v.x < x
    ||| length_squared(v) == d && v.x == x && v.y < y
}

proof fn lemma_disc_box(v: IVec2, radius: int)
    requires
        radius >= 0,
        in_disc(v, radius),
    ensures
        -radius <= v.x <= radius,
        -radius <= v.y <= radius,
        length_squared(v) >= 0,
{
    assert(v.x * v.x + v.y * v.y >= 0) by (nonlinear_arith);
    let (x, y) = (v.x as int, v.y as int);
    assert(-radius <= x <= radius) by (nonlinear_arith)
        requires
            x * x + y * y <= radius * radius,
            radius >= 0,
    ;
    assert(-radius <= y <= radius) by (nonlinear_arith)
        requires
            x * x + y * y <= radius * radius,
            radius >= 0,
    ;
}

/// Chunk offsets around the viewer, nearest first, that streaming visits.
pub struct StreamOffsets {
    pub radius: u32,
    offsets: Vec<IVec2>,
}

impl StreamOffsets {
    /// The radius these offsets were made for: the `radius` field.
    pub closed spec fn spec_radius(&self) -> u32 {
        self.radius
    }

    /// The radius these offsets were made for.
    pub fn radius(&self) -> (radius: u32)
        ensures
            radius == self.spec_radius(),
    {
        self.radius
    }

    /// The offsets, in streaming order.
    pub closed spec fn view(&self) -> Seq<IVec2> {
        self.offsets@
    }

    /// Every offset `v` with `|v|^2 <= radius^2`, each once, sorted by `|v|^2`.
    pub fn new(radius: u32) -> (offsets: Self)
        requires
            radius <= 32767,
        ensures
            offsets.spec_radius() == radius,
            forall|i: int|
                0 <= i < offsets.view().len() ==> in_disc(
                    #[trigger] offsets.view()[i],
                    radius as int,
                ),
            forall|v: IVec2| in_disc(v, radius as int) ==> #[trigger] offsets.view().contains(v),
            forall|i: int, j: int|
                0 <= i < j < offsets.view().len() ==> streams_before(
                    #[trigger] offsets.view()[i],
                    #[trigger] offsets.view()[j],
                ),
    {
        let r = radius as i32;
        let ghost rr = radius as int;
        proof {
            assert(rr * rr <= 32767 * 32767) by (nonlinear_arith)
                requires
                    0 <= rr <= 32767,
            ;
        }
        let max_d: i32 = r * r;
        let mut offsets: Vec<IVec2> = Vec::new();
        let mut d: i32 = 0;
        proof {
            assert forall|v: IVec2| in_disc(v, rr) && passed(v, 0, -rr, -rr) implies false by {
                lemma_disc_box(v, rr);
            }
        }
        while d <= max_d
            invariant
                r == rr,
                0 <= rr <= 32767,
                max_d == rr * rr,
                max_d <= 32767 * 32767,
                0 <= d <= max_d + 1,
                forall|k: int|
                    0 <= k < offsets@.len() ==> in_disc(#[trigger] offsets@[k], rr) && passed(
                        offsets@[k],
                        d as int,
                        -rr,
                        -rr,
                    ),
                forall|v: IVec2|
                    in_disc(v, rr) && passed(v, d as int, -rr, -rr) ==> exists|k: int|
                        0 <= k < offsets@.len() && #[trigger] offsets@[k] == v,
                forall|i: int, j: int|
                    0 <= i < j < offsets@.len() ==> streams_before(
                        #[trigger] offsets@[i],
                        #[trigger] offsets@[j],
                    ),
            decreases max_d + 1 - d,
        {
            let mut x: i32 = -r;
            while x <= r
                invariant
                    r == rr,
                    0 <= rr <= 32767,
                    max_d == rr * rr,
                    0 <= d <= max_d,
                    -rr <= x <= rr + 1,
                    forall|k: int|
                        0 <= k < offsets@.len() ==> in_disc(#[trigger] offsets@[k], rr) && passed(
                            offsets@[k],
                            d as int,
                            x as int,
                            -rr,
                        ),
                    forall|v: IVec2|
                        in_disc(v, rr) && passed(v, d as int, x as int, -rr) ==> exists|k: int|
                            0 <= k < offsets@.len() && #[trigger] offsets@[k] == v,
                    forall|i: int, j: int|
                        0 <= i < j < offsets@.len() ==> streams_before(
                            #[trigger] offsets@[i],
                            #[trigger] offsets@[j],
                        ),
                decreases rr + 1 - x,
            {
                let mut z: i32 = -r;
                while z <= r
                    invariant
                        r == rr,
                        0 <= rr <= 32767,
                        max_d == rr * rr,
                        0 <= d <= max_d,
                        -rr <= x <= rr,
                        -rr <= z <= rr + 1,
                        forall|k: int|
                            0 <= k < offsets@.len() ==> in_disc(#[trigger] offsets@[k], rr)
                                && passed(offsets@[k], d as int, x as int, z as int),
                        forall|v: IVec2|
                            in_disc(v, rr) && passed(v, d as int, x as int, z as int)
                                ==> exists|k: int|
                                0 <= k < offsets@.len() && #[trigger] offsets@[k] == v,
                        forall|i: int, j: int|
                            0 <= i < j < offsets@.len() ==> streams_before(
                                #[trigger] offsets@[i],
                                #[trigger] offsets@[j],
                            ),
                    decreases rr + 1 - z,
                {
                    proof {
                        let (xi, zi) = (x as int, z as int);
                        assert(0 <= xi * xi <= rr * rr) by (nonlinear_arith)
                            requires
                                -rr <= xi <= rr,
                        ;
                        assert(0 <= zi * zi <= rr * rr) by (nonlinear_arith)
                            requires
                                -rr <= zi <= rr,
                        ;
                        assert(rr * rr <= 32767 * 32767) by (nonlinear_arith)
                            requires
                                0 <= rr <= 32767,
                        ;
                    }
                    let length = x * x + z * z;
                    let v = IVec2 { x, y: z };
                    if length == d {
                        let ghost prev = offsets@;
                        offsets.push(v);
                        proof {
                            let last = offsets@.len() - 1;
                            assert(offsets@[last] == v);
                            assert forall|u: IVec2|
                                in_disc(u, rr) && passed(
                                    u,
                                    d as int,
                                    x as int,
                                    z as int + 1,
                                ) implies exists|k: int|
                                0 <= k < offsets@.len() && #[trigger] offsets@[k] == u by {
                                if u == v {
                                    assert(offsets@[last] == u);
                                } else {
                                    assert(passed(u, d as int, x as int, z as int));
                                    let k = choose|k: int|
                                        0 <= k < prev.len() && #[trigger] prev[k] == u;
                                    assert(offsets@[k] == prev[k]);
                                }
                            }
                        }
                    } else {
                        proof {
                            assert forall|u: IVec2|
                                in_disc(u, rr) && passed(
                                    u,
                                    d as int,
                                    x as int,
                                    z as int + 1,
                                ) implies exists|k: int|
                                0 <= k < offsets@.len() && #[trigger] offsets@[k] == u by {
                                assert(passed(u, d as int, x as int, z as int));
                            }
                        }
                    }
                    z = z + 1;
                }
                proof {
                    assert forall|u: IVec2|
                        in_disc(u, rr) && passed(u, d as int, x as int + 1, -rr) implies exists|
                        k: int,
                    | 0 <= k < offsets@.len() && #[trigger] offsets@[k] == u by {
                        lemma_disc_box(u, rr);
                        assert(passed(u, d as int, x as int, z as int));
                    }
                    assert forall|k: int| 0 <= k < offsets@.len() implies in_disc(
                        #[trigger] offsets@[k],
                        rr,
                    ) && passed(offsets@[k], d as int, x as int + 1, -rr) by {
                        lemma_disc_box(offsets@[k], rr);
                    }
                }
                x = x + 1;
            }
            proof {
                assert forall|u: IVec2|
                    in_disc(u, rr) && passed(u, d as int + 1, -rr, -rr) implies exists|k: int|
                    0 <= k < offsets@.len() && #[trigger] offsets@[k] == u by {
                    lemma_disc_box(u, rr);
                    assert(passed(u, d as int, x as int, -rr));
                }
            }
            d = d + 1;
        }
        proof {
            assert forall|v: IVec2| in_disc(v, rr) implies #[trigger] offsets@.contains(v) by {
                assert(passed(v, d as int, -rr, -rr));
                let k = choose|k: int| 0 <= k < offsets@.len() && #[trigger] offsets@[k] == v;
            }
        }
        StreamOffsets { radius, offsets }
    }

    /// Number of offsets.
    pub fn len(&self) -> (n: usize)
        ensures
            n == self.view().len(),
    {
        self.offsets.len()
    }

    /// The offset at a streaming position.
    pub fn get(&self, index: usize) -> (offset: Option<IVec2>)
        ensures
            offset == if index < self.view().len() {
                Some(self.view()[index as int])
            } else {
                None
            },
    {
        if index < self.offsets.len() {
            Some(self.offsets[index])
        } else {
            None
        }
    }

    /// All offsets, in streaming order.
    pub fn offsets(&self) -> (offsets: &Vec<IVec2>)
        ensures
            offsets@ == self.view(),
    {
        &self.offsets
    }
}


/// Most chunk generations that may run at once.
pub const MAX_PENDING_GENERATIONS: usize = 16;

/// Streaming progress: the chunk the viewer was last seen in, how far through
/// the offsets spawning has got, and loaded chunks still to despawn.
pub struct StreamState<E> {
    pub center: Option<IVec2>,
    pub cursor: usize,
    pub pending_despawns: Vec<E>,
}

impl<E> StreamState<E> {
    pub fn new() -> (state: Self)
        ensures
            state.center is None,
            state.cursor == 0,
            state.pending_despawns@.len() == 0,
    {
        StreamState { center: None, cursor: 0, pending_despawns: Vec::new() }
    }
}

/// What streaming asks the world to do this frame, in order.
#[derive(Debug, PartialEq, Eq)]
pub enum StreamAction<E> {
    /// Despawn a chunk or a generation task.
    Despawn(E),
    /// Spawn the chunk kept in storage at this position.
    SpawnStored(IVec2),
    /// Start generating the chunk at this position.
    Generate(IVec2),
}

pub open spec fn distance_squared(a: IVec2, b: IVec2) -> int {
    (a.x - b.x) * (a.x - b.x) + (a.y - b.y) * (a.y - b.y)
}

/// Positions farther than the streaming radius from the center.
pub open spec fn is_far(p: IVec2, center: IVec2, radius: int) -> bool {
    distance_squared(p, center) > radius * radius
}

/// The far values are exactly the values of the far keys among the first `n`
/// keys of `order`, one for each such key.
pub proof fn lemma_far_values_law<E>(
    order: Seq<IVec2>,
    values: Map<IVec2, E>,
    center: IVec2,
    radius: int,
    n: int,
)
    requires
        0 <= n <= order.len(),
    ensures
        far_values(order, values, center, radius, n).len() <= n,
        forall|k: int|
            0 <= k < far_values(order, values, center, radius, n).len() ==> #[trigger] far_source(
                order,
                values,
                center,
                radius,
                n,
                far_values(order, values, center, radius, n)[k],
            ),
        forall|m: int|
            0 <= m < n && is_far(#[trigger] order[m], center, radius) ==> far_values(
                order,
                values,
                center,
                radius,
                n,
            ).contains(values[order[m]]),
    decreases n,
{
    if n > 0 {
        lemma_far_values_law(order, values, center, radius, n - 1);
        let previous = far_values(order, values, center, radius, n - 1);
        let result = far_values(order, values, center, radius, n);
        assert forall|k: int| 0 <= k < result.len() implies #[trigger] far_source(
            order,
            values,
            center,
            radius,
            n,
            result[k],
        ) by {
            if k < previous.len() {
                assert(result[k] == previous[k]);
                assert(far_source(order, values, center, radius, n - 1, previous[k]));
                let m = choose|m: int|
                    0 <= m < n - 1 && is_far(order[m], center, radius) && previous[k] == values[order[m]];
                assert(0 <= m < n && is_far(order[m], center, radius) && result[k] == values[order[m]]);
            } else {
                assert(result[k] == values[order[n - 1]]);
                assert(0 <= n - 1 < n && is_far(order[n - 1], center, radius) && result[k] == values[order[n - 1]]);
            }
        }
        assert forall|m: int| 0 <= m < n && is_far(#[trigger] order[m], center, radius) implies result.contains(
            values[order[m]],
        ) by {
            if m < n - 1 {
                let k = choose|k: int| 0 <= k < previous.len() && previous[k] == values[order[m]];
                assert(result[k] == values[order[m]]);
            } else {
                assert(result[previous.len() as int] == values[order[m]]);
            }
        }
    }
}

/// `v` is the value of a far key among the first `n` keys of `order`.
pub open spec fn far_source<E>(
    order: Seq<IVec2>,
    values: Map<IVec2, E>,
    center: IVec2,
    radius: int,
    n: int,
    v: E,
) -> bool {
    exists|m: int| 0 <= m < n && is_far(order[m], center, radius) && v == values[order[m]]
}

/// The spawn scan handles at most `budget - spawned` chunks and never moves
/// its cursor back. It spawns from storage only chunks that are stored, and
/// starts generating only chunks that are not; either way only chunks that are
/// neither loaded nor being generated, each at the center plus an offset it
/// passed over.
pub proof fn lemma_spawn_scan_law<E>(
    offsets: Seq<IVec2>,
    center: IVec2,
    loaded: Set<IVec2>,
    pending: Set<IVec2>,
    stored: Set<IVec2>,
    cursor: int,
    spawned: int,
    generating: int,
    budget: int,
)
    requires
        0 <= cursor,
        spawned <= budget,
    ensures
        ({
            let (actions, end) = spawn_scan::<E>(
                offsets,
                center,
                loaded,
                pending,
                stored,
                cursor,
                spawned,
                generating,
                budget,
            );
            &&& actions.len() <= budget - spawned
            &&& cursor <= end
            &&& forall|k: int|
                0 <= k < actions.len() ==> match #[trigger] actions[k] {
                    StreamAction::SpawnStored(p) => stored.contains(p) && !loaded.contains(p)
                        && !pending.contains(p) && exists|m: int|
                        cursor <= m < end && p == offset_position(center, offsets[m]),
                    StreamAction::Generate(p) => !stored.contains(p) && !loaded.contains(p)
                        && !pending.contains(p) && exists|m: int|
                        cursor <= m < end && p == offset_position(center, offsets[m]),
                    StreamAction::Despawn(_) => false,
                }
        }),
    decreases offsets.len() - cursor,
{
    if !(spawned < budget && generating < MAX_PENDING_GENERATIONS && 0 <= cursor < offsets.len()) {
    } else {
        let p = offset_position(center, offsets[cursor]);
        if loaded.contains(p) || pending.contains(p) {
            lemma_spawn_scan_law::<E>(offsets, center, loaded, pending, stored, cursor + 1, spawned, generating, budget);
            let (actions, end) = spawn_scan::<E>(offsets, center, loaded, pending, stored, cursor + 1, spawned, generating, budget);
            assert forall|k: int| 0 <= k < actions.len() implies match #[trigger] actions[k] {
                StreamAction::SpawnStored(p) => stored.contains(p) && !loaded.contains(p)
                    && !pending.contains(p) && exists|m: int|
                    cursor <= m < end && p == offset_position(center, offsets[m]),
                StreamAction::Generate(p) => !stored.contains(p) && !loaded.contains(p)
                    && !pending.contains(p) && exists|m: int|
                    cursor <= m < end && p == offset_position(center, offsets[m]),
                StreamAction::Despawn(_) => false,
            } by {
                match actions[k] {
                    StreamAction::SpawnStored(q) => {
                        let m = choose|m: int| cursor + 1 <= m < end && q == offset_position(center, offsets[m]);
                    },
                    StreamAction::Generate(q) => {
                        let m = choose|m: int| cursor + 1 <= m < end && q == offset_position(center, offsets[m]);
                    },
                    StreamAction::Despawn(_) => {},
                }
            }
        } else {
            let first = if stored.contains(p) {
                StreamAction::<E>::SpawnStored(p)
            } else {
                StreamAction::<E>::Generate(p)
            };
            let g = if stored.contains(p) {
                generating
            } else {
                generating + 1
            };
            lemma_spawn_scan_law::<E>(offsets, center, loaded, pending, stored, cursor + 1, spawned + 1, g, budget);
            let (rest, end) = spawn_scan::<E>(offsets, center, loaded, pending, stored, cursor + 1, spawned + 1, g, budget);
            let actions = seq![first] + rest;
            assert(spawn_scan::<E>(offsets, center, loaded, pending, stored, cursor, spawned, generating, budget) == (actions, end));
            assert forall|k: int| 0 <= k < actions.len() implies match #[trigger] actions[k] {
                StreamAction::SpawnStored(p) => stored.contains(p) && !loaded.contains(p)
                    && !pending.contains(p) && exists|m: int|
                    cursor <= m < end && p == offset_position(center, offsets[m]),
                StreamAction::Generate(p) => !stored.contains(p) && !loaded.contains(p)
                    && !pending.contains(p) && exists|m: int|
                    cursor <= m < end && p == offset_position(center, offsets[m]),
                StreamAction::Despawn(_) => false,
            } by {
                if k == 0 {
                    assert(actions[0] == first);
                    assert(p == offset_position(center, offsets[cursor]));
                } else {
                    assert(actions[k] == rest[k - 1]);
                    match rest[k - 1] {
                        StreamAction::SpawnStored(q) => {
                            let m = choose|m: int| cursor + 1 <= m < end && q == offset_position(center, offsets[m]);
                        },
                        StreamAction::Generate(q) => {
                            let m = choose|m: int| cursor + 1 <= m < end && q == offset_position(center, offsets[m]);
                        },
                        StreamAction::Despawn(_) => {},
                    }
                }
            }
        }
    }
}

/// A chunk is far from the center exactly when the center's streaming disc
/// does not reach it: the chunks that streaming spawns, at the center plus an
/// offset in the disc, are never far.
pub proof fn lemma_far_law(p: IVec2, center: IVec2, offset: IVec2, radius: int)
    requires
        i32::MIN <= center.x + offset.x <= i32::MAX,
        i32::MIN <= center.y + offset.y <= i32::MAX,
    ensures
        is_far(p, center, radius) <==> (p.x - center.x) * (p.x - center.x) + (p.y - center.y) * (
        p.y - center.y) > radius * radius,
        offset_position(center, offset).x == center.x + offset.x,
        offset_position(center, offset).y == center.y + offset.y,
        in_disc(offset, radius) ==> !is_far(offset_position(center, offset), center, radius),
{
}

/// The values, in key order, of the keys among the first `n` that are far.
pub open spec fn far_values<E>(
    order: Seq<IVec2>,
    values: Map<IVec2, E>,
    center: IVec2,
    radius: int,
    n: int,
) -> Seq<E>
    decreases n,
{
    if n <= 0 {
        Seq::empty()
    } else {
        let previous = far_values(order, values, center, radius, n - 1);
        if is_far(order[n - 1], center, radius) {
            previous.push(values[order[n - 1]])
        } else {
            previous
        }
    }
}

/// The chunk position that a streaming offset designates.
pub open spec fn offset_position(center: IVec2, offset: IVec2) -> IVec2 {
    IVec2 { x: (center.x + offset.x) as i32, y: (center.y + offset.y) as i32 }
}

/// The spawn scan from `cursor` on: skips positions already loaded or being
/// generated, spawns stored chunks, and starts generations, until `budget`
/// chunks were handled, the generation limit is reached, or the offsets run
/// out. Returns the actions and where the cursor stops.
pub open spec fn spawn_scan<E>(
    offsets: Seq<IVec2>,
    center: IVec2,
    loaded: Set<IVec2>,
    pending: Set<IVec2>,
    stored: Set<IVec2>,
    cursor: int,
    spawned: int,
    generating: int,
    budget: int,
) -> (Seq<StreamAction<E>>, int)
    decreases offsets.len() - cursor,
{
    if !(spawned < budget && generating < MAX_PENDING_GENERATIONS && 0 <= cursor < offsets.len()) {
        (Seq::empty(), cursor)
    } else {
        let p = offset_position(center, offsets[cursor]);
        if loaded.contains(p) || pending.contains(p) {
            spawn_scan(offsets, center, loaded, pending, stored, cursor + 1, spawned, generating, budget)
        } else if stored.contains(p) {
            let (rest, end) = spawn_scan(
                offsets,
                center,
                loaded,
                pending,
                stored,
                cursor + 1,
                spawned + 1,
                generating,
                budget,
            );
            (seq![StreamAction::SpawnStored(p)] + rest, end)
        } else {
            let (rest, end) = spawn_scan(
                offsets,
                center,
                loaded,
                pending,
                stored,
                cursor + 1,
                spawned + 1,
                generating + 1,
                budget,
            );
            (seq![StreamAction::Generate(p)] + rest, end)
        }
    }
}

fn is_far_exec(p: IVec2, center: IVec2, radius: u32) -> (far: bool)
    ensures
        far == is_far(p, center, radius as int),
{
    let dx = p.x as i128 - center.x as i128;
    let dy = p.y as i128 - center.y as i128;
    let r = radius as i128;
    proof {
        assert(dx * dx <= 0x1_0000_0000 * 0x1_0000_0000) by (nonlinear_arith)
            requires
                -0x1_0000_0000 <= dx <= 0x1_0000_0000,
        ;
        assert(dy * dy <= 0x1_0000_0000 * 0x1_0000_0000) by (nonlinear_arith)
            requires
                -0x1_0000_0000 <= dy <= 0x1_0000_0000,
        ;
        assert(0 <= dx * dx) by (nonlinear_arith);
        assert(0 <= dy * dy) by (nonlinear_arith);
        assert(0 <= r * r <= 0x1_0000_0000 * 0x1_0000_0000) by (nonlinear_arith)
            requires
                0 <= r <= 0x1_0000_0000,
        ;
    }
    let d2 = dx * dx + dy * dy;
    d2 > r * r
}

/// Collects the values of the far keys, in key order.
fn far_entries<E: Copy>(map: &ChunkMap<E>, center: IVec2, radius: u32) -> (far: Vec<E>)
    ensures
        far@ == far_values(
            map.key_order(),
            map@,
            center,
            radius as int,
            map.key_order().len() as int,
        ),
{
    let keys = map.keys();
    let mut far: Vec<E> = Vec::new();
    let mut i: usize = 0;
    while i < keys.len()
        invariant
            0 <= i <= keys@.len(),
            keys@ == map.key_order(),
            forall|k: IVec2| map@.dom().contains(k) <==> keys@.contains(k),
            far@ == far_values(keys@, map@, center, radius as int, i as int),
        decreases keys@.len() - i,
    {
        let key = keys[i];
        if is_far_exec(key, center, radius) {
            proof {
                assert(keys@.contains(key)) by {
                    assert(keys@[i as int] == key);
                }
            }
            match map.get(key) {
                Some(value) => far.push(*value),
                None => {},
            }
        }
        i = i + 1;
    }
    far
}

/// Removes the far keys from a map and returns their values, in key order.
fn remove_far<E: Copy>(map: &mut ChunkMap<E>, center: IVec2, radius: u32) -> (far: Vec<E>)
    ensures
        far@ == far_values(
            old(map).key_order(),
            old(map)@,
            center,
            radius as int,
            old(map).key_order().len() as int,
        ),
        final(map)@ == old(map)@.restrict(old(map)@.dom().filter(|p: IVec2| !is_far(p, center, radius as int))),
{
    let far = far_entries(map, center, radius);
    let keys = map.keys();
    let ghost start = map@;
    let mut i: usize = 0;
    while i < keys.len()
        invariant
            0 <= i <= keys@.len(),
            forall|k: IVec2| start.dom().contains(k) <==> keys@.contains(k),
            start == old(map)@,
            map@ == start.remove_keys(
                keys@.take(i as int).to_set().filter(|p: IVec2| is_far(p, center, radius as int)),
            ),
        decreases keys@.len() - i,
    {
        let key = keys[i];
        let far_here = is_far_exec(key, center, radius);
        if far_here {
            map.remove(key);
        }
        proof {
            let before = keys@.take(i as int).to_set().filter(|p: IVec2| is_far(p, center, radius as int));
            let after = keys@.take(i as int + 1).to_set().filter(|p: IVec2| is_far(p, center, radius as int));
            assert forall|a: IVec2| after.contains(a) <==> (before.contains(a) || (a == key && far_here)) by {
                if keys@.take(i as int + 1).contains(a) && a != key {
                    let k = choose|k: int| 0 <= k < i + 1 && #[trigger] keys@.take(i as int + 1)[k] == a;
                    assert(keys@.take(i as int)[k] == a);
                }
                if keys@.take(i as int).contains(a) {
                    let k = choose|k: int| 0 <= k < i && #[trigger] keys@.take(i as int)[k] == a;
                    assert(keys@.take(i as int + 1)[k] == a);
                }
                if a == key {
                    assert(keys@.take(i as int + 1)[i as int] == a);
                }
            }
            if far_here {
                assert(after =~= before.insert(key));
            } else {
                assert(after =~= before);
            }
            assert(map@ =~= start.remove_keys(after));
        }
        i = i + 1;
    }
    proof {
        assert(keys@.take(i as int) =~= keys@);
        let gone = keys@.to_set().filter(|p: IVec2| is_far(p, center, radius as int));
        let kept = start.dom().filter(|p: IVec2| !is_far(p, center, radius as int));
        assert(map@ =~= start.restrict(kept));
    }
    far
}

/// One streaming step for a viewer standing in chunk `center`.
///
/// When the viewer changed chunk since the last step, every loaded chunk
/// farther than the radius is queued for despawning, far generation tasks are
/// dropped (and despawned at once), and the spawn cursor restarts. Then up to
/// `despawn_budget_per_frame` queued chunks are despawned (last queued first),
/// and the offsets are scanned from the cursor to spawn stored chunks and start
/// generations (see [`spawn_scan`]). `pending` gains nothing here: the caller
/// records each started generation.
pub fn plan_stream<E: Copy, S>(
    center: IVec2,
    offsets: &StreamOffsets,
    settings: &VoxelSettings,
    state: &mut StreamState<E>,
    loaded: &ChunkMap<E>,
    pending: &mut ChunkMap<E>,
    stored: &ChunkMap<S>,
) -> (actions: Vec<StreamAction<E>>)
    requires
        offsets.spec_radius() <= 32767,
        forall|i: int|
            0 <= i < offsets.view().len() ==> in_disc(
                #[trigger] offsets.view()[i],
                offsets.spec_radius() as int,
            ),
        i32::MIN + 32767 <= center.x <= i32::MAX - 32767,
        i32::MIN + 32767 <= center.y <= i32::MAX - 32767,
    ensures
        ({
            let recenter = old(state).center != Some(center);
            let radius = offsets.spec_radius() as int;
            let dropped = if recenter {
                far_values(old(pending).key_order(), old(pending)@, center, radius, old(pending).key_order().len() as int)
            } else {
                Seq::empty()
            };
            let queue = if recenter {
                far_values(loaded.key_order(), loaded@, center, radius, loaded.key_order().len() as int)
            } else {
                old(state).pending_despawns@
            };
            let popped = if queue.len() < settings.despawn_budget_per_frame {
                queue.len() as int
            } else {
                settings.despawn_budget_per_frame as int
            };
            let start = if recenter {
                0
            } else {
                old(state).cursor as int
            };
            let pending_after = if recenter {
                old(pending)@.restrict(old(pending)@.dom().filter(|p: IVec2| !is_far(p, center, radius)))
            } else {
                old(pending)@
            };
            let (spawns, end) = spawn_scan::<E>(
                offsets.view(),
                center,
                loaded@.dom(),
                pending_after.dom(),
                stored@.dom(),
                start,
                0,
                pending_after.dom().len() as int,
                settings.spawn_budget_per_frame as int,
            );
            &&& final(pending)@ == pending_after
            &&& final(state).center == Some(center)
            &&& final(state).cursor == end
            &&& final(state).pending_despawns@ == queue.take(queue.len() - popped)
            &&& actions@ == dropped.map_values(|e: E| StreamAction::Despawn(e))
                + Seq::new(popped as nat, |k: int| StreamAction::Despawn(queue[queue.len() - 1 - k]))
                + spawns
        }),
{
    let radius = offsets.radius;
    let mut actions: Vec<StreamAction<E>> = Vec::new();
    if state.center != Some(center) {
        let queue = far_entries(loaded, center, radius);
        let dropped = remove_far(pending, center, radius);
        state.pending_despawns = queue;
        let mut d: usize = 0;
        while d < dropped.len()
            invariant
                0 <= d <= dropped@.len(),
                actions@ == dropped@.take(d as int).map_values(|e: E| StreamAction::Despawn(e)),
            decreases dropped@.len() - d,
        {
            actions.push(StreamAction::Despawn(dropped[d]));
            d = d + 1;
            assert(actions@ =~= dropped@.take(d as int).map_values(|e: E| StreamAction::Despawn(e)));
        }
        assert(dropped@.take(d as int) =~= dropped@);
        state.center = Some(center);
        state.cursor = 0;
    } else {
        assert(actions@ =~= Seq::<E>::empty().map_values(|e: E| StreamAction::Despawn(e)));
    }
    let ghost head = actions@;
    let ghost queue = state.pending_despawns@;
    let ghost cursor0 = state.cursor;
    let budget = settings.despawn_budget_per_frame;
    let mut taken: usize = 0;
    while taken < budget && state.pending_despawns.len() > 0
        invariant
            0 <= taken <= budget,
            taken <= queue.len(),
            state.pending_despawns@ == queue.take(queue.len() - taken),
            actions@ == head + Seq::new(taken as nat, |k: int| StreamAction::Despawn(queue[queue.len() - 1 - k])),
            state.center == Some(center),
            state.cursor == cursor0,
        decreases budget - taken,
    {
        let entity = state.pending_despawns.pop();
        match entity {
            Some(e) => {
                actions.push(StreamAction::Despawn(e));
            },
            None => {},
        }
        taken = taken + 1;
        proof {
            assert(queue.take(queue.len() - taken) =~= queue.take(queue.len() - (taken - 1)).drop_last());
            assert(actions@ =~= head + Seq::new(taken as nat, |k: int| StreamAction::Despawn(queue[queue.len() - 1 - k])));
        }
    }
    let ghost popped_actions = actions@;
    let ghost remaining_queue = state.pending_despawns@;
    proof {
        let popped = if queue.len() < budget {
            queue.len() as int
        } else {
            budget as int
        };
        assert(taken == popped);
    }
    let loaded_set = loaded;
    let mut spawned: usize = 0;
    let mut generating: usize = pending.len();
    let ghost pending_dom = pending@.dom();
    let ghost first = state.cursor as int;
    while spawned < settings.spawn_budget_per_frame && generating < MAX_PENDING_GENERATIONS
        && state.cursor < offsets.len()
        invariant
            offsets.spec_radius() <= 32767,
            forall|i: int|
                0 <= i < offsets.view().len() ==> in_disc(
                    #[trigger] offsets.view()[i],
                    offsets.spec_radius() as int,
                ),
            i32::MIN + 32767 <= center.x <= i32::MAX - 32767,
            i32::MIN + 32767 <= center.y <= i32::MAX - 32767,
            pending@.dom() == pending_dom,
            state.center == Some(center),
            state.pending_despawns@ == remaining_queue,
            spawn_scan::<E>(
                offsets.view(),
                center,
                loaded_set@.dom(),
                pending_dom,
                stored@.dom(),
                first,
                0,
                pending_dom.len() as int,
                settings.spawn_budget_per_frame as int,
            ) == ({
                let (rest, end) = spawn_scan::<E>(
                    offsets.view(),
                    center,
                    loaded_set@.dom(),
                    pending_dom,
                    stored@.dom(),
                    state.cursor as int,
                    spawned as int,
                    generating as int,
                    settings.spawn_budget_per_frame as int,
                );
                (actions@.skip(popped_actions.len() as int) + rest, end)
            }),
            actions@.take(popped_actions.len() as int) == popped_actions,
            actions@.len() >= popped_actions.len(),
        decreases offsets.view().len() - state.cursor,
    {
        let offset = offsets.offsets()[state.cursor];
        proof {
            lemma_disc_box(offset, offsets.spec_radius() as int);
        }
        let position = IVec2 { x: center.x + offset.x, y: center.y + offset.y };
        state.cursor = state.cursor + 1;
        if loaded_set.contains_key(position) || pending.contains_key(position) {
            // already loaded or being generated
        } else if stored.contains_key(position) {
            actions.push(StreamAction::SpawnStored(position));
            spawned = spawned + 1;
        } else {
            actions.push(StreamAction::Generate(position));
            spawned = spawned + 1;
            generating = generating + 1;
        }
        proof {
            assert(actions@.take(popped_actions.len() as int) =~= popped_actions);
        }
    }
    proof {
        let (rest, end) = spawn_scan::<E>(
            offsets.view(),
            center,
            loaded_set@.dom(),
            pending_dom,
            stored@.dom(),
            state.cursor as int,
            spawned as int,
            generating as int,
            settings.spawn_budget_per_frame as int,
        );
        assert(rest =~= Seq::<StreamAction<E>>::empty());
        assert(end == state.cursor);
        assert(actions@ =~= popped_actions + actions@.skip(popped_actions.len() as int));
        assert(actions@.skip(popped_actions.len() as int) + rest =~= actions@.skip(popped_actions.len() as int));
        let recenter = old(state).center != Some(center);
        let start = if recenter {
            0
        } else {
            old(state).cursor as int
        };
        assert(first == start);
        let r = offsets.spec_radius() as int;
        let pending_after = if recenter {
            old(pending)@.restrict(old(pending)@.dom().filter(|p: IVec2| !is_far(p, center, r)))
        } else {
            old(pending)@
        };
        assert(pending_dom == pending_after.dom());
        let (spawns, end2) = spawn_scan::<E>(
            offsets.view(),
            center,
            loaded@.dom(),
            pending_after.dom(),
            stored@.dom(),
            start,
            0,
            pending_after.dom().len() as int,
            settings.spawn_budget_per_frame as int,
        );
        assert(end2 == state.cursor);
        assert(spawns == actions@.skip(popped_actions.len() as int));
    }
    actions
}

/// Rebuilds the offsets when the view distance changed, which restarts streaming.
pub fn apply_view_distance<E>(
    offsets: &mut StreamOffsets,
    state: &mut StreamState<E>,
    view_distance: u32,
)
    requires
        view_distance <= 32767,
    ensures
        old(offsets).spec_radius() == view_distance ==> final(offsets).view() == old(offsets).view()
            && final(offsets).spec_radius() == old(offsets).spec_radius(),
        old(offsets).spec_radius() == view_distance ==> final(state).center == old(state).center,
        old(offsets).spec_radius() != view_distance ==> final(offsets).spec_radius()
            == view_distance && final(state).center is None,
        old(offsets).spec_radius() != view_distance ==> forall|v: IVec2|
            in_disc(v, view_distance as int) ==> #[trigger] final(offsets).view().contains(v),
        old(offsets).spec_radius() != view_distance ==> forall|i: int|
            0 <= i < final(offsets).view().len() ==> in_disc(
                #[trigger] final(offsets).view()[i],
                view_distance as int,
            ),
        old(offsets).spec_radius() != view_distance ==> forall|i: int, j: int|
            0 <= i < j < final(offsets).view().len() ==> streams_before(
                #[trigger] final(offsets).view()[i],
                #[trigger] final(offsets).view()[j],
            ),
        final(state).cursor == old(state).cursor,
        final(state).pending_despawns@ == old(state).pending_despawns@,
{
    if offsets.radius == view_distance {
        return;
    }
    *offsets = StreamOffsets::new(view_distance);
    state.center = None;
}

} // verus!
