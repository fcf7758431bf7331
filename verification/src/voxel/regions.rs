use vstd::prelude::*;

use crate::math::{div_euclid, IVec2};
use crate::voxel::chunk_map::ChunkMap;

verus! {

/// Chunks per render region along each horizontal axis.
pub const REGION_SIZE: i32 = 4;

/// Frames a region waits after a non-initial change before it is rebuilt.
pub const SETTLE_FRAMES: u8 = 4;

pub open spec fn spec_region_of(chunk: IVec2) -> IVec2 {
    IVec2 { x: (chunk.x as int / REGION_SIZE as int) as i32, y: (chunk.y as int / REGION_SIZE as int) as i32 }
}

/// The render region (4 x 4 chunks) that holds a chunk; negative chunks round down.
pub fn region_of(chunk: IVec2) -> (region: IVec2)
    ensures
        region == spec_region_of(chunk),
        region.x * REGION_SIZE <= chunk.x < region.x * REGION_SIZE + REGION_SIZE,
        region.y * REGION_SIZE <= chunk.y < region.y * REGION_SIZE + REGION_SIZE,
{
    let region = IVec2 { x: div_euclid(chunk.x, REGION_SIZE), y: div_euclid(chunk.y, REGION_SIZE) };
    proof {
        vstd::arithmetic::div_mod::lemma_fundamental_div_mod(chunk.x as int, 4);
        vstd::arithmetic::div_mod::lemma_fundamental_div_mod(chunk.y as int, 4);
    }
    region
}


/// Offset (x, z) of a chunk's mesh inside its region's mesh, in world units.
pub fn chunk_offset_in_region(region: IVec2, chunk: IVec2, chunk_size: i32) -> (offset: IVec2)
    requires
        i32::MIN <= region.x * REGION_SIZE <= i32::MAX,
        i32::MIN <= region.y * REGION_SIZE <= i32::MAX,
        i32::MIN <= chunk.x - region.x * REGION_SIZE <= i32::MAX,
        i32::MIN <= chunk.y - region.y * REGION_SIZE <= i32::MAX,
        i32::MIN <= (chunk.x - region.x * REGION_SIZE) * chunk_size <= i32::MAX,
        i32::MIN <= (chunk.y - region.y * REGION_SIZE) * chunk_size <= i32::MAX,
    ensures
        offset.x == (chunk.x - region.x * REGION_SIZE) * chunk_size,
        offset.y == (chunk.y - region.y * REGION_SIZE) * chunk_size,
{
    let origin_x = region.x * REGION_SIZE;
    let origin_y = region.y * REGION_SIZE;
    IVec2 { x: (chunk.x - origin_x) * chunk_size, y: (chunk.y - origin_y) * chunk_size }
}

/// `age + 1`, stopping at 255.
pub open spec fn aged(age: u8) -> u8 {
    if age < 255 {
        (age + 1) as u8
    } else {
        255
    }
}

/// The first `budget` regions, in `order`, whose age has reached [`SETTLE_FRAMES`],
/// scanning the first `n` regions of `order`.
pub open spec fn ready_scan(order: Seq<IVec2>, ages: Map<IVec2, u8>, n: int, budget: int) -> Seq<
    IVec2,
>
    decreases n,
{
    if n <= 0 {
        Seq::empty()
    } else {
        let previous = ready_scan(order, ages, n - 1, budget);
        if previous.len() < budget && ages[order[n - 1]] >= SETTLE_FRAMES {
            previous.push(order[n - 1])
        } else {
            previous
        }
    }
}

/// A region's age grows by one frame, up to the largest age a `u8` holds.
pub proof fn lemma_aged_law(age: u8)
    ensures
        age < 255 ==> aged(age) == age + 1,
        age == 255 ==> aged(age) == 255,
{
}

/// The ready scan picks at most `budget` regions among the first `n` of
/// `order`, each of an age of at least [`SETTLE_FRAMES`]; while it has room
/// left, it misses none of those that are old enough.
pub proof fn lemma_ready_scan_law(order: Seq<IVec2>, ages: Map<IVec2, u8>, n: int, budget: int)
    requires
        0 <= budget,
        n <= order.len(),
    ensures
        ready_scan(order, ages, n, budget).len() <= budget,
        forall|k: int|
            0 <= k < ready_scan(order, ages, n, budget).len() ==> ages[#[trigger] ready_scan(
                order,
                ages,
                n,
                budget,
            )[k]] >= SETTLE_FRAMES && exists|m: int| 0 <= m < n && order[m] == ready_scan(order, ages, n, budget)[k],
        ready_scan(order, ages, n, budget).len() < budget ==> forall|m: int|
            0 <= m < n && ages[#[trigger] order[m]] >= SETTLE_FRAMES ==> ready_scan(
                order,
                ages,
                n,
                budget,
            ).contains(order[m]),
    decreases n,
{
    if n > 0 {
        lemma_ready_scan_law(order, ages, n - 1, budget);
        let previous = ready_scan(order, ages, n - 1, budget);
        let result = ready_scan(order, ages, n, budget);
        if previous.len() < budget && ages[order[n - 1]] >= SETTLE_FRAMES {
            assert(result == previous.push(order[n - 1]));
            assert forall|k: int| 0 <= k < result.len() implies ages[#[trigger] result[k]] >= SETTLE_FRAMES
                && exists|m: int| 0 <= m < n && order[m] == result[k] by {
                if k < previous.len() {
                    assert(result[k] == previous[k]);
                    let m = choose|m: int| 0 <= m < n - 1 && order[m] == previous[k];
                    assert(order[m] == result[k]);
                } else {
                    assert(order[n - 1] == result[k]);
                }
            }
            assert forall|m: int| 0 <= m < n && ages[#[trigger] order[m]] >= SETTLE_FRAMES implies result.contains(
                order[m],
            ) by {
                if m < n - 1 {
                    assert(previous.contains(order[m]));
                    let k = choose|k: int| 0 <= k < previous.len() && previous[k] == order[m];
                    assert(result[k] == order[m]);
                } else {
                    assert(result[previous.len() as int] == order[m]);
                }
            }
        } else {
            assert forall|k: int| 0 <= k < result.len() implies ages[#[trigger] result[k]] >= SETTLE_FRAMES
                && exists|m: int| 0 <= m < n && order[m] == result[k] by {
                let m = choose|m: int| 0 <= m < n - 1 && order[m] == previous[k];
                assert(order[m] == result[k]);
            }
        }
    }
}

/// Whether chunk `(a.x, a.y)` comes before `b` when rows (y) run first.
pub open spec fn row_order_before(a: IVec2, b: IVec2) -> bool {
    a.y < b.y || (a.y == b.y && a.x < b.x)
}

/// Sorts distinct chunk positions by row (y), then by column (x).
pub fn sort_by_row(chunks: Vec<IVec2>) -> (sorted: Vec<IVec2>)
    ensures
        forall|i: int, j: int|
            0 <= i < j < sorted@.len() ==> row_order_before(
                #[trigger] sorted@[i],
                #[trigger] sorted@[j],
            ) || sorted@[i] == sorted@[j],
        forall|c: IVec2| sorted@.contains(c) <==> chunks@.contains(c),
        chunks@.no_duplicates() ==> sorted@.len() == chunks@.len() && forall|i: int, j: int|
            0 <= i < j < sorted@.len() ==> row_order_before(
                #[trigger] sorted@[i],
                #[trigger] sorted@[j],
            ),
{
    let mut sorted: Vec<IVec2> = Vec::new();
    let mut n: usize = 0;
    while n < chunks.len()
        invariant
            0 <= n <= chunks@.len(),
            forall|i: int, j: int|
                0 <= i < j < sorted@.len() ==> row_order_before(
                    #[trigger] sorted@[i],
                    #[trigger] sorted@[j],
                ) || sorted@[i] == sorted@[j],
            forall|c: IVec2| sorted@.contains(c) <==> chunks@.take(n as int).contains(c),
            chunks@.no_duplicates() ==> sorted@.len() == n && forall|i: int, j: int|
                0 <= i < j < sorted@.len() ==> row_order_before(
                    #[trigger] sorted@[i],
                    #[trigger] sorted@[j],
                ),
        decreases chunks@.len() - n,
    {
        let c = chunks[n];
        let mut at: usize = 0;
        while at < sorted.len() && !row_before(c, sorted[at])
            invariant
                0 <= at <= sorted@.len(),
                forall|k: int| 0 <= k < at ==> !row_order_before(c, #[trigger] sorted@[k]),
            decreases sorted@.len() - at,
        {
            at = at + 1;
        }
        let ghost before = sorted@;
        sorted.insert(at, c);
        proof {
            assert(sorted@ == before.insert(at as int, c));
            assert forall|i: int, j: int| 0 <= i < j < sorted@.len() implies row_order_before(
                #[trigger] sorted@[i],
                #[trigger] sorted@[j],
            ) || sorted@[i] == sorted@[j] by {
                if j < at {
                    assert(sorted@[i] == before[i] && sorted@[j] == before[j]);
                } else if j == at {
                    assert(sorted@[i] == before[i]);
                    assert(!row_order_before(c, before[i]));
                } else if i == at {
                    assert(sorted@[j] == before[j - 1]);
                    if j - 1 > at {
                        assert(row_order_before(before[at as int], before[j - 1]) || before[at as int] == before[j - 1]);
                    }
                } else if i < at {
                    assert(sorted@[i] == before[i] && sorted@[j] == before[j - 1]);
                } else {
                    assert(sorted@[i] == before[i - 1] && sorted@[j] == before[j - 1]);
                }
            }
            assert(chunks@.take(n as int + 1) =~= chunks@.take(n as int).push(c));
            assert forall|x: IVec2| sorted@.contains(x) <==> chunks@.take(n as int + 1).contains(x) by {
                let t0 = chunks@.take(n as int);
                let t1 = chunks@.take(n as int + 1);
                if sorted@.contains(x) {
                    let k = choose|k: int| 0 <= k < sorted@.len() && sorted@[k] == x;
                    if x == c {
                        assert(t1[n as int] == x);
                    } else {
                        if k < at {
                            assert(before[k] == x);
                        } else {
                            assert(before[k - 1] == x);
                        }
                        assert(before.contains(x));
                        assert(t0.contains(x));
                        let k2 = choose|k2: int| 0 <= k2 < t0.len() && t0[k2] == x;
                        assert(t1[k2] == x);
                    }
                }
                if t1.contains(x) {
                    if x == c {
                        assert(sorted@[at as int] == c);
                    } else {
                        let k2 = choose|k2: int| 0 <= k2 < t1.len() && t1[k2] == x;
                        assert(k2 < n);
                        assert(t0[k2] == x);
                        assert(t0.contains(x));
                        assert(before.contains(x));
                        let k = choose|k: int| 0 <= k < before.len() && before[k] == x;
                        if k < at {
                            assert(sorted@[k] == x);
                        } else {
                            assert(sorted@[k + 1] == x);
                        }
                    }
                }
            }
            if chunks@.no_duplicates() {
                assert(!chunks@.take(n as int).contains(c)) by {
                    if chunks@.take(n as int).contains(c) {
                        let k = choose|k: int| 0 <= k < n && chunks@.take(n as int)[k] == c;
                        assert(chunks@[k] == chunks@[n as int]);
                    }
                }
                assert forall|i: int, j: int| 0 <= i < j < sorted@.len() implies row_order_before(
                    #[trigger] sorted@[i],
                    #[trigger] sorted@[j],
                ) by {
                    assert(row_order_before(sorted@[i], sorted@[j]) || sorted@[i] == sorted@[j]);
                    if sorted@[i] == sorted@[j] {
                        if i == at {
                            assert(before.contains(c));
                        } else if j == at {
                            assert(before.contains(c));
                        } else {
                            let bi = if i < at { i } else { i - 1 };
                            let bj = if j < at { j } else { j - 1 };
                            assert(before[bi] == sorted@[i]);
                            assert(before[bj] == sorted@[j]);
                            assert(row_order_before(before[bi], before[bj]));
                        }
                    }
                }
            }
        }
        n = n + 1;
    }
    proof {
        assert(chunks@.take(n as int) =~= chunks@);
    }
    sorted
}

fn row_before(a: IVec2, b: IVec2) -> (before: bool)
    ensures
        before == row_order_before(a, b),
{
    a.y < b.y || (a.y == b.y && a.x < b.x)
}

/// The region pieces with `meshes` filed for `chunk`.
pub open spec fn pieces_with<M>(pieces: Map<IVec2, Map<IVec2, M>>, chunk: IVec2, meshes: M) -> Map<
    IVec2,
    Map<IVec2, M>,
> {
    let region = spec_region_of(chunk);
    let previous = if pieces.dom().contains(region) {
        pieces[region]
    } else {
        Map::empty()
    };
    pieces.insert(region, previous.insert(chunk, meshes))
}

/// The region pieces without `chunk`; a region left empty disappears.
pub open spec fn pieces_without<M>(pieces: Map<IVec2, Map<IVec2, M>>, chunk: IVec2) -> Map<
    IVec2,
    Map<IVec2, M>,
> {
    let region = spec_region_of(chunk);
    if pieces.dom().contains(region) && pieces[region].dom().contains(chunk) {
        let rest = pieces[region].remove(chunk);
        if rest.dom().len() == 0 {
            pieces.remove(region)
        } else {
            pieces.insert(region, rest)
        }
    } else {
        pieces
    }
}

/// Each chunk belongs to the 4 x 4 region whose chunks it lies among.
pub proof fn lemma_region_of_law(chunk: IVec2)
    ensures
        spec_region_of(chunk).x * REGION_SIZE <= chunk.x < spec_region_of(chunk).x * REGION_SIZE
            + REGION_SIZE,
        spec_region_of(chunk).y * REGION_SIZE <= chunk.y < spec_region_of(chunk).y * REGION_SIZE
            + REGION_SIZE,
{
    vstd::arithmetic::div_mod::lemma_fundamental_div_mod(chunk.x as int, 4);
    vstd::arithmetic::div_mod::lemma_fundamental_div_mod(chunk.y as int, 4);
    assert(chunk.x as int / 4 >= i32::MIN && chunk.x as int / 4 <= i32::MAX) by {
        vstd::arithmetic::div_mod::lemma_div_is_ordered(i32::MIN as int, chunk.x as int, 4);
        vstd::arithmetic::div_mod::lemma_div_is_ordered(chunk.x as int, i32::MAX as int, 4);
    }
    assert(chunk.y as int / 4 >= i32::MIN && chunk.y as int / 4 <= i32::MAX) by {
        vstd::arithmetic::div_mod::lemma_div_is_ordered(i32::MIN as int, chunk.y as int, 4);
        vstd::arithmetic::div_mod::lemma_div_is_ordered(chunk.y as int, i32::MAX as int, 4);
    }
}

/// Filing `meshes` for a chunk makes them the chunk's pieces in its region;
/// dropping a chunk leaves it filed nowhere. Either way every other chunk keeps
/// what it had filed.
pub proof fn lemma_pieces_law<M>(pieces: Map<IVec2, Map<IVec2, M>>, chunk: IVec2, meshes: M, other: IVec2)
    requires
        other != chunk,
        forall|r: IVec2| #[trigger] pieces.dom().contains(r) ==> pieces[r].dom().finite(),
    ensures
        ({
            let region = spec_region_of(chunk);
            let with = pieces_with(pieces, chunk, meshes);
            &&& with.dom().contains(region) && with[region].dom().contains(chunk) && with[region][chunk]
                == meshes
        }),
        ({
            let region = spec_region_of(chunk);
            let without = pieces_without(pieces, chunk);
            !(without.dom().contains(region) && without[region].dom().contains(chunk))
        }),
        ({
            let r = spec_region_of(other);
            let with = pieces_with(pieces, chunk, meshes);
            let without = pieces_without(pieces, chunk);
            let filed = pieces.dom().contains(r) && pieces[r].dom().contains(other);
            &&& (with.dom().contains(r) && with[r].dom().contains(other)) == filed
            &&& filed ==> with[r][other] == pieces[r][other]
            &&& (without.dom().contains(r) && without[r].dom().contains(other)) == filed
            &&& filed ==> without[r][other] == pieces[r][other]
        }),
{
    let region = spec_region_of(chunk);
    let r = spec_region_of(other);
    if pieces.dom().contains(region) && pieces[region].dom().contains(chunk) {
        let rest = pieces[region].remove(chunk);
        if r == region && pieces.dom().contains(r) && pieces[r].dom().contains(other) {
            assert(rest.dom().contains(other));
            assert(rest.dom() == pieces[region].dom().remove(chunk));
            vstd::set::axiom_set_contains_len(rest.dom(), other);
        }
    }
}

/// Filing a chunk that was not filed and then dropping it gives back the same
/// region pieces: a region created for it disappears again.
pub proof fn lemma_insert_then_remove<M>(regions: &RenderRegions<M>, chunk: IVec2, meshes: M)
    requires
        regions.well_placed(),
        !(regions.pieces().dom().contains(spec_region_of(chunk)) && regions.pieces()[spec_region_of(
            chunk,
        )].dom().contains(chunk)),
    ensures
        pieces_without(pieces_with(regions.pieces(), chunk, meshes), chunk) == regions.pieces(),
{
    let pieces = regions.pieces();
    let region = spec_region_of(chunk);
    let with = pieces_with(pieces, chunk, meshes);
    if pieces.dom().contains(region) {
        let inner = pieces[region];
        assert(inner.insert(chunk, meshes).remove(chunk) =~= inner);
        assert(inner.dom().len() > 0);
        assert(with.insert(region, inner) =~= pieces);
    } else {
        let rest = Map::<IVec2, M>::empty().insert(chunk, meshes).remove(chunk);
        assert(rest =~= Map::<IVec2, M>::empty());
        assert(rest.dom() =~= Set::<IVec2>::empty());
        assert(with.remove(region) =~= pieces);
    }
}

/// Render meshes of chunks grouped by region, and the regions waiting to be
/// rebuilt with their age in frames.
pub struct RenderRegions<M> {
    pieces: ChunkMap<ChunkMap<M>>,
    dirty: ChunkMap<u8>,
}

impl<M> RenderRegions<M> {
    /// Chunk meshes per region.
    pub closed spec fn pieces(&self) -> Map<IVec2, Map<IVec2, M>> {
        self.pieces@.map_values(|inner: ChunkMap<M>| inner@)
    }

    /// Regions waiting for a rebuild, with their age.
    pub closed spec fn dirty(&self) -> Map<IVec2, u8> {
        self.dirty@
    }

    /// The order in which dirty regions are visited.
    pub closed spec fn dirty_order(&self) -> Seq<IVec2> {
        self.dirty.key_order()
    }

    /// Every stored chunk lies in the region it is filed under, and no region is empty.
    pub open spec fn well_placed(&self) -> bool {
        forall|region: IVec2|
            #[trigger] self.pieces().dom().contains(region) ==> {
                &&& self.pieces()[region].dom().finite()
                &&& self.pieces()[region].dom().len() > 0
                &&& forall|chunk: IVec2|
                    #[trigger] self.pieces()[region].dom().contains(chunk) ==> spec_region_of(
                        chunk,
                    ) == region
            }
    }

    pub fn new() -> (regions: Self)
        ensures
            regions.pieces() == Map::<IVec2, Map<IVec2, M>>::empty(),
            regions.dirty() == Map::<IVec2, u8>::empty(),
            regions.well_placed(),
    {
        let regions = RenderRegions { pieces: ChunkMap::new(), dirty: ChunkMap::new() };
        assert(regions.pieces() =~= Map::<IVec2, Map<IVec2, M>>::empty());
        regions
    }

    /// Files a chunk's meshes under its region. A first mesh for the chunk marks
    /// the region for an immediate rebuild (age 0); a replacement restarts the
    /// settle delay (age [`SETTLE_FRAMES`]).
    pub fn insert(&mut self, chunk: IVec2, meshes: M)
        ensures
            ({
                let region = spec_region_of(chunk);
                let replaced = old(self).pieces().dom().contains(region) && old(self).pieces()[region].dom().contains(chunk);
                let previous = if old(self).pieces().dom().contains(region) {
                    old(self).pieces()[region]
                } else {
                    Map::empty()
                };
                &&& final(self).pieces() == pieces_with(old(self).pieces(), chunk, meshes)
                &&& final(self).dirty() == old(self).dirty().insert(
                    region,
                    if replaced {
                        SETTLE_FRAMES
                    } else {
                        0
                    },
                )
            }),
            old(self).well_placed() ==> final(self).well_placed(),
    {
        let region = region_of(chunk);
        let ghost old_pieces = self.pieces();
        let replaced = match self.pieces.remove(region) {
            Some(mut inner) => {
                let replaced = inner.insert(chunk, meshes).is_some();
                self.pieces.insert(region, inner);
                replaced
            },
            None => {
                let mut inner: ChunkMap<M> = ChunkMap::new();
                inner.insert(chunk, meshes);
                self.pieces.insert(region, inner);
                false
            },
        };
        self.dirty.insert(
            region,
            if replaced {
                SETTLE_FRAMES
            } else {
                0
            },
        );
        proof {
            let previous = if old_pieces.dom().contains(region) {
                old_pieces[region]
            } else {
                Map::empty()
            };
            assert(self.pieces() =~= old_pieces.insert(region, previous.insert(chunk, meshes)));
            if old(self).well_placed() {
                assert forall|r: IVec2| #[trigger] self.pieces().dom().contains(r) implies {
                    &&& self.pieces()[r].dom().finite()
                    &&& self.pieces()[r].dom().len() > 0
                    &&& forall|c: IVec2|
                        #[trigger] self.pieces()[r].dom().contains(c) ==> spec_region_of(c) == r
                } by {
                    if r == region {
                        assert(self.pieces()[r].dom().contains(chunk));
                        assert(previous.dom().finite()) by {
                            if !old_pieces.dom().contains(region) {
                                assert(previous.dom() =~= Set::<IVec2>::empty());
                            }
                        }
                        assert(self.pieces()[r] == previous.insert(chunk, meshes));
                        vstd::set_lib::lemma_set_empty_equivalency_len(self.pieces()[r].dom());
                    }
                }
            }
        }
    }

    /// Drops a chunk's meshes; an emptied region disappears. A region that lost
    /// a chunk waits [`SETTLE_FRAMES`] frames before its rebuild.
    pub fn remove(&mut self, chunk: IVec2)
        ensures
            ({
                let region = spec_region_of(chunk);
                if old(self).pieces().dom().contains(region) && old(self).pieces()[region].dom().contains(chunk) {
                    &&& final(self).pieces() == pieces_without(old(self).pieces(), chunk)
                    &&& final(self).dirty() == old(self).dirty().insert(region, SETTLE_FRAMES)
                } else {
                    &&& final(self).pieces() == old(self).pieces()
                    &&& final(self).dirty() == old(self).dirty()
                    &&& final(self).dirty_order() == old(self).dirty_order()
                }
            }),
            old(self).well_placed() ==> final(self).well_placed(),
    {
        let region = region_of(chunk);
        let ghost old_pieces = self.pieces();
        let mut inner = match self.pieces.remove(region) {
            Some(inner) => inner,
            None => {
                proof {
                    assert(self.pieces() =~= old_pieces);
                }
                return;
            },
        };
        let ghost inner_before = inner@;
        if inner.remove(chunk).is_none() {
            proof {
                assert(inner@ =~= inner_before);
            }
            self.pieces.insert(region, inner);
            proof {
                assert(self.pieces() =~= old_pieces);
            }
            return;
        }
        let emptied = inner.is_empty();
        if !emptied {
            self.pieces.insert(region, inner);
        }
        self.dirty.insert(region, SETTLE_FRAMES);
        proof {
            let rest = old_pieces[region].remove(chunk);
            if emptied {
                assert(rest =~= Map::<IVec2, M>::empty());
                assert(self.pieces() =~= old_pieces.remove(region));
            } else {
                assert(rest.dom().len() != 0);
                assert(self.pieces() =~= old_pieces.insert(region, rest));
            }
        }
    }

    /// Whether no region waits for a rebuild.
    pub fn is_settled(&self) -> (settled: bool)
        ensures
            settled == (self.dirty() == Map::<IVec2, u8>::empty()),
    {
        self.dirty.is_empty()
    }

    /// Number of regions waiting for a rebuild.
    pub fn dirty_len(&self) -> (n: usize)
        ensures
            n == self.dirty().dom().len(),
    {
        self.dirty.len()
    }

    /// Number of regions that hold meshes.
    pub fn region_count(&self) -> (n: usize)
        ensures
            n == self.pieces().dom().len(),
    {
        proof {
            assert(self.pieces().dom() =~= self.pieces@.dom());
        }
        self.pieces.len()
    }

    /// Age of a waiting region.
    pub fn dirty_age(&self, region: IVec2) -> (age: Option<u8>)
        ensures
            age == if self.dirty().dom().contains(region) {
                Some(self.dirty()[region])
            } else {
                None
            },
    {
        match self.dirty.get(region) {
            Some(age) => Some(*age),
            None => None,
        }
    }

    /// Number of chunks filed under a region (0 when it has none).
    pub fn chunk_count(&self, region: IVec2) -> (n: usize)
        ensures
            n == if self.pieces().dom().contains(region) {
                self.pieces()[region].dom().len()
            } else {
                0
            },
    {
        match self.pieces.get(region) {
            Some(inner) => inner.len(),
            None => 0,
        }
    }

    /// The chunks of a region sorted by row (y), then column (x); `None` when
    /// the region holds no meshes.
    pub fn region_chunks(&self, region: IVec2) -> (chunks: Option<Vec<IVec2>>)
        ensures
            match chunks {
                None => !self.pieces().dom().contains(region),
                Some(list) => {
                    &&& self.pieces().dom().contains(region)
                    &&& list@.len() == self.pieces()[region].dom().len()
                    &&& forall|c: IVec2| list@.contains(c) <==> self.pieces()[region].dom().contains(c)
                    &&& forall|i: int, j: int|
                        0 <= i < j < list@.len() ==> row_order_before(
                            #[trigger] list@[i],
                            #[trigger] list@[j],
                        )
                },
            },
    {
        match self.pieces.get(region) {
            Some(inner) => Some(sort_by_row(inner.keys())),
            None => None,
        }
    }

    /// The meshes of one chunk.
    pub fn piece(&self, region: IVec2, chunk: IVec2) -> (meshes: Option<&M>)
        ensures
            match meshes {
                Some(m) => self.pieces().dom().contains(region) && self.pieces()[region].dom().contains(
                    chunk,
                ) && *m == self.pieces()[region][chunk],
                None => !(self.pieces().dom().contains(region) && self.pieces()[region].dom().contains(
                    chunk,
                )),
            },
    {
        match self.pieces.get(region) {
            Some(inner) => inner.get(chunk),
            None => None,
        }
    }

    /// Ages every waiting region by one frame (saturating), then takes out the
    /// first `budget` regions, in waiting order, that have waited at least
    /// [`SETTLE_FRAMES`] frames, and returns them.
    pub fn take_ready(&mut self, budget: usize) -> (ready: Vec<IVec2>)
        ensures
            ({
                let ages = old(self).dirty().map_values(|a: u8| aged(a));
                &&& ready@ == ready_scan(
                    old(self).dirty_order(),
                    ages,
                    old(self).dirty_order().len() as int,
                    budget as int,
                )
                &&& final(self).dirty() == ages.remove_keys(ready@.to_set())
                &&& final(self).pieces() == old(self).pieces()
            }),
    {
        let order = self.dirty.keys();
        let ghost start = self.dirty@;
        let ghost ages = start.map_values(|a: u8| aged(a));
        let mut i: usize = 0;
        while i < order.len()
            invariant
                0 <= i <= order@.len(),
                order@ == old(self).dirty_order(),
                start == old(self).dirty(),
                ages == start.map_values(|a: u8| aged(a)),
                self.pieces() == old(self).pieces(),
                self.dirty.key_order() == order@,
                order@.no_duplicates(),
                forall|k: IVec2| start.dom().contains(k) <==> order@.contains(k),
                self.dirty@.dom() == start.dom(),
                forall|k: IVec2|
                    #[trigger] self.dirty@.dom().contains(k) ==> self.dirty@[k] == if order@.take(
                        i as int,
                    ).contains(k) {
                        aged(start[k])
                    } else {
                        start[k]
                    },
            decreases order@.len() - i,
        {
            let key = order[i];
            let age = match self.dirty.get(key) {
                Some(age) => *age,
                None => 0,
            };
            let next = if age < 255 {
                age + 1
            } else {
                255
            };
            let ghost prev = self.dirty@;
            proof {
                assert(order@.contains(key)) by {
                    assert(order@[i as int] == key);
                }
                assert(prev.dom().contains(key));
                assert(age == prev[key]);
            }
            self.dirty.insert(key, next);
            proof {
                assert(order@.take(i as int + 1) =~= order@.take(i as int).push(key));
                assert(!order@.take(i as int).contains(key)) by {
                    if order@.take(i as int).contains(key) {
                        let k = choose|k: int| 0 <= k < i && order@.take(i as int)[k] == key;
                        assert(order@[k] == order@[i as int]);
                    }
                }
                assert(self.dirty@.dom() =~= start.dom());
                assert forall|k: IVec2| #[trigger] self.dirty@.dom().contains(k) implies self.dirty@[k]
                    == if order@.take(i as int + 1).contains(k) {
                    aged(start[k])
                } else {
                    start[k]
                } by {
                    if k == key {
                        assert(order@.take(i as int + 1).contains(k)) by {
                            assert(order@.take(i as int + 1)[i as int] == key);
                        }
                    } else {
                        assert(prev.dom().contains(k));
                        assert(order@.take(i as int + 1).contains(k) == order@.take(i as int).contains(k));
                    }
                }
            }
            i = i + 1;
        }
        proof {
            assert(order@.take(i as int) =~= order@);
            assert(self.dirty@ =~= ages);
        }
        let mut ready: Vec<IVec2> = Vec::new();
        let mut j: usize = 0;
        while j < order.len()
            invariant
                0 <= j <= order@.len(),
                order@ == old(self).dirty_order(),
                self.dirty@ == ages,
                self.pieces() == old(self).pieces(),
                forall|k: IVec2| ages.dom().contains(k) <==> order@.contains(k),
                ready@ == ready_scan(order@, ages, j as int, budget as int),
            decreases order@.len() - j,
        {
            let key = order[j];
            proof {
                assert(order@.contains(key));
            }
            if ready.len() < budget {
                let age = match self.dirty.get(key) {
                    Some(age) => *age,
                    None => 0,
                };
                if age >= SETTLE_FRAMES {
                    ready.push(key);
                }
            }
            j = j + 1;
        }
        let mut r: usize = 0;
        while r < ready.len()
            invariant
                0 <= r <= ready@.len(),
                self.dirty@ == ages.remove_keys(ready@.take(r as int).to_set()),
                self.pieces() == old(self).pieces(),
            decreases ready@.len() - r,
        {
            self.dirty.remove(ready[r]);
            proof {
                assert(ready@.take(r as int + 1) =~= ready@.take(r as int).push(ready@[r as int]));
                assert forall|a: IVec2| ready@.take(r as int + 1).contains(a) <==> (ready@.take(r as int).contains(a) || a == ready@[r as int]) by {
                    if ready@.take(r as int + 1).contains(a) && a != ready@[r as int] {
                        let k = choose|k: int| 0 <= k < r + 1 && #[trigger] ready@.take(r as int + 1)[k] == a;
                        assert(ready@.take(r as int)[k] == a);
                    }
                    if ready@.take(r as int).contains(a) {
                        let k = choose|k: int| 0 <= k < r && #[trigger] ready@.take(r as int)[k] == a;
                        assert(ready@.take(r as int + 1)[k] == a);
                    }
                    if a == ready@[r as int] {
                        assert(ready@.take(r as int + 1)[r as int] == a);
                    }
                }
                assert(ready@.take(r as int + 1).to_set() =~= ready@.take(r as int).to_set().insert(
                    ready@[r as int],
                ));
                assert(self.dirty@ =~= ages.remove_keys(ready@.take(r as int + 1).to_set()));
            }
            r = r + 1;
        }
        proof {
            assert(ready@.take(r as int) =~= ready@);
        }
        ready
    }

    /// Forgets every mesh and every waiting region.
    pub fn clear(&mut self)
        ensures
            final(self).pieces() == Map::<IVec2, Map<IVec2, M>>::empty(),
            final(self).dirty() == Map::<IVec2, u8>::empty(),
            final(self).well_placed(),
    {
        self.pieces.clear();
        self.dirty.clear();
        assert(self.pieces() =~= Map::<IVec2, Map<IVec2, M>>::empty());
    }
}

} // verus!
