//! Chunk entities waiting for mesh builds, and the water child that each chunk
//! with water owns.
use vstd::prelude::*;

use crate::voxel::rebuild::ColliderPlan;

verus! {

/// What a finished build hands back, as far as the entity bookkeeping reads it:
/// whether there is a water mesh, and what happens to the collider.
#[derive(Clone, Copy, Debug, PartialEq, Eq, Structural)]
pub struct BuildOutput {
    pub water: bool,
    pub collider: ColliderPlan,
}

/// One chunk entity.
#[derive(Clone, Copy, Debug, PartialEq, Eq, Structural)]
pub struct ChunkRecord {
    pub alive: bool,
    /// A build that has not been applied yet.
    pub build: Option<BuildOutput>,
    /// Whether a terrain mesh was attached.
    pub has_mesh: bool,
    pub has_collider: bool,
    /// The water child entity, if any.
    pub water: Option<usize>,
}

/// One water child entity and the chunk it belongs to.
#[derive(Clone, Copy, Debug, PartialEq, Eq, Structural)]
pub struct WaterChild {
    pub parent: usize,
    pub alive: bool,
}

/// Collider presence after a build's collider plan.
pub open spec fn collider_after(had: bool, plan: ColliderPlan) -> bool {
    match plan {
        ColliderPlan::Keep => had,
        ColliderPlan::Replace => true,
        ColliderPlan::Remove => false,
    }
}

/// A replaced collider exists, a removed one does not, and a kept one is as it
/// was.
pub proof fn lemma_collider_after_law(had: bool, plan: ColliderPlan)
    ensures
        plan == ColliderPlan::Replace ==> collider_after(had, plan),
        plan == ColliderPlan::Remove ==> !collider_after(had, plan),
        plan == ColliderPlan::Keep ==> collider_after(had, plan) == had,
{
}

/// A chunk whose build is due: it is alive and has one.
pub open spec fn build_due(c: ChunkRecord) -> bool {
    c.alive && c.build is Some
}

/// The chunk entities and water children. Entities are named by their index;
/// despawned ones stay as dead records.
pub struct RenderWorld {
    chunks: Vec<ChunkRecord>,
    children: Vec<WaterChild>,
}

impl RenderWorld {
    pub closed spec fn chunks(&self) -> Seq<ChunkRecord> {
        self.chunks@
    }

    pub closed spec fn children(&self) -> Seq<WaterChild> {
        self.children@
    }

    /// The water child that chunk `i` names, if any, is alive and names it back,
    /// and only live chunks name one.
    pub open spec fn water_ok(&self, i: int) -> bool {
        match self.chunks()[i].water {
            Some(w) => {
                &&& w < self.children().len()
                &&& self.children()[w as int].alive
                &&& self.children()[w as int].parent == i
                &&& self.chunks()[i].alive
            },
            None => true,
        }
    }

    /// Every water child a chunk names is alive and names that chunk back; every
    /// live child is the water of a live chunk; dead chunks keep nothing.
    pub open spec fn wf(&self) -> bool {
        &&& forall|i: int| 0 <= i < self.chunks().len() ==> #[trigger] self.water_ok(i)
        &&& forall|w: int|
            0 <= w < self.children().len() && (#[trigger] self.children()[w]).alive ==> {
                let p = self.children()[w].parent;
                &&& p < self.chunks().len()
                &&& self.chunks()[p as int].water == Some(w as usize)
            }
        &&& forall|i: int|
            0 <= i < self.chunks().len() && !(#[trigger] self.chunks()[i]).alive
                ==> self.chunks()[i].build is None && self.chunks()[i].water is None
    }

    pub fn new() -> (world: Self)
        ensures
            world.wf(),
            world.chunks().len() == 0,
            world.children().len() == 0,
    {
        RenderWorld { chunks: Vec::new(), children: Vec::new() }
    }

    /// The chunk entity, if it was ever spawned.
    pub fn chunk(&self, entity: usize) -> (record: Option<ChunkRecord>)
        ensures
            record == if entity < self.chunks().len() {
                Some(self.chunks()[entity as int])
            } else {
                None
            },
    {
        if entity < self.chunks.len() {
            Some(self.chunks[entity])
        } else {
            None
        }
    }

    /// The water child of a chunk entity.
    pub fn water_child(&self, entity: usize) -> (child: Option<usize>)
        ensures
            child == if entity < self.chunks().len() {
                self.chunks()[entity as int].water
            } else {
                None
            },
    {
        if entity < self.chunks.len() {
            self.chunks[entity].water
        } else {
            None
        }
    }

    /// A water child entity, if it was ever spawned.
    pub fn child(&self, child: usize) -> (record: Option<WaterChild>)
        ensures
            record == if child < self.children().len() {
                Some(self.children()[child as int])
            } else {
                None
            },
    {
        if child < self.children.len() {
            Some(self.children[child])
        } else {
            None
        }
    }

    /// Gives a live chunk a build to apply.
    pub fn start_build(&mut self, entity: usize, output: BuildOutput)
        requires
            old(self).wf(),
            entity < old(self).chunks().len(),
            old(self).chunks()[entity as int].alive,
        ensures
            final(self).wf(),
            final(self).children() == old(self).children(),
            final(self).chunks() == old(self).chunks().update(
                entity as int,
                ChunkRecord { build: Some(output), ..old(self).chunks()[entity as int] },
            ),
    {
        let mut record = self.chunks[entity];
        record.build = Some(output);
        self.chunks.set(entity, record);
        proof {
            assert forall|i: int| 0 <= i < self.chunks().len() implies #[trigger] self.water_ok(i) by {
                assert(old(self).water_ok(i));
            }
        }
    }

    /// Applies the due build of chunk `i` (see [`RenderWorld::finish_builds`]).
    fn finish_one(&mut self, i: usize)
        requires
            old(self).wf(),
            i < old(self).chunks().len(),
            old(self).children().len() < usize::MAX,
        ensures
            final(self).wf(),
            final(self).chunks().len() == old(self).chunks().len(),
            old(self).children().len() <= final(self).children().len() <= old(self).children().len()
                + 1,
            forall|j: int|
                0 <= j < old(self).chunks().len() && j != i ==> #[trigger] final(self).chunks()[j]
                    == old(self).chunks()[j],
            !build_due(old(self).chunks()[i as int]) ==> final(self).chunks() == old(self).chunks()
                && final(self).children() == old(self).children(),
            build_due(old(self).chunks()[i as int]) ==> ({
                let c = old(self).chunks()[i as int];
                let out = c.build.unwrap();
                let n = final(self).chunks()[i as int];
                &&& n.alive
                &&& n.build is None
                &&& n.has_mesh
                &&& n.has_collider == collider_after(c.has_collider, out.collider)
                &&& (out.water && c.water is Some) ==> n.water == c.water && final(self).children()
                    == old(self).children()
                &&& (out.water && c.water is None) ==> n.water == Some(
                    old(self).children().len() as usize,
                ) && final(self).children() == old(self).children().push(
                    WaterChild { parent: i, alive: true },
                )
                &&& !out.water ==> n.water is None && final(self).children() == match c.water {
                    Some(w) => old(self).children().update(
                        w as int,
                        WaterChild { parent: i, alive: false },
                    ),
                    None => old(self).children(),
                }
            }),
    {
        proof {
            assert(self.water_ok(i as int));
        }
        let c = self.chunks[i];
        let out = match c.build {
            Some(out) => out,
            None => return,
        };
        if !c.alive {
            return;
        }
        let has_collider = match out.collider {
            ColliderPlan::Keep => c.has_collider,
            ColliderPlan::Replace => true,
            ColliderPlan::Remove => false,
        };
        let water = if out.water {
            match c.water {
                Some(w) => Some(w),
                None => {
                    let w = self.children.len();
                    self.children.push(WaterChild { parent: i, alive: true });
                    Some(w)
                },
            }
        } else {
            match c.water {
                Some(w) => {
                    self.children.set(w, WaterChild { parent: i, alive: false });
                },
                None => {},
            }
            None
        };
        self.chunks.set(
            i,
            ChunkRecord { alive: true, build: None, has_mesh: true, has_collider, water },
        );
        proof {
            let old_chunks = old(self).chunks();
            let old_children = old(self).children();
            assert forall|j: int| 0 <= j < self.chunks().len() implies #[trigger] self.water_ok(j) by {
                assert(old(self).water_ok(j));
                assert(old(self).water_ok(i as int));
                if j != i {
                    assert(self.chunks()[j] == old_chunks[j]);
                    match old_chunks[j].water {
                        Some(w) => {
                            if c.water == Some(w) {
                                assert(old_children[w as int].parent == i);
                            }
                        },
                        None => {},
                    }
                }
            }
            assert forall|w: int|
                0 <= w < self.children().len() && (#[trigger] self.children()[w]).alive implies {
                let p = self.children()[w].parent;
                &&& p < self.chunks().len()
                &&& self.chunks()[p as int].water == Some(w as usize)
            } by {
                if w < old_children.len() && c.water != Some(w as usize) {
                    assert(self.children()[w] == old_children[w]);
                    assert(old_children[w].alive);
                    let p = old_children[w].parent;
                    assert(old_chunks[p as int].water == Some(w as usize));
                    if p == i {
                        assert(false);
                    }
                }
            }
            assert forall|j: int|
                0 <= j < self.chunks().len() && !(#[trigger] self.chunks()[j]).alive implies self.chunks()[j].build is None
                && self.chunks()[j].water is None by {
                assert(j != i);
                assert(old_chunks[j] == self.chunks()[j]);
            }
        }
    }

    /// Applies every due build: the chunk gets its terrain mesh and collider
    /// update; a water mesh updates the chunk's water child or spawns one; no
    /// water mesh despawns the child. The build is then gone.
    pub fn finish_builds(&mut self)
        requires
            old(self).wf(),
            old(self).children().len() + old(self).chunks().len() < usize::MAX,
        ensures
            final(self).wf(),
            final(self).chunks().len() == old(self).chunks().len(),
            old(self).children().len() <= final(self).children().len() <= old(self).children().len()
                + old(self).chunks().len(),
            forall|i: int|
                0 <= i < old(self).chunks().len() && !build_due(#[trigger] old(self).chunks()[i])
                    ==> final(self).chunks()[i] == old(self).chunks()[i],
            forall|i: int|
                0 <= i < old(self).chunks().len() && build_due(#[trigger] old(self).chunks()[i])
                    ==> ({
                    let c = old(self).chunks()[i];
                    let out = c.build.unwrap();
                    let n = final(self).chunks()[i];
                    &&& n.alive
                    &&& n.build is None
                    &&& n.has_mesh
                    &&& n.has_collider == collider_after(c.has_collider, out.collider)
                    &&& (n.water is Some <==> out.water)
                    &&& (out.water && c.water is Some) ==> n.water == c.water
                }),
            forall|w: int|
                0 <= w < old(self).children().len() ==> {
                    let old_child = #[trigger] old(self).children()[w];
                    let c = old(self).chunks()[old_child.parent as int];
                    &&& final(self).children()[w].parent == old_child.parent
                    &&& final(self).children()[w].alive == (old_child.alive && !(build_due(c)
                        && !c.build.unwrap().water))
                },
    {
        let n = self.chunks.len();
        let mut i: usize = 0;
        while i < n
            invariant
                0 <= i <= n,
                n == old(self).chunks().len(),
                self.wf(),
                old(self).wf(),
                self.chunks().len() == n,
                old(self).children().len() <= self.children().len() <= old(self).children().len()
                    + i,
                old(self).children().len() + n < usize::MAX,
                forall|j: int| i <= j < n ==> #[trigger] self.chunks()[j] == old(self).chunks()[j],
                forall|j: int|
                    0 <= j < i && !build_due(#[trigger] old(self).chunks()[j]) ==> self.chunks()[j]
                        == old(self).chunks()[j],
                forall|j: int|
                    0 <= j < i && build_due(#[trigger] old(self).chunks()[j]) ==> ({
                        let c = old(self).chunks()[j];
                        let out = c.build.unwrap();
                        let m = self.chunks()[j];
                        &&& m.alive
                        &&& m.build is None
                        &&& m.has_mesh
                        &&& m.has_collider == collider_after(c.has_collider, out.collider)
                        &&& (m.water is Some <==> out.water)
                        &&& (out.water && c.water is Some) ==> m.water == c.water
                    }),
                forall|w: int|
                    0 <= w < old(self).children().len() ==> {
                        let old_child = #[trigger] old(self).children()[w];
                        let c = old(self).chunks()[old_child.parent as int];
                        &&& self.children()[w].parent == old_child.parent
                        &&& self.children()[w].alive == (old_child.alive && !(old_child.parent < i
                            && build_due(c) && !c.build.unwrap().water))
                    },
            decreases n - i,
        {
            let ghost before = self.children();
            let ghost chunks_before = self.chunks();
            proof {
                assert(self.water_ok(i as int));
            }
            self.finish_one(i);
            proof {
                let old_children = old(self).children();
                let old_chunks = old(self).chunks();
                assert forall|w: int| 0 <= w < old_children.len() implies {
                    let old_child = #[trigger] old_children[w];
                    let c = old_chunks[old_child.parent as int];
                    &&& self.children()[w].parent == old_child.parent
                    &&& self.children()[w].alive == (old_child.alive && !(old_child.parent < i + 1
                        && build_due(c) && !c.build.unwrap().water))
                } by {
                    let old_child = old_children[w];
                    let p = old_child.parent;
                    let ci = chunks_before[i as int];
                    assert(ci == old_chunks[i as int]);
                    if build_due(ci) && !ci.build.unwrap().water && ci.water == Some(w as usize) {
                        // The despawned child is the one chunk `i` named.
                        assert(old_child.alive);
                        assert(p == i);
                    } else if build_due(ci) && !ci.build.unwrap().water && p == i && old_child.alive {
                        // A live child of `i` is what `i` names.
                        assert(old_chunks[p as int].water == Some(w as usize));
                        assert(false);
                    }
                }
            }
            i = i + 1;
        }
    }

    /// Despawns a chunk entity together with its water child.
    pub fn despawn(&mut self, entity: usize)
        requires
            old(self).wf(),
        ensures
            final(self).wf(),
            entity >= old(self).chunks().len() ==> final(self).chunks() == old(self).chunks()
                && final(self).children() == old(self).children(),
            entity < old(self).chunks().len() ==> final(self).chunks() == old(self).chunks().update(
                entity as int,
                ChunkRecord {
                    alive: false,
                    build: None,
                    has_mesh: false,
                    has_collider: false,
                    water: None,
                },
            ),
            entity < old(self).chunks().len() ==> final(self).children() == match old(
                self,
            ).chunks()[entity as int].water {
                Some(w) => old(self).children().update(
                    w as int,
                    WaterChild { parent: entity, alive: false },
                ),
                None => old(self).children(),
            },
            forall|w: int|
                0 <= w < final(self).children().len() && (#[trigger] final(self).children()[w]).alive
                    ==> final(self).children()[w].parent != entity,
    {
        if entity >= self.chunks.len() {
            proof {
                assert forall|w: int|
                    0 <= w < self.children().len() && (#[trigger] self.children()[w]).alive implies self.children()[w].parent
                    != entity by {
                    assert(self.children()[w].parent < self.chunks().len());
                }
            }
            return;
        }
        proof {
            assert(self.water_ok(entity as int));
        }
        let c = self.chunks[entity];
        match c.water {
            Some(w) => {
                self.children.set(w, WaterChild { parent: entity, alive: false });
            },
            None => {},
        }
        self.chunks.set(
            entity,
            ChunkRecord {
                alive: false,
                build: None,
                has_mesh: false,
                has_collider: false,
                water: None,
            },
        );
        proof {
            let old_chunks = old(self).chunks();
            let old_children = old(self).children();
            assert forall|j: int| 0 <= j < self.chunks().len() implies #[trigger] self.water_ok(j) by {
                assert(old(self).water_ok(j));
                if j != entity {
                    assert(self.chunks()[j] == old_chunks[j]);
                    match old_chunks[j].water {
                        Some(w) => {
                            if c.water == Some(w) {
                                assert(old_children[w as int].parent == entity);
                            }
                        },
                        None => {},
                    }
                }
            }
            assert forall|w: int|
                0 <= w < self.children().len() && (#[trigger] self.children()[w]).alive implies {
                let p = self.children()[w].parent;
                &&& p < self.chunks().len()
                &&& self.chunks()[p as int].water == Some(w as usize)
                &&& p != entity
            } by {
                assert(self.children@.len() == self.children.len());
                match c.water {
                    Some(w0) => {
                        if w0 == w {
                            assert(!self.children()[w].alive);
                        }
                    },
                    None => {},
                }
                assert(self.children()[w] == old_children[w]);
                assert(old_children[w].alive);
                let p = old_children[w].parent;
                assert(old_chunks[p as int].water == Some(w as usize));
                if p == entity {
                    assert(false);
                }
            }
        }
    }
}

/// Spawns a chunk entity whose pending build yields a water mesh exactly when
/// `water` is set and keeps the collider; returns the entity.
pub fn spawn_build(world: &mut RenderWorld, water: bool) -> (entity: usize)
    requires
        old(world).wf(),
        old(world).chunks().len() < usize::MAX,
    ensures
        final(world).wf(),
        entity == old(world).chunks().len(),
        final(world).children() == old(world).children(),
        final(world).chunks() == old(world).chunks().push(
            ChunkRecord {
                alive: true,
                build: Some(BuildOutput { water, collider: ColliderPlan::Keep }),
                has_mesh: false,
                has_collider: false,
                water: None,
            },
        ),
{
    let entity = world.chunks.len();
    world.chunks.push(
        ChunkRecord {
            alive: true,
            build: Some(BuildOutput { water, collider: ColliderPlan::Keep }),
            has_mesh: false,
            has_collider: false,
            water: None,
        },
    );
    proof {
        assert forall|i: int| 0 <= i < world.chunks().len() implies #[trigger] world.water_ok(i) by {
            if i < old(world).chunks().len() {
                assert(old(world).water_ok(i));
                assert(world.chunks()[i] == old(world).chunks()[i]);
            }
        }
        assert forall|w: int|
            0 <= w < world.children().len() && (#[trigger] world.children()[w]).alive implies {
            let p = world.children()[w].parent;
            &&& p < world.chunks().len()
            &&& world.chunks()[p as int].water == Some(w as usize)
        } by {
            let p = old(world).children()[w].parent;
            assert(old(world).chunks()[p as int] == world.chunks()[p as int]);
        }
    }
    entity
}

} // verus!
