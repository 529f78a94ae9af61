use vstd::prelude::*;

use crate::chunk::{
    BUFFER_SIZE, ChunkKind, ChunkLight, ChunkNeighborhood, ChunkStorage, ChunkStorageType, SIDE_SIZE,
    index_of, side_voxel_at,
};
use crate::math::{IVec3, can_add, vadd};
use crate::voxel::{Side, SIDE_COUNT, side_at, Kind, Light};
use crate::light_propagator::deficit;

verus! {

/// A chunk: the kind and the light of each of its voxels.
#[derive(Clone, Debug)]
pub struct Chunk {
    pub kinds: ChunkKind,
    pub lights: ChunkLight,
}

impl Chunk {
    pub open spec fn wf(&self) -> bool {
        self.kinds.wf() && self.lights.wf()
    }

    /// An empty, unlit chunk with no known neighbors.
    pub fn new() -> (r: Chunk)
        ensures
            r.wf(),
            r.kinds@ == Seq::new(crate::chunk::BUFFER_SIZE as nat, |i: int| Kind(0)),
            r.lights@ == Seq::new(
                crate::chunk::BUFFER_SIZE as nat,
                |i: int| Light { natural: 0, artificial: 0 },
            ),
            forall|i: int| 0 <= i < SIDE_COUNT ==> #[trigger] r.kinds.neighbors()@[i] is None,
            forall|i: int| 0 <= i < SIDE_COUNT ==> #[trigger] r.lights.neighbors()@[i] is None,
    {
        Chunk { kinds: ChunkStorage::new(), lights: ChunkStorage::new() }
    }
}

/// The layer of `chunk` that touches its neighbor on `side`, in layer index order.
pub open spec fn layer_of<T>(chunk: ChunkStorage<T>, side: Side) -> Seq<T> {
    Seq::new(SIDE_SIZE as nat, |i: int| chunk@[index_of(side_voxel_at(side, i))])
}

/// A chunk position whose six neighbors all have `i32` coordinates.
pub open spec fn has_neighbors(local: IVec3) -> bool {
    &&& i32::MIN < local.x < i32::MAX
    &&& i32::MIN < local.y < i32::MAX
    &&& i32::MIN < local.z < i32::MAX
}

/// Checks that the six neighbor positions of `local` have `i32` coordinates.
pub fn has_neighbors_at(local: IVec3) -> (r: bool)
    ensures
        r == has_neighbors(local),
{
    i32::MIN < local.x && local.x < i32::MAX && i32::MIN < local.y && local.y < i32::MAX && i32::MIN
        < local.z && local.z < i32::MAX
}

/// The world: the loaded chunks, by chunk position.
#[derive(Clone, Debug)]
pub struct VoxWorld {
    locals: Vec<IVec3>,
    chunks: Vec<Chunk>,
}

impl View for VoxWorld {
    type V = Map<IVec3, Chunk>;

    closed spec fn view(&self) -> Map<IVec3, Chunk> {
        Map::new(
            |k: IVec3| self.locals@.contains(k),
            |k: IVec3| self.chunks@[self.locals@.index_of(k)],
        )
    }
}

impl VoxWorld {
    /// Each chunk position is listed once, next to its chunk.
    pub closed spec fn wf(&self) -> bool {
        &&& self.locals@.len() == self.chunks@.len()
        &&& self.locals@.no_duplicates()
    }

    /// Every loaded chunk is well formed.
    pub open spec fn chunks_wf(&self) -> bool {
        forall|k: IVec3| #[trigger] self@.dom().contains(k) ==> self@[k].wf()
    }

    /// The room left for natural light in all loaded chunks.
    pub closed spec fn light_room(&self) -> int {
        room_of(self.chunks@)
    }

    /// The number of loaded chunks.
    pub closed spec fn chunk_count(&self) -> int {
        self.chunks@.len() as int
    }

    /// The positions in listing order.
    pub closed spec fn order(&self) -> Seq<IVec3> {
        self.locals@
    }

    proof fn lemma_at(&self, i: int)
        requires
            self.wf(),
            0 <= i < self.locals@.len(),
        ensures
            self@.dom().contains(self.locals@[i]),
            self@[self.locals@[i]] == self.chunks@[i],
    {
        let k = self.locals@[i];
        assert(self.locals@.contains(k));
        let j = self.locals@.index_of(k);
        assert(0 <= j < self.locals@.len() && self.locals@[j] == k);
    }

    /// An empty world.
    pub fn new() -> (r: VoxWorld)
        ensures
            r.wf(),
            r@ == Map::<IVec3, Chunk>::empty(),
    {
        let r = VoxWorld { locals: Vec::new(), chunks: Vec::new() };
        proof {
            assert(r@ =~= Map::<IVec3, Chunk>::empty());
        }
        r
    }

    /// The listing index of `local`, if it is loaded.
    fn find(&self, local: IVec3) -> (r: Option<usize>)
        requires
            self.wf(),
        ensures
            match r {
                Some(i) => i < self.locals@.len() && self.locals@[i as int] == local,
                None => !self.locals@.contains(local),
            },
            r is Some <==> self@.dom().contains(local),
    {
        let mut i: usize = 0;
        while i < self.locals.len()
            invariant
                self.wf(),
                i <= self.locals@.len(),
                forall|k: int| 0 <= k < i ==> self.locals@[k] != local,
            decreases self.locals@.len() - i,
        {
            if self.locals[i] == local {
                return Some(i);
            }
            i = i + 1;
        }
        None
    }

    /// Adds a chunk at `local`, which must not be loaded yet.
    pub fn add(&mut self, local: IVec3, chunk: Chunk)
        requires
            old(self).wf(),
            !old(self)@.dom().contains(local),
        ensures
            final(self).wf(),
            final(self)@ == old(self)@.insert(local, chunk),
    {
        let ghost old_locals = self.locals@;
        let ghost old_chunks = self.chunks@;
        self.locals.push(local);
        self.chunks.push(chunk);
        proof {
            assert(!old_locals.contains(local));
            assert(self.locals@.no_duplicates()) by {
                assert forall|i: int, j: int|
                    0 <= i < self.locals@.len() && 0 <= j < self.locals@.len() && i != j implies self.locals@[i]
                    != self.locals@[j] by {
                    if i < old_locals.len() && j < old_locals.len() {
                    } else if i < old_locals.len() {
                        assert(old_locals.contains(self.locals@[i]));
                    } else if j < old_locals.len() {
                        assert(old_locals.contains(self.locals@[j]));
                    }
                }
            }
            assert forall|k: IVec3| #[trigger] self@.dom().contains(k) == old(self)@.insert(
                local,
                chunk,
            ).dom().contains(k) by {
                if old_locals.contains(k) {
                    let i = old_locals.index_of(k);
                    assert(self.locals@[i] == k);
                }
                if k == local {
                    assert(self.locals@[old_locals.len() as int] == local);
                }
                if self.locals@.contains(k) && k != local {
                    let i = self.locals@.index_of(k);
                    assert(i < old_locals.len());
                    assert(old_locals[i] == k);
                }
            }
            assert forall|k: IVec3| #[trigger] self@.dom().contains(k) implies self@[k] == old(
                self,
            )@.insert(local, chunk)[k] by {
                let i = self.locals@.index_of(k);
                if k == local {
                    assert(self.locals@[old_locals.len() as int] == local);
                } else {
                    assert(i < old_locals.len());
                    assert(old_locals[i] == k);
                    let j = old_locals.index_of(k);
                    assert(old_locals[j] == k);
                    assert(i == j);
                }
            }
            assert(self@ =~= old(self)@.insert(local, chunk));
        }
    }

    /// Removes and **returns** the chunk at `local`, if it is loaded.
    pub fn remove(&mut self, local: IVec3) -> (r: Option<Chunk>)
        requires
            old(self).wf(),
        ensures
            final(self).wf(),
            final(self)@ == old(self)@.remove(local),
            old(self)@.dom().contains(local) ==> r == Some(old(self)@[local]),
            !old(self)@.dom().contains(local) ==> r is None,
    {
        match self.find(local) {
            Some(i) => {
                let ghost old_locals = self.locals@;
                let ghost old_chunks = self.chunks@;
                proof {
                    self.lemma_at(i as int);
                }
                self.locals.remove(i);
                let chunk = self.chunks.remove(i);
                proof {
                    assert(self.locals@ == old_locals.remove(i as int));
                    assert(self.locals@.no_duplicates()) by {
                        assert forall|a: int, b: int|
                            0 <= a < self.locals@.len() && 0 <= b < self.locals@.len() && a != b implies self.locals@[a]
                            != self.locals@[b] by {
                            let a2 = if a < i { a } else { a + 1 };
                            let b2 = if b < i { b } else { b + 1 };
                            assert(self.locals@[a] == old_locals[a2]);
                            assert(self.locals@[b] == old_locals[b2]);
                        }
                    }
                    assert forall|k: IVec3| #[trigger] self@.dom().contains(k) == old(
                        self,
                    )@.remove(local).dom().contains(k) by {
                        if self.locals@.contains(k) {
                            let a = self.locals@.index_of(k);
                            let a2 = if a < i { a } else { a + 1 };
                            assert(old_locals[a2] == k);
                            assert(old_locals.contains(k));
                            assert(a2 != i);
                        }
                        if old_locals.contains(k) && k != local {
                            let a = old_locals.index_of(k);
                            assert(a != i);
                            let a3 = if a < i { a } else { a - 1 };
                            assert(self.locals@[a3] == k);
                        }
                    }
                    assert forall|k: IVec3| #[trigger] self@.dom().contains(k) implies self@[k] == old(
                        self,
                    )@.remove(local)[k] by {
                        let a = self.locals@.index_of(k);
                        let a2 = if a < i { a } else { a + 1 };
                        assert(old_locals[a2] == k);
                        let b = old_locals.index_of(k);
                        assert(old_locals[b] == k);
                        assert(a2 == b);
                        assert(self.chunks@[a] == old_chunks[a2]);
                    }
                    assert(self@ =~= old(self)@.remove(local));
                }
                Some(chunk)
            },
            None => {
                proof {
                    assert(self@ =~= old(self)@.remove(local));
                }
                None
            },
        }
    }

    /// Checks whether a chunk is loaded at `local`.
    pub fn contains(&self, local: IVec3) -> (r: bool)
        requires
            self.wf(),
        ensures
            r == self@.dom().contains(local),
    {
        self.find(local).is_some()
    }

    /// **Returns** the chunk at `local`, if it is loaded.
    pub fn get(&self, local: IVec3) -> (r: Option<&Chunk>)
        requires
            self.wf(),
        ensures
            self@.dom().contains(local) ==> r == Some(&self@[local]),
            !self@.dom().contains(local) ==> r is None,
    {
        match self.find(local) {
            Some(i) => {
                proof {
                    self.lemma_at(i as int);
                }
                Some(&self.chunks[i])
            },
            None => None,
        }
    }

    /// **Returns** the chunk at `local` for modification, if it is loaded.
    pub fn get_mut(&mut self, local: IVec3) -> (r: Option<&mut Chunk>)
        requires
            old(self).wf(),
        ensures
            final(self).wf(),
            match r {
                Some(c) => {
                    &&& old(self)@.dom().contains(local)
                    &&& *c == old(self)@[local]
                    &&& final(self)@ == old(self)@.insert(local, *final(c))
                },
                None => {
                    &&& !old(self)@.dom().contains(local)
                    &&& final(self)@ == old(self)@
                    &&& final(self).light_room() == old(self).light_room()
                },
            },
            final(self).chunk_count() == old(self).chunk_count(),
            r is Some ==> final(self).light_room() == old(self).light_room() - deficit(
                old(self)@[local].lights@,
                BUFFER_SIZE as int,
            ) + deficit(final(self)@[local].lights@, BUFFER_SIZE as int),
    {
        match self.find(local) {
            Some(i) => {
                proof {
                    self.lemma_at(i as int);
                    lemma_room_update(self.chunks@, i as int);
                }
                let c = &mut self.chunks[i];
                Some(c)
            },
            None => None,
        }
    }

    /// **Returns** the position of every loaded chunk, each once.
    pub fn list_chunks(&self) -> (r: Vec<IVec3>)
        requires
            self.wf(),
        ensures
            r@.no_duplicates(),
            forall|k: IVec3| r@.contains(k) <==> self@.dom().contains(k),
            r@ == self.order(),
    {
        self.locals.clone()
    }

    /// Copies into the chunk at `local` the kind layers of its loaded neighbors. Sides with no
    /// loaded neighbor are cleared.
    pub fn update_neighborhood(&mut self, local: IVec3)
        requires
            old(self).wf(),
            old(self).chunks_wf(),
            has_neighbors(local),
        ensures
            final(self).wf(),
            final(self).chunks_wf(),
            final(self)@.dom() == old(self)@.dom(),
            old(self)@.dom().contains(local) ==> final(self)@ == old(self)@.insert(
                local,
                Chunk {
                    kinds: final(self)@[local].kinds,
                    lights: old(self)@[local].lights,
                },
            ),
            old(self)@.dom().contains(local) ==> final(self)@[local].kinds@ == old(
                self,
            )@[local].kinds@,
            old(self)@.dom().contains(local) ==> kind_neighborhood_of(
                old(self)@,
                local,
                final(self)@[local].kinds.neighbors(),
            ),
            !old(self)@.dom().contains(local) ==> final(self)@ == old(self)@,
    {
        let neighborhood = gather_kind_neighborhood(self, local);
        match self.find(local) {
            Some(i) => {
                proof {
                    self.lemma_at(i as int);
                }
                let ghost old_chunks = self.chunks@;
                let c = &mut self.chunks[i];
                c.kinds.set_neighborhood(neighborhood);
                proof {
                    assert(self.chunks@ == old_chunks.update(i as int, self.chunks@[i as int]));
                }
            },
            None => {},
        }
    }
}

impl VoxWorld {
    /// Copies into the chunk at `local` the light layers of its loaded neighbors. Sides with no
    /// loaded neighbor are cleared.
    pub fn update_light_neighborhood(&mut self, local: IVec3)
        requires
            old(self).wf(),
            old(self).chunks_wf(),
            has_neighbors(local),
        ensures
            final(self).wf(),
            final(self).chunks_wf(),
            final(self)@.dom() == old(self)@.dom(),
            final(self).light_room() == old(self).light_room(),
            final(self).chunk_count() == old(self).chunk_count(),
            old(self)@.dom().contains(local) ==> final(self)@ == old(self)@.insert(
                local,
                Chunk {
                    kinds: old(self)@[local].kinds,
                    lights: final(self)@[local].lights,
                },
            ),
            old(self)@.dom().contains(local) ==> final(self)@[local].lights@ == old(
                self,
            )@[local].lights@,
            old(self)@.dom().contains(local) ==> light_neighborhood_of(
                old(self)@,
                local,
                final(self)@[local].lights.neighbors(),
            ),
            !old(self)@.dom().contains(local) ==> final(self)@ == old(self)@,
    {
        let neighborhood = gather_light_neighborhood(self, local);
        match self.find(local) {
            Some(i) => {
                proof {
                    self.lemma_at(i as int);
                    lemma_room_update(self.chunks@, i as int);
                }
                let ghost old_chunks = self.chunks@;
                let c = &mut self.chunks[i];
                c.lights.set_neighborhood(neighborhood);
                proof {
                    assert(self.chunks@ == old_chunks.update(i as int, self.chunks@[i as int]));
                }
            },
            None => {},
        }
    }
}

/// Gathers the light layers of the chunks loaded around `local`.
pub fn gather_light_neighborhood(world: &VoxWorld, local: IVec3) -> (r: ChunkNeighborhood<Light>)
    requires
        world.wf(),
        world.chunks_wf(),
        has_neighbors(local),
    ensures
        r.wf(),
        light_neighborhood_of(world@, local, r),
{
    let mut neighborhood: ChunkNeighborhood<Light> = ChunkNeighborhood::new();
    let mut k: usize = 0;
    while k < SIDE_COUNT
        invariant
            world.wf(),
            world.chunks_wf(),
            has_neighbors(local),
            k <= SIDE_COUNT,
            neighborhood.wf(),
            forall|i: int|
                0 <= i < k ==> #[trigger] neighborhood@[i] == (if world@.dom().contains(
                    vadd(local, side_at(i).direction()),
                ) {
                    Some(layer_of(world@[vadd(local, side_at(i).direction())].lights, side_at(i)))
                } else {
                    None
                }),
            forall|i: int| k <= i < SIDE_COUNT ==> #[trigger] neighborhood@[i] is None,
        decreases SIDE_COUNT - k,
    {
        let side = Side::from_index(k);
        let neighbor = local.plus(side.dir());
        match world.get(neighbor) {
            Some(chunk) => {
                neighborhood.set(side, &chunk.lights);
                proof {
                    assert(neighborhood@[k as int] == Some(layer_of(chunk.lights, side)));
                }
            },
            None => {},
        }
        k = k + 1;
    }
    proof {
        assert(neighborhood@.len() == SIDE_COUNT);
    }
    neighborhood
}

/// `n` holds, for each side, the touching layer of the chunk loaded next to `local` on that
/// side, or nothing when there is none.
pub open spec fn neighborhood_of<T>(
    world: Map<IVec3, Chunk>,
    local: IVec3,
    n: ChunkNeighborhood<T>,
    pick: spec_fn(Chunk) -> ChunkStorage<T>,
) -> bool {
    &&& n@.len() == SIDE_COUNT
    &&& forall|i: int|
        0 <= i < SIDE_COUNT ==> #[trigger] n@[i] == (if world.dom().contains(
            vadd(local, side_at(i).direction()),
        ) {
            Some(layer_of(pick(world[vadd(local, side_at(i).direction())]), side_at(i)))
        } else {
            None
        })
}

pub open spec fn kind_neighborhood_of(
    world: Map<IVec3, Chunk>,
    local: IVec3,
    n: ChunkNeighborhood<Kind>,
) -> bool {
    neighborhood_of(world, local, n, |c: Chunk| c.kinds)
}

pub open spec fn light_neighborhood_of(
    world: Map<IVec3, Chunk>,
    local: IVec3,
    n: ChunkNeighborhood<Light>,
) -> bool {
    neighborhood_of(world, local, n, |c: Chunk| c.lights)
}

/// Gathers the kind layers of the chunks loaded around `local`.
pub fn gather_kind_neighborhood(world: &VoxWorld, local: IVec3) -> (r: ChunkNeighborhood<Kind>)
    requires
        world.wf(),
        world.chunks_wf(),
        has_neighbors(local),
    ensures
        r.wf(),
        kind_neighborhood_of(world@, local, r),
{
    let mut neighborhood: ChunkNeighborhood<Kind> = ChunkNeighborhood::new();
    let mut k: usize = 0;
    while k < SIDE_COUNT
        invariant
            world.wf(),
            world.chunks_wf(),
            has_neighbors(local),
            k <= SIDE_COUNT,
            neighborhood.wf(),
            forall|i: int|
                0 <= i < k ==> #[trigger] neighborhood@[i] == (if world@.dom().contains(
                    vadd(local, side_at(i).direction()),
                ) {
                    Some(layer_of(world@[vadd(local, side_at(i).direction())].kinds, side_at(i)))
                } else {
                    None
                }),
            forall|i: int| k <= i < SIDE_COUNT ==> #[trigger] neighborhood@[i] is None,
        decreases SIDE_COUNT - k,
    {
        let side = Side::from_index(k);
        let neighbor = local.plus(side.dir());
        match world.get(neighbor) {
            Some(chunk) => {
                neighborhood.set(side, &chunk.kinds);
                proof {
                    assert(neighborhood@[k as int] == Some(layer_of(chunk.kinds, side)));
                }
            },
            None => {},
        }
        k = k + 1;
    }
    proof {
        assert(neighborhood@.len() == SIDE_COUNT);
    }
    neighborhood
}

/// The room left for natural light in a list of chunks.
pub open spec fn room_of(s: Seq<Chunk>) -> int
    decreases s.len(),
{
    if s.len() == 0 {
        0
    } else {
        room_of(s.drop_last()) + deficit(s.last().lights@, BUFFER_SIZE as int)
    }
}

proof fn lemma_room_update(s: Seq<Chunk>, i: int)
    requires
        0 <= i < s.len(),
    ensures
        forall|c: Chunk|
            #[trigger] room_of(s.update(i, c)) == room_of(s) - deficit(s[i].lights@, BUFFER_SIZE as int)
                + deficit(c.lights@, BUFFER_SIZE as int),
    decreases s.len(),
{
    assert forall|c: Chunk|
        #[trigger] room_of(s.update(i, c)) == room_of(s) - deficit(s[i].lights@, BUFFER_SIZE as int)
            + deficit(c.lights@, BUFFER_SIZE as int) by {
        let t = s.update(i, c);
        assert(room_of(t) == room_of(t.drop_last()) + deficit(t.last().lights@, BUFFER_SIZE as int));
        assert(room_of(s) == room_of(s.drop_last()) + deficit(s.last().lights@, BUFFER_SIZE as int));
        if i == s.len() - 1 {
            assert(t.drop_last() =~= s.drop_last());
            assert(t.last() == c);
        } else {
            lemma_room_update(s.drop_last(), i);
            assert(t.drop_last() =~= s.drop_last().update(i, c));
            assert(t.last() == s.last());
            assert(s.drop_last()[i] == s[i]);
            assert(room_of(s.drop_last().update(i, c)) == room_of(s.drop_last()) - deficit(
                s.drop_last()[i].lights@,
                BUFFER_SIZE as int,
            ) + deficit(c.lights@, BUFFER_SIZE as int));
        }
    }
}

/// Every chunk has some room: naturals never exceed 255.
pub proof fn lemma_room_nonneg(s: Seq<Chunk>)
    ensures
        room_of(s) >= 0,
    decreases s.len(),
{
    if s.len() > 0 {
        lemma_room_nonneg(s.drop_last());
        crate::light_propagator::lemma_deficit_nonneg(s.last().lights@, BUFFER_SIZE as int);
    }
}

/// A world always has some room for natural light left, or none.
pub proof fn lemma_room_nonneg_of(world: &VoxWorld)
    ensures
        world.light_room() >= 0,
{
    lemma_room_nonneg(world.chunks@);
}

proof fn lemma_room_upper(s: Seq<Chunk>)
    ensures
        room_of(s) <= 255 * BUFFER_SIZE * s.len(),
    decreases s.len(),
{
    if s.len() > 0 {
        lemma_room_upper(s.drop_last());
        crate::light_propagator::lemma_deficit_upper(s.last().lights@, BUFFER_SIZE as int);
        assert(255 * BUFFER_SIZE * s.len() == 255 * BUFFER_SIZE * s.drop_last().len() + 255
            * BUFFER_SIZE) by (nonlinear_arith)
            requires
                s.drop_last().len() + 1 == s.len(),
        ;
    }
}

/// The room for natural light never exceeds what the loaded chunks can hold.
pub proof fn lemma_room_bounds(world: &VoxWorld)
    ensures
        0 <= world.light_room() <= 255 * BUFFER_SIZE * world.chunk_count(),
        world.chunk_count() >= 0,
{
    lemma_room_nonneg(world.chunks@);
    lemma_room_upper(world.chunks@);
}

/// A chunk added to the world is read back at its position, and gone once removed: what
/// [`VoxWorld::get`] reads after [`VoxWorld::add`] and [`VoxWorld::remove`].
pub proof fn lemma_add_get_remove(world: Map<IVec3, Chunk>, local: IVec3, chunk: Chunk, other: IVec3)
    requires
        !world.dom().contains(local),
        other != local,
    ensures
        world.insert(local, chunk).dom().contains(local),
        world.insert(local, chunk)[local] == chunk,
        world.insert(local, chunk).dom().contains(other) == world.dom().contains(other),
        world.dom().contains(other) ==> world.insert(local, chunk)[other] == world[other],
        !world.insert(local, chunk).remove(local).dom().contains(local),
        world.insert(local, chunk).remove(local) =~= world,
{
}

/// The position of the chunk holding the world voxel `w`.
pub open spec fn chunk_of(w: IVec3) -> IVec3 {
    IVec3 { x: (w.x as int / 16) as i32, y: (w.y as int / 16) as i32, z: (w.z as int / 16) as i32 }
}

/// A world voxel is fixed by its chunk and its place inside it.
pub proof fn lemma_chunk_split(w: IVec3)
    ensures
        chunk_of(w).x * 16 + crate::math::vrem(w, 16).x == w.x,
        chunk_of(w).y * 16 + crate::math::vrem(w, 16).y == w.y,
        chunk_of(w).z * 16 + crate::math::vrem(w, 16).z == w.z,
        crate::chunk::in_bounds(crate::math::vrem(w, 16)),
{
    assert(forall|c: int| #[trigger] (c / 16) * 16 + c % 16 == c && 0 <= c % 16 < 16) by (nonlinear_arith);
    assert(forall|c: int| i32::MIN <= c <= i32::MAX ==> i32::MIN <= #[trigger] (c / 16) <= i32::MAX) by (nonlinear_arith);
}

/// Distinct world voxels of loaded chunks are at most as many as the voxels of all loaded
/// chunks.
pub proof fn lemma_loaded_voxels_bound(world: &VoxWorld, s: Seq<IVec3>)
    requires
        world.wf(),
        s.no_duplicates(),
        forall|i: int| 0 <= i < s.len() ==> world@.dom().contains(chunk_of(#[trigger] s[i])),
    ensures
        s.len() <= world.chunk_count() * BUFFER_SIZE,
{
    let n = world.chunk_count();
    let code = |w: IVec3| world.locals@.index_of(chunk_of(w)) * 4096 + index_of(crate::math::vrem(w, 16));
    let codes = s.map_values(code);
    assert forall|i: int| 0 <= i < s.len() implies 0 <= #[trigger] codes[i] < n * 4096 by {
        let w = s[i];
        lemma_chunk_split(w);
        crate::chunk::lemma_index_of(crate::math::vrem(w, 16));
        let ci = world.locals@.index_of(chunk_of(w));
        assert(world.locals@.contains(chunk_of(w)));
        assert(0 <= ci < n);
        assert(0 <= ci * 4096 + index_of(crate::math::vrem(w, 16)) < n * 4096) by (nonlinear_arith)
            requires
                0 <= ci < n,
                0 <= index_of(crate::math::vrem(w, 16)) < 4096,
        ;
    }
    assert(codes.no_duplicates()) by {
        assert forall|i: int, j: int| 0 <= i < codes.len() && 0 <= j < codes.len() && i != j implies codes[i]
            != codes[j] by {
            let a = s[i];
            let b = s[j];
            lemma_chunk_split(a);
            lemma_chunk_split(b);
            crate::chunk::lemma_index_of(crate::math::vrem(a, 16));
            crate::chunk::lemma_index_of(crate::math::vrem(b, 16));
            let ca = world.locals@.index_of(chunk_of(a));
            let cb = world.locals@.index_of(chunk_of(b));
            let ia = index_of(crate::math::vrem(a, 16));
            let ib = index_of(crate::math::vrem(b, 16));
            assert(world.locals@.contains(chunk_of(a)));
            assert(world.locals@.contains(chunk_of(b)));
            if codes[i] == codes[j] {
                assert(ca == cb && ia == ib) by (nonlinear_arith)
                    requires
                        ca * 4096 + ia == cb * 4096 + ib,
                        0 <= ia < 4096,
                        0 <= ib < 4096,
                ;
                assert(chunk_of(a) == chunk_of(b));
                crate::chunk::lemma_index_injective(crate::math::vrem(a, 16), crate::math::vrem(b, 16));
                assert(a == b);
            }
        }
    }
    codes.unique_seq_to_set();
    vstd::set_lib::lemma_int_range(0, n * 4096);
    assert(codes.to_set().subset_of(vstd::set_lib::set_int_range(0, n * 4096))) by {
        assert forall|x: int| codes.to_set().contains(x) implies vstd::set_lib::set_int_range(0, n * 4096).contains(x) by {
            let i = codes.index_of(x);
        }
    }
    vstd::set_lib::lemma_len_subset(codes.to_set(), vstd::set_lib::set_int_range(0, n * 4096));
}

} // verus!
