use vstd::prelude::*;

use crate::math::{self, IVec3, within_cube};
use crate::voxel::{Side, SIDE_COUNT, side_at, Kind, FacesOcclusion, Light};

verus! {

pub const AXIS_SIZE: usize = 16;
pub const AXIS_ENDING: usize = 15;
pub const X_AXIS_SIZE: usize = 16;
pub const Y_AXIS_SIZE: usize = 16;
pub const Z_AXIS_SIZE: usize = 16;
pub const X_END: i32 = 15;
pub const Y_END: i32 = 15;
pub const Z_END: i32 = 15;
pub const BUFFER_SIZE: usize = 4096;
/// The number of voxels on one face of a chunk.
pub const SIDE_SIZE: usize = 256;

pub const X_MASK: usize = 0xf00;
pub const Z_MASK: usize = 0x0f0;
pub const Y_MASK: usize = 0x00f;

/// A voxel position inside a chunk: every component in `0..16`.
pub open spec fn in_bounds(v: IVec3) -> bool {
    within_cube(v, 0, 15)
}

/// A voxel position on the outer layer of a chunk.
pub open spec fn at_bounds(v: IVec3) -> bool {
    v.x == 0 || v.y == 0 || v.z == 0 || v.x == 15 || v.y == 15 || v.z == 15
}

/// The buffer index of a voxel: X is the most significant, then Z, then Y.
pub open spec fn index_of(v: IVec3) -> int {
    v.x * 256 + v.z * 16 + v.y
}

/// The voxel stored at buffer index `i`, taking only the 12 lowest bits into account.
pub open spec fn voxel_at(i: int) -> IVec3 {
    IVec3 { x: ((i / 256) % 16) as i32, y: (i % 16) as i32, z: ((i / 16) % 16) as i32 }
}

pub proof fn lemma_index_of(v: IVec3)
    requires
        in_bounds(v),
    ensures
        0 <= index_of(v) < BUFFER_SIZE,
        voxel_at(index_of(v)) == v,
{
    let i = index_of(v);
    assert(i / 256 == v.x && i % 256 == v.z * 16 + v.y) by (nonlinear_arith)
        requires
            i == v.x * 256 + v.z * 16 + v.y,
            0 <= v.x < 16,
            0 <= v.y < 16,
            0 <= v.z < 16,
    ;
    assert((i / 16) % 16 == v.z && i % 16 == v.y) by (nonlinear_arith)
        requires
            i == v.x * 256 + v.z * 16 + v.y,
            0 <= v.x < 16,
            0 <= v.y < 16,
            0 <= v.z < 16,
    ;
}

pub proof fn lemma_voxel_at(i: int)
    requires
        0 <= i < BUFFER_SIZE,
    ensures
        in_bounds(voxel_at(i)),
        index_of(voxel_at(i)) == i,
{
    let v = voxel_at(i);
    assert(((i / 256) % 16) * 256 + ((i / 16) % 16) * 16 + i % 16 == i && 0 <= (i / 256) % 16 < 16
        && 0 <= (i / 16) % 16 < 16 && 0 <= i % 16 < 16) by (nonlinear_arith)
        requires
            0 <= i < 4096,
    ;
}

/// Two voxels inside a chunk share an index only when they are the same voxel.
pub proof fn lemma_index_injective(a: IVec3, b: IVec3)
    requires
        in_bounds(a),
        in_bounds(b),
        index_of(a) == index_of(b),
    ensures
        a == b,
{
    lemma_index_of(a);
    lemma_index_of(b);
}

/// Converts a voxel position inside a chunk to its buffer index.
pub fn to_index(local: IVec3) -> (r: usize)
    requires
        in_bounds(local),
    ensures
        r == index_of(local),
        r < BUFFER_SIZE,
{
    proof {
        lemma_index_of(local);
    }
    (local.x as usize) * 256 + (local.z as usize) * 16 + (local.y as usize)
}

/// Converts a buffer index to its voxel position.
pub fn from_index(index: usize) -> (r: IVec3)
    ensures
        r == voxel_at(index as int),
        in_bounds(r),
{
    let x = (index & X_MASK) >> 8usize;
    let y = index & Y_MASK;
    let z = (index & Z_MASK) >> 4usize;
    proof {
        assert(x == (index / 256) % 16 && y == index % 16 && z == (index / 16) % 16 && x < 16 && y
            < 16 && z < 16) by (bit_vector)
            requires
                x == (index & 0xf00usize) >> 8usize,
                y == index & 0xfusize,
                z == (index & 0xf0usize) >> 4usize,
        ;
    }
    IVec3 { x: x as i32, y: y as i32, z: z as i32 }
}

/// The voxels of a chunk in buffer order.
pub open spec fn all_voxels() -> Seq<IVec3> {
    Seq::new(BUFFER_SIZE as nat, |i: int| voxel_at(i))
}

/// **Returns** every voxel position of a chunk, in buffer order: the first is `(0, 0, 0)`
/// and the last `(15, 15, 15)`.
pub fn voxels() -> (r: Vec<IVec3>)
    ensures
        r@ == all_voxels(),
{
    let mut result: Vec<IVec3> = Vec::new();
    let mut i: usize = 0;
    while i < BUFFER_SIZE
        invariant
            i <= BUFFER_SIZE,
            result@ == Seq::new(i as nat, |k: int| voxel_at(k)),
        decreases BUFFER_SIZE - i,
    {
        let v = from_index(i);
        result.push(v);
        i = i + 1;
        proof {
            assert(result@ =~= Seq::new(i as nat, |k: int| voxel_at(k)));
        }
    }
    result
}

/// Checks if `local` is a voxel position inside a chunk.
pub fn is_within_bounds(local: IVec3) -> (r: bool)
    ensures
        r == in_bounds(local),
{
    math::is_within_cubic_bounds(local, 0, AXIS_SIZE as i32 - 1)
}

/// Checks if `local` lies on the outer layer of a chunk.
pub fn is_at_bounds(local: IVec3) -> (r: bool)
    ensures
        r == at_bounds(local),
{
    local.x == 0 || local.y == 0 || local.z == 0 || local.x == AXIS_ENDING as i32 || local.y
        == AXIS_ENDING as i32 || local.z == AXIS_ENDING as i32
}

/// `-1` on the lower layer of an axis, `1` on the upper layer, else `0`.
pub open spec fn boundary_component(c: i32) -> i32 {
    if c == 0 {
        -1i32
    } else if c == 15 {
        1
    } else {
        0
    }
}

pub open spec fn boundary_dir(local: IVec3) -> IVec3 {
    IVec3 {
        x: boundary_component(local.x),
        y: boundary_component(local.y),
        z: boundary_component(local.z),
    }
}

fn boundary_value(c: i32) -> (r: i32)
    ensures
        r == boundary_component(c),
{
    if c == 0 {
        -1
    } else if c == AXIS_ENDING as i32 {
        1
    } else {
        0
    }
}

/// **Returns** the direction of the chunk boundaries that `local` touches, per axis.
pub fn get_boundary_dir(local: IVec3) -> (r: IVec3)
    ensures
        r == boundary_dir(local),
{
    IVec3 { x: boundary_value(local.x), y: boundary_value(local.y), z: boundary_value(local.z) }
}

/// `-1` below the chunk on an axis, `1` past it, else `0`.
pub open spec fn overlap_component(c: i32) -> i32 {
    if c < 0 {
        -1i32
    } else if c >= 16 {
        1
    } else {
        0
    }
}

/// The direction of the chunk that holds a voxel position given relative to the current chunk.
pub open spec fn overlap_dir(pos: IVec3) -> IVec3 {
    IVec3 {
        x: overlap_component(pos.x),
        y: overlap_component(pos.y),
        z: overlap_component(pos.z),
    }
}

fn overlap_value(c: i32) -> (r: i32)
    ensures
        r == overlap_component(c),
{
    if c < 0 {
        -1
    } else if c >= AXIS_SIZE as i32 {
        1
    } else {
        0
    }
}

/// Given a voxel position that may lie outside the current chunk, **returns** the direction of
/// the chunk that holds it and its position inside that chunk.
pub fn overlap_voxel(pos: IVec3) -> (r: (IVec3, IVec3))
    ensures
        r.0 == overlap_dir(pos),
        r.1 == math::vrem(pos, 16),
        in_bounds(r.1),
{
    let voxel = math::euclid_rem(pos, AXIS_SIZE as i32);
    (IVec3 { x: overlap_value(pos.x), y: overlap_value(pos.y), z: overlap_value(pos.z) }, voxel)
}

/// The positions of the chunks, around the chunk at `local`, that `voxel` touches by a face.
pub open spec fn neighboring_spec(local: IVec3, voxel: IVec3) -> Seq<IVec3> {
    math::spec_to_unit_dir(boundary_dir(voxel)).map_values(|d: IVec3| math::vadd(local, d))
}

/// **Returns** the positions of the chunks, around the chunk at `local`, that `voxel` touches
/// by a face: one per chunk boundary the voxel lies on.
pub fn neighboring(local: IVec3, voxel: IVec3) -> (r: Vec<IVec3>)
    requires
        crate::voxworld::has_neighbors(local),
    ensures
        r@ == neighboring_spec(local, voxel),
{
    let dirs = math::to_unit_dir(get_boundary_dir(voxel));
    let mut r: Vec<IVec3> = Vec::new();
    let mut i: usize = 0;
    while i < dirs.len()
        invariant
            crate::voxworld::has_neighbors(local),
            i <= dirs@.len(),
            dirs@ == math::spec_to_unit_dir(boundary_dir(voxel)),
            r@ == dirs@.subrange(0, i as int).map_values(|d: IVec3| math::vadd(local, d)),
        decreases dirs@.len() - i,
    {
        proof {
            assert(math::is_small(dirs@[i as int], 1));
        }
        r.push(local.plus(dirs[i]));
        i = i + 1;
        proof {
            assert(r@ =~= dirs@.subrange(0, i as int).map_values(|d: IVec3| math::vadd(local, d)));
        }
    }
    proof {
        assert(dirs@.subrange(0, i as int) =~= dirs@);
    }
    r
}

/// The values a chunk buffer can hold.
pub trait ChunkStorageType: Copy + Sized {
    /// The value of a fresh buffer.
    spec fn default_spec() -> Self;

    fn default_value() -> (r: Self)
        ensures
            r == Self::default_spec(),
    ;

    fn same(&self, other: &Self) -> (r: bool)
        ensures
            r == (*self == *other),
    ;
}

impl ChunkStorageType for u8 {
    open spec fn default_spec() -> Self {
        0
    }

    fn default_value() -> (r: Self) {
        0
    }

    fn same(&self, other: &Self) -> (r: bool) {
        *self == *other
    }
}

impl ChunkStorageType for Kind {
    open spec fn default_spec() -> Self {
        Kind(0)
    }

    fn default_value() -> (r: Self) {
        Kind(0)
    }

    fn same(&self, other: &Self) -> (r: bool) {
        *self == *other
    }
}

impl ChunkStorageType for FacesOcclusion {
    open spec fn default_spec() -> Self {
        FacesOcclusion(0)
    }

    fn default_value() -> (r: Self) {
        FacesOcclusion(0)
    }

    fn same(&self, other: &Self) -> (r: bool) {
        *self == *other
    }
}

impl ChunkStorageType for Light {
    open spec fn default_spec() -> Self {
        Light { natural: 0, artificial: 0 }
    }

    fn default_value() -> (r: Self) {
        Light { natural: 0, artificial: 0 }
    }

    fn same(&self, other: &Self) -> (r: bool) {
        *self == *other
    }
}

/// Whether a voxel position lies on the layer of a chunk that touches the neighbor on `side`
/// of the chunk it is read from: the layer at X 0 is read for the Right side, and so on.
pub open spec fn on_side_layer(side: Side, pos: IVec3) -> bool {
    match side {
        Side::Right => pos.x == 0,
        Side::Left => pos.x == 15,
        Side::Up => pos.y == 0,
        Side::Down => pos.y == 15,
        Side::Front => pos.z == 0,
        Side::Back => pos.z == 15,
    }
}

/// The index of a voxel inside the layer of `side`.
pub open spec fn side_index_of(side: Side, pos: IVec3) -> int {
    match side {
        Side::Right | Side::Left => pos.z * 16 + pos.y,
        Side::Up | Side::Down => pos.x * 16 + pos.z,
        Side::Front | Side::Back => pos.x * 16 + pos.y,
    }
}

/// The voxel at index `i` of the layer of `side`.
pub open spec fn side_voxel_at(side: Side, i: int) -> IVec3 {
    let a = (i / 16) as i32;
    let b = (i % 16) as i32;
    match side {
        Side::Right => IVec3 { x: 0, y: b, z: a },
        Side::Left => IVec3 { x: 15, y: b, z: a },
        Side::Up => IVec3 { x: a, y: 0, z: b },
        Side::Down => IVec3 { x: a, y: 15, z: b },
        Side::Front => IVec3 { x: a, y: b, z: 0 },
        Side::Back => IVec3 { x: a, y: b, z: 15 },
    }
}

pub proof fn lemma_side_voxel_at(side: Side, i: int)
    requires
        0 <= i < SIDE_SIZE,
    ensures
        in_bounds(side_voxel_at(side, i)),
        on_side_layer(side, side_voxel_at(side, i)),
        side_index_of(side, side_voxel_at(side, i)) == i,
{
    assert((i / 16) * 16 + i % 16 == i && 0 <= i / 16 < 16 && 0 <= i % 16 < 16) by (nonlinear_arith)
        requires
            0 <= i < 256,
    ;
}

pub proof fn lemma_side_index_of(side: Side, pos: IVec3)
    requires
        in_bounds(pos),
        on_side_layer(side, pos),
    ensures
        0 <= side_index_of(side, pos) < SIDE_SIZE,
        side_voxel_at(side, side_index_of(side, pos)) == pos,
{
    let i = side_index_of(side, pos);
    match side {
        Side::Right | Side::Left => {
            assert(i / 16 == pos.z && i % 16 == pos.y) by (nonlinear_arith)
                requires
                    i == pos.z * 16 + pos.y,
                    0 <= pos.z < 16,
                    0 <= pos.y < 16,
            ;
        },
        Side::Up | Side::Down => {
            assert(i / 16 == pos.x && i % 16 == pos.z) by (nonlinear_arith)
                requires
                    i == pos.x * 16 + pos.z,
                    0 <= pos.x < 16,
                    0 <= pos.z < 16,
            ;
        },
        Side::Front | Side::Back => {
            assert(i / 16 == pos.x && i % 16 == pos.y) by (nonlinear_arith)
                requires
                    i == pos.x * 16 + pos.y,
                    0 <= pos.x < 16,
                    0 <= pos.y < 16,
            ;
        },
    }
}

pub fn side_voxel(side: Side, i: usize) -> (r: IVec3)
    requires
        i < SIDE_SIZE,
    ensures
        r == side_voxel_at(side, i as int),
{
    let a = (i / 16) as i32;
    let b = (i % 16) as i32;
    match side {
        Side::Right => IVec3 { x: 0, y: b, z: a },
        Side::Left => IVec3 { x: X_END, y: b, z: a },
        Side::Up => IVec3 { x: a, y: 0, z: b },
        Side::Down => IVec3 { x: a, y: Y_END, z: b },
        Side::Front => IVec3 { x: a, y: b, z: 0 },
        Side::Back => IVec3 { x: a, y: b, z: Z_END },
    }
}

/// A copy of `values`.
pub fn copy_values<T: Copy>(values: &Vec<T>) -> (r: Vec<T>)
    ensures
        r@ == values@,
{
    let mut r: Vec<T> = Vec::new();
    let mut i: usize = 0;
    while i < values.len()
        invariant
            i <= values@.len(),
            r@ == values@.take(i as int),
        decreases values@.len() - i,
    {
        r.push(values[i]);
        proof {
            assert(r@ =~= values@.take(i + 1));
        }
        i = i + 1;
    }
    proof {
        assert(values@.take(i as int) =~= values@);
    }
    r
}

/// A copy of the layers of the six neighbor chunks that touch a chunk. A side holds nothing
/// until its layer is set.
#[derive(Clone, Debug)]
pub struct ChunkNeighborhood<T> {
    sides: Vec<Option<Vec<T>>>,
}

impl<T> View for ChunkNeighborhood<T> {
    type V = Seq<Option<Seq<T>>>;

    closed spec fn view(&self) -> Seq<Option<Seq<T>>> {
        self.sides@.map_values(|o: Option<Vec<T>>| match o {
            Some(v) => Some(v@),
            None => None,
        })
    }
}

impl<T: ChunkStorageType> ChunkNeighborhood<T> {
    /// Six sides, each empty or a full layer.
    pub open spec fn wf(&self) -> bool {
        &&& self@.len() == SIDE_COUNT
        &&& forall|i: int|
            0 <= i < SIDE_COUNT && (#[trigger] self@[i]) is Some ==> self@[i]->0.len() == SIDE_SIZE
    }

    closed spec fn inner_wf(&self) -> bool {
        &&& self.sides@.len() == SIDE_COUNT
        &&& forall|i: int|
            0 <= i < SIDE_COUNT && (#[trigger] self.sides@[i]) is Some ==> self.sides@[i]->0.len()
                == SIDE_SIZE
    }

    proof fn lemma_wf(&self)
        ensures
            self.wf() <==> self.inner_wf(),
    {
        if self.wf() {
            assert forall|i: int|
                0 <= i < SIDE_COUNT && (#[trigger] self.sides@[i]) is Some implies self.sides@[i]->0.len()
                == SIDE_SIZE by {
                assert(self@[i] is Some);
            }
        }
    }

    /// A neighborhood where no side is known.
    pub fn new() -> (r: Self)
        ensures
            r.wf(),
            forall|i: int| 0 <= i < SIDE_COUNT ==> #[trigger] r@[i] is None,
    {
        let mut sides: Vec<Option<Vec<T>>> = Vec::new();
        let mut i: usize = 0;
        while i < SIDE_COUNT
            invariant
                i <= SIDE_COUNT,
                sides@.len() == i,
                forall|k: int| 0 <= k < i ==> #[trigger] sides@[k] is None,
            decreases SIDE_COUNT - i,
        {
            sides.push(None);
            i = i + 1;
        }
        let r = ChunkNeighborhood { sides };
        proof {
            assert(r@.len() == SIDE_COUNT);
            assert forall|k: int| 0 <= k < SIDE_COUNT implies #[trigger] r@[k] is None by {
                assert(r.sides@[k] is None);
            }
        }
        r
    }

    /// A copy of the neighborhood.
    pub fn duplicate(&self) -> (r: Self)
        ensures
            r@ == self@,
    {
        let mut sides: Vec<Option<Vec<T>>> = Vec::new();
        let mut i: usize = 0;
        while i < self.sides.len()
            invariant
                i <= self.sides@.len(),
                sides@.len() == i,
                forall|k: int|
                    0 <= k < i ==> (#[trigger] sides@[k] is Some) == (self.sides@[k] is Some),
                forall|k: int| 0 <= k < i && sides@[k] is Some ==> (#[trigger] sides@[k])->0@ == self.sides@[k]->0@,
            decreases self.sides@.len() - i,
        {
            match &self.sides[i] {
                Some(layer) => {
                    sides.push(Some(copy_values(layer)));
                },
                None => {
                    sides.push(None);
                },
            }
            i = i + 1;
        }
        let r = ChunkNeighborhood { sides };
        proof {
            assert(r@ =~= self@) by {
                assert forall|k: int| 0 <= k < self@.len() implies r@[k] == self@[k] by {
                    assert(r.sides@[k] is Some == self.sides@[k] is Some);
                }
            }
        }
        r
    }

    /// Copies the layer of `chunk` that touches the chunk on `side`.
    pub fn set(&mut self, side: Side, chunk: &ChunkStorage<T>)
        requires
            old(self).wf(),
            chunk.wf(),
        ensures
            final(self).wf(),
            final(self)@ == old(self)@.update(
                side.idx(),
                Some(Seq::new(SIDE_SIZE as nat, |i: int| chunk@[index_of(side_voxel_at(side, i))])),
            ),
    {
        proof {
            self.lemma_wf();
        }
        let mut layer: Vec<T> = Vec::new();
        let mut i: usize = 0;
        while i < SIDE_SIZE
            invariant
                i <= SIDE_SIZE,
                chunk.wf(),
                layer@ == Seq::new(i as nat, |k: int| chunk@[index_of(side_voxel_at(side, k))]),
            decreases SIDE_SIZE - i,
        {
            let pos = side_voxel(side, i);
            proof {
                lemma_side_voxel_at(side, i as int);
            }
            let value = chunk.get(pos);
            layer.push(value);
            i = i + 1;
            proof {
                assert(layer@ =~= Seq::new(
                    i as nat,
                    |k: int| chunk@[index_of(side_voxel_at(side, k))],
                ));
            }
        }
        let idx = side.index();
        self.sides.set(idx, Some(layer));
        proof {
            assert(self@ =~= old(self)@.update(
                side.idx(),
                Some(Seq::new(SIDE_SIZE as nat, |i: int| chunk@[index_of(side_voxel_at(side, i))])),
            ));
            self.lemma_wf();
        }
    }

    /// **Returns** the value of the neighbor voxel `pos` on `side`, given in the neighbor's own
    /// coordinates, or `None` when that side is not known.
    pub fn get(&self, side: Side, pos: IVec3) -> (r: Option<T>)
        requires
            self.wf(),
            in_bounds(pos),
            on_side_layer(side, pos),
        ensures
            r == match self@[side.idx()] {
                Some(layer) => Some(layer[side_index_of(side, pos)]),
                None => None,
            },
    {
        proof {
            self.lemma_wf();
            lemma_side_index_of(side, pos);
        }
        let idx = side.index();
        match &self.sides[idx] {
            Some(layer) => {
                let i = Self::to_index(side, pos);
                Some(layer[i])
            },
            None => None,
        }
    }

    fn to_index(side: Side, pos: IVec3) -> (r: usize)
        requires
            in_bounds(pos),
            on_side_layer(side, pos),
        ensures
            r == side_index_of(side, pos),
            r < SIDE_SIZE,
    {
        proof {
            lemma_side_index_of(side, pos);
        }
        match side {
            Side::Right | Side::Left => (pos.z as usize) * 16 + (pos.y as usize),
            Side::Up | Side::Down => (pos.x as usize) * 16 + (pos.z as usize),
            Side::Front | Side::Back => (pos.x as usize) * 16 + (pos.y as usize),
        }
    }
}

/// The values of all voxels of a chunk, with a copy of the neighbors' touching layers.
#[derive(Clone, Debug)]
pub struct ChunkStorage<T> {
    main: Vec<T>,
    neighborhood: ChunkNeighborhood<T>,
}

impl<T> View for ChunkStorage<T> {
    type V = Seq<T>;

    closed spec fn view(&self) -> Seq<T> {
        self.main@
    }
}

impl<T: ChunkStorageType> ChunkStorage<T> {
    /// A full buffer and a well formed neighborhood.
    pub open spec fn wf(&self) -> bool {
        self@.len() == BUFFER_SIZE && self.neighbors().wf()
    }

    /// The copy of the neighbors' layers.
    pub closed spec fn neighbors(&self) -> ChunkNeighborhood<T> {
        self.neighborhood
    }

    pub fn neighborhood(&self) -> (r: &ChunkNeighborhood<T>)
        ensures
            *r == self.neighbors(),
    {
        &self.neighborhood
    }

    /// Replaces the copy of the neighbors' layers.
    pub fn set_neighborhood(&mut self, neighborhood: ChunkNeighborhood<T>)
        requires
            old(self).wf(),
            neighborhood.wf(),
        ensures
            final(self).wf(),
            final(self)@ == old(self)@,
            final(self).neighbors() == neighborhood,
    {
        self.neighborhood = neighborhood;
    }

    /// The value of a voxel inside the chunk.
    pub open spec fn at(&self, v: IVec3) -> T {
        self@[index_of(v)]
    }

    /// A chunk where every voxel holds the default value and no neighbor is known.
    pub fn new() -> (r: Self)
        ensures
            r.wf(),
            r@ == Seq::new(BUFFER_SIZE as nat, |i: int| T::default_spec()),
            forall|i: int| 0 <= i < SIDE_COUNT ==> #[trigger] r.neighbors()@[i] is None,
    {
        let mut main: Vec<T> = Vec::new();
        let mut i: usize = 0;
        while i < BUFFER_SIZE
            invariant
                i <= BUFFER_SIZE,
                main@ == Seq::new(i as nat, |k: int| T::default_spec()),
            decreases BUFFER_SIZE - i,
        {
            main.push(T::default_value());
            i = i + 1;
            proof {
                assert(main@ =~= Seq::new(i as nat, |k: int| T::default_spec()));
            }
        }
        ChunkStorage { main, neighborhood: ChunkNeighborhood::new() }
    }

    /// A copy of the chunk, with its copy of the neighbors' layers.
    pub fn duplicate(&self) -> (r: Self)
        ensures
            r@ == self@,
            r.neighbors()@ == self.neighbors()@,
            self.wf() ==> r.wf(),
    {
        ChunkStorage { main: copy_values(&self.main), neighborhood: self.neighborhood.duplicate() }
    }

    /// A chunk holding `values` in buffer order, with no neighbor known.
    pub fn from_values(values: Vec<T>) -> (r: Self)
        requires
            values@.len() == BUFFER_SIZE,
        ensures
            r.wf(),
            r@ == values@,
            forall|i: int| 0 <= i < SIDE_COUNT ==> #[trigger] r.neighbors()@[i] is None,
    {
        ChunkStorage { main: values, neighborhood: ChunkNeighborhood::new() }
    }

    pub fn get(&self, local: IVec3) -> (r: T)
        requires
            self.wf(),
            in_bounds(local),
        ensures
            r == self.at(local),
    {
        self.main[to_index(local)]
    }

    pub fn set(&mut self, local: IVec3, value: T)
        requires
            old(self).wf(),
            in_bounds(local),
        ensures
            final(self).wf(),
            final(self)@ == old(self)@.update(index_of(local), value),
            final(self).neighbors() == old(self).neighbors(),
    {
        let i = to_index(local);
        self.main.set(i, value);
    }

    /// Sets every voxel of the chunk to `value`.
    pub fn set_all(&mut self, value: T)
        requires
            old(self).wf(),
        ensures
            final(self).wf(),
            final(self)@ == Seq::new(BUFFER_SIZE as nat, |i: int| value),
            final(self).neighbors() == old(self).neighbors(),
    {
        let mut i: usize = 0;
        while i < BUFFER_SIZE
            invariant
                i <= BUFFER_SIZE,
                self.wf(),
                self.neighbors() == old(self).neighbors(),
                forall|k: int| 0 <= k < i ==> self@[k] == value,
            decreases BUFFER_SIZE - i,
        {
            self.main.set(i, value);
            i = i + 1;
        }
        proof {
            assert(self@ =~= Seq::new(BUFFER_SIZE as nat, |i: int| value));
        }
    }

    /// Checks whether every voxel holds the default value.
    pub fn is_default(&self) -> (r: bool)
        requires
            self.wf(),
        ensures
            r == (forall|i: int| 0 <= i < BUFFER_SIZE ==> #[trigger] self@[i] == T::default_spec()),
    {
        let d = T::default_value();
        let mut i: usize = 0;
        while i < BUFFER_SIZE
            invariant
                i <= BUFFER_SIZE,
                self.wf(),
                d == T::default_spec(),
                forall|k: int| 0 <= k < i ==> #[trigger] self@[k] == T::default_spec(),
            decreases BUFFER_SIZE - i,
        {
            if !self.main[i].same(&d) {
                return false;
            }
            i = i + 1;
        }
        true
    }
}

/// The side whose neighbor chunk lies in the unit direction `dir`, if `dir` is one.
pub open spec fn side_of_dir(dir: IVec3) -> Option<Side> {
    if dir == (IVec3 { x: 1, y: 0, z: 0 }) {
        Some(Side::Right)
    } else if dir == (IVec3 { x: -1i32, y: 0, z: 0 }) {
        Some(Side::Left)
    } else if dir == (IVec3 { x: 0, y: 1, z: 0 }) {
        Some(Side::Up)
    } else if dir == (IVec3 { x: 0, y: -1i32, z: 0 }) {
        Some(Side::Down)
    } else if dir == (IVec3 { x: 0, y: 0, z: 1 }) {
        Some(Side::Front)
    } else if dir == (IVec3 { x: 0, y: 0, z: -1i32 }) {
        Some(Side::Back)
    } else {
        None
    }
}

fn side_from_dir(dir: IVec3) -> (r: Option<Side>)
    ensures
        r == side_of_dir(dir),
{
    if dir.x == 1 && dir.y == 0 && dir.z == 0 {
        Some(Side::Right)
    } else if dir.x == -1 && dir.y == 0 && dir.z == 0 {
        Some(Side::Left)
    } else if dir.x == 0 && dir.y == 1 && dir.z == 0 {
        Some(Side::Up)
    } else if dir.x == 0 && dir.y == -1 && dir.z == 0 {
        Some(Side::Down)
    } else if dir.x == 0 && dir.y == 0 && dir.z == 1 {
        Some(Side::Front)
    } else if dir.x == 0 && dir.y == 0 && dir.z == -1 {
        Some(Side::Back)
    } else {
        None
    }
}

/// A voxel position inside the chunk or in the layer of one of its six neighbors.
pub open spec fn near_bounds(v: IVec3) -> bool {
    within_cube(v, -1, 16)
}

/// The layer of a side reached from a position next to the chunk lies on that side's layer.
pub proof fn lemma_overlap_layer(v: IVec3)
    requires
        near_bounds(v),
        side_of_dir(overlap_dir(v)) is Some,
    ensures
        on_side_layer(side_of_dir(overlap_dir(v))->0, math::vrem(v, 16)),
{
    assert(-1int % 16 == 15) by (nonlinear_arith);
    assert(16int % 16 == 0) by (nonlinear_arith);
    assert(forall|c: int| 0 <= c < 16 ==> #[trigger] (c % 16) == c) by (nonlinear_arith);
}

impl<T: ChunkStorageType> ChunkStorage<T> {
    /// The value at a position inside the chunk, or in the known layer of the neighbor next to
    /// it on one side. `None` for a position diagonal to the chunk or an unknown side.
    pub open spec fn absolute(&self, v: IVec3) -> Option<T> {
        if in_bounds(v) {
            Some(self.at(v))
        } else {
            match side_of_dir(overlap_dir(v)) {
                Some(side) => match self.neighbors()@[side.idx()] {
                    Some(layer) => Some(layer[side_index_of(side, math::vrem(v, 16))]),
                    None => None,
                },
                None => None,
            }
        }
    }

    /// **Returns** the value at `voxel`, reading the neighborhood when `voxel` lies in the
    /// layer of a neighbor chunk.
    pub fn get_absolute(&self, voxel: IVec3) -> (r: Option<T>)
        requires
            self.wf(),
            near_bounds(voxel),
        ensures
            r == self.absolute(voxel),
    {
        if is_within_bounds(voxel) {
            Some(self.get(voxel))
        } else {
            let (dir, local) = overlap_voxel(voxel);
            match side_from_dir(dir) {
                Some(side) => {
                    proof {
                        lemma_overlap_layer(voxel);
                    }
                    self.neighborhood.get(side, local)
                },
                None => None,
            }
        }
    }
}

/// The light that the face of `voxel` on `side` receives: the greater intensity of the voxel
/// it faces, or `0` when that voxel is unknown.
pub open spec fn reflected(lights: ChunkStorage<Light>, voxel: IVec3, side: Side) -> u8 {
    match lights.absolute(math::vadd(voxel, side.direction())) {
        Some(l) => l.greater(),
        None => 0,
    }
}

impl ChunkStorage<Light> {
    /// The natural intensity of a voxel of the chunk.
    pub open spec fn natural_at(&self, v: IVec3) -> u8 {
        self.at(v).natural
    }

    pub fn get_natural(&self, voxel: IVec3) -> (r: u8)
        requires
            self.wf(),
            in_bounds(voxel),
        ensures
            r == self.natural_at(voxel),
    {
        self.get(voxel).natural
    }

    /// Sets the natural intensity of a voxel, keeping its artificial intensity.
    pub fn set_natural(&mut self, voxel: IVec3, intensity: u8)
        requires
            old(self).wf(),
            in_bounds(voxel),
        ensures
            final(self).wf(),
            final(self)@ == old(self)@.update(
                index_of(voxel),
                Light { natural: intensity, artificial: old(self).at(voxel).artificial },
            ),
            final(self).neighbors() == old(self).neighbors(),
    {
        let mut light = self.get(voxel);
        light.natural = intensity;
        self.set(voxel, light);
    }

    /// **Returns** the light intensity reflected by the face of `voxel` on `side`.
    pub fn get_face_reflected_intensity(&self, voxel: IVec3, side: Side) -> (r: u8)
        requires
            self.wf(),
            in_bounds(voxel),
        ensures
            r == reflected(*self, voxel, side),
    {
        let neighbor = voxel.plus(side.dir());
        match self.get_absolute(neighbor) {
            Some(l) => l.get_greater_intensity(),
            None => 0,
        }
    }
}

pub type ChunkKind = ChunkStorage<Kind>;
pub type ChunkLight = ChunkStorage<Light>;
pub type ChunkFacesOcclusion = ChunkStorage<FacesOcclusion>;

/// A value stored at a voxel is read back there, and every other voxel keeps its value: what
/// [`ChunkStorage::get`] reads after [`ChunkStorage::set`].
pub proof fn lemma_set_then_get<T>(values: Seq<T>, v: IVec3, x: T, w: IVec3)
    requires
        values.len() == BUFFER_SIZE,
        in_bounds(v),
        in_bounds(w),
    ensures
        values.update(index_of(v), x)[index_of(w)] == (if w == v {
            x
        } else {
            values[index_of(w)]
        }),
{
    lemma_index_of(v);
    lemma_index_of(w);
    if w != v && index_of(w) == index_of(v) {
        lemma_index_injective(w, v);
    }
}

/// The layer copied from a chunk by [`ChunkNeighborhood::set`] gives back, through
/// [`ChunkNeighborhood::get`], the value of each voxel of that layer.
pub proof fn lemma_layer_roundtrip<T>(chunk: Seq<T>, side: Side, pos: IVec3)
    requires
        in_bounds(pos),
        on_side_layer(side, pos),
    ensures
        Seq::new(SIDE_SIZE as nat, |i: int| chunk[index_of(side_voxel_at(side, i))])[side_index_of(
            side,
            pos,
        )] == chunk[index_of(pos)],
{
    lemma_side_index_of(side, pos);
}

/// A position next to the chunk is the direction of the chunk holding it, scaled to a chunk,
/// plus its position inside that chunk: what [`overlap_voxel`] splits, put back together.
pub proof fn lemma_overlap_roundtrip(pos: IVec3)
    requires
        near_bounds(pos),
    ensures
        overlap_dir(pos).x * 16 + math::vrem(pos, 16).x == pos.x,
        overlap_dir(pos).y * 16 + math::vrem(pos, 16).y == pos.y,
        overlap_dir(pos).z * 16 + math::vrem(pos, 16).z == pos.z,
        in_bounds(math::vrem(pos, 16)),
{
    assert(-1int % 16 == 15) by (nonlinear_arith);
    assert(16int % 16 == 0) by (nonlinear_arith);
    assert(forall|c: int| 0 <= c < 16 ==> #[trigger] (c % 16) == c) by (nonlinear_arith);
}

} // verus!
