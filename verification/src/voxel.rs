use vstd::prelude::*;

use crate::math::IVec3;

verus! {

pub const SIDE_COUNT: usize = 6;

/// The six faces of a voxel, each pointing to a direction.
#[derive(Clone, Copy, Debug, PartialEq, Eq, Structural, Hash)]
pub enum Side {
    Right,
    Left,
    Up,
    Down,
    Front,
    Back,
}

/// All sides, in their index order.
pub const SIDES: [Side; SIDE_COUNT] = [
    Side::Right,
    Side::Left,
    Side::Up,
    Side::Down,
    Side::Front,
    Side::Back,
];

/// The side stored at index `i` (0 to 5).
pub open spec fn side_at(i: int) -> Side {
    if i == 0 {
        Side::Right
    } else if i == 1 {
        Side::Left
    } else if i == 2 {
        Side::Up
    } else if i == 3 {
        Side::Down
    } else if i == 4 {
        Side::Front
    } else {
        Side::Back
    }
}

impl Side {
    /// The index of a side: Right 0, Left 1, Up 2, Down 3, Front 4, Back 5.
    pub open spec fn idx(self) -> int {
        match self {
            Side::Right => 0,
            Side::Left => 1,
            Side::Up => 2,
            Side::Down => 3,
            Side::Front => 4,
            Side::Back => 5,
        }
    }

    /// The unit direction that a side points to.
    pub open spec fn direction(self) -> IVec3 {
        match self {
            Side::Right => IVec3 { x: 1, y: 0, z: 0 },
            Side::Left => IVec3 { x: -1i32, y: 0, z: 0 },
            Side::Up => IVec3 { x: 0, y: 1, z: 0 },
            Side::Down => IVec3 { x: 0, y: -1i32, z: 0 },
            Side::Front => IVec3 { x: 0, y: 0, z: 1 },
            Side::Back => IVec3 { x: 0, y: 0, z: -1i32 },
        }
    }

    pub fn index(&self) -> (r: usize)
        ensures
            r == self.idx(),
            r < SIDE_COUNT,
    {
        match self {
            Side::Right => 0,
            Side::Left => 1,
            Side::Up => 2,
            Side::Down => 3,
            Side::Front => 4,
            Side::Back => 5,
        }
    }

    pub fn from_index(i: usize) -> (r: Side)
        requires
            i < SIDE_COUNT,
        ensures
            r == side_at(i as int),
            r.idx() == i,
    {
        if i == 0 {
            Side::Right
        } else if i == 1 {
            Side::Left
        } else if i == 2 {
            Side::Up
        } else if i == 3 {
            Side::Down
        } else if i == 4 {
            Side::Front
        } else {
            Side::Back
        }
    }

    /// **Returns** the unit direction this side points to.
    pub fn dir(&self) -> (r: IVec3)
        ensures
            r == self.direction(),
    {
        match self {
            Side::Right => IVec3 { x: 1, y: 0, z: 0 },
            Side::Left => IVec3 { x: -1, y: 0, z: 0 },
            Side::Up => IVec3 { x: 0, y: 1, z: 0 },
            Side::Down => IVec3 { x: 0, y: -1, z: 0 },
            Side::Front => IVec3 { x: 0, y: 0, z: 1 },
            Side::Back => IVec3 { x: 0, y: 0, z: -1 },
        }
    }
}

/// Every side sits at its own index.
pub proof fn lemma_side_index(s: Side)
    ensures
        0 <= s.idx() < SIDE_COUNT,
        side_at(s.idx()) == s,
{
}

/// The kind of a voxel. Kind `0` is the empty (air) voxel.
#[derive(Clone, Copy, Debug, PartialEq, Eq, Structural, Hash)]
pub struct Kind(pub u16);

impl Default for Kind {
    fn default() -> (r: Self)
        ensures
            r == Kind(0),
    {
        Kind(0)
    }
}

impl From<u16> for Kind {
    fn from(v: u16) -> (r: Self) {
        Kind(v)
    }
}

impl vstd::std_specs::convert::FromSpecImpl<u16> for Kind {
    open spec fn obeys_from_spec() -> bool {
        true
    }

    open spec fn from_spec(v: u16) -> Self {
        Kind(v)
    }
}

/// The kind that emits light.
pub const LIGHT_EMITTER_KIND: u16 = 4;

impl Kind {
    pub open spec fn empty(self) -> bool {
        self.0 == 0
    }

    pub open spec fn opaque(self) -> bool {
        self.0 != LIGHT_EMITTER_KIND && self.0 > 0
    }

    pub open spec fn emitter(self) -> bool {
        self.0 == LIGHT_EMITTER_KIND
    }

    pub fn id(id: u16) -> (r: Kind)
        ensures
            r == Kind(id),
    {
        Kind(id)
    }

    pub fn none() -> (r: Kind)
        ensures
            r == Kind(0),
    {
        Kind(0)
    }

    pub fn value(&self) -> (r: u16)
        ensures
            r == self.0,
    {
        self.0
    }

    pub fn is_empty(&self) -> (r: bool)
        ensures
            r == self.empty(),
    {
        self.0 == 0
    }

    /// Every non-empty kind blocks light, but the light emitter.
    pub fn is_opaque(&self) -> (r: bool)
        ensures
            r == self.opaque(),
    {
        self.0 != LIGHT_EMITTER_KIND && self.0 > 0
    }

    pub fn is_light_emitter(&self) -> (r: bool)
        ensures
            r == self.emitter(),
    {
        self.0 == LIGHT_EMITTER_KIND
    }

    /// The kind of a voxel at `height` on a column whose surface is at `surface`: the surface
    /// itself is kind 2, anything below it is kind 1 and anything above it kind 3.
    pub fn get_kind_with_height_source(surface: usize, height: usize) -> (r: Kind)
        requires
            surface <= i32::MAX,
            height <= i32::MAX,
        ensures
            height == surface ==> r == Kind(2),
            height < surface ==> r == Kind(1),
            height > surface ==> r == Kind(3),
    {
        let depth: i32 = height as i32 - surface as i32;
        if depth == 0 {
            Kind(2)
        } else if depth <= -1 {
            Kind(1)
        } else {
            Kind(3)
        }
    }
}

/// The mask with the six side bits set.
pub const FULL_OCCLUDED_MASK: u8 = 0x3f;

/// Which faces of a voxel are hidden by a neighbor, one bit per side.
#[derive(Clone, Copy, Debug, PartialEq, Eq, Structural, Hash)]
pub struct FacesOcclusion(pub u8);

impl Default for FacesOcclusion {
    fn default() -> (r: Self)
        ensures
            r == FacesOcclusion(0),
    {
        FacesOcclusion(0)
    }
}

/// The bit of side index `i` in `bits`.
pub open spec fn bit(bits: u8, i: u8) -> bool {
    (bits >> i) & 1 == 1
}

proof fn lemma_bit_set(bits: u8, i: u8, j: u8)
    requires
        i < 8,
        j < 8,
    ensures
        bit(bits | (1u8 << i), j) == (i == j || bit(bits, j)),
        bit(bits & !(1u8 << i), j) == (i != j && bit(bits, j)),
{
    assert(((bits | (1u8 << i)) >> j) & 1 == 1 <==> (i == j || (bits >> j) & 1 == 1))
        by (bit_vector)
        requires
            i < 8,
            j < 8,
    ;
    assert(((bits & !(1u8 << i)) >> j) & 1 == 1 <==> (i != j && (bits >> j) & 1 == 1))
        by (bit_vector)
        requires
            i < 8,
            j < 8,
    ;
}

pub proof fn lemma_full_mask(bits: u8)
    ensures
        (bits & FULL_OCCLUDED_MASK == FULL_OCCLUDED_MASK) <==> (bit(bits, 0) && bit(bits, 1) && bit(
            bits,
            2,
        ) && bit(bits, 3) && bit(bits, 4) && bit(bits, 5)),
        bit(FULL_OCCLUDED_MASK, 0) && bit(FULL_OCCLUDED_MASK, 1) && bit(FULL_OCCLUDED_MASK, 2) && bit(
            FULL_OCCLUDED_MASK,
            3,
        ) && bit(FULL_OCCLUDED_MASK, 4) && bit(FULL_OCCLUDED_MASK, 5),
        !bit(0, 0) && !bit(0, 1) && !bit(0, 2) && !bit(0, 3) && !bit(0, 4) && !bit(0, 5),
{
    assert((bits & 0x3f == 0x3f) <==> ((bits >> 0u8) & 1 == 1 && (bits >> 1u8) & 1 == 1 && (bits
        >> 2u8) & 1 == 1 && (bits >> 3u8) & 1 == 1 && (bits >> 4u8) & 1 == 1 && (bits >> 5u8) & 1
        == 1)) by (bit_vector);
    assert((0x3fu8 >> 0u8) & 1 == 1 && (0x3fu8 >> 1u8) & 1 == 1 && (0x3fu8 >> 2u8) & 1 == 1 && (
    0x3fu8 >> 3u8) & 1 == 1 && (0x3fu8 >> 4u8) & 1 == 1 && (0x3fu8 >> 5u8) & 1 == 1)
        by (bit_vector);
    assert((0u8 >> 0u8) & 1 != 1 && (0u8 >> 1u8) & 1 != 1 && (0u8 >> 2u8) & 1 != 1 && (0u8 >> 3u8)
        & 1 != 1 && (0u8 >> 4u8) & 1 != 1 && (0u8 >> 5u8) & 1 != 1) by (bit_vector);
}

impl FacesOcclusion {
    /// Whether the face of side index `i` is occluded.
    pub open spec fn occluded(self, i: int) -> bool {
        bit(self.0, i as u8)
    }

    /// All six faces are occluded.
    pub open spec fn fully_occluded(self) -> bool {
        forall|i: int| 0 <= i < SIDE_COUNT ==> #[trigger] self.occluded(i)
    }

    /// Marks all faces as occluded, or none.
    pub fn set_all(&mut self, occluded: bool)
        ensures
            occluded ==> *final(self) == FacesOcclusion(FULL_OCCLUDED_MASK),
            !occluded ==> *final(self) == FacesOcclusion(0),
            forall|i: int| 0 <= i < SIDE_COUNT ==> #[trigger] final(self).occluded(i) == occluded,
    {
        proof {
            lemma_full_mask(0);
        }
        if occluded {
            self.0 = FULL_OCCLUDED_MASK;
        } else {
            self.0 = 0;
        }
        proof {
            assert forall|i: int| 0 <= i < SIDE_COUNT implies #[trigger] self.occluded(i)
                == occluded by {
                if i == 0 {
                } else if i == 1 {
                } else if i == 2 {
                } else if i == 3 {
                } else if i == 4 {
                } else {
                }
            }
        }
    }

    pub fn is_fully_occluded(&self) -> (r: bool)
        ensures
            r == self.fully_occluded(),
    {
        proof {
            lemma_full_mask(self.0);
            if self.fully_occluded() {
                assert(self.occluded(0) && self.occluded(1) && self.occluded(2) && self.occluded(3)
                    && self.occluded(4) && self.occluded(5));
            }
            if self.0 & FULL_OCCLUDED_MASK == FULL_OCCLUDED_MASK {
                assert forall|i: int| 0 <= i < SIDE_COUNT implies #[trigger] self.occluded(i) by {
                    if i == 0 {
                    } else if i == 1 {
                    } else if i == 2 {
                    } else if i == 3 {
                    } else if i == 4 {
                    } else {
                    }
                }
            }
        }
        self.0 & FULL_OCCLUDED_MASK == FULL_OCCLUDED_MASK
    }

    pub fn is_occluded(&self, side: Side) -> (r: bool)
        ensures
            r == self.occluded(side.idx()),
    {
        let i = side.index() as u8;
        let mask: u8 = 1u8 << i;
        let bits = self.0;
        proof {
            assert((bits & mask == mask) == ((bits >> i) & 1 == 1)) by (bit_vector)
                requires
                    mask == 1u8 << i,
                    i < 8,
            ;
        }
        self.0 & mask == mask
    }

    /// Sets whether the face of `side` is occluded, keeping the other faces.
    pub fn set(&mut self, side: Side, occluded: bool)
        ensures
            final(self).occluded(side.idx()) == occluded,
            forall|i: int|
                0 <= i < SIDE_COUNT && i != side.idx() ==> #[trigger] final(self).occluded(i)
                    == old(self).occluded(i),
            final(self).0 & !FULL_OCCLUDED_MASK == old(self).0 & !FULL_OCCLUDED_MASK,
    {
        let i = side.index() as u8;
        let mask: u8 = 1u8 << i;
        let bits = self.0;
        if occluded {
            self.0 = bits | mask;
        } else {
            self.0 = bits & !mask;
        }
        proof {
            lemma_bit_set(bits, i, i);
            assert forall|j: int| 0 <= j < SIDE_COUNT && j != side.idx() implies #[trigger] self.occluded(j)
                == old(self).occluded(j) by {
                lemma_bit_set(bits, i, j as u8);
            }
            assert((bits | (1u8 << i)) & !0x3fu8 == bits & !0x3fu8) by (bit_vector)
                requires
                    i < 6,
            ;
            assert((bits & !(1u8 << i)) & !0x3fu8 == bits & !0x3fu8) by (bit_vector)
                requires
                    i < 6,
            ;
        }
    }

    /// Builds the occlusion of the six faces, given in side index order.
    pub fn from_sides(v: [bool; SIDE_COUNT]) -> (r: FacesOcclusion)
        ensures
            forall|i: int| 0 <= i < SIDE_COUNT ==> #[trigger] r.occluded(i) == v[i],
            r.0 & !FULL_OCCLUDED_MASK == 0,
    {
        let mut result = FacesOcclusion(0);
        proof {
            assert(0u8 & !0x3fu8 == 0) by (bit_vector);
            lemma_full_mask(0);
        }
        let mut k: usize = 0;
        while k < SIDE_COUNT
            invariant
                0 <= k <= SIDE_COUNT,
                forall|i: int| 0 <= i < k ==> #[trigger] result.occluded(i) == v[i],
                forall|i: int| k <= i < SIDE_COUNT ==> !#[trigger] result.occluded(i),
                result.0 & !FULL_OCCLUDED_MASK == 0,
            decreases SIDE_COUNT - k,
        {
            let side = Side::from_index(k);
            result.set(side, v[k]);
            k = k + 1;
        }
        result
    }
}

pub const MAX_NATURAL_INTENSITY: u8 = 15;

/// The kind of a light source.
#[derive(Clone, Copy, Debug, PartialEq, Eq, Structural, Hash)]
pub enum LightTy {
    Natural,
    Artificial,
}

/// The light that reaches a voxel: the natural (sun) intensity and the artificial (emitter)
/// intensity.
#[derive(Clone, Copy, Debug, PartialEq, Eq, Structural, Hash)]
pub struct Light {
    pub natural: u8,
    pub artificial: u8,
}

impl Default for Light {
    fn default() -> (r: Self)
        ensures
            r == (Light { natural: 0, artificial: 0 }),
    {
        Light { natural: 0, artificial: 0 }
    }
}

impl Light {
    pub open spec fn intensity_of(self, ty: LightTy) -> u8 {
        match ty {
            LightTy::Natural => self.natural,
            LightTy::Artificial => self.artificial,
        }
    }

    pub open spec fn greater(self) -> u8 {
        if self.natural >= self.artificial {
            self.natural
        } else {
            self.artificial
        }
    }

    /// A light with only natural intensity.
    pub fn natural(intensity: u8) -> (r: Light)
        ensures
            r == (Light { natural: intensity, artificial: 0 }),
    {
        Light { natural: intensity, artificial: 0 }
    }

    pub fn get(&self, ty: LightTy) -> (r: u8)
        ensures
            r == self.intensity_of(ty),
    {
        match ty {
            LightTy::Natural => self.natural,
            LightTy::Artificial => self.artificial,
        }
    }

    pub fn set(&mut self, ty: LightTy, intensity: u8)
        ensures
            final(self).intensity_of(ty) == intensity,
            ty == LightTy::Natural ==> final(self).artificial == old(self).artificial,
            ty == LightTy::Artificial ==> final(self).natural == old(self).natural,
    {
        match ty {
            LightTy::Natural => self.natural = intensity,
            LightTy::Artificial => self.artificial = intensity,
        }
    }

    /// **Returns** the greater of the natural and the artificial intensities.
    pub fn get_greater_intensity(&self) -> (r: u8)
        ensures
            r == self.greater(),
    {
        if self.natural >= self.artificial {
            self.natural
        } else {
            self.artificial
        }
    }
}

/// A merged voxel face: the four corner voxels, in the walk order of the merger.
#[derive(Clone, Copy, Debug, PartialEq, Eq)]
pub struct VoxelFace {
    pub vertices: [IVec3; 4],
    pub side: Side,
    pub kind: Kind,
    pub light_intensity: u8,
}

impl Default for VoxelFace {
    fn default() -> (r: Self)
        ensures
            r.side == Side::Right,
            r.kind == Kind(0),
            r.light_intensity == 0,
            forall|i: int| 0 <= i < 4 ==> r.vertices[i] == (IVec3 { x: 0, y: 0, z: 0 }),
    {
        let zero = IVec3 { x: 0, y: 0, z: 0 };
        VoxelFace { vertices: [zero, zero, zero, zero], side: Side::Right, kind: Kind(0), light_intensity: 0 }
    }
}

/// **Returns** the position of the first kind description, among the description `ids`, whose
/// id is `kind`'s, or `None` when none is.
pub fn find_kind_desc(ids: &[u16], kind: Kind) -> (r: Option<usize>)
    ensures
        (match r {
            Some(i) => i < ids@.len() && ids@[i as int] == kind.0 && forall|j: int|
                0 <= j < i ==> ids@[j] != kind.0,
            None => forall|j: int| 0 <= j < ids@.len() ==> ids@[j] != kind.0,
        }),
{
    let mut i: usize = 0;
    while i < ids.len()
        invariant
            i <= ids@.len(),
            forall|j: int| 0 <= j < i ==> ids@[j] != kind.0,
        decreases ids@.len() - i,
    {
        if ids[i] == kind.0 {
            return Some(i);
        }
        i = i + 1;
    }
    None
}

} // verus!
