use vstd::prelude::*;

verus! {

/// An integer 3D vector: voxel coordinates inside a chunk, chunk coordinates inside the
/// world, and unit directions between them.
#[derive(Clone, Copy, Debug, PartialEq, Eq, Structural, Hash)]
pub struct IVec3 {
    pub x: i32,
    pub y: i32,
    pub z: i32,
}

impl From<(i32, i32, i32)> for IVec3 {
    fn from(v: (i32, i32, i32)) -> (r: Self) {
        IVec3 { x: v.0, y: v.1, z: v.2 }
    }
}

impl vstd::std_specs::convert::FromSpecImpl<(i32, i32, i32)> for IVec3 {
    open spec fn obeys_from_spec() -> bool {
        true
    }

    open spec fn from_spec(v: (i32, i32, i32)) -> Self {
        IVec3 { x: v.0, y: v.1, z: v.2 }
    }
}

/// True when every component of the sum `a + b` fits in an `i32`.
pub open spec fn can_add(a: IVec3, b: IVec3) -> bool {
    &&& i32::MIN <= a.x + b.x <= i32::MAX
    &&& i32::MIN <= a.y + b.y <= i32::MAX
    &&& i32::MIN <= a.z + b.z <= i32::MAX
}

/// True when every component of the difference `a - b` fits in an `i32`.
pub open spec fn can_sub(a: IVec3, b: IVec3) -> bool {
    &&& i32::MIN <= a.x - b.x <= i32::MAX
    &&& i32::MIN <= a.y - b.y <= i32::MAX
    &&& i32::MIN <= a.z - b.z <= i32::MAX
}

/// The component-wise sum, when it fits.
pub open spec fn vadd(a: IVec3, b: IVec3) -> IVec3 {
    IVec3 { x: (a.x + b.x) as i32, y: (a.y + b.y) as i32, z: (a.z + b.z) as i32 }
}

/// The component-wise difference, when it fits.
pub open spec fn vsub(a: IVec3, b: IVec3) -> IVec3 {
    IVec3 { x: (a.x - b.x) as i32, y: (a.y - b.y) as i32, z: (a.z - b.z) as i32 }
}

/// Small vectors: every component lies in `-bound..=bound`.
pub open spec fn is_small(v: IVec3, bound: int) -> bool {
    &&& -bound <= v.x <= bound
    &&& -bound <= v.y <= bound
    &&& -bound <= v.z <= bound
}

impl IVec3 {
    pub fn new(x: i32, y: i32, z: i32) -> (r: IVec3)
        ensures
            r == (IVec3 { x, y, z }),
    {
        IVec3 { x, y, z }
    }

    pub fn zero() -> (r: IVec3)
        ensures
            r == (IVec3 { x: 0, y: 0, z: 0 }),
    {
        IVec3 { x: 0, y: 0, z: 0 }
    }

    /// `self + other`, component-wise.
    pub fn plus(self, other: IVec3) -> (r: IVec3)
        requires
            can_add(self, other),
        ensures
            r == vadd(self, other),
    {
        IVec3 { x: self.x + other.x, y: self.y + other.y, z: self.z + other.z }
    }

    /// `self - other`, component-wise.
    pub fn minus(self, other: IVec3) -> (r: IVec3)
        requires
            can_sub(self, other),
        ensures
            r == vsub(self, other),
    {
        IVec3 { x: self.x - other.x, y: self.y - other.y, z: self.z - other.z }
    }
}

/// The smallest component.
pub open spec fn min_element(v: IVec3) -> int {
    if v.x <= v.y && v.x <= v.z {
        v.x as int
    } else if v.y <= v.z {
        v.y as int
    } else {
        v.z as int
    }
}

/// The greatest component.
pub open spec fn max_element(v: IVec3) -> int {
    if v.x >= v.y && v.x >= v.z {
        v.x as int
    } else if v.y >= v.z {
        v.y as int
    } else {
        v.z as int
    }
}

/// True when each component of `v` lies in `min..=max`.
pub open spec fn within_cube(v: IVec3, min: int, max: int) -> bool {
    &&& min <= v.x <= max
    &&& min <= v.y <= max
    &&& min <= v.z <= max
}

/// Checks that every component of `pos` lies between `min` and `max`, both inclusive.
pub fn is_within_cubic_bounds(pos: IVec3, min: i32, max: i32) -> (r: bool)
    ensures
        r == (min_element(pos) >= min && max_element(pos) <= max),
        r == within_cube(pos, min as int, max as int),
{
    let lo = if pos.x <= pos.y && pos.x <= pos.z {
        pos.x
    } else if pos.y <= pos.z {
        pos.y
    } else {
        pos.z
    };
    let hi = if pos.x >= pos.y && pos.x >= pos.z {
        pos.x
    } else if pos.y >= pos.z {
        pos.y
    } else {
        pos.z
    };
    lo >= min && hi <= max
}

/// The inputs on which a Euclidean remainder by `div` is defined for `i32`: a divisor that is
/// not zero, and no `i32::MIN` divided by `-1`.
pub open spec fn can_rem(v: i32, div: i32) -> bool {
    div != 0 && !(v == i32::MIN && div == -1)
}

/// The component-wise Euclidean remainder (always in `0..|div|`).
pub open spec fn vrem(v: IVec3, div: int) -> IVec3 {
    IVec3 { x: (v.x as int % div) as i32, y: (v.y as int % div) as i32, z: (v.z as int % div) as i32 }
}

fn rem_euclid(v: i32, div: i32) -> (r: i32)
    requires
        can_rem(v, div),
    ensures
        r == v % div,
        0 <= r < if div > 0 { div as int } else { -div },
{
    match v.checked_rem_euclid(div) {
        Some(r) => {
            proof {
                if div > 0 {
                    assert(0 <= v % div < div) by (nonlinear_arith)
                        requires
                            div > 0,
                    ;
                } else {
                    assert(0 <= v % div < -div) by (nonlinear_arith)
                        requires
                            div < 0,
                    ;
                }
            }
            r
        },
        None => {
            proof {
                assert(0 <= v % div < if div > 0 { div as int } else { -div }) by (nonlinear_arith)
                    requires
                        div != 0,
                ;
            }
            0
        },
    }
}

/// Computes the Euclidean remainder of each component of `vec` by `div`.
pub fn euclid_rem(vec: IVec3, div: i32) -> (r: IVec3)
    requires
        can_rem(vec.x, div),
        can_rem(vec.y, div),
        can_rem(vec.z, div),
    ensures
        r == vrem(vec, div as int),
{
    IVec3 { x: rem_euclid(vec.x, div), y: rem_euclid(vec.y, div), z: rem_euclid(vec.z, div) }
}

/// The unit direction of one component: `1` and `-1` give a unit vector on that axis,
/// anything else gives none.
pub open spec fn axis_units(v: i32, axis: int) -> Seq<IVec3> {
    let unit = |s: i32|
        if axis == 0 {
            IVec3 { x: s, y: 0, z: 0 }
        } else if axis == 1 {
            IVec3 { x: 0, y: s, z: 0 }
        } else {
            IVec3 { x: 0, y: 0, z: s }
        };
    if v == 1 {
        seq![unit(1i32)]
    } else if v == -1 {
        seq![unit(-1i32)]
    } else {
        Seq::empty()
    }
}

/// Splits a direction whose components are `-1`, `0` or `1` into the unit directions along
/// X, then Y, then Z. Components of any other value contribute nothing.
pub open spec fn spec_to_unit_dir(dir: IVec3) -> Seq<IVec3> {
    axis_units(dir.x, 0) + axis_units(dir.y, 1) + axis_units(dir.z, 2)
}

/// Splits `dir` into its unit directions along X, Y and Z, in that order.
pub fn to_unit_dir(dir: IVec3) -> (r: Vec<IVec3>)
    ensures
        r@ == spec_to_unit_dir(dir),
{
    let mut result: Vec<IVec3> = Vec::new();

    if dir.x == 1 {
        result.push(IVec3 { x: 1, y: 0, z: 0 });
    } else if dir.x == -1 {
        result.push(IVec3 { x: -1, y: 0, z: 0 });
    }
    if dir.y == 1 {
        result.push(IVec3 { x: 0, y: 1, z: 0 });
    } else if dir.y == -1 {
        result.push(IVec3 { x: 0, y: -1, z: 0 });
    }
    if dir.z == 1 {
        result.push(IVec3 { x: 0, y: 0, z: 1 });
    } else if dir.z == -1 {
        result.push(IVec3 { x: 0, y: 0, z: -1 });
    }
    proof {
        assert(result@ =~= spec_to_unit_dir(dir));
    }
    result
}

} // verus!
