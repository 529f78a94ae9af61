use vstd::prelude::*;

use crate::chunk::{
    self, ChunkFacesOcclusion, BUFFER_SIZE, in_bounds, index_of, voxel_at, reflected,
};
use crate::math::{IVec3, vadd, vsub};
use crate::voxel::{Side, SIDE_COUNT, side_at, Kind, VoxelFace};
use crate::voxworld::Chunk;

verus! {

/// One of the six unit directions along X, Y or Z.
pub open spec fn unit_axis(a: IVec3) -> bool {
    ||| (a.x == 1 || a.x == -1) && a.y == 0 && a.z == 0
    ||| a.x == 0 && (a.y == 1 || a.y == -1) && a.z == 0
    ||| a.x == 0 && a.y == 0 && (a.z == 1 || a.z == -1)
}

/// The component a unit axis runs along: 0 for X, 1 for Y, 2 for Z.
pub open spec fn component(a: IVec3) -> int {
    if a.x != 0 {
        0
    } else if a.y != 0 {
        1
    } else {
        2
    }
}

/// Component `i` of `v`.
pub open spec fn comp_of(v: IVec3, i: int) -> int {
    if i == 0 {
        v.x as int
    } else if i == 1 {
        v.y as int
    } else {
        v.z as int
    }
}

/// The unit axis points towards growing coordinates.
pub open spec fn positive(a: IVec3) -> bool {
    a.x + a.y + a.z > 0
}

/// The coordinate of `v` along the unit axis `a`, growing in the direction of `a`.
pub open spec fn coord(v: IVec3, a: IVec3) -> int {
    if positive(a) {
        comp_of(v, component(a))
    } else {
        -comp_of(v, component(a))
    }
}

/// The walk axes of each side: the outermost loop, the perpendicular axis and the current
/// axis, which is the innermost loop.
pub open spec fn walk_axes(side: Side) -> (IVec3, IVec3, IVec3) {
    let x = IVec3 { x: 1, y: 0, z: 0 };
    let y = IVec3 { x: 0, y: 1, z: 0 };
    let z = IVec3 { x: 0, y: 0, z: 1 };
    let nx = IVec3 { x: -1i32, y: 0, z: 0 };
    let nz = IVec3 { x: 0, y: 0, z: -1i32 };
    match side {
        Side::Right => (x, y, nz),
        Side::Left => (x, y, z),
        Side::Up => (y, nz, x),
        Side::Down => (y, z, x),
        Side::Front => (z, y, x),
        Side::Back => (z, y, nx),
    }
}

/// The three axes are unit axes along three different components.
pub open spec fn valid_axes(axes: (IVec3, IVec3, IVec3)) -> bool {
    &&& unit_axis(axes.0)
    &&& unit_axis(axes.1)
    &&& unit_axis(axes.2)
    &&& component(axes.0) != component(axes.1)
    &&& component(axes.0) != component(axes.2)
    &&& component(axes.1) != component(axes.2)
}

/**
  The first tuple item is the outer most loop and the third item is the inner most.

  **Returns** a tuple indicating which direction the algorithm will walk in order to merge faces.
*/
pub fn get_side_walk_axis(side: Side) -> (r: (IVec3, IVec3, IVec3))
    ensures
        r == walk_axes(side),
        valid_axes(r),
{
    let x = IVec3 { x: 1, y: 0, z: 0 };
    let y = IVec3 { x: 0, y: 1, z: 0 };
    let z = IVec3 { x: 0, y: 0, z: 1 };
    let nx = IVec3 { x: -1, y: 0, z: 0 };
    let nz = IVec3 { x: 0, y: 0, z: -1 };
    match side {
        Side::Right => (x, y, nz),
        Side::Left => (x, y, z),
        Side::Up => (y, nz, x),
        Side::Down => (y, z, x),
        Side::Front => (z, y, x),
        Side::Back => (z, y, nx),
    }
}

/// The `i`-th coordinate walked along a unit axis: upwards from 0 for a positive axis,
/// downwards from 15 for a negative one.
pub open spec fn axis_value(axis: IVec3, i: int) -> int {
    if positive(axis) {
        i
    } else {
        15 - i
    }
}

/**
  **Returns** the coordinates to iterate over a given axis, in walk order.
*/
pub fn get_axis_range(axis: IVec3) -> (r: Vec<i32>)
    requires
        unit_axis(axis),
    ensures
        r@.len() == 16,
        forall|i: int| 0 <= i < 16 ==> r@[i] == axis_value(axis, i),
{
    let pos = axis.x + axis.y + axis.z > 0;
    let mut r: Vec<i32> = Vec::new();
    let mut i: i32 = 0;
    while i < 16
        invariant
            0 <= i <= 16,
            pos == positive(axis),
            r@.len() == i,
            forall|k: int| 0 <= k < i ==> r@[k] == axis_value(axis, k),
        decreases 16 - i,
    {
        if pos {
            r.push(i);
        } else {
            r.push(15 - i);
        }
        i = i + 1;
    }
    r
}

/// `v` when the axis component `u` is not zero, else nothing.
pub open spec fn sel(u: i32, v: int) -> int {
    if u != 0 {
        v
    } else {
        0
    }
}

/// Places `a`, `b` and `c` on the components of the three walk axes (each axis component taken
/// by its absolute value, `0` or `1`).
pub open spec fn unswizzled(axes: (IVec3, IVec3, IVec3), a: int, b: int, c: int) -> (int, int, int) {
    (
        sel(axes.0.x, a) + sel(axes.1.x, b) + sel(axes.2.x, c),
        sel(axes.0.y, a) + sel(axes.1.y, b) + sel(axes.2.y, c),
        sel(axes.0.z, a) + sel(axes.1.z, b) + sel(axes.2.z, c),
    )
}

pub open spec fn fits(t: (int, int, int)) -> bool {
    &&& i32::MIN <= t.0 <= i32::MAX
    &&& i32::MIN <= t.1 <= i32::MAX
    &&& i32::MIN <= t.2 <= i32::MAX
}

pub open spec fn to_vec(t: (int, int, int)) -> IVec3 {
    IVec3 { x: t.0 as i32, y: t.1 as i32, z: t.2 as i32 }
}

fn scaled(u: i32, v: i32) -> (r: i64)
    ensures
        r == sel(u, v as int),
{
    if u != 0 {
        v as i64
    } else {
        0
    }
}

/**
 Converts a swizzled vector to its conventional (X, Y, Z) format.

 **Returns** an [`IVec3`] with X, Y and Z elements in order.
*/
pub fn unswizzle(walk_axis: (IVec3, IVec3, IVec3), a: i32, b: i32, c: i32) -> (r: IVec3)
    requires
        fits(unswizzled(walk_axis, a as int, b as int, c as int)),
    ensures
        r == to_vec(unswizzled(walk_axis, a as int, b as int, c as int)),
{
    let (p, q, s) = walk_axis;
    let x = scaled(p.x, a) + scaled(q.x, b) + scaled(s.x, c);
    let y = scaled(p.y, a) + scaled(q.y, b) + scaled(s.y, c);
    let z = scaled(p.z, a) + scaled(q.z, b) + scaled(s.z, c);
    IVec3 { x: x as i32, y: y as i32, z: z as i32 }
}

/// The voxel visited at step `k` when walking the faces of `side`.
pub open spec fn merger_at(side: Side, k: int) -> IVec3 {
    let axes = walk_axes(side);
    to_vec(
        unswizzled(
            axes,
            axis_value(axes.0, k / 256),
            axis_value(axes.1, (k / 16) % 16),
            axis_value(axes.2, k % 16),
        ),
    )
}

/// The step at which the walk over the faces of `side` visits `v`.
pub open spec fn merger_index(side: Side, v: IVec3) -> int {
    let axes = walk_axes(side);
    axis_value(axes.0, comp_of(v, component(axes.0))) * 256 + axis_value(
        axes.1,
        comp_of(v, component(axes.1)),
    ) * 16 + axis_value(axes.2, comp_of(v, component(axes.2)))
}

proof fn lemma_split(a: int, b: int, c: int)
    requires
        0 <= a < 16,
        0 <= b < 16,
        0 <= c < 16,
    ensures
        (a * 256 + b * 16 + c) / 256 == a,
        ((a * 256 + b * 16 + c) / 16) % 16 == b,
        (a * 256 + b * 16 + c) % 16 == c,
        0 <= a * 256 + b * 16 + c < 4096,
{
    assert((a * 256 + b * 16 + c) / 256 == a) by (nonlinear_arith)
        requires
            0 <= a < 16,
            0 <= b < 16,
            0 <= c < 16,
    ;
    assert(((a * 256 + b * 16 + c) / 16) % 16 == b && (a * 256 + b * 16 + c) % 16 == c)
        by (nonlinear_arith)
        requires
            0 <= a < 16,
            0 <= b < 16,
            0 <= c < 16,
    ;
}

proof fn lemma_digits(k: int)
    requires
        0 <= k < 4096,
    ensures
        0 <= k / 256 < 16,
        0 <= (k / 16) % 16 < 16,
        0 <= k % 16 < 16,
{
    assert(0 <= k / 256 < 16) by (nonlinear_arith)
        requires
            0 <= k < 4096,
    ;
}

/// Each step of the walk visits a voxel of the chunk.
pub proof fn lemma_merger_in_bounds(side: Side, k: int)
    requires
        0 <= k < BUFFER_SIZE,
    ensures
        in_bounds(merger_at(side, k)),
{
    lemma_digits(k);
}

/// The walk visits at step `k` the voxel whose step is `k`.
pub proof fn lemma_merger_index_at(side: Side, k: int)
    requires
        0 <= k < BUFFER_SIZE,
    ensures
        merger_index(side, merger_at(side, k)) == k,
{
    lemma_digits(k);
    let a = k / 256;
    let b = (k / 16) % 16;
    let c = k % 16;
    assert(k == a * 256 + b * 16 + c) by (nonlinear_arith)
        requires
            0 <= k < 4096,
            a == k / 256,
            b == (k / 16) % 16,
            c == k % 16,
    ;
}

/// The walk visits every voxel of the chunk.
pub proof fn lemma_merger_covers(side: Side, v: IVec3)
    requires
        in_bounds(v),
    ensures
        0 <= merger_index(side, v) < BUFFER_SIZE,
        merger_at(side, merger_index(side, v)) == v,
{
    let axes = walk_axes(side);
    let a = axis_value(axes.0, comp_of(v, component(axes.0)));
    let b = axis_value(axes.1, comp_of(v, component(axes.1)));
    let c = axis_value(axes.2, comp_of(v, component(axes.2)));
    lemma_split(a, b, c);
}

/**
 **Returns** the voxels of a chunk in the order in which the faces of `side` are walked: the
 outermost loop runs along the first walk axis and the innermost along the last one.
*/
pub fn merger_voxels(side: Side) -> (r: Vec<IVec3>)
    ensures
        r@.len() == BUFFER_SIZE,
        forall|k: int| 0 <= k < BUFFER_SIZE ==> #[trigger] r@[k] == merger_at(side, k),
{
    let walk_axis = get_side_walk_axis(side);
    let a_range = get_axis_range(walk_axis.0);
    let b_range = get_axis_range(walk_axis.1);
    let c_range = get_axis_range(walk_axis.2);
    let mut r: Vec<IVec3> = Vec::new();
    let mut k: usize = 0;
    while k < BUFFER_SIZE
        invariant
            k <= BUFFER_SIZE,
            walk_axis == walk_axes(side),
            a_range@.len() == 16 && b_range@.len() == 16 && c_range@.len() == 16,
            forall|i: int| 0 <= i < 16 ==> a_range@[i] == axis_value(walk_axis.0, i),
            forall|i: int| 0 <= i < 16 ==> b_range@[i] == axis_value(walk_axis.1, i),
            forall|i: int| 0 <= i < 16 ==> c_range@[i] == axis_value(walk_axis.2, i),
            r@.len() == k,
            forall|i: int| 0 <= i < k ==> #[trigger] r@[i] == merger_at(side, i),
        decreases BUFFER_SIZE - k,
    {
        proof {
            lemma_digits(k as int);
        }
        let a = a_range[k / 256];
        let b = b_range[(k / 16) % 16];
        let c = c_range[k % 16];
        let v = unswizzle(walk_axis, a, b, c);
        r.push(v);
        k = k + 1;
    }
    r
}

/// `v` lies in the box spanned by the corners `p` and `q`.
pub open spec fn in_box(p: IVec3, q: IVec3, v: IVec3) -> bool {
    let between = |a: i32, b: i32, x: i32|
        if a <= b {
            a <= x <= b
        } else {
            b <= x <= a
        };
    &&& between(p.x, q.x, v.x)
    &&& between(p.y, q.y, v.y)
    &&& between(p.z, q.z, v.z)
}

/// The component that neither `b` nor `c` runs along.
pub open spec fn third(b: IVec3, c: IVec3) -> int {
    3 - component(b) - component(c)
}

/// `q` is `p` moved by `n >= 0` steps along the unit axis `a`.
pub open spec fn moved(p: IVec3, a: IVec3, q: IVec3) -> bool {
    &&& forall|i: int| 0 <= i < 3 && i != component(a) ==> comp_of(q, i) == comp_of(p, i)
    &&& coord(q, a) >= coord(p, a)
}

/// `v` lies in the rectangle walked from `v1`: rows along the perpendicular axis `b`, from
/// `v1` up to `h` steps, each row going `w` steps along the current axis `c`.
pub open spec fn in_rect(v1: IVec3, b: IVec3, c: IVec3, w: int, h: int, v: IVec3) -> bool {
    &&& comp_of(v, third(b, c)) == comp_of(v1, third(b, c))
    &&& 0 <= coord(v, b) - coord(v1, b) <= h
    &&& 0 <= coord(v, c) - coord(v1, c) <= w
}

/// The walk position of `v` comes before row `j`, column `i`.
pub open spec fn walked_before(v1: IVec3, b: IVec3, c: IVec3, w: int, j: int, i: int, v: IVec3) -> bool {
    &&& comp_of(v, third(b, c)) == comp_of(v1, third(b, c))
    &&& 0 <= coord(v, c) - coord(v1, c) <= w
    &&& 0 <= coord(v, b) - coord(v1, b)
    &&& (coord(v, b) - coord(v1, b) < j || (coord(v, b) - coord(v1, b) == j && coord(v, c) - coord(
        v1,
        c,
    ) < i))
}

/// The corners of a walked rectangle: `v2` is `v1` moved along `c`, `v3` is `v2` moved along
/// `b`, all inside the chunk.
pub open spec fn walk_corners(v1: IVec3, v2: IVec3, v3: IVec3, b: IVec3, c: IVec3) -> bool {
    &&& unit_axis(b)
    &&& unit_axis(c)
    &&& component(b) != component(c)
    &&& in_bounds(v1)
    &&& in_bounds(v2)
    &&& in_bounds(v3)
    &&& moved(v1, c, v2)
    &&& moved(v2, b, v3)
}

/// A voxel is fixed by its coordinates along two axes and the third component.
pub proof fn lemma_same_point(b: IVec3, c: IVec3, u: IVec3, v: IVec3)
    requires
        unit_axis(b),
        unit_axis(c),
        component(b) != component(c),
        comp_of(u, third(b, c)) == comp_of(v, third(b, c)),
        coord(u, b) == coord(v, b),
        coord(u, c) == coord(v, c),
    ensures
        u == v,
{
}

/// Inside the rectangle of its corners, a voxel lies in the box they span.
pub proof fn lemma_rect_box(v1: IVec3, v2: IVec3, v3: IVec3, b: IVec3, c: IVec3, v: IVec3)
    requires
        walk_corners(v1, v2, v3, b, c),
    ensures
        in_rect(v1, b, c, coord(v2, c) - coord(v1, c), coord(v3, b) - coord(v1, b), v) <==> in_box(
            v1,
            v3,
            v,
        ),
{
}

/// One unit step along a unit axis moves one coordinate only.
pub proof fn lemma_step(p: IVec3, a: IVec3)
    requires
        unit_axis(a),
        crate::math::can_add(p, a),
    ensures
        coord(vadd(p, a), a) == coord(p, a) + 1,
        forall|i: int| 0 <= i < 3 && i != component(a) ==> #[trigger] comp_of(vadd(p, a), i) == comp_of(p, i),
        forall|x: IVec3|
            unit_axis(x) && component(x) != component(a) ==> #[trigger] coord(vadd(p, a), x) == coord(p, x),
{
}

/// Inside a rectangle whose corners lie in the chunk, every voxel lies in the chunk.
pub proof fn lemma_rect_in_bounds(v1: IVec3, v2: IVec3, v3: IVec3, b: IVec3, c: IVec3, v: IVec3)
    requires
        walk_corners(v1, v2, v3, b, c),
        in_rect(v1, b, c, coord(v2, c) - coord(v1, c), coord(v3, b) - coord(v1, b), v),
    ensures
        in_bounds(v),
{
    lemma_rect_box(v1, v2, v3, b, c, v);
}

/// Pushing the voxel at row `j`, column `i` extends the walked set to the next position.
proof fn lemma_walk_step(
    v1: IVec3,
    b: IVec3,
    c: IVec3,
    w: int,
    j: int,
    i: int,
    before: Seq<IVec3>,
    pushed: IVec3,
    j2: int,
    i2: int,
)
    requires
        unit_axis(b),
        unit_axis(c),
        component(b) != component(c),
        0 <= j,
        0 <= i <= w,
        forall|v: IVec3| #[trigger] before.contains(v) <==> walked_before(v1, b, c, w, j, i, v),
        comp_of(pushed, third(b, c)) == comp_of(v1, third(b, c)),
        coord(pushed, b) - coord(v1, b) == j,
        coord(pushed, c) - coord(v1, c) == i,
        (i < w && j2 == j && i2 == i + 1) || (i == w && j2 == j + 1 && i2 == 0),
    ensures
        forall|v: IVec3| #[trigger]
            before.push(pushed).contains(v) <==> walked_before(v1, b, c, w, j2, i2, v),
        !before.contains(pushed),
{
    let after = before.push(pushed);
    assert forall|v: IVec3| #[trigger] after.contains(v) <==> walked_before(v1, b, c, w, j2, i2, v) by {
        if after.contains(v) && !before.contains(v) {
            let t = after.index_of(v);
            assert(t == before.len());
        }
        if before.contains(v) {
            let t = before.index_of(v);
            assert(after[t] == v);
        }
        if v == pushed {
            assert(after[before.len() as int] == v);
        }
        if walked_before(v1, b, c, w, j2, i2, v) && !walked_before(v1, b, c, w, j, i, v) {
            lemma_same_point(b, c, v, pushed);
        }
    }
}

/// The place of `v` in the walk from `v1`: rows of `w + 1` voxels along `c`, one after the
/// other along `b`.
pub open spec fn walk_position(v1: IVec3, b: IVec3, c: IVec3, w: int, v: IVec3) -> int {
    (coord(v, b) - coord(v1, b)) * (w + 1) + (coord(v, c) - coord(v1, c))
}

/**
 Generates the list of voxels walked from `v1`, row after row along `perpendicular_axis`, each
 row going along `current_axis` up to `v2`'s column, until `v3`, inclusive.
*/
#[verifier::rlimit(40)]
pub fn calc_walked_voxels(
    v1: IVec3,
    v2: IVec3,
    v3: IVec3,
    perpendicular_axis: IVec3,
    current_axis: IVec3,
) -> (r: Vec<IVec3>)
    requires
        walk_corners(v1, v2, v3, perpendicular_axis, current_axis),
    ensures
        forall|v: IVec3| #[trigger] r@.contains(v) <==> in_box(v1, v3, v),
        r@.no_duplicates(),
        r@.len() > 0,
        r@[0] == v1,
        r@.last() == v3,
        forall|q: int|
            0 <= q < r@.len() ==> walk_position(
                v1,
                perpendicular_axis,
                current_axis,
                coord(v2, current_axis) - coord(v1, current_axis),
                #[trigger] r@[q],
            ) == q,
{
    let ghost b = perpendicular_axis;
    let ghost c = current_axis;
    let ghost w = coord(v2, c) - coord(v1, c);
    let ghost h = coord(v3, b) - coord(v1, b);
    let ghost t = third(b, c);
    let mut walked_voxels: Vec<IVec3> = Vec::new();

    let mut begin = v1;
    let mut current = begin;
    let mut end = v2;
    let ghost mut j: int = 0;
    let ghost mut i: int = 0;

    while current != v3
        invariant
            walk_corners(v1, v2, v3, b, c),
            b == perpendicular_axis,
            c == current_axis,
            t == third(b, c),
            w == coord(v2, c) - coord(v1, c),
            h == coord(v3, b) - coord(v1, b),
            comp_of(v3, t) == comp_of(v1, t),
            coord(v3, c) == coord(v1, c) + w,
            0 <= j <= h,
            0 <= i <= w,
            comp_of(begin, t) == comp_of(v1, t),
            coord(begin, b) == coord(v1, b) + j,
            coord(begin, c) == coord(v1, c),
            comp_of(end, t) == comp_of(v1, t),
            coord(end, b) == coord(v1, b) + j,
            coord(end, c) == coord(v1, c) + w,
            comp_of(current, t) == comp_of(v1, t),
            coord(current, b) == coord(v1, b) + j,
            coord(current, c) == coord(v1, c) + i,
            forall|v: IVec3| #[trigger]
                walked_voxels@.contains(v) <==> walked_before(v1, b, c, w, j, i, v),
            walked_voxels@.no_duplicates(),
            walked_voxels@.len() > 0 ==> walked_voxels@[0] == v1,
            walked_voxels@.len() == 0 ==> j == 0 && i == 0,
            walked_voxels@.len() == j * (w + 1) + i,
            forall|q: int|
                0 <= q < walked_voxels@.len() ==> walk_position(v1, b, c, w, #[trigger] walked_voxels@[q]) == q,
        decreases h - j, w - i,
    {
        let ghost before = walked_voxels@;
        let ghost pushed = current;
        proof {
            lemma_rect_in_bounds(v1, v2, v3, b, c, begin);
            lemma_rect_in_bounds(v1, v2, v3, b, c, end);
            lemma_rect_in_bounds(v1, v2, v3, b, c, current);
            if before.len() == 0 {
                lemma_same_point(b, c, current, v1);
            }
        }
        walked_voxels.push(current);
        if current == end {
            proof {
                if j == h {
                    lemma_same_point(b, c, current, v3);
                }
                lemma_walk_step(v1, b, c, w, j, i, before, pushed, j + 1, 0);
            }
            let ghost old_begin = begin;
            let ghost old_end = end;
            begin = begin.plus(perpendicular_axis);
            end = end.plus(perpendicular_axis);
            current = begin;
            proof {
                lemma_step(old_begin, b);
                lemma_step(old_end, b);
                assert(i == w) by {
                    if i != w {
                        lemma_same_point(b, c, pushed, end);
                    }
                }
                assert((j + 1) * (w + 1) == j * (w + 1) + w + 1) by (nonlinear_arith);
                j = j + 1;
                i = 0;
            }
        } else {
            proof {
                if i == w {
                    lemma_same_point(b, c, current, end);
                }
                lemma_walk_step(v1, b, c, w, j, i, before, pushed, j, i + 1);
            }
            let ghost old_current = current;
            current = current.plus(current_axis);
            proof {
                lemma_step(old_current, c);
                i = i + 1;
            }
        }
    }
    let ghost before = walked_voxels@;
    proof {
        if before.len() == 0 {
            lemma_same_point(b, c, current, v1);
        }
        assert(i == w);
        assert(j == h);
        assert(!walked_before(v1, b, c, w, j, i, v3));
        assert(!before.contains(v3));
    }
    walked_voxels.push(current);
    proof {
        assert(walked_voxels@ == before.push(v3));
        assert(walked_voxels@.no_duplicates()) by {
            assert forall|x: int, y: int|
                0 <= x < walked_voxels@.len() && 0 <= y < walked_voxels@.len() && x != y implies walked_voxels@[x]
                != walked_voxels@[y] by {
                if x < before.len() && y < before.len() {
                } else if x < before.len() {
                    assert(before.contains(before[x]));
                } else {
                    assert(before.contains(before[y]));
                }
            }
        }
        assert forall|v: IVec3| #[trigger] walked_voxels@.contains(v) <==> in_box(v1, v3, v) by {
            lemma_rect_box(v1, v2, v3, b, c, v);
            if walked_voxels@.contains(v) && !before.contains(v) {
                let k = walked_voxels@.index_of(v);
                assert(k == before.len());
            }
            if before.contains(v) {
                let k = before.index_of(v);
                assert(walked_voxels@[k] == v);
            }
            if v == v3 {
                assert(walked_voxels@[before.len() as int] == v);
            }
            if in_rect(v1, b, c, w, h, v) && !walked_before(v1, b, c, w, j, i, v) {
                lemma_same_point(b, c, v, v3);
            }
        }
    }
    walked_voxels
}

/// The face of `v` on `side` is drawn: `v` is a non-empty voxel of the chunk whose face on
/// `side` is not occluded.
pub open spec fn visible(chunk: Chunk, occlusion: ChunkFacesOcclusion, side: Side, v: IVec3) -> bool {
    &&& in_bounds(v)
    &&& !chunk.kinds.at(v).empty()
    &&& !occlusion.at(v).occluded(side.idx())
}

/// The face of `v` on `side` can be merged into a face started at `base`: it is drawn, not
/// merged yet, and has the kind and the reflected light of `base`.
pub open spec fn can_merge(
    chunk: Chunk,
    occlusion: ChunkFacesOcclusion,
    merged: Seq<bool>,
    side: Side,
    base: IVec3,
    v: IVec3,
) -> bool {
    &&& visible(chunk, occlusion, side, v)
    &&& !merged[index_of(v)]
    &&& chunk.kinds.at(base) == chunk.kinds.at(v)
    &&& reflected(chunk.lights, base, side) == reflected(chunk.lights, v, side)
}

/// Whether the merged face `f` covers the face of `v`.
pub open spec fn covers(f: VoxelFace, v: IVec3) -> bool {
    in_box(f.vertices[0], f.vertices[2], v)
}

/// A merged face: a rectangle of drawn faces of one kind and one reflected light, walked from
/// its first vertex along the walk axes of its side. The fourth vertex closes the rectangle.
pub open spec fn face_ok(chunk: Chunk, occlusion: ChunkFacesOcclusion, f: VoxelFace) -> bool {
    let axes = walk_axes(f.side);
    let v1 = f.vertices[0];
    let v2 = f.vertices[1];
    let v3 = f.vertices[2];
    &&& walk_corners(v1, v2, v3, axes.1, axes.2)
    &&& f.vertices[3] == vadd(v1, vsub(v3, v2))
    &&& f.kind == chunk.kinds.at(v1)
    &&& f.light_intensity == reflected(chunk.lights, v1, f.side)
    &&& forall|v: IVec3|
        #![trigger covers(f, v)]
        covers(f, v) ==> {
            &&& visible(chunk, occlusion, f.side, v)
            &&& chunk.kinds.at(v) == f.kind
            &&& reflected(chunk.lights, v, f.side) == f.light_intensity
        }
}

/// `q` lies from `p` along the direction `(dx, dy, dz)`, zero or more steps away.
pub open spec fn runs_along(p: IVec3, q: IVec3, dx: int, dy: int, dz: int) -> bool {
    &&& dx == 0 ==> q.x == p.x
    &&& dy == 0 ==> q.y == p.y
    &&& dz == 0 ==> q.z == p.z
    &&& (q.x - p.x) * dx + (q.y - p.y) * dy + (q.z - p.z) * dz >= 0
}

/// The winding of a merged face: from its first vertex to its second it grows along the
/// face's row direction, from its second to its third along the direction rows are added.
/// Right faces grow towards -Z, Left faces towards +Z, Up and Down faces towards +X, Front
/// faces towards +X and Back faces towards -X; rows are added towards +Y, but on Up faces
/// towards -Z and on Down faces towards +Z.
pub open spec fn face_winding(f: VoxelFace) -> bool {
    let v0 = f.vertices[0];
    let v1 = f.vertices[1];
    let v2 = f.vertices[2];
    match f.side {
        Side::Right => runs_along(v0, v1, 0, 0, -1) && runs_along(v1, v2, 0, 1, 0),
        Side::Left => runs_along(v0, v1, 0, 0, 1) && runs_along(v1, v2, 0, 1, 0),
        Side::Up => runs_along(v0, v1, 1, 0, 0) && runs_along(v1, v2, 0, 0, -1),
        Side::Down => runs_along(v0, v1, 1, 0, 0) && runs_along(v1, v2, 0, 0, 1),
        Side::Front => runs_along(v0, v1, 1, 0, 0) && runs_along(v1, v2, 0, 1, 0),
        Side::Back => runs_along(v0, v1, -1, 0, 0) && runs_along(v1, v2, 0, 1, 0),
    }
}

/// Every face of [`merge`] is wound as its side asks (see [`face_winding`]), and its fourth
/// vertex closes the rectangle.
pub proof fn lemma_face_winding(chunk: Chunk, occlusion: ChunkFacesOcclusion, f: VoxelFace)
    requires
        face_ok(chunk, occlusion, f),
    ensures
        face_winding(f),
        f.vertices[3].x == f.vertices[0].x + f.vertices[2].x - f.vertices[1].x,
        f.vertices[3].y == f.vertices[0].y + f.vertices[2].y - f.vertices[1].y,
        f.vertices[3].z == f.vertices[0].z + f.vertices[2].z - f.vertices[1].z,
{
    let v0 = f.vertices[0];
    let v1 = f.vertices[1];
    let v2 = f.vertices[2];
    assert(in_bounds(v0) && in_bounds(v1) && in_bounds(v2));
    assert(forall|i: int| 0 <= i < 3 && i != component(walk_axes(f.side).2) ==> comp_of(v1, i) == comp_of(v0, i));
    assert(forall|i: int| 0 <= i < 3 && i != component(walk_axes(f.side).1) ==> comp_of(v2, i) == comp_of(v1, i));
    assert(comp_of(v1, 0) == v1.x && comp_of(v1, 1) == v1.y && comp_of(v1, 2) == v1.z);
    assert(comp_of(v0, 0) == v0.x && comp_of(v0, 1) == v0.y && comp_of(v0, 2) == v0.z);
    assert(comp_of(v2, 0) == v2.x && comp_of(v2, 1) == v2.y && comp_of(v2, 2) == v2.z);
}

pub open spec fn merge_inputs_ok(chunk: Chunk, occlusion: ChunkFacesOcclusion) -> bool {
    chunk.wf() && occlusion.wf()
}

/**
  Checks if voxel is empty, or is already merged or its face is occluded.
*/
fn should_skip_voxel(
    merged: &Vec<bool>,
    voxel: IVec3,
    side: Side,
    kind: Kind,
    occlusion: &ChunkFacesOcclusion,
) -> (r: bool)
    requires
        merged@.len() == BUFFER_SIZE,
        occlusion.wf(),
        in_bounds(voxel),
    ensures
        r == (kind.empty() || merged@[index_of(voxel)] || occlusion.at(voxel).occluded(side.idx())),
{
    kind.is_empty() || merged[chunk::to_index(voxel)] || occlusion.get(voxel).is_occluded(side)
}

fn should_merge(
    voxel: IVec3,
    next_voxel: IVec3,
    chunk: &Chunk,
    merged: &Vec<bool>,
    side: Side,
    occlusion: &ChunkFacesOcclusion,
) -> (r: bool)
    requires
        merged@.len() == BUFFER_SIZE,
        merge_inputs_ok(*chunk, *occlusion),
        in_bounds(voxel),
    ensures
        r == can_merge(*chunk, *occlusion, merged@, side, voxel, next_voxel),
{
    chunk::is_within_bounds(next_voxel) && !should_skip_voxel(
        merged,
        next_voxel,
        side,
        chunk.kinds.get(next_voxel),
        occlusion,
    ) && chunk.kinds.get(voxel) == chunk.kinds.get(next_voxel)
        && chunk.lights.get_face_reflected_intensity(voxel, side)
        == chunk.lights.get_face_reflected_intensity(next_voxel, side)
}

/// `v` lies on the line through `p` along the unit axis `a`.
pub open spec fn on_line(p: IVec3, a: IVec3, v: IVec3) -> bool {
    forall|i: int| 0 <= i < 3 && i != component(a) ==> #[trigger] comp_of(v, i) == comp_of(p, i)
}

pub(crate) proof fn lemma_line_point(p: IVec3, a: IVec3, u: IVec3, v: IVec3)
    requires
        unit_axis(a),
        on_line(p, a, u),
        on_line(p, a, v),
        coord(u, a) == coord(v, a),
    ensures
        u == v,
{
    assert(comp_of(u, 0) == comp_of(p, 0) || component(a) == 0);
    assert(comp_of(u, 1) == comp_of(p, 1) || component(a) == 1);
    assert(comp_of(u, 2) == comp_of(p, 2) || component(a) == 2);
    assert(comp_of(v, 0) == comp_of(p, 0) || component(a) == 0);
    assert(comp_of(v, 1) == comp_of(p, 1) || component(a) == 1);
    assert(comp_of(v, 2) == comp_of(p, 2) || component(a) == 2);
}

/// One unit step back along a unit axis moves one coordinate only.
pub proof fn lemma_unstep(p: IVec3, a: IVec3)
    requires
        unit_axis(a),
        crate::math::can_sub(p, a),
    ensures
        coord(vsub(p, a), a) == coord(p, a) - 1,
        forall|i: int| 0 <= i < 3 && i != component(a) ==> #[trigger] comp_of(vsub(p, a), i) == comp_of(p, i),
        vadd(vsub(p, a), a) == p,
{
}

pub(crate) proof fn lemma_line_box(p: IVec3, a: IVec3, q: IVec3, v: IVec3)
    requires
        unit_axis(a),
        moved(p, a, q),
    ensures
        in_box(p, q, v) <==> (on_line(p, a, v) && 0 <= coord(v, a) - coord(p, a) <= coord(q, a)
            - coord(p, a)),
{
    if on_line(p, a, v) {
        assert(comp_of(v, 0) == comp_of(p, 0) || component(a) == 0);
        assert(comp_of(v, 1) == comp_of(p, 1) || component(a) == 1);
        assert(comp_of(v, 2) == comp_of(p, 2) || component(a) == 2);
    }
    assert(comp_of(q, 0) == comp_of(p, 0) || component(a) == 0);
    assert(comp_of(q, 1) == comp_of(p, 1) || component(a) == 1);
    assert(comp_of(q, 2) == comp_of(p, 2) || component(a) == 2);
}

/**
 Finds the furthest voxel from `begin`, stepping along `step`, whose face can be merged with
 the face of `begin`. When `until` is given, the search stops as soon as it reaches it.
*/
fn find_furthest_eq_voxel(
    begin: IVec3,
    step: IVec3,
    merged: &Vec<bool>,
    side: Side,
    chunk: &Chunk,
    occlusion: &ChunkFacesOcclusion,
    until: Option<IVec3>,
) -> (r: IVec3)
    requires
        merged@.len() == BUFFER_SIZE,
        merge_inputs_ok(*chunk, *occlusion),
        in_bounds(begin),
        unit_axis(step),
    ensures
        in_bounds(r),
        moved(begin, step, r),
        forall|v: IVec3|
            #![trigger in_box(begin, r, v)]
            in_box(begin, r, v) && v != begin ==> can_merge(
                *chunk,
                *occlusion,
                merged@,
                side,
                begin,
                v,
            ),
        match until {
            None => !can_merge(*chunk, *occlusion, merged@, side, begin, vadd(r, step)),
            Some(t) => (r == t && t != begin) || (!can_merge(
                *chunk,
                *occlusion,
                merged@,
                side,
                begin,
                vadd(r, step),
            ) && !(in_box(begin, r, t) && t != begin)),
        },
{
    let ghost cb = coord(begin, step);
    let mut next_voxel = begin.plus(step);
    proof {
        lemma_step(begin, step);
    }
    let ghost mut n: int = 1;
    while should_merge(begin, next_voxel, chunk, merged, side, occlusion)
        invariant
            merged@.len() == BUFFER_SIZE,
            merge_inputs_ok(*chunk, *occlusion),
            in_bounds(begin),
            unit_axis(step),
            cb == coord(begin, step),
            1 <= n <= 16,
            on_line(begin, step, next_voxel),
            coord(next_voxel, step) == cb + n,
            crate::math::within_cube(next_voxel, -1, 16),
            forall|v: IVec3|
                on_line(begin, step, v) && 1 <= coord(v, step) - cb < n ==> can_merge(
                    *chunk,
                    *occlusion,
                    merged@,
                    side,
                    begin,
                    v,
                ),
            forall|t: IVec3|
                until == Some(t) ==> !(on_line(begin, step, t) && 1 <= coord(t, step) - cb < n),
        decreases 16 - n,
    {
        match until {
            Some(target) => {
                if target == next_voxel {
                    proof {
                        lemma_line_box(begin, step, next_voxel, begin);
                        assert(moved(begin, step, next_voxel));
                        assert forall|v: IVec3| #![trigger in_box(begin, next_voxel, v)]
                            in_box(begin, next_voxel, v) && v != begin implies can_merge(
                            *chunk,
                            *occlusion,
                            merged@,
                            side,
                            begin,
                            v,
                        ) by {
                            lemma_line_box(begin, step, next_voxel, v);
                            assert(on_line(begin, step, v));
                            if coord(v, step) == cb {
                                assert(on_line(begin, step, begin));
                                lemma_line_point(begin, step, v, begin);
                            } else if coord(v, step) - cb == n {
                                lemma_line_point(begin, step, v, next_voxel);
                            } else {
                                assert(1 <= coord(v, step) - cb < n);
                            }
                        }
                    }
                    return next_voxel;
                }
            },
            None => {},
        }
        let ghost prev = next_voxel;
        next_voxel = next_voxel.plus(step);
        proof {
            lemma_step(prev, step);
            assert forall|v: IVec3|
                on_line(begin, step, v) && 1 <= coord(v, step) - cb < n + 1 implies can_merge(
                *chunk,
                *occlusion,
                merged@,
                side,
                begin,
                v,
            ) by {
                if coord(v, step) - cb == n {
                    lemma_line_point(begin, step, v, prev);
                }
            }
            match until {
                Some(t) => {
                    if on_line(begin, step, t) && coord(t, step) - cb == n {
                        lemma_line_point(begin, step, t, prev);
                    }
                },
                None => {},
            }
            n = n + 1;
        }
    }
    let ghost last = next_voxel;
    next_voxel = next_voxel.minus(step);
    proof {
        lemma_unstep(last, step);
        assert(vadd(next_voxel, step) == last);
        assert(on_line(begin, step, next_voxel));
        assert(coord(next_voxel, step) == cb + n - 1);
        if n == 1 {
            assert(on_line(begin, step, begin));
            lemma_line_point(begin, step, next_voxel, begin);
        } else {
            assert(can_merge(*chunk, *occlusion, merged@, side, begin, next_voxel));
        }
        assert(moved(begin, step, next_voxel));
        assert forall|v: IVec3| #![trigger in_box(begin, next_voxel, v)]
            in_box(begin, next_voxel, v) && v != begin implies can_merge(
            *chunk,
            *occlusion,
            merged@,
            side,
            begin,
            v,
        ) by {
            lemma_line_box(begin, step, next_voxel, v);
            if coord(v, step) == cb {
                lemma_line_point(begin, step, v, begin);
            }
        }
        match until {
            Some(t) => {
                lemma_line_box(begin, step, next_voxel, t);
                if in_box(begin, next_voxel, t) && t != begin {
                    if coord(t, step) == cb {
                        lemma_line_point(begin, step, t, begin);
                    }
                }
            },
            None => {},
        }
    }
    next_voxel
}

/// The face of `v`, on the side of face `f`, is covered by a face of that side built before
/// `f`.
pub open spec fn taken(faces: Seq<VoxelFace>, f: int, v: IVec3) -> bool {
    exists|g: int| 0 <= g < f && faces[g].side == faces[f].side && #[trigger] covers(faces[g], v)
}

/// The face of `v` could join face `f` when `f` was built: drawn, not taken yet, and of the
/// kind and reflected light of `base`.
pub open spec fn joinable(
    chunk: Chunk,
    occlusion: ChunkFacesOcclusion,
    faces: Seq<VoxelFace>,
    f: int,
    base: IVec3,
    v: IVec3,
) -> bool {
    &&& visible(chunk, occlusion, faces[f].side, v)
    &&& !taken(faces, f, v)
    &&& chunk.kinds.at(base) == chunk.kinds.at(v)
    &&& reflected(chunk.lights, base, faces[f].side) == reflected(chunk.lights, v, faces[f].side)
}

/// The row from `n1` to `n3` along `c` could be added to face `f`, started at `v1`: when the
/// row is one voxel long, the search from it finds nothing to join along `c`; otherwise every
/// face of it can join.
pub open spec fn row_addable(
    chunk: Chunk,
    occlusion: ChunkFacesOcclusion,
    faces: Seq<VoxelFace>,
    f: int,
    v1: IVec3,
    n1: IVec3,
    n3: IVec3,
    c: IVec3,
) -> bool {
    if n1 == n3 {
        !joinable(chunk, occlusion, faces, f, n1, vadd(n1, c))
    } else {
        forall|v: IVec3| #![trigger in_box(n1, n3, v)] in_box(n1, n3, v) ==> joinable(chunk, occlusion, faces, f, v1, v)
    }
}

/// Face `f` is the one the walk of its side builds next: every drawn face walked before its
/// first vertex was taken already, its first row runs as far as faces that can join it go,
/// and the next row along the perpendicular axis cannot be added.
pub open spec fn greedy_merge(
    chunk: Chunk,
    occlusion: ChunkFacesOcclusion,
    faces: Seq<VoxelFace>,
    f: int,
) -> bool {
    let face = faces[f];
    let b = walk_axes(face.side).1;
    let c = walk_axes(face.side).2;
    let v1 = face.vertices[0];
    let v2 = face.vertices[1];
    let v3 = face.vertices[2];
    &&& forall|v: IVec3|
        #![trigger visible(chunk, occlusion, face.side, v)]
        visible(chunk, occlusion, face.side, v) && merger_index(face.side, v) < merger_index(
            face.side,
            v1,
        ) ==> taken(faces, f, v)
    &&& !joinable(chunk, occlusion, faces, f, v1, vadd(v2, c))
    &&& forall|n: IVec3|
        #![trigger row_addable(chunk, occlusion, faces, f, v1, n, vadd(v3, b), c)]
        on_line(v1, b, n) && coord(n, b) == coord(v3, b) + 1 ==> !(joinable(
            chunk,
            occlusion,
            faces,
            f,
            v1,
            n,
        ) && row_addable(chunk, occlusion, faces, f, v1, n, vadd(v3, b), c))
}

/// What face `f` required of the faces before it holds whatever comes after it.
proof fn lemma_greedy_merge_prefix(
    chunk: Chunk,
    occlusion: ChunkFacesOcclusion,
    faces: Seq<VoxelFace>,
    longer: Seq<VoxelFace>,
    f: int,
)
    requires
        0 <= f < faces.len() <= longer.len(),
        forall|g: int| 0 <= g <= f ==> longer[g] == faces[g],
        greedy_merge(chunk, occlusion, faces, f),
    ensures
        greedy_merge(chunk, occlusion, longer, f),
{
    assert forall|v: IVec3| #[trigger] taken(longer, f, v) == taken(faces, f, v) by {
        if taken(longer, f, v) {
            let g = choose|g: int| 0 <= g < f && longer[g].side == longer[f].side && #[trigger] covers(longer[g], v);
            assert(covers(faces[g], v));
        }
        if taken(faces, f, v) {
            let g = choose|g: int| 0 <= g < f && faces[g].side == faces[f].side && #[trigger] covers(faces[g], v);
            assert(covers(longer[g], v));
        }
    }
    assert(longer[f] == faces[f]);
    assert forall|base: IVec3, v: IVec3| #[trigger] joinable(chunk, occlusion, longer, f, base, v) == joinable(
        chunk,
        occlusion,
        faces,
        f,
        base,
        v,
    ) by {}
    let c = walk_axes(faces[f].side).2;
    assert forall|v1: IVec3, n1: IVec3, n3: IVec3| #[trigger] row_addable(chunk, occlusion, longer, f, v1, n1, n3, c)
        == row_addable(chunk, occlusion, faces, f, v1, n1, n3, c) by {
        if n1 != n3 {
            assert forall|v: IVec3| #![trigger in_box(n1, n3, v)] joinable(chunk, occlusion, longer, f, v1, v) == joinable(
                chunk,
                occlusion,
                faces,
                f,
                v1,
                v,
            ) by {}
        }
    }
}

/// The faces of `side` that are drawn are each covered by exactly one of `faces`.
pub open spec fn partitions_side(
    chunk: Chunk,
    occlusion: ChunkFacesOcclusion,
    side: Side,
    faces: Seq<VoxelFace>,
) -> bool {
    &&& forall|v: IVec3|
        visible(chunk, occlusion, side, v) ==> exists|f: int|
            0 <= f < faces.len() && faces[f].side == side && #[trigger] covers(faces[f], v)
    &&& forall|f: int, g: int, v: IVec3|
        0 <= f < faces.len() && 0 <= g < faces.len() && f != g && faces[f].side == side
            && faces[g].side == side && #[trigger] covers(faces[f], v) && #[trigger] covers(
            faces[g],
            v,
        ) ==> false
}

/// The bookkeeping of the walk over one side: `owner[i]` is the face that covers voxel `i`, or
/// `-1`, and a voxel is merged exactly when it has an owner.
pub open spec fn owner_ok(
    merged: Seq<bool>,
    owner: Seq<int>,
    faces: Seq<VoxelFace>,
    start: int,
    side: Side,
) -> bool {
    &&& merged.len() == BUFFER_SIZE
    &&& owner.len() == BUFFER_SIZE
    &&& 0 <= start <= faces.len()
    &&& forall|i: int| 0 <= i < BUFFER_SIZE ==> (#[trigger] merged[i] <==> owner[i] >= 0)
    &&& forall|i: int|
        0 <= i < BUFFER_SIZE && #[trigger] owner[i] >= 0 ==> start <= owner[i] < faces.len()
            && covers(faces[owner[i]], voxel_at(i))
    &&& forall|f: int, v: IVec3|
        start <= f < faces.len() && #[trigger] covers(faces[f], v) ==> in_bounds(v)
            && owner[index_of(v)] == f
    &&& forall|f: int| start <= f < faces.len() ==> (#[trigger] faces[f]).side == side
}

pub(crate) proof fn lemma_rect_corner(v1: IVec3, v2: IVec3, v3: IVec3, b: IVec3, c: IVec3, hh: int)
    requires
        unit_axis(b),
        unit_axis(c),
        component(b) != component(c),
        in_bounds(v1),
        in_bounds(v2),
        in_bounds(v3),
        moved(v1, c, v2),
        hh >= 0,
        comp_of(v3, third(b, c)) == comp_of(v1, third(b, c)),
        coord(v3, b) == coord(v1, b) + hh,
        coord(v3, c) == coord(v2, c),
    ensures
        walk_corners(v1, v2, v3, b, c),
        forall|v: IVec3|
            #![trigger in_box(v1, v3, v)]
            in_box(v1, v3, v) <==> in_rect(v1, b, c, coord(v2, c) - coord(v1, c), hh, v),
{
    assert(comp_of(v2, third(b, c)) == comp_of(v1, third(b, c)));
    assert(coord(v2, b) == coord(v1, b));
    assert forall|i: int| 0 <= i < 3 && i != component(b) implies comp_of(v3, i) == comp_of(v2, i) by {
        if i == component(c) {
        } else {
            assert(i == third(b, c));
        }
    }
    assert forall|v: IVec3| #![trigger in_box(v1, v3, v)]
        in_box(v1, v3, v) <==> in_rect(v1, b, c, coord(v2, c) - coord(v1, c), hh, v) by {
        lemma_rect_box(v1, v2, v3, b, c, v);
    }
}

pub(crate) proof fn lemma_box_in_bounds(p: IVec3, q: IVec3, v: IVec3)
    requires
        in_bounds(p),
        in_bounds(q),
        in_box(p, q, v),
    ensures
        in_bounds(v),
{
}

proof fn lemma_face_added(
    chunk: Chunk,
    occlusion: ChunkFacesOcclusion,
    old_merged: Seq<bool>,
    old_owner: Seq<int>,
    merged: Seq<bool>,
    owner: Seq<int>,
    faces: Seq<VoxelFace>,
    face: VoxelFace,
    start: int,
    side: Side,
    marked: Set<int>,
    walked: Seq<IVec3>,
)
    requires
        merge_inputs_ok(chunk, occlusion),
        owner_ok(old_merged, old_owner, faces, start, side),
        merged.len() == BUFFER_SIZE,
        owner.len() == BUFFER_SIZE,
        face.side == side,
        walk_corners(
            face.vertices[0],
            face.vertices[1],
            face.vertices[2],
            walk_axes(side).1,
            walk_axes(side).2,
        ),
        face.vertices[3] == vadd(face.vertices[0], vsub(face.vertices[2], face.vertices[1])),
        face.kind == chunk.kinds.at(face.vertices[0]),
        face.light_intensity == reflected(chunk.lights, face.vertices[0], side),
        visible(chunk, occlusion, side, face.vertices[0]),
        !old_merged[index_of(face.vertices[0])],
        forall|v: IVec3|
            #![trigger in_box(face.vertices[0], face.vertices[2], v)]
            in_box(face.vertices[0], face.vertices[2], v) && v != face.vertices[0] ==> can_merge(
                chunk,
                occlusion,
                old_merged,
                side,
                face.vertices[0],
                v,
            ),
        forall|v: IVec3|
            #[trigger] walked.contains(v) <==> in_box(face.vertices[0], face.vertices[2], v),
        forall|q: int| 0 <= q < walked.len() ==> marked.contains(index_of(#[trigger] walked[q])),
        forall|i: int|
            #[trigger] marked.contains(i) ==> 0 <= i < BUFFER_SIZE && in_box(
                face.vertices[0],
                face.vertices[2],
                voxel_at(i),
            ),
        forall|i: int|
            0 <= i < BUFFER_SIZE ==> #[trigger] merged[i] == (old_merged[i] || marked.contains(i)),
        forall|i: int|
            0 <= i < BUFFER_SIZE ==> #[trigger] owner[i] == (if marked.contains(i) {
                faces.len() as int
            } else {
                old_owner[i]
            }),
    ensures
        owner_ok(merged, owner, faces.push(face), start, side),
        face_ok(chunk, occlusion, face),
        merged[index_of(face.vertices[0])],
        forall|i: int| 0 <= i < BUFFER_SIZE && old_merged[i] ==> #[trigger] merged[i],
{
    let v1 = face.vertices[0];
    let v3 = face.vertices[2];
    let nf = faces.push(face);
    let fi = faces.len() as int;
    assert forall|v: IVec3| #![trigger in_box(v1, v3, v)] in_box(v1, v3, v) implies in_bounds(v)
        && marked.contains(index_of(v)) by {
        lemma_box_in_bounds(v1, v3, v);
        assert(walked.contains(v));
        let q = walked.index_of(v);
        assert(walked[q] == v);
    }
    assert(in_box(v1, v3, v1));
    chunk::lemma_index_of(v1);
    assert forall|i: int| 0 <= i < BUFFER_SIZE && #[trigger] owner[i] >= 0 implies start <= owner[i]
        < nf.len() && covers(nf[owner[i]], voxel_at(i)) by {
        if marked.contains(i) {
            assert(nf[fi] == face);
        } else {
            assert(nf[old_owner[i]] == faces[old_owner[i]]);
        }
    }
    assert forall|f: int, v: IVec3| start <= f < nf.len() && #[trigger] covers(nf[f], v) implies in_bounds(
        v,
    ) && owner[index_of(v)] == f by {
        if f == fi {
            assert(nf[f] == face);
            assert(in_box(v1, v3, v));
        } else {
            assert(nf[f] == faces[f]);
            assert(covers(faces[f], v));
            chunk::lemma_index_of(v);
            if marked.contains(index_of(v)) {
                assert(in_box(v1, v3, voxel_at(index_of(v))));
                assert(old_merged[index_of(v)]);
                if v != v1 {
                    assert(can_merge(chunk, occlusion, old_merged, side, v1, v));
                }
            }
        }
    }
    assert forall|f: int| start <= f < nf.len() implies (#[trigger] nf[f]).side == side by {
        if f < fi {
            assert(nf[f] == faces[f]);
        }
    }
    assert forall|v: IVec3| #![trigger covers(face, v)] covers(face, v) implies {
        &&& visible(chunk, occlusion, face.side, v)
        &&& chunk.kinds.at(v) == face.kind
        &&& reflected(chunk.lights, v, face.side) == face.light_intensity
    } by {
        if v != v1 {
            assert(can_merge(chunk, occlusion, old_merged, side, v1, v));
        }
    }
}

pub(crate) proof fn lemma_first_row(v1: IVec3, v2: IVec3, b: IVec3, c: IVec3, v: IVec3)
    requires
        unit_axis(b),
        unit_axis(c),
        component(b) != component(c),
        moved(v1, c, v2),
        in_rect(v1, b, c, coord(v2, c) - coord(v1, c), 0, v),
    ensures
        in_box(v1, v2, v),
{
    assert(on_line(v1, c, v)) by {
        assert forall|i: int| 0 <= i < 3 && i != component(c) implies #[trigger] comp_of(v, i)
            == comp_of(v1, i) by {
            if i == component(b) {
            } else {
                assert(i == third(b, c));
            }
        }
    }
    lemma_line_box(v1, c, v2, v);
}

/// The row from `n1` to `n3` along `c` can be added to the face started at `v1`: when it is one
/// voxel long, nothing along `c` can merge with `n1`; otherwise every face of it can merge with
/// `v1`.
spec fn row_addable_m(
    chunk: Chunk,
    occlusion: ChunkFacesOcclusion,
    merged: Seq<bool>,
    side: Side,
    v1: IVec3,
    n1: IVec3,
    n3: IVec3,
    c: IVec3,
) -> bool {
    if n1 == n3 {
        !can_merge(chunk, occlusion, merged, side, n1, vadd(n1, c))
    } else {
        forall|v: IVec3| #![trigger in_box(n1, n3, v)] in_box(n1, n3, v) ==> can_merge(chunk, occlusion, merged, side, v1, v)
    }
}

/// A search along a row that did not end at the row's far end shows the row cannot be added.
proof fn lemma_row_stop(
    chunk: Chunk,
    occlusion: ChunkFacesOcclusion,
    merged: Seq<bool>,
    side: Side,
    v1: IVec3,
    nb: IVec3,
    r: IVec3,
    v3: IVec3,
    c: IVec3,
)
    requires
        unit_axis(c),
        moved(nb, c, r),
        moved(nb, c, v3),
        crate::math::within_cube(r, 0, 15),
        crate::math::within_cube(v3, 0, 15),
        can_merge(chunk, occlusion, merged, side, v1, nb),
        forall|v: IVec3|
            #![trigger in_box(nb, r, v)]
            in_box(nb, r, v) && v != nb ==> can_merge(chunk, occlusion, merged, side, nb, v),
        !can_merge(chunk, occlusion, merged, side, nb, vadd(r, c)) && !(in_box(nb, r, v3) && v3 != nb),
        r != v3,
    ensures
        !row_addable_m(chunk, occlusion, merged, side, v1, nb, v3, c),
{
    lemma_step(r, c);
    lemma_step(nb, c);
    lemma_line_box(nb, c, r, r);
    lemma_line_box(nb, c, v3, v3);
    if nb == v3 {
        lemma_line_box(nb, c, r, vadd(nb, c));
        if coord(r, c) == coord(nb, c) {
            lemma_line_point(nb, c, r, nb);
        }
        assert(on_line(nb, c, vadd(nb, c))) by {
            assert forall|i: int| 0 <= i < 3 && i != component(c) implies #[trigger] comp_of(vadd(nb, c), i)
                == comp_of(nb, i) by {}
        }
        assert(in_box(nb, r, vadd(nb, c)));
    } else {
        lemma_line_box(nb, c, r, v3);
        lemma_line_box(nb, c, v3, vadd(r, c));
        assert(on_line(nb, c, vadd(r, c))) by {
            assert forall|i: int| 0 <= i < 3 && i != component(c) implies #[trigger] comp_of(vadd(r, c), i)
                == comp_of(nb, i) by {
                assert(comp_of(vadd(r, c), i) == comp_of(r, i));
            }
        }
        if row_addable_m(chunk, occlusion, merged, side, v1, nb, v3, c) {
            assert(in_box(nb, v3, vadd(r, c)));
            assert(can_merge(chunk, occlusion, merged, side, v1, vadd(r, c)));
        }
    }
}

/// From a voxel whose face starts a new merged face, finds the second and third corners of
/// the largest rectangle the walk can merge: first the furthest voxel along the current axis,
/// then as many full rows as possible along the perpendicular axis.
#[verifier::rlimit(60)]
fn find_face_corners(
    voxel: IVec3,
    walk_axis: (IVec3, IVec3, IVec3),
    merged: &Vec<bool>,
    side: Side,
    chunk: &Chunk,
    occlusion: &ChunkFacesOcclusion,
) -> (r: (IVec3, IVec3))
    requires
        merge_inputs_ok(*chunk, *occlusion),
        valid_axes(walk_axis),
        merged@.len() == BUFFER_SIZE,
        in_bounds(voxel),
    ensures
        walk_corners(voxel, r.0, r.1, walk_axis.1, walk_axis.2),
        forall|v: IVec3|
            #![trigger in_box(voxel, r.1, v)]
            in_box(voxel, r.1, v) && v != voxel ==> can_merge(
                *chunk,
                *occlusion,
                merged@,
                side,
                voxel,
                v,
            ),
        !can_merge(*chunk, *occlusion, merged@, side, voxel, vadd(r.0, walk_axis.2)),
        forall|n: IVec3|
            #![trigger row_addable_m(*chunk, *occlusion, merged@, side, voxel, n, vadd(r.1, walk_axis.1), walk_axis.2)]
            on_line(voxel, walk_axis.1, n) && coord(n, walk_axis.1) == coord(r.1, walk_axis.1) + 1
                ==> !(can_merge(*chunk, *occlusion, merged@, side, voxel, n) && row_addable_m(
                *chunk,
                *occlusion,
                merged@,
                side,
                voxel,
                n,
                vadd(r.1, walk_axis.1),
                walk_axis.2,
            )),
{
    let current_axis = walk_axis.2;
    let perpendicular_axis = walk_axis.1;
    let ghost b = perpendicular_axis;
    let ghost c = current_axis;

    // Finds the furthest equal voxel on current axis
    let v1 = voxel;
    let v2 = find_furthest_eq_voxel(voxel, current_axis, merged, side, chunk, occlusion, None);
    let ghost w = coord(v2, c) - coord(v1, c);
    proof {
        assert forall|v: IVec3|
            #![trigger in_rect(v1, b, c, w, 0, v)]
            in_rect(v1, b, c, w, 0, v) && v != v1 implies can_merge(
            *chunk,
            *occlusion,
            merged@,
            side,
            v1,
            v,
        ) by {
            lemma_first_row(v1, v2, b, c, v);
        }
    }

    // Finds the furthest equal voxel on perpendicular axis
    let mut v3 = v2.plus(perpendicular_axis);
    let mut next_begin_voxel = v1.plus(perpendicular_axis);
    proof {
        lemma_step(v2, b);
        lemma_step(v1, b);
        assert(comp_of(v2, third(b, c)) == comp_of(v1, third(b, c)));
        assert(coord(v2, b) == coord(v1, b));
    }
    let ghost mut h: int = 1;
    // The loop walks all the way up on current_axis and than stepping one unit at time on
    // perpendicular_axis, finding the next vertex (v3) which is able to merge with v1 and v2.
    while should_merge(voxel, next_begin_voxel, chunk, merged, side, occlusion)
        invariant
            merge_inputs_ok(*chunk, *occlusion),
            valid_axes(walk_axis),
            b == walk_axis.1,
            c == walk_axis.2,
            perpendicular_axis == b,
            current_axis == c,
            merged@.len() == BUFFER_SIZE,
            voxel == v1,
            in_bounds(v1),
            in_bounds(v2),
            moved(v1, c, v2),
            w == coord(v2, c) - coord(v1, c),
            1 <= h <= 16,
            comp_of(v3, third(b, c)) == comp_of(v1, third(b, c)),
            coord(v3, b) == coord(v1, b) + h,
            coord(v3, c) == coord(v2, c),
            comp_of(next_begin_voxel, third(b, c)) == comp_of(v1, third(b, c)),
            coord(next_begin_voxel, b) == coord(v1, b) + h,
            coord(next_begin_voxel, c) == coord(v1, c),
            crate::math::within_cube(v3, -1, 16),
            crate::math::within_cube(next_begin_voxel, -1, 16),
            forall|v: IVec3|
                #![trigger in_rect(v1, b, c, w, h - 1, v)]
                in_rect(v1, b, c, w, h - 1, v) && v != v1 ==> can_merge(
                    *chunk,
                    *occlusion,
                    merged@,
                    side,
                    v1,
                    v,
                ),
            !can_merge(*chunk, *occlusion, merged@, side, v1, vadd(v2, c)),
        ensures
            1 <= h <= 16,
            comp_of(v3, third(b, c)) == comp_of(v1, third(b, c)),
            coord(v3, b) == coord(v1, b) + h,
            coord(v3, c) == coord(v2, c),
            comp_of(next_begin_voxel, third(b, c)) == comp_of(v1, third(b, c)),
            coord(next_begin_voxel, b) == coord(v1, b) + h,
            coord(next_begin_voxel, c) == coord(v1, c),
            crate::math::within_cube(v3, -1, 16),
            crate::math::within_cube(next_begin_voxel, -1, 16),
            forall|v: IVec3|
                #![trigger in_rect(v1, b, c, w, h - 1, v)]
                in_rect(v1, b, c, w, h - 1, v) && v != v1 ==> can_merge(
                    *chunk,
                    *occlusion,
                    merged@,
                    side,
                    v1,
                    v,
                ),
            !can_merge(*chunk, *occlusion, merged@, side, v1, vadd(v2, c)),
            !(can_merge(*chunk, *occlusion, merged@, side, v1, next_begin_voxel) && row_addable_m(
                *chunk,
                *occlusion,
                merged@,
                side,
                v1,
                next_begin_voxel,
                v3,
                c,
            )),
        decreases 16 - h,
    {
        let furthest = find_furthest_eq_voxel(
            next_begin_voxel,
            current_axis,
            merged,
            side,
            chunk,
            occlusion,
            Some(v3),
        );

        if furthest == v3 {
            proof {
                assert forall|v: IVec3|
                    #![trigger in_rect(v1, b, c, w, h, v)]
                    in_rect(v1, b, c, w, h, v) && v != v1 implies can_merge(
                    *chunk,
                    *occlusion,
                    merged@,
                    side,
                    v1,
                    v,
                ) by {
                    if coord(v, b) - coord(v1, b) == h {
                        lemma_row(v1, b, c, w, h, next_begin_voxel, v3, v);
                        if v != next_begin_voxel {
                            assert(in_box(next_begin_voxel, furthest, v));
                        }
                    } else {
                        assert(in_rect(v1, b, c, w, h - 1, v));
                    }
                }
            }
            let ghost old_v3 = v3;
            let ghost old_nb = next_begin_voxel;
            v3 = v3.plus(perpendicular_axis);
            next_begin_voxel = next_begin_voxel.plus(perpendicular_axis);
            proof {
                lemma_step(old_v3, b);
                lemma_step(old_nb, b);
                h = h + 1;
            }
        } else {
            proof {
                if can_merge(*chunk, *occlusion, merged@, side, v1, next_begin_voxel) {
                    assert(in_bounds(next_begin_voxel));
                    assert(moved(next_begin_voxel, c, v3));
                    if in_bounds(v3) {
                        lemma_row_stop(
                            *chunk,
                            *occlusion,
                            merged@,
                            side,
                            v1,
                            next_begin_voxel,
                            furthest,
                            v3,
                            c,
                        );
                    }
                }
            }
            break;
        }
    }

    // At this point, v3 is out-of-bounds or points to a voxel which can't be merged, so step-back one unit
    let ghost before_v3 = v3;
    v3 = v3.minus(perpendicular_axis);
    proof {
        lemma_unstep(before_v3, b);
        if v3 != v1 {
            assert(in_rect(v1, b, c, w, h - 1, v3));
        }
        lemma_rect_corner(v1, v2, v3, b, c, h - 1);
        assert forall|n: IVec3|
            #![trigger row_addable_m(*chunk, *occlusion, merged@, side, v1, n, vadd(v3, b), c)]
            on_line(v1, b, n) && coord(n, b) == coord(v3, b) + 1 implies !(can_merge(
            *chunk,
            *occlusion,
            merged@,
            side,
            v1,
            n,
        ) && row_addable_m(*chunk, *occlusion, merged@, side, v1, n, vadd(v3, b), c)) by {
            assert(comp_of(n, component(c)) == comp_of(v1, component(c)));
            assert(comp_of(n, third(b, c)) == comp_of(v1, third(b, c)));
            lemma_same_point(b, c, n, next_begin_voxel);
        }
    }
    (v2, v3)
}

/// A voxel on row `h` of the rectangle lies on the line from `nb` to `q`.
pub(crate) proof fn lemma_row(v1: IVec3, b: IVec3, c: IVec3, w: int, h: int, nb: IVec3, q: IVec3, v: IVec3)
    requires
        unit_axis(b),
        unit_axis(c),
        component(b) != component(c),
        w >= 0,
        comp_of(nb, third(b, c)) == comp_of(v1, third(b, c)),
        coord(nb, b) == coord(v1, b) + h,
        coord(nb, c) == coord(v1, c),
        comp_of(q, third(b, c)) == comp_of(v1, third(b, c)),
        coord(q, b) == coord(v1, b) + h,
        coord(q, c) == coord(v1, c) + w,
        in_rect(v1, b, c, w, h, v),
        coord(v, b) - coord(v1, b) == h,
    ensures
        moved(nb, c, q),
        in_box(nb, q, v),
{
    assert forall|i: int| 0 <= i < 3 && i != component(c) implies comp_of(q, i) == comp_of(nb, i) by {
        if i == component(b) {
        } else {
            assert(i == third(b, c));
        }
    }
    assert(on_line(nb, c, v)) by {
        assert forall|i: int| 0 <= i < 3 && i != component(c) implies #[trigger] comp_of(v, i)
            == comp_of(nb, i) by {
            if i == component(b) {
            } else {
                assert(i == third(b, c));
            }
        }
    }
    lemma_line_box(nb, c, q, v);
}

/// Flags as merged every voxel in the walked list.
fn mark_walked(merged: &mut Vec<bool>, walked: &Vec<IVec3>, v1: IVec3, v3: IVec3)
    requires
        old(merged)@.len() == BUFFER_SIZE,
        in_bounds(v1),
        in_bounds(v3),
        forall|v: IVec3| #[trigger] walked@.contains(v) <==> in_box(v1, v3, v),
    ensures
        final(merged)@.len() == BUFFER_SIZE,
        forall|i: int|
            0 <= i < BUFFER_SIZE ==> #[trigger] final(merged)@[i] == (old(merged)@[i] || in_box(
                v1,
                v3,
                voxel_at(i),
            )),
{
    let ghost old_merged = merged@;
    proof {
        assert forall|q: int| 0 <= q < walked@.len() implies in_bounds(#[trigger] walked@[q])
            && 0 <= index_of(walked@[q]) < BUFFER_SIZE && voxel_at(index_of(walked@[q]))
            == walked@[q] by {
            assert(walked@.contains(walked@[q]));
            lemma_box_in_bounds(v1, v3, walked@[q]);
            chunk::lemma_index_of(walked@[q]);
        }
    }
    let mut m: usize = 0;
    while m < walked.len()
        invariant
            merged@.len() == BUFFER_SIZE,
            in_bounds(v1),
            in_bounds(v3),
            m <= walked@.len(),
            forall|v: IVec3| #[trigger] walked@.contains(v) <==> in_box(v1, v3, v),
            forall|q: int|
                0 <= q < walked@.len() ==> in_bounds(#[trigger] walked@[q]) && 0 <= index_of(
                    walked@[q],
                ) < BUFFER_SIZE && voxel_at(index_of(walked@[q])) == walked@[q],
            forall|q: int| 0 <= q < m ==> merged@[index_of(#[trigger] walked@[q])],
            forall|i: int|
                0 <= i < BUFFER_SIZE && #[trigger] merged@[i] ==> old_merged[i] || in_box(
                    v1,
                    v3,
                    voxel_at(i),
                ),
            forall|i: int| 0 <= i < BUFFER_SIZE && old_merged[i] ==> #[trigger] merged@[i],
        decreases walked@.len() - m,
    {
        let v = walked[m];
        proof {
            chunk::lemma_index_of(v);
        }
        let idx = chunk::to_index(v);
        merged.set(idx, true);
        proof {
            assert(walked@.contains(v));
        }
        m = m + 1;
    }
    proof {
        assert forall|i: int| 0 <= i < BUFFER_SIZE implies #[trigger] merged@[i] == (old_merged[i]
            || in_box(v1, v3, voxel_at(i))) by {
            if in_box(v1, v3, voxel_at(i)) {
                let v = voxel_at(i);
                chunk::lemma_voxel_at(i);
                assert(walked@.contains(v));
                let q = walked@.index_of(v);
                assert(merged@[index_of(walked@[q])]);
            }
        }
    }
}

/// The face the walk of a side just built, from the first voxel still to merge, is the greedy
/// one, in terms of the faces built before it.
#[verifier::rlimit(40)]
proof fn lemma_new_merge_greedy(
    chunk: Chunk,
    occlusion: ChunkFacesOcclusion,
    old_merged: Seq<bool>,
    faces: Seq<VoxelFace>,
    start: int,
    fi: int,
    k: int,
)
    requires
        0 <= start <= fi,
        faces.len() == fi + 1,
        0 <= k < BUFFER_SIZE,
        old_merged.len() == BUFFER_SIZE,
        faces[fi].vertices[0] == merger_at(faces[fi].side, k),
        forall|g: int| 0 <= g < start ==> #[trigger] faces[g].side != faces[fi].side,
        forall|g: int| start <= g < fi ==> #[trigger] faces[g].side == faces[fi].side,
        forall|v: IVec3|
            in_bounds(v) ==> (#[trigger] old_merged[index_of(v)] <==> exists|g: int|
                start <= g < fi && #[trigger] covers(faces[g], v)),
        forall|m: int|
            0 <= m < k && visible(chunk, occlusion, faces[fi].side, #[trigger] merger_at(faces[fi].side, m))
                ==> old_merged[index_of(merger_at(faces[fi].side, m))],
        !can_merge(
            chunk,
            occlusion,
            old_merged,
            faces[fi].side,
            faces[fi].vertices[0],
            vadd(faces[fi].vertices[1], walk_axes(faces[fi].side).2),
        ),
        forall|n: IVec3|
            #![trigger row_addable_m(chunk, occlusion, old_merged, faces[fi].side, faces[fi].vertices[0], n, vadd(faces[fi].vertices[2], walk_axes(faces[fi].side).1), walk_axes(faces[fi].side).2)]
            on_line(faces[fi].vertices[0], walk_axes(faces[fi].side).1, n) && coord(
                n,
                walk_axes(faces[fi].side).1,
            ) == coord(faces[fi].vertices[2], walk_axes(faces[fi].side).1) + 1 ==> !(can_merge(
                chunk,
                occlusion,
                old_merged,
                faces[fi].side,
                faces[fi].vertices[0],
                n,
            ) && row_addable_m(
                chunk,
                occlusion,
                old_merged,
                faces[fi].side,
                faces[fi].vertices[0],
                n,
                vadd(faces[fi].vertices[2], walk_axes(faces[fi].side).1),
                walk_axes(faces[fi].side).2,
            )),
    ensures
        greedy_merge(chunk, occlusion, faces, fi),
{
    let side = faces[fi].side;
    let b = walk_axes(side).1;
    let c = walk_axes(side).2;
    let v1 = faces[fi].vertices[0];
    let v2 = faces[fi].vertices[1];
    let v3 = faces[fi].vertices[2];
    assert forall|v: IVec3| in_bounds(v) implies (taken(faces, fi, v) <==> exists|g: int|
        start <= g < fi && #[trigger] covers(faces[g], v)) by {
        if taken(faces, fi, v) {
            let g = choose|g: int| 0 <= g < fi && faces[g].side == faces[fi].side && #[trigger] covers(faces[g], v);
            assert(g >= start);
        }
    }
    assert forall|base: IVec3, v: IVec3| #[trigger] can_merge(chunk, occlusion, old_merged, side, base, v) == joinable(
        chunk,
        occlusion,
        faces,
        fi,
        base,
        v,
    ) by {}
    lemma_merger_index_at(side, k);
    assert forall|v: IVec3|
        #![trigger visible(chunk, occlusion, side, v)]
        visible(chunk, occlusion, side, v) && merger_index(side, v) < merger_index(side, v1) implies taken(
        faces,
        fi,
        v,
    ) by {
        lemma_merger_covers(side, v);
        let m = merger_index(side, v);
        assert(visible(chunk, occlusion, side, merger_at(side, m)));
        assert(old_merged[index_of(v)]);
    }
    assert(!joinable(chunk, occlusion, faces, fi, v1, vadd(v2, c))) by {
        assert(!can_merge(chunk, occlusion, old_merged, side, v1, vadd(v2, c)));
    }
    assert forall|n: IVec3|
        #![trigger row_addable(chunk, occlusion, faces, fi, v1, n, vadd(v3, b), c)]
        on_line(v1, b, n) && coord(n, b) == coord(v3, b) + 1 implies !(joinable(
        chunk,
        occlusion,
        faces,
        fi,
        v1,
        n,
    ) && row_addable(chunk, occlusion, faces, fi, v1, n, vadd(v3, b), c)) by {
        let n3 = vadd(v3, b);
        assert(!(can_merge(chunk, occlusion, old_merged, side, v1, n) && row_addable_m(
            chunk,
            occlusion,
            old_merged,
            side,
            v1,
            n,
            n3,
            c,
        )));
        assert(can_merge(chunk, occlusion, old_merged, side, v1, n) == joinable(chunk, occlusion, faces, fi, v1, n));
        if n == n3 {
            assert(can_merge(chunk, occlusion, old_merged, side, n, vadd(n, c)) == joinable(
                chunk,
                occlusion,
                faces,
                fi,
                n,
                vadd(n, c),
            ));
        } else if row_addable(chunk, occlusion, faces, fi, v1, n, n3, c) {
            assert forall|v: IVec3| #![trigger in_box(n, n3, v)] in_box(n, n3, v) implies can_merge(
                chunk,
                occlusion,
                old_merged,
                side,
                v1,
                v,
            ) by {
                assert(joinable(chunk, occlusion, faces, fi, v1, v));
            }
            assert(row_addable_m(chunk, occlusion, old_merged, side, v1, n, n3, c));
        }
    }
}

/// Walks the faces of one side and appends the merged faces to `faces`.
#[verifier::rlimit(100)]
#[verifier::spinoff_prover]
fn merge_side(
    occlusion: &ChunkFacesOcclusion,
    chunk: &Chunk,
    side: Side,
    faces: &mut Vec<VoxelFace>,
)
    requires
        merge_inputs_ok(*chunk, *occlusion),
        forall|g: int| 0 <= g < old(faces)@.len() ==> #[trigger] old(faces)@[g].side != side,
    ensures
        final(faces)@.len() >= old(faces)@.len(),
        final(faces)@.subrange(0, old(faces)@.len() as int) == old(faces)@,
        forall|f: int|
            old(faces)@.len() <= f < final(faces)@.len() ==> #[trigger] greedy_merge(
                *chunk,
                *occlusion,
                final(faces)@,
                f,
            ),
        forall|f: int|
            old(faces)@.len() <= f < final(faces)@.len() ==> (#[trigger] final(faces)@[f]).side
                == side && face_ok(*chunk, *occlusion, final(faces)@[f]),
        forall|v: IVec3|
            visible(*chunk, *occlusion, side, v) ==> exists|f: int|
                old(faces)@.len() <= f < final(faces)@.len() && #[trigger] covers(
                    final(faces)@[f],
                    v,
                ),
        forall|f: int, g: int, v: IVec3|
            old(faces)@.len() <= f < final(faces)@.len() && old(faces)@.len() <= g
                < final(faces)@.len() && f != g && #[trigger] covers(final(faces)@[f], v)
                && #[trigger] covers(final(faces)@[g], v) ==> false,
{
    let ghost start = faces@.len() as int;
    let ghost first = faces@;
    let walk_axis = get_side_walk_axis(side);
    let order = merger_voxels(side);
    let mut merged: Vec<bool> = Vec::new();
    let mut i: usize = 0;
    while i < BUFFER_SIZE
        invariant
            i <= BUFFER_SIZE,
            merged@.len() == i,
            forall|k: int| 0 <= k < i ==> !merged@[k],
        decreases BUFFER_SIZE - i,
    {
        merged.push(false);
        i = i + 1;
    }
    let ghost mut owner: Seq<int> = Seq::new(BUFFER_SIZE as nat, |k: int| -1);

    let mut k: usize = 0;
    while k < BUFFER_SIZE
        invariant
            merge_inputs_ok(*chunk, *occlusion),
            walk_axis == walk_axes(side),
            valid_axes(walk_axis),
            order@.len() == BUFFER_SIZE,
            forall|m: int| 0 <= m < BUFFER_SIZE ==> #[trigger] order@[m] == merger_at(side, m),
            k <= BUFFER_SIZE,
            owner_ok(merged@, owner, faces@, start, side),
            faces@.subrange(0, start) == first,
            first.len() == start,
            forall|f: int| start <= f < faces@.len() ==> face_ok(*chunk, *occlusion, #[trigger] faces@[f]),
            forall|m: int|
                0 <= m < k && visible(*chunk, *occlusion, side, #[trigger] merger_at(side, m))
                    ==> merged@[index_of(merger_at(side, m))],
            forall|g: int| 0 <= g < start ==> #[trigger] first[g].side != side,
            forall|f: int|
                start <= f < faces@.len() ==> #[trigger] greedy_merge(*chunk, *occlusion, faces@, f),
        decreases BUFFER_SIZE - k,
    {
        let voxel = order[k];
        proof {
            lemma_merger_in_bounds(side, k as int);
            chunk::lemma_index_of(voxel);
        }
        let kind = chunk.kinds.get(voxel);
        if should_skip_voxel(&merged, voxel, side, kind, occlusion) {
            k = k + 1;
            continue;
        }
        let light_intensity = chunk.lights.get_face_reflected_intensity(voxel, side);
        let v1 = voxel;
        let (v2, v3) = find_face_corners(voxel, walk_axis, &merged, side, chunk, occlusion);

        // Flag walked voxels, making a perfect square from v1, v2 and v3, on the given axis.
        let walked = calc_walked_voxels(v1, v2, v3, walk_axis.1, walk_axis.2);
        let ghost old_merged = merged@;
        let ghost old_owner = owner;
        let ghost face_index = faces@.len() as int;
        mark_walked(&mut merged, &walked, v1, v3);
        let ghost marked = Set::new(|i: int| 0 <= i < BUFFER_SIZE && in_box(v1, v3, voxel_at(i)));
        proof {
            owner = Seq::new(
                BUFFER_SIZE as nat,
                |i: int|
                    if marked.contains(i) {
                        face_index
                    } else {
                        old_owner[i]
                    },
            );
            assert forall|q: int| 0 <= q < walked@.len() implies marked.contains(
                index_of(#[trigger] walked@[q]),
            ) by {
                assert(walked@.contains(walked@[q]));
                lemma_box_in_bounds(v1, v3, walked@[q]);
                chunk::lemma_index_of(walked@[q]);
            }
        }

        // v4 can be inferred com v1, v2 and v3
        let v4 = v1.plus(v3.minus(v2));

        let face = VoxelFace { vertices: [v1, v2, v3, v4], side, kind, light_intensity };
        proof {
            lemma_face_added(
                *chunk,
                *occlusion,
                old_merged,
                old_owner,
                merged@,
                owner,
                faces@,
                face,
                start,
                side,
                marked,
                walked@,
            );
        }
        let ghost prev_faces = faces@;
        faces.push(face);
        proof {
            assert(faces@.subrange(0, start) =~= first) by {
                assert(forall|f: int| 0 <= f < start ==> faces@[f] == prev_faces[f]);
                assert(prev_faces.subrange(0, start) == first);
            }
            assert forall|g: int| 0 <= g < face_index implies #[trigger] faces@[g] == prev_faces[g] by {}
            assert forall|g: int| 0 <= g < start implies #[trigger] faces@[g].side != side by {
                assert(faces@.subrange(0, start)[g] == faces@[g]);
            }
            assert forall|g: int| start <= g < face_index implies #[trigger] faces@[g].side == side by {
                assert(faces@[g] == prev_faces[g]);
            }
            assert forall|v: IVec3| in_bounds(v) implies (#[trigger] old_merged[index_of(v)] <==> exists|g: int|
                start <= g < face_index && #[trigger] covers(faces@[g], v)) by {
                chunk::lemma_index_of(v);
                if old_merged[index_of(v)] {
                    let g = old_owner[index_of(v)];
                    assert(covers(prev_faces[g], voxel_at(index_of(v))));
                    assert(covers(faces@[g], v));
                }
                if exists|g: int| start <= g < face_index && #[trigger] covers(faces@[g], v) {
                    let g = choose|g: int| start <= g < face_index && #[trigger] covers(faces@[g], v);
                    assert(covers(prev_faces[g], v));
                }
            }
            lemma_new_merge_greedy(*chunk, *occlusion, old_merged, faces@, start, face_index, k as int);
            assert forall|f: int| start <= f < faces@.len() implies #[trigger] greedy_merge(
                *chunk,
                *occlusion,
                faces@,
                f,
            ) by {
                if f < face_index {
                    lemma_greedy_merge_prefix(*chunk, *occlusion, prev_faces, faces@, f);
                }
            }
            assert forall|f: int| start <= f < faces@.len() implies face_ok(
                *chunk,
                *occlusion,
                #[trigger] faces@[f],
            ) by {
                if f < face_index {
                    assert(faces@[f] == prev_faces[f]);
                }
            }
            assert forall|q: int|
                0 <= q < k + 1 && visible(*chunk, *occlusion, side, #[trigger] merger_at(side, q))
                    implies merged@[index_of(merger_at(side, q))] by {
                lemma_merger_in_bounds(side, q);
                chunk::lemma_index_of(merger_at(side, q));
            }
        }
        k = k + 1;
    }
    proof {
        assert forall|v: IVec3|
            visible(*chunk, *occlusion, side, v) implies exists|f: int|
                start <= f < faces@.len() && #[trigger] covers(faces@[f], v) by {
            lemma_merger_covers(side, v);
            let q = merger_index(side, v);
            assert(visible(*chunk, *occlusion, side, merger_at(side, q)));
            chunk::lemma_index_of(v);
            let i = index_of(v);
            assert(merged@[i]);
            let f = owner[i];
            assert(covers(faces@[f], voxel_at(i)));
        }
        assert forall|f: int, g: int, v: IVec3|
            start <= f < faces@.len() && start <= g < faces@.len() && f != g && #[trigger] covers(
                faces@[f],
                v,
            ) && #[trigger] covers(faces@[g], v) implies false by {
        }
    }
}

/**
 Merge all faces which have the same voxel properties, like kind and lighting.

 The basic logic of function was inspired from [Greedy Mesh](https://0fps.net/2012/06/30/meshing-in-a-minecraft-game/).
 For each side, the voxels are walked in the order of [`merger_voxels`]; a face that is drawn
 and not merged yet starts a new face, which grows as far as possible along the current walk
 axis, then row by row along the perpendicular axis.

 **Returns** a list of merged [`VoxelFace`]: each drawn face of the chunk is covered by exactly
 one merged face of its side, every merged face covers only drawn faces of its kind and
 reflected light, and each face is the one the walk builds from the faces before it (see
 [`greedy_merge`]).
*/
pub fn merge(occlusion: ChunkFacesOcclusion, chunk: &Chunk) -> (r: Vec<VoxelFace>)
    requires
        merge_inputs_ok(*chunk, occlusion),
    ensures
        forall|f: int| 0 <= f < r@.len() ==> face_ok(*chunk, occlusion, #[trigger] r@[f]),
        forall|s: Side| #[trigger] partitions_side(*chunk, occlusion, s, r@),
        forall|f: int, g: int| 0 <= f < g < r@.len() ==> r@[f].side.idx() <= r@[g].side.idx(),
        forall|f: int| 0 <= f < r@.len() ==> #[trigger] greedy_merge(*chunk, occlusion, r@, f),
        forall|f: int| 0 <= f < r@.len() ==> face_winding(#[trigger] r@[f]),
{
    let mut faces_vertices: Vec<VoxelFace> = Vec::new();
    let mut k: usize = 0;
    while k < SIDE_COUNT
        invariant
            merge_inputs_ok(*chunk, occlusion),
            k <= SIDE_COUNT,
            forall|f: int|
                0 <= f < faces_vertices@.len() ==> face_ok(*chunk, occlusion, #[trigger] faces_vertices@[f])
                    && faces_vertices@[f].side.idx() < k,
            forall|f: int, g: int|
                0 <= f < g < faces_vertices@.len() ==> faces_vertices@[f].side.idx()
                    <= faces_vertices@[g].side.idx(),
            forall|s: Side| s.idx() < k ==> #[trigger] partitions_side(*chunk, occlusion, s, faces_vertices@),
            forall|f: int|
                0 <= f < faces_vertices@.len() ==> #[trigger] greedy_merge(
                    *chunk,
                    occlusion,
                    faces_vertices@,
                    f,
                ),
        decreases SIDE_COUNT - k,
    {
        let side = Side::from_index(k);
        let ghost before = faces_vertices@;
        merge_side(&occlusion, chunk, side, &mut faces_vertices);
        proof {
            let after = faces_vertices@;
            assert forall|f: int| 0 <= f < before.len() implies after[f] == before[f] by {
                assert(after.subrange(0, before.len() as int)[f] == after[f]);
            }
            assert forall|f: int| 0 <= f < after.len() implies #[trigger] greedy_merge(
                *chunk,
                occlusion,
                after,
                f,
            ) by {
                if f < before.len() {
                    lemma_greedy_merge_prefix(*chunk, occlusion, before, after, f);
                }
            }
            assert forall|s: Side| s.idx() < k + 1 implies #[trigger] partitions_side(
                *chunk,
                occlusion,
                s,
                after,
            ) by {
                if s.idx() < k {
                    assert(partitions_side(*chunk, occlusion, s, before));
                    assert forall|v: IVec3| visible(*chunk, occlusion, s, v) implies exists|f: int|
                        0 <= f < after.len() && after[f].side == s && #[trigger] covers(after[f], v) by {
                        let f = choose|f: int|
                            0 <= f < before.len() && before[f].side == s && #[trigger] covers(
                                before[f],
                                v,
                            );
                        assert(after[f] == before[f]);
                    }
                    assert forall|f: int, g: int, v: IVec3|
                        0 <= f < after.len() && 0 <= g < after.len() && f != g && after[f].side == s
                            && after[g].side == s && #[trigger] covers(after[f], v)
                            && #[trigger] covers(after[g], v) implies false by {
                        if f < before.len() && g < before.len() {
                            assert(after[f] == before[f]);
                            assert(after[g] == before[g]);
                        } else if f < before.len() {
                            assert(after[f] == before[f]);
                        } else if g < before.len() {
                            assert(after[g] == before[g]);
                        }
                    }
                } else {
                    assert(s == side);
                    assert forall|v: IVec3| visible(*chunk, occlusion, s, v) implies exists|f: int|
                        0 <= f < after.len() && after[f].side == s && #[trigger] covers(after[f], v) by {
                        let f = choose|f: int|
                            before.len() <= f < after.len() && #[trigger] covers(after[f], v);
                        assert(after[f].side == side);
                    }
                    assert forall|f: int, g: int, v: IVec3|
                        0 <= f < after.len() && 0 <= g < after.len() && f != g && after[f].side == s
                            && after[g].side == s && #[trigger] covers(after[f], v)
                            && #[trigger] covers(after[g], v) implies false by {
                        if f < before.len() {
                            assert(after[f] == before[f]);
                        } else if g < before.len() {
                            assert(after[g] == before[g]);
                        }
                    }
                }
            }
            assert forall|f: int, g: int| 0 <= f < g < after.len() implies after[f].side.idx()
                <= after[g].side.idx() by {
                if g < before.len() {
                    assert(after[f] == before[f]);
                    assert(after[g] == before[g]);
                } else if f < before.len() {
                    assert(after[f] == before[f]);
                }
            }
            assert forall|f: int| 0 <= f < after.len() implies face_ok(*chunk, occlusion, #[trigger] after[f])
                && after[f].side.idx() < k + 1 by {
                if f < before.len() {
                    assert(after[f] == before[f]);
                }
            }
        }
        k = k + 1;
    }
    proof {
        assert forall|s: Side| #[trigger] partitions_side(*chunk, occlusion, s, faces_vertices@) by {
            crate::voxel::lemma_side_index(s);
        }
    }
    proof {
        assert forall|f: int| 0 <= f < faces_vertices@.len() implies face_winding(#[trigger] faces_vertices@[f]) by {
            lemma_face_winding(*chunk, occlusion, faces_vertices@[f]);
        }
    }
    faces_vertices
}

} // verus!
