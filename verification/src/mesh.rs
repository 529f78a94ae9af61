use vstd::prelude::*;

use crate::chunk::{self, ChunkFacesOcclusion, ChunkKind, BUFFER_SIZE, in_bounds, index_of, voxel_at};
use crate::query;
use crate::faces_merger::{
    face_winding,
    unit_axis, component, comp_of, third, coord, moved, on_line, in_box, in_rect, walk_corners, covers, visible,
    positive, partitions_side, lemma_same_point, taken,
    lemma_step, lemma_unstep, lemma_line_box, lemma_line_point, lemma_rect_corner,
    lemma_box_in_bounds, lemma_first_row, lemma_row,
};
use crate::math::{IVec3, vadd, vsub, within_cube};
use crate::shaping::face_indices;
use crate::voxel::{Kind, Side, SIDE_COUNT, VoxelFace};
use crate::voxworld::Chunk;

verus! {

/// Computes the indices of a triangle list mesh of `vertex_count` vertices, four per face,
/// in counter clockwise order: `0 1 2 2 3 0` for each face.
pub fn compute_indices(vertex_count: usize) -> (r: Vec<u32>)
    requires
        vertex_count <= u32::MAX - 3,
    ensures
        r@ == face_indices((vertex_count as int + 3) / 4),
{
    crate::shaping::compute_indices(vertex_count)
}

/// The offset, inside a face, of the `j`-th wireframe index: the four edges `0 1`, `1 2`,
/// `2 3` and `3 0`.
pub open spec fn edge_index_offset(j: int) -> int {
    if j == 0 {
        0
    } else if j == 1 || j == 2 {
        1
    } else if j == 3 || j == 4 {
        2
    } else if j == 5 || j == 6 {
        3
    } else {
        0
    }
}

/// The wireframe indices of `face_count` faces of four vertices each.
pub open spec fn edge_indices(face_count: int) -> Seq<u32> {
    Seq::new((8 * face_count) as nat, |i: int| (4 * (i / 8) + edge_index_offset(i % 8)) as u32)
}

proof fn lemma_edge_slot(f: int, j: int)
    requires
        0 <= f,
        0 <= j < 8,
    ensures
        (8 * f + j) / 8 == f,
        (8 * f + j) % 8 == j,
{
    assert((8 * f + j) / 8 == f && (8 * f + j) % 8 == j) by (nonlinear_arith)
        requires
            0 <= f,
            0 <= j < 8,
    ;
}

/// Computes the indices of a line list drawing the edges of faces of four vertices each: a
/// buffer of `2 * vertex_count` zeros comes first, then `0 1 1 2 2 3 3 0` for each face.
pub fn compute_wireframe_indices(vertex_count: usize) -> (r: Vec<u32>)
    requires
        vertex_count <= 0x100_0000,
    ensures
        r@ == Seq::new((2 * vertex_count) as nat, |i: int| 0u32) + edge_indices(
            (vertex_count as int + 3) / 4,
        ),
{
    let index_count = vertex_count * 2;
    let mut res: Vec<u32> = Vec::new();
    let mut z: usize = 0;
    while z < index_count
        invariant
            z <= index_count,
            index_count == vertex_count * 2,
            res@ == Seq::new(z as nat, |i: int| 0u32),
        decreases index_count - z,
    {
        res.push(0);
        z = z + 1;
        proof {
            assert(res@ =~= Seq::new(z as nat, |i: int| 0u32));
        }
    }
    let ghost zeros = res@;
    let mut i: u32 = 0;
    let ghost mut f: int = 0;
    let n = vertex_count as u32;
    proof {
        assert(res@ =~= zeros + edge_indices(0));
    }
    while i < n
        invariant
            n == vertex_count,
            vertex_count <= 0x100_0000,
            zeros == Seq::new((2 * vertex_count) as nat, |i: int| 0u32),
            i == 4 * f,
            0 <= f,
            i < n + 4,
            res@ == zeros + edge_indices(f),
        decreases n + 4 - i,
    {
        res.push(i);
        res.push(i + 1);

        res.push(i + 1);
        res.push(i + 2);

        res.push(i + 2);
        res.push(i + 3);

        res.push(i + 3);
        res.push(i);

        proof {
            assert forall|k: int| 0 <= k < 8 * (f + 1) implies res@[zeros.len() + k] == #[trigger] edge_indices(
                f + 1,
            )[k] by {
                if k >= 8 * f {
                    lemma_edge_slot(f, k - 8 * f);
                } else {
                    assert(res@[zeros.len() + k] == edge_indices(f)[k]);
                }
            }
            assert(res@ =~= zeros + edge_indices(f + 1));
            f = f + 1;
        }
        i = i + 4;
    }
    proof {
        assert(f == (vertex_count as int + 3) / 4);
    }
    res
}

/// The axes [`merge_faces`] walks on each side: first the axis a face grows along, then the
/// axis along which rows are added to it.
pub open spec fn merge_axes(side: Side) -> (IVec3, IVec3) {
    let x = IVec3 { x: 1, y: 0, z: 0 };
    let y = IVec3 { x: 0, y: 1, z: 0 };
    let z = IVec3 { x: 0, y: 0, z: 1 };
    let nx = IVec3 { x: -1i32, y: 0, z: 0 };
    let nz = IVec3 { x: 0, y: 0, z: -1i32 };
    match side {
        Side::Right => (nz, y),
        Side::Left => (z, y),
        Side::Up => (x, nz),
        Side::Down => (x, z),
        Side::Front => (x, y),
        Side::Back => (nx, y),
    }
}

fn side_axis(side: Side) -> (r: (IVec3, IVec3))
    ensures
        r == merge_axes(side),
        unit_axis(r.0),
        unit_axis(r.1),
        component(r.0) != component(r.1),
{
    let x = IVec3 { x: 1, y: 0, z: 0 };
    let y = IVec3 { x: 0, y: 1, z: 0 };
    let z = IVec3 { x: 0, y: 0, z: 1 };
    let nx = IVec3 { x: -1, y: 0, z: 0 };
    let nz = IVec3 { x: 0, y: 0, z: -1 };
    match side {
        Side::Right => (nz, y),
        Side::Left => (z, y),
        Side::Up => (x, nz),
        Side::Down => (x, z),
        Side::Front => (x, y),
        Side::Back => (nx, y),
    }
}

/// Every face merged for meshing is wound as its side asks (see [`face_winding`]), and its
/// fourth vertex closes the rectangle.
pub proof fn lemma_merged_face_winding(chunk: Chunk, occlusion: ChunkFacesOcclusion, f: VoxelFace)
    requires
        merged_face_ok(chunk, occlusion, f),
    ensures
        face_winding(f),
        f.vertices[3].x == f.vertices[0].x + f.vertices[2].x - f.vertices[1].x,
        f.vertices[3].y == f.vertices[0].y + f.vertices[2].y - f.vertices[1].y,
        f.vertices[3].z == f.vertices[0].z + f.vertices[2].z - f.vertices[1].z,
{
    let v0 = f.vertices[0];
    let v1 = f.vertices[1];
    let v2 = f.vertices[2];
    assert(in_bounds(v0) && in_bounds(v1) && in_bounds(v2));
    assert(forall|i: int| 0 <= i < 3 && i != component(merge_axes(f.side).0) ==> comp_of(v1, i) == comp_of(v0, i));
    assert(forall|i: int| 0 <= i < 3 && i != component(merge_axes(f.side).1) ==> comp_of(v2, i) == comp_of(v1, i));
    assert(comp_of(v1, 0) == v1.x && comp_of(v1, 1) == v1.y && comp_of(v1, 2) == v1.z);
    assert(comp_of(v0, 0) == v0.x && comp_of(v0, 1) == v0.y && comp_of(v0, 2) == v0.z);
    assert(comp_of(v2, 0) == v2.x && comp_of(v2, 1) == v2.y && comp_of(v2, 2) == v2.z);
}

/// The face of `v` on `side` is drawn and was not merged yet.
pub open spec fn unmerged(
    kinds: ChunkKind,
    occlusion: ChunkFacesOcclusion,
    merged: Seq<bool>,
    side: Side,
    v: IVec3,
) -> bool {
    &&& in_bounds(v)
    &&& !kinds.at(v).empty()
    &&& !merged[index_of(v)]
    &&& !occlusion.at(v).occluded(side.idx())
}

/// The face of `v` on `side` is drawn, was not merged yet and is of the given kind.
pub open spec fn joins(
    kinds: ChunkKind,
    occlusion: ChunkFacesOcclusion,
    merged: Seq<bool>,
    side: Side,
    kind: Kind,
    v: IVec3,
) -> bool {
    unmerged(kinds, occlusion, merged, side, v) && kinds.at(v) == kind
}

/// Checks if voxel is out of bounds, or is empty or is already merged or its face is occluded.
fn should_skip_voxel(
    merged: &Vec<bool>,
    voxel: IVec3,
    side: Side,
    kinds: &ChunkKind,
    occlusion: &ChunkFacesOcclusion,
) -> (r: bool)
    requires
        merged@.len() == BUFFER_SIZE,
        kinds.wf(),
        occlusion.wf(),
    ensures
        r == !unmerged(*kinds, *occlusion, merged@, side, voxel),
{
    !chunk::is_within_bounds(voxel) || kinds.get(voxel).is_empty() || merged[chunk::to_index(voxel)]
        || occlusion.get(voxel).is_occluded(side)
}

/// Finds the furthest voxel from `begin`, stepping along `step`, whose face is drawn, not
/// merged yet and of the kind of `begin`.
fn find_furthest_eq_voxel(
    begin: IVec3,
    step: IVec3,
    merged: &Vec<bool>,
    side: Side,
    kinds: &ChunkKind,
    occlusion: &ChunkFacesOcclusion,
) -> (r: IVec3)
    requires
        merged@.len() == BUFFER_SIZE,
        kinds.wf(),
        occlusion.wf(),
        in_bounds(begin),
        unit_axis(step),
    ensures
        in_bounds(r),
        moved(begin, step, r),
        forall|v: IVec3|
            #![trigger in_box(begin, r, v)]
            in_box(begin, r, v) && v != begin ==> unmerged(*kinds, *occlusion, merged@, side, v)
                && kinds.at(v) == kinds.at(begin),
        !unmerged(*kinds, *occlusion, merged@, side, vadd(begin, step)) ==> r == begin,
        !joins(*kinds, *occlusion, merged@, side, kinds.at(begin), vadd(r, step)),
{
    let ghost cb = coord(begin, step);
    let kind = kinds.get(begin);
    let mut next_voxel = begin.plus(step);
    proof {
        lemma_step(begin, step);
    }
    let ghost mut n: int = 1;
    while !should_skip_voxel(merged, next_voxel, side, kinds, occlusion) && kinds.get(next_voxel)
        == kind
        invariant
            merged@.len() == BUFFER_SIZE,
            kinds.wf(),
            occlusion.wf(),
            in_bounds(begin),
            unit_axis(step),
            kind == kinds.at(begin),
            cb == coord(begin, step),
            1 <= n <= 16,
            on_line(begin, step, next_voxel),
            coord(next_voxel, step) == cb + n,
            within_cube(next_voxel, -1, 16),
            forall|v: IVec3|
                on_line(begin, step, v) && 1 <= coord(v, step) - cb < n ==> #[trigger] joins(
                    *kinds,
                    *occlusion,
                    merged@,
                    side,
                    kind,
                    v,
                ),
        decreases 16 - n,
    {
        let ghost prev = next_voxel;
        next_voxel = next_voxel.plus(step);
        proof {
            lemma_step(prev, step);
            assert forall|v: IVec3|
                on_line(begin, step, v) && 1 <= coord(v, step) - cb < n + 1 implies #[trigger] joins(
                *kinds,
                *occlusion,
                merged@,
                side,
                kind,
                v,
            ) by {
                if coord(v, step) - cb == n {
                    lemma_line_point(begin, step, v, prev);
                }
            }
            n = n + 1;
        }
    }
    let ghost last = next_voxel;
    next_voxel = next_voxel.minus(step);
    proof {
        lemma_unstep(last, step);
        assert(on_line(begin, step, next_voxel));
        assert(coord(next_voxel, step) == cb + n - 1);
        if n == 1 {
            assert(on_line(begin, step, begin));
            lemma_line_point(begin, step, next_voxel, begin);
        } else {
            assert(joins(*kinds, *occlusion, merged@, side, kind, next_voxel));
        }
        assert(moved(begin, step, next_voxel));
        assert forall|v: IVec3| #![trigger in_box(begin, next_voxel, v)]
            in_box(begin, next_voxel, v) && v != begin implies unmerged(
            *kinds,
            *occlusion,
            merged@,
            side,
            v,
        ) && kinds.at(v) == kinds.at(begin) by {
            lemma_line_box(begin, step, next_voxel, v);
            if coord(v, step) == cb {
                assert(on_line(begin, step, begin));
                lemma_line_point(begin, step, v, begin);
            } else {
                assert(joins(*kinds, *occlusion, merged@, side, kind, v));
            }
        }
        if !unmerged(*kinds, *occlusion, merged@, side, vadd(begin, step)) && n > 1 {
            lemma_step(begin, step);
            assert(joins(*kinds, *occlusion, merged@, side, kind, vadd(begin, step)));
        }
    }
    next_voxel
}

/// The row from `n1` to `n3` along `c` holds faces that are drawn, not merged yet and of the
/// kind of `n1`, and the face right after it is not such a face.
spec fn row_joins(
    kinds: ChunkKind,
    occlusion: ChunkFacesOcclusion,
    merged: Seq<bool>,
    side: Side,
    n1: IVec3,
    n3: IVec3,
    c: IVec3,
) -> bool {
    &&& forall|v: IVec3|
        #![trigger in_box(n1, n3, v)]
        in_box(n1, n3, v) ==> joins(kinds, occlusion, merged, side, kinds.at(n1), v)
    &&& !joins(kinds, occlusion, merged, side, kinds.at(n1), vadd(n3, c))
}

/// A row that ends where faces of its kind end is the one the search from its start finds.
proof fn lemma_row_end_unique(
    kinds: ChunkKind,
    occlusion: ChunkFacesOcclusion,
    merged: Seq<bool>,
    side: Side,
    n1: IVec3,
    r: IVec3,
    n3: IVec3,
    c: IVec3,
)
    requires
        unit_axis(c),
        moved(n1, c, r),
        moved(n1, c, n3),
        within_cube(r, 0, 15),
        within_cube(n3, 0, 15),
        forall|v: IVec3|
            #![trigger in_box(n1, r, v)]
            in_box(n1, r, v) && v != n1 ==> joins(kinds, occlusion, merged, side, kinds.at(n1), v),
        !joins(kinds, occlusion, merged, side, kinds.at(n1), vadd(r, c)),
        row_joins(kinds, occlusion, merged, side, n1, n3, c),
    ensures
        r == n3,
{
    lemma_step(r, c);
    lemma_step(n3, c);
    lemma_line_box(n1, c, r, r);
    lemma_line_box(n1, c, n3, n3);
    if coord(r, c) < coord(n3, c) {
        lemma_line_box(n1, c, n3, vadd(r, c));
        assert(on_line(n1, c, vadd(r, c))) by {
            assert forall|i: int| 0 <= i < 3 && i != component(c) implies #[trigger] comp_of(vadd(r, c), i)
                == comp_of(n1, i) by {
                assert(comp_of(vadd(r, c), i) == comp_of(r, i));
            }
        }
        assert(in_box(n1, n3, vadd(r, c)));
    } else if coord(r, c) > coord(n3, c) {
        lemma_line_box(n1, c, r, vadd(n3, c));
        assert(on_line(n1, c, vadd(n3, c))) by {
            assert forall|i: int| 0 <= i < 3 && i != component(c) implies #[trigger] comp_of(vadd(n3, c), i)
                == comp_of(n1, i) by {
                assert(comp_of(vadd(n3, c), i) == comp_of(n3, i));
            }
        }
        assert(in_box(n1, r, vadd(n3, c)));
        assert(vadd(n3, c) != n1);
    } else {
        lemma_line_point(n1, c, r, n3);
    }
}

/// From a voxel whose face starts a new merged face, finds its second and third corners: the
/// furthest voxel of its kind along the first axis, then as many rows of the same length as
/// can be added along the second axis.
#[verifier::rlimit(60)]
fn find_face_corners(
    voxel: IVec3,
    axis: (IVec3, IVec3),
    merged: &Vec<bool>,
    side: Side,
    kinds: &ChunkKind,
    occlusion: &ChunkFacesOcclusion,
) -> (r: (IVec3, IVec3))
    requires
        merged@.len() == BUFFER_SIZE,
        kinds.wf(),
        occlusion.wf(),
        unit_axis(axis.0),
        unit_axis(axis.1),
        component(axis.0) != component(axis.1),
        unmerged(*kinds, *occlusion, merged@, side, voxel),
    ensures
        walk_corners(voxel, r.0, r.1, axis.1, axis.0),
        forall|v: IVec3|
            #![trigger in_box(voxel, r.1, v)]
            in_box(voxel, r.1, v) ==> joins(*kinds, *occlusion, merged@, side, kinds.at(voxel), v),
        !unmerged(*kinds, *occlusion, merged@, side, vadd(voxel, axis.0)) ==> r.0 == voxel,
        !unmerged(*kinds, *occlusion, merged@, side, vadd(voxel, axis.1)) ==> r.1 == r.0,
        forall|v: IVec3, e: IVec3|
            #![trigger row_joins(*kinds, *occlusion, merged@, side, v, e, axis.0)]
            in_box(voxel, r.1, v) && coord(v, axis.0) == coord(voxel, axis.0) && on_line(v, axis.0, e)
                && coord(e, axis.0) == coord(r.0, axis.0) ==> row_joins(
                *kinds,
                *occlusion,
                merged@,
                side,
                v,
                e,
                axis.0,
            ),
        forall|n: IVec3|
            #![trigger row_joins(*kinds, *occlusion, merged@, side, n, vadd(r.1, axis.1), axis.0)]
            on_line(voxel, axis.1, n) && coord(n, axis.1) == coord(r.1, axis.1) + 1 ==> !(joins(
                *kinds,
                *occlusion,
                merged@,
                side,
                kinds.at(voxel),
                n,
            ) && row_joins(*kinds, *occlusion, merged@, side, n, vadd(r.1, axis.1), axis.0)),
{
    let current_axis = axis.0;
    let step = axis.1;
    let ghost b = step;
    let ghost c = current_axis;

    // Finds the furthest equal voxel on current axis
    let v1 = voxel;
    let kind = kinds.get(voxel);
    let v2 = find_furthest_eq_voxel(voxel, current_axis, merged, side, kinds, occlusion);
    let ghost w = coord(v2, c) - coord(v1, c);
    proof {
        assert forall|v: IVec3|
            #![trigger in_rect(v1, b, c, w, 0, v)]
            in_rect(v1, b, c, w, 0, v) implies joins(*kinds, *occlusion, merged@, side, kind, v) by {
            if v != v1 {
                lemma_first_row(v1, v2, b, c, v);
                assert(in_box(v1, v2, v));
            }
        }
        assert forall|v: IVec3, e: IVec3|
            #![trigger row_joins(*kinds, *occlusion, merged@, side, v, e, c)]
            in_rect(v1, b, c, w, 0, v) && coord(v, c) == coord(v1, c) && on_line(v, c, e) && coord(e, c)
                == coord(v2, c) implies row_joins(*kinds, *occlusion, merged@, side, v, e, c) by {
            lemma_same_point(b, c, v, v1);
            assert(on_line(v1, c, v2));
            lemma_line_point(v1, c, e, v2);
            assert forall|u: IVec3| #![trigger in_box(v1, v2, u)] in_box(v1, v2, u) implies joins(
                *kinds,
                *occlusion,
                merged@,
                side,
                kinds.at(v1),
                u,
            ) by {}
        }
    }

    let mut v3 = v2.plus(step);
    let mut tmp = v1.plus(step);
    proof {
        lemma_step(v2, b);
        lemma_step(v1, b);
        assert(coord(v2, b) == coord(v1, b));
    }
    let ghost mut h: int = 1;
    while !should_skip_voxel(merged, tmp, side, kinds, occlusion) && kinds.get(tmp) == kind
        invariant
            merged@.len() == BUFFER_SIZE,
            kind == kinds.at(v1),
            kinds.wf(),
            occlusion.wf(),
            unit_axis(b),
            unit_axis(c),
            component(b) != component(c),
            step == b,
            current_axis == c,
            voxel == v1,
            in_bounds(v1),
            in_bounds(v2),
            moved(v1, c, v2),
            w == coord(v2, c) - coord(v1, c),
            1 <= h <= 16,
            comp_of(v3, third(b, c)) == comp_of(v1, third(b, c)),
            coord(v3, b) == coord(v1, b) + h,
            coord(v3, c) == coord(v2, c),
            comp_of(tmp, third(b, c)) == comp_of(v1, third(b, c)),
            coord(tmp, b) == coord(v1, b) + h,
            coord(tmp, c) == coord(v1, c),
            within_cube(v3, -1, 16),
            within_cube(tmp, -1, 16),
            forall|v: IVec3|
                #![trigger in_rect(v1, b, c, w, h - 1, v)]
                in_rect(v1, b, c, w, h - 1, v) ==> joins(*kinds, *occlusion, merged@, side, kind, v),
            forall|v: IVec3, e: IVec3|
                #![trigger row_joins(*kinds, *occlusion, merged@, side, v, e, c)]
                in_rect(v1, b, c, w, h - 1, v) && coord(v, c) == coord(v1, c) && on_line(v, c, e)
                    && coord(e, c) == coord(v2, c) ==> row_joins(*kinds, *occlusion, merged@, side, v, e, c),
        ensures
            1 <= h <= 16,
            comp_of(v3, third(b, c)) == comp_of(v1, third(b, c)),
            coord(v3, b) == coord(v1, b) + h,
            coord(v3, c) == coord(v2, c),
            comp_of(tmp, third(b, c)) == comp_of(v1, third(b, c)),
            coord(tmp, b) == coord(v1, b) + h,
            coord(tmp, c) == coord(v1, c),
            within_cube(v3, -1, 16),
            within_cube(tmp, -1, 16),
            forall|v: IVec3|
                #![trigger in_rect(v1, b, c, w, h - 1, v)]
                in_rect(v1, b, c, w, h - 1, v) ==> joins(*kinds, *occlusion, merged@, side, kind, v),
            forall|v: IVec3, e: IVec3|
                #![trigger row_joins(*kinds, *occlusion, merged@, side, v, e, c)]
                in_rect(v1, b, c, w, h - 1, v) && coord(v, c) == coord(v1, c) && on_line(v, c, e)
                    && coord(e, c) == coord(v2, c) ==> row_joins(*kinds, *occlusion, merged@, side, v, e, c),
            !(joins(*kinds, *occlusion, merged@, side, kind, tmp) && row_joins(
                *kinds,
                *occlusion,
                merged@,
                side,
                tmp,
                v3,
                c,
            )),
        decreases 16 - h,
    {
        let furthest = find_furthest_eq_voxel(tmp, current_axis, merged, side, kinds, occlusion);

        if furthest == v3 {
            proof {
                assert(on_line(tmp, c, v3));
                assert forall|v: IVec3, e: IVec3|
                    #![trigger row_joins(*kinds, *occlusion, merged@, side, v, e, c)]
                    in_rect(v1, b, c, w, h, v) && coord(v, c) == coord(v1, c) && on_line(v, c, e)
                        && coord(e, c) == coord(v2, c) implies row_joins(*kinds, *occlusion, merged@, side, v, e, c) by {
                    if coord(v, b) - coord(v1, b) == h {
                        lemma_same_point(b, c, v, tmp);
                        lemma_line_point(tmp, c, e, v3);
                        assert forall|u: IVec3| #![trigger in_box(tmp, v3, u)] in_box(tmp, v3, u) implies joins(
                            *kinds,
                            *occlusion,
                            merged@,
                            side,
                            kinds.at(tmp),
                            u,
                        ) by {}
                    } else {
                        assert(in_rect(v1, b, c, w, h - 1, v));
                    }
                }
                assert forall|v: IVec3|
                    #![trigger in_rect(v1, b, c, w, h, v)]
                    in_rect(v1, b, c, w, h, v) implies joins(
                    *kinds,
                    *occlusion,
                    merged@,
                    side,
                    kind,
                    v,
                ) by {
                    if coord(v, b) - coord(v1, b) == h {
                        lemma_row(v1, b, c, w, h, tmp, v3, v);
                        if v != tmp {
                            assert(in_box(tmp, furthest, v));
                        }
                    } else {
                        assert(in_rect(v1, b, c, w, h - 1, v));
                    }
                }
            }
            let ghost old_v3 = v3;
            let ghost old_tmp = tmp;
            v3 = v3.plus(step);
            tmp = tmp.plus(step);
            proof {
                lemma_step(old_v3, b);
                lemma_step(old_tmp, b);
                h = h + 1;
            }
        } else {
            proof {
                if joins(*kinds, *occlusion, merged@, side, kind, tmp) && row_joins(
                    *kinds,
                    *occlusion,
                    merged@,
                    side,
                    tmp,
                    v3,
                    c,
                ) {
                    assert(moved(tmp, c, v3));
                    lemma_row_end_unique(*kinds, *occlusion, merged@, side, tmp, furthest, v3, c);
                }
            }
            break;
        }
    }

    let ghost before_v3 = v3;
    v3 = v3.minus(step);
    proof {
        if !unmerged(*kinds, *occlusion, merged@, side, vadd(v1, b)) && h > 1 {
            assert(in_rect(v1, b, c, w, h - 1, vadd(v1, b)));
        }
        lemma_unstep(before_v3, b);
        assert(in_rect(v1, b, c, w, h - 1, v3));
        lemma_rect_corner(v1, v2, v3, b, c, h - 1);
        assert forall|v: IVec3, e: IVec3|
            #![trigger row_joins(*kinds, *occlusion, merged@, side, v, e, c)]
            in_box(v1, v3, v) && coord(v, c) == coord(v1, c) && on_line(v, c, e) && coord(e, c)
                == coord(v2, c) implies row_joins(*kinds, *occlusion, merged@, side, v, e, c) by {
            assert(in_rect(v1, b, c, w, h - 1, v));
        }
        assert forall|n: IVec3|
            #![trigger row_joins(*kinds, *occlusion, merged@, side, n, vadd(v3, b), c)]
            on_line(v1, b, n) && coord(n, b) == coord(v3, b) + 1 implies !(joins(
            *kinds,
            *occlusion,
            merged@,
            side,
            kind,
            n,
        ) && row_joins(*kinds, *occlusion, merged@, side, n, vadd(v3, b), c)) by {
            assert(comp_of(n, component(c)) == comp_of(v1, component(c)));
            assert(comp_of(n, third(b, c)) == comp_of(v1, third(b, c)));
            lemma_same_point(b, c, n, tmp);
        }
    }
    (v2, v3)
}

/// A face built by [`merge_faces`]: a rectangle walked from its first vertex along the axes of
/// its side, whose every face is drawn and of its kind. The fourth vertex closes the rectangle,
/// and the face carries no light.
pub open spec fn merged_face_ok(chunk: Chunk, occlusion: ChunkFacesOcclusion, f: VoxelFace) -> bool {
    let axes = merge_axes(f.side);
    let v1 = f.vertices[0];
    let v2 = f.vertices[1];
    let v3 = f.vertices[2];
    &&& walk_corners(v1, v2, v3, axes.1, axes.0)
    &&& f.vertices[3] == vadd(v1, vsub(v3, v2))
    &&& f.kind == chunk.kinds.at(v1)
    &&& f.light_intensity == 0
    &&& forall|v: IVec3|
        #![trigger covers(f, v)]
        covers(f, v) ==> visible(chunk, occlusion, f.side, v) && chunk.kinds.at(v) == f.kind
}

/// The face of `v` on the side of face `f` is drawn, of the kind `kind`, and was not taken
/// yet when `f` was built.
pub open spec fn free_of(
    chunk: Chunk,
    occlusion: ChunkFacesOcclusion,
    faces: Seq<VoxelFace>,
    f: int,
    kind: Kind,
    v: IVec3,
) -> bool {
    visible(chunk, occlusion, faces[f].side, v) && !taken(faces, f, v) && chunk.kinds.at(v) == kind
}

/// When face `f` was built, the row from `n1` to `n3` along `c` held free faces of the kind
/// of `n1`, and the face right after it was no such face.
pub open spec fn row_fits(
    chunk: Chunk,
    occlusion: ChunkFacesOcclusion,
    faces: Seq<VoxelFace>,
    f: int,
    n1: IVec3,
    n3: IVec3,
    c: IVec3,
) -> bool {
    &&& forall|v: IVec3|
        #![trigger in_box(n1, n3, v)]
        in_box(n1, n3, v) ==> free_of(chunk, occlusion, faces, f, chunk.kinds.at(n1), v)
    &&& !free_of(chunk, occlusion, faces, f, chunk.kinds.at(n1), vadd(n3, c))
}

/// Face `f` is the one the walk of its side builds next: every drawn face before its first
/// vertex, in buffer order, was taken already; each of its rows, along the first axis of the
/// side, runs over free faces of the kind of the row's first one as far as they go; and the
/// row after its last one, along the second axis, cannot be added: it does not start with a
/// free face of the face's kind, or does not run as far as the others.
pub open spec fn greedy_face(
    chunk: Chunk,
    occlusion: ChunkFacesOcclusion,
    faces: Seq<VoxelFace>,
    f: int,
) -> bool {
    let face = faces[f];
    let c = merge_axes(face.side).0;
    let b = merge_axes(face.side).1;
    let v1 = face.vertices[0];
    let v2 = face.vertices[1];
    let v3 = face.vertices[2];
    &&& forall|v: IVec3|
        #![trigger visible(chunk, occlusion, face.side, v)]
        visible(chunk, occlusion, face.side, v) && index_of(v) < index_of(v1) ==> taken(faces, f, v)
    &&& forall|v: IVec3, e: IVec3|
        #![trigger row_fits(chunk, occlusion, faces, f, v, e, c)]
        in_box(v1, v3, v) && coord(v, c) == coord(v1, c) && on_line(v, c, e) && coord(e, c) == coord(
            v2,
            c,
        ) ==> row_fits(chunk, occlusion, faces, f, v, e, c)
    &&& forall|n: IVec3|
        #![trigger row_fits(chunk, occlusion, faces, f, n, vadd(v3, b), c)]
        on_line(v1, b, n) && coord(n, b) == coord(v3, b) + 1 ==> !(free_of(
            chunk,
            occlusion,
            faces,
            f,
            chunk.kinds.at(v1),
            n,
        ) && row_fits(chunk, occlusion, faces, f, n, vadd(v3, b), c))
}

/// What face `f` required of the faces before it holds whatever comes after it.
proof fn lemma_greedy_prefix(
    chunk: Chunk,
    occlusion: ChunkFacesOcclusion,
    faces: Seq<VoxelFace>,
    longer: Seq<VoxelFace>,
    f: int,
)
    requires
        0 <= f < faces.len() <= longer.len(),
        forall|g: int| 0 <= g <= f ==> longer[g] == faces[g],
        greedy_face(chunk, occlusion, faces, f),
    ensures
        greedy_face(chunk, occlusion, longer, f),
{
    assert forall|v: IVec3| #[trigger] taken(longer, f, v) == taken(faces, f, v) by {
        if taken(longer, f, v) {
            let g = choose|g: int| 0 <= g < f && longer[g].side == longer[f].side && #[trigger] covers(longer[g], v);
            assert(covers(faces[g], v));
        }
        if taken(faces, f, v) {
            let g = choose|g: int| 0 <= g < f && faces[g].side == faces[f].side && #[trigger] covers(faces[g], v);
            assert(covers(longer[g], v));
        }
    }
    let face = faces[f];
    let c = merge_axes(face.side).0;
    assert(longer[f] == face);
    assert forall|n1: IVec3, n3: IVec3| #[trigger] row_fits(chunk, occlusion, longer, f, n1, n3, c) == row_fits(
        chunk,
        occlusion,
        faces,
        f,
        n1,
        n3,
        c,
    ) by {
        assert(free_of(chunk, occlusion, longer, f, chunk.kinds.at(n1), vadd(n3, c)) == free_of(
            chunk,
            occlusion,
            faces,
            f,
            chunk.kinds.at(n1),
            vadd(n3, c),
        ));
        assert forall|v: IVec3| #![trigger in_box(n1, n3, v)] free_of(chunk, occlusion, longer, f, chunk.kinds.at(n1), v) == free_of(
            chunk,
            occlusion,
            faces,
            f,
            chunk.kinds.at(n1),
            v,
        ) by {}
    }
}

/// While the walk of a side builds face `f`, a face that is drawn and not merged yet is one
/// that no face of the side built before `f` covers.
proof fn lemma_joins_free(
    chunk: Chunk,
    occlusion: ChunkFacesOcclusion,
    merged: Seq<bool>,
    faces: Seq<VoxelFace>,
    start: int,
    f: int,
    side: Side,
)
    requires
        0 <= start <= f < faces.len(),
        merged.len() == BUFFER_SIZE,
        faces[f].side == side,
        forall|g: int| 0 <= g < start ==> #[trigger] faces[g].side != side,
        forall|g: int| start <= g < f ==> #[trigger] faces[g].side == side,
        forall|v: IVec3|
            in_bounds(v) ==> (#[trigger] merged[index_of(v)] <==> exists|g: int|
                start <= g < f && #[trigger] covers(faces[g], v)),
    ensures
        forall|v: IVec3|
            #[trigger] unmerged(chunk.kinds, occlusion, merged, side, v) == (visible(
                chunk,
                occlusion,
                side,
                v,
            ) && !taken(faces, f, v)),
        forall|kind: Kind, v: IVec3|
            #[trigger] joins(chunk.kinds, occlusion, merged, side, kind, v) == free_of(
                chunk,
                occlusion,
                faces,
                f,
                kind,
                v,
            ),
{
    assert forall|v: IVec3| in_bounds(v) implies (taken(faces, f, v) <==> exists|g: int|
        start <= g < f && #[trigger] covers(faces[g], v)) by {
        if taken(faces, f, v) {
            let g = choose|g: int| 0 <= g < f && faces[g].side == faces[f].side && #[trigger] covers(faces[g], v);
            assert(g >= start);
        }
    }
}

/// The face the walk of a side just built, from the first voxel still to merge, is the greedy
/// one, in terms of the faces built before it.
#[verifier::rlimit(40)]
proof fn lemma_new_face_greedy(
    chunk: Chunk,
    occlusion: ChunkFacesOcclusion,
    old_merged: Seq<bool>,
    faces: Seq<VoxelFace>,
    start: int,
    fi: int,
    k: int,
    axis: (IVec3, IVec3),
)
    requires
        0 <= start <= fi,
        faces.len() == fi + 1,
        0 <= k < BUFFER_SIZE,
        old_merged.len() == BUFFER_SIZE,
        axis == merge_axes(faces[fi].side),
        faces[fi].vertices[0] == voxel_at(k),
        forall|g: int| 0 <= g < start ==> #[trigger] faces[g].side != faces[fi].side,
        forall|g: int| start <= g < fi ==> #[trigger] faces[g].side == faces[fi].side,
        forall|v: IVec3|
            in_bounds(v) ==> (#[trigger] old_merged[index_of(v)] <==> exists|g: int|
                start <= g < fi && #[trigger] covers(faces[g], v)),
        forall|m: int|
            0 <= m < k && visible(chunk, occlusion, faces[fi].side, #[trigger] voxel_at(m))
                ==> old_merged[m],
        forall|v: IVec3, e: IVec3|
            #![trigger row_joins(chunk.kinds, occlusion, old_merged, faces[fi].side, v, e, axis.0)]
            in_box(faces[fi].vertices[0], faces[fi].vertices[2], v) && coord(v, axis.0) == coord(
                faces[fi].vertices[0],
                axis.0,
            ) && on_line(v, axis.0, e) && coord(e, axis.0) == coord(faces[fi].vertices[1], axis.0)
                ==> row_joins(chunk.kinds, occlusion, old_merged, faces[fi].side, v, e, axis.0),
        forall|n: IVec3|
            #![trigger row_joins(chunk.kinds, occlusion, old_merged, faces[fi].side, n, vadd(faces[fi].vertices[2], axis.1), axis.0)]
            on_line(faces[fi].vertices[0], axis.1, n) && coord(n, axis.1) == coord(
                faces[fi].vertices[2],
                axis.1,
            ) + 1 ==> !(joins(
                chunk.kinds,
                occlusion,
                old_merged,
                faces[fi].side,
                chunk.kinds.at(faces[fi].vertices[0]),
                n,
            ) && row_joins(
                chunk.kinds,
                occlusion,
                old_merged,
                faces[fi].side,
                n,
                vadd(faces[fi].vertices[2], axis.1),
                axis.0,
            )),
    ensures
        greedy_face(chunk, occlusion, faces, fi),
{
    let side = faces[fi].side;
    let kinds = &chunk.kinds;
    let v1 = faces[fi].vertices[0];
    let v2 = faces[fi].vertices[1];
    let v3 = faces[fi].vertices[2];
    chunk::lemma_voxel_at(k);
    lemma_joins_free(chunk, occlusion, old_merged, faces, start, fi, side);
    let c = axis.0;
    let b = axis.1;
    assert forall|v: IVec3|
        #![trigger visible(chunk, occlusion, side, v)]
        visible(chunk, occlusion, side, v) && index_of(v) < index_of(v1) implies taken(
        faces,
        fi,
        v,
    ) by {
        chunk::lemma_index_of(v);
        assert(visible(chunk, occlusion, side, voxel_at(index_of(v))));
        assert(old_merged[index_of(v)]);
    }
    assert forall|v: IVec3, e: IVec3|
        #![trigger row_fits(chunk, occlusion, faces, fi, v, e, c)]
        in_box(v1, v3, v) && coord(v, c) == coord(v1, c) && on_line(v, c, e) && coord(e, c)
            == coord(v2, c) implies row_fits(chunk, occlusion, faces, fi, v, e, c) by {
        assert(row_joins(*kinds, occlusion, old_merged, side, v, e, c));
        assert forall|u: IVec3| #![trigger in_box(v, e, u)] in_box(v, e, u) implies free_of(
            chunk,
            occlusion,
            faces,
            fi,
            chunk.kinds.at(v),
            u,
        ) by {
            assert(joins(*kinds, occlusion, old_merged, side, kinds.at(v), u));
        }
        assert(!joins(*kinds, occlusion, old_merged, side, kinds.at(v), vadd(e, c)));
    }
    assert forall|n: IVec3|
        #![trigger row_fits(chunk, occlusion, faces, fi, n, vadd(v3, b), c)]
        on_line(v1, b, n) && coord(n, b) == coord(v3, b) + 1 implies !(free_of(
        chunk,
        occlusion,
        faces,
        fi,
        chunk.kinds.at(v1),
        n,
    ) && row_fits(chunk, occlusion, faces, fi, n, vadd(v3, b), c)) by {
        if free_of(chunk, occlusion, faces, fi, chunk.kinds.at(v1), n) && row_fits(
            chunk,
            occlusion,
            faces,
            fi,
            n,
            vadd(v3, b),
            c,
        ) {
            assert(joins(*kinds, occlusion, old_merged, side, kinds.at(v1), n));
            assert forall|u: IVec3| #![trigger in_box(n, vadd(v3, b), u)] in_box(n, vadd(v3, b), u) implies joins(
                *kinds,
                occlusion,
                old_merged,
                side,
                kinds.at(n),
                u,
            ) by {
                assert(free_of(chunk, occlusion, faces, fi, chunk.kinds.at(n), u));
            }
            assert(!free_of(chunk, occlusion, faces, fi, chunk.kinds.at(n), vadd(vadd(v3, b), c)));
            assert(row_joins(*kinds, occlusion, old_merged, side, n, vadd(v3, b), c));
        }
    }
}

/// Flags as merged every voxel from `v1` up to `v3`, on each axis.
fn mark_range(merged: &mut Vec<bool>, v1: IVec3, v3: IVec3)
    requires
        old(merged)@.len() == BUFFER_SIZE,
        in_bounds(v1),
        in_bounds(v3),
    ensures
        final(merged)@.len() == BUFFER_SIZE,
        forall|i: int|
            0 <= i < BUFFER_SIZE && #[trigger] final(merged)@[i] ==> old(merged)@[i] || in_box(
                v1,
                v3,
                voxel_at(i),
            ),
        forall|i: int| 0 <= i < BUFFER_SIZE && old(merged)@[i] ==> #[trigger] final(merged)@[i],
        ordered(v1, v3) ==> forall|i: int|
            0 <= i < BUFFER_SIZE && in_box(v1, v3, voxel_at(i)) ==> #[trigger] final(merged)@[i],
{
    let ghost old_merged = merged@;
    let walked = query::range_inclusive(v1, v3);
    let ghost end = IVec3 { x: (v3.x + 1) as i32, y: (v3.y + 1) as i32, z: (v3.z + 1) as i32 };
    proof {
        assert forall|q: int| 0 <= q < walked@.len() implies in_bounds(#[trigger] walked@[q]) && 0
            <= index_of(walked@[q]) < BUFFER_SIZE by {
            let v = walked@[q];
            assert(walked@.contains(v));
            query::lemma_range_contains(v1, end, v);
            lemma_box_in_bounds(v1, v3, v);
            chunk::lemma_index_of(v);
        }
    }
    let mut m: usize = 0;
    while m < walked.len()
        invariant
            merged@.len() == BUFFER_SIZE,
            in_bounds(v1),
            in_bounds(v3),
            m <= walked@.len(),
            walked@ == query::range_seq(v1, end),
            end == (IVec3 { x: (v3.x + 1) as i32, y: (v3.y + 1) as i32, z: (v3.z + 1) as i32 }),
            forall|i: int|
                0 <= i < BUFFER_SIZE && #[trigger] merged@[i] ==> old_merged[i] || in_box(
                    v1,
                    v3,
                    voxel_at(i),
                ),
            forall|i: int| 0 <= i < BUFFER_SIZE && old_merged[i] ==> #[trigger] merged@[i],
            forall|q: int| 0 <= q < m ==> merged@[index_of(#[trigger] walked@[q])],
            forall|q: int| 0 <= q < walked@.len() ==> in_bounds(#[trigger] walked@[q]) && 0 <= index_of(walked@[q]) < BUFFER_SIZE,
        decreases walked@.len() - m,
    {
        let v = walked[m];
        proof {
            assert(walked@.contains(v));
            query::lemma_range_contains(v1, end, v);
            assert(in_box(v1, v3, v));
            lemma_box_in_bounds(v1, v3, v);
            chunk::lemma_index_of(v);
        }
        let idx = chunk::to_index(v);
        merged.set(idx, true);
        m = m + 1;
    }
    proof {
        if ordered(v1, v3) {
            assert forall|i: int|
                0 <= i < BUFFER_SIZE && in_box(v1, v3, voxel_at(i)) implies #[trigger] merged@[i] by {
                let v = voxel_at(i);
                chunk::lemma_voxel_at(i);
                query::lemma_range_contains(v1, end, v);
                let q = walked@.index_of(v);
                assert(walked@[q] == v);
            }
        }
    }
}

/// `p` lies below `q` on every axis.
pub open spec fn ordered(p: IVec3, q: IVec3) -> bool {
    p.x <= q.x && p.y <= q.y && p.z <= q.z
}

/// Corners walked towards growing coordinates, or not moved along a decreasing axis, span
/// their box from the first to the third corner.
proof fn lemma_walk_ordered(v1: IVec3, v2: IVec3, v3: IVec3, b: IVec3, c: IVec3)
    requires
        walk_corners(v1, v2, v3, b, c),
        positive(c) || v2 == v1,
        positive(b) || v3 == v2,
    ensures
        ordered(v1, v3),
{
    assert(comp_of(v2, 0) == comp_of(v1, 0) || component(c) == 0);
    assert(comp_of(v2, 1) == comp_of(v1, 1) || component(c) == 1);
    assert(comp_of(v2, 2) == comp_of(v1, 2) || component(c) == 2);
    assert(comp_of(v3, 0) == comp_of(v2, 0) || component(b) == 0);
    assert(comp_of(v3, 1) == comp_of(v2, 1) || component(b) == 1);
    assert(comp_of(v3, 2) == comp_of(v2, 2) || component(b) == 2);
}

/// Walking the voxels in buffer order, the neighbour of the `k`-th voxel along a decreasing
/// walk axis was walked before: its face is merged or not drawn.
proof fn lemma_earlier_merged(
    chunk: Chunk,
    occlusion: ChunkFacesOcclusion,
    merged: Seq<bool>,
    side: Side,
    k: int,
    a: IVec3,
)
    requires
        0 <= k < BUFFER_SIZE,
        merged.len() == BUFFER_SIZE,
        a == merge_axes(side).0 || a == merge_axes(side).1,
        forall|m: int|
            0 <= m < k && visible(chunk, occlusion, side, #[trigger] voxel_at(m)) ==> merged[m],
    ensures
        !positive(a) ==> !unmerged(chunk.kinds, occlusion, merged, side, vadd(voxel_at(k), a)),
{
    chunk::lemma_voxel_at(k);
    let n = vadd(voxel_at(k), a);
    if !positive(a) && unmerged(chunk.kinds, occlusion, merged, side, n) {
        chunk::lemma_index_of(n);
        assert(index_of(n) < k);
        assert(visible(chunk, occlusion, side, voxel_at(index_of(n))));
    }
}

/// Walks the faces of one side and appends the merged faces to `faces`.
#[verifier::rlimit(100)]
#[verifier::spinoff_prover]
fn merge_side(
    occlusion: &ChunkFacesOcclusion,
    chunk: &Chunk,
    side: Side,
    faces: &mut Vec<VoxelFace>,
)
    requires
        chunk.wf(),
        occlusion.wf(),
        forall|g: int| 0 <= g < old(faces)@.len() ==> #[trigger] old(faces)@[g].side != side,
    ensures
        final(faces)@.len() >= old(faces)@.len(),
        final(faces)@.subrange(0, old(faces)@.len() as int) == old(faces)@,
        forall|f: int|
            old(faces)@.len() <= f < final(faces)@.len() ==> #[trigger] greedy_face(
                *chunk,
                *occlusion,
                final(faces)@,
                f,
            ),
        forall|f: int|
            old(faces)@.len() <= f < final(faces)@.len() ==> (#[trigger] final(faces)@[f]).side
                == side && merged_face_ok(*chunk, *occlusion, final(faces)@[f]),
        forall|v: IVec3|
            visible(*chunk, *occlusion, side, v) ==> exists|f: int|
                old(faces)@.len() <= f < final(faces)@.len() && #[trigger] covers(
                    final(faces)@[f],
                    v,
                ),
        forall|f: int, g: int, v: IVec3|
            old(faces)@.len() <= f < final(faces)@.len() && old(faces)@.len() <= g
                < final(faces)@.len() && f != g && #[trigger] covers(final(faces)@[f], v)
                && #[trigger] covers(final(faces)@[g], v) ==> false,
{
    let ghost start = faces@.len() as int;
    let ghost first = faces@;
    let axis = side_axis(side);
    let kinds = &chunk.kinds;
    let mut merged: Vec<bool> = Vec::new();
    let mut i: usize = 0;
    while i < BUFFER_SIZE
        invariant
            i <= BUFFER_SIZE,
            merged@.len() == i,
            forall|k: int| 0 <= k < i ==> !merged@[k],
        decreases BUFFER_SIZE - i,
    {
        merged.push(false);
        i = i + 1;
    }
    let ghost mut owner: Seq<int> = Seq::new(BUFFER_SIZE as nat, |k: int| -1);
    let ghost mut cov: Seq<int> = Seq::new(BUFFER_SIZE as nat, |k: int| -1);
    let voxels = chunk::voxels();

    let mut k: usize = 0;
    while k < BUFFER_SIZE
        invariant
            chunk.wf(),
            occlusion.wf(),
            *kinds == chunk.kinds,
            axis == merge_axes(side),
            unit_axis(axis.0),
            unit_axis(axis.1),
            component(axis.0) != component(axis.1),
            voxels@ == chunk::all_voxels(),
            k <= BUFFER_SIZE,
            merged@.len() == BUFFER_SIZE,
            owner.len() == BUFFER_SIZE,
            cov.len() == BUFFER_SIZE,
            faces@.len() >= start,
            faces@.subrange(0, start) == first,
            first.len() == start,
            forall|f: int|
                start <= f < faces@.len() ==> (#[trigger] faces@[f]).side == side
                    && merged_face_ok(*chunk, *occlusion, faces@[f]),
            forall|j: int|
                0 <= j < BUFFER_SIZE && #[trigger] merged@[j] ==> start <= owner[j] < faces@.len()
                    && covers(faces@[owner[j]], voxel_at(j)),
            forall|m: int|
                0 <= m < k && visible(*chunk, *occlusion, side, #[trigger] voxel_at(m)) ==> start
                    <= cov[m] < faces@.len() && covers(faces@[cov[m]], voxel_at(m)),
            forall|m: int|
                0 <= m < k && visible(*chunk, *occlusion, side, #[trigger] voxel_at(m))
                    ==> merged@[m],
            forall|f: int, v: IVec3|
                start <= f < faces@.len() && #[trigger] covers(faces@[f], v) ==> in_bounds(v)
                    && merged@[index_of(v)],
            forall|f: int, g: int, v: IVec3|
                start <= f < faces@.len() && start <= g < faces@.len() && f != g
                    && #[trigger] covers(faces@[f], v) && #[trigger] covers(faces@[g], v) ==> false,
            forall|g: int| 0 <= g < start ==> #[trigger] first[g].side != side,
            forall|f: int|
                start <= f < faces@.len() ==> #[trigger] greedy_face(*chunk, *occlusion, faces@, f),
        decreases BUFFER_SIZE - k,
    {
        let voxel = voxels[k];
        proof {
            chunk::lemma_voxel_at(k as int);
        }
        if should_skip_voxel(&merged, voxel, side, kinds, occlusion) {
            proof {
                if visible(*chunk, *occlusion, side, voxel) {
                    assert(merged@[k as int]);
                    cov = cov.update(k as int, owner[k as int]);
                } else {
                    assert forall|m: int|
                        0 <= m < k + 1 && visible(*chunk, *occlusion, side, #[trigger] voxel_at(m))
                            implies start <= cov[m] < faces@.len() && covers(
                        faces@[cov[m]],
                        voxel_at(m),
                    ) by {
                    }
                }
            }
            k = k + 1;
            continue;
        }
        let kind = kinds.get(voxel);
        let v1 = voxel;
        proof {
            // A neighbour that comes before in buffer order is merged or not drawn.
            lemma_earlier_merged(*chunk, *occlusion, merged@, side, k as int, axis.0);
            lemma_earlier_merged(*chunk, *occlusion, merged@, side, k as int, axis.1);
        }
        let (v2, v3) = find_face_corners(voxel, axis, &merged, side, kinds, occlusion);
        proof {
            lemma_walk_ordered(v1, v2, v3, axis.1, axis.0);
        }
        let ghost old_merged = merged@;
        let ghost old_owner = owner;
        let ghost fi = faces@.len() as int;
        mark_range(&mut merged, v1, v3);

        let v4 = v1.plus(v3.minus(v2));
        let face = VoxelFace { vertices: [v1, v2, v3, v4], side, kind, light_intensity: 0 };
        let ghost prev_faces = faces@;
        faces.push(face);
        proof {
            owner = Seq::new(
                BUFFER_SIZE as nat,
                |j: int|
                    if merged@[j] && !old_merged[j] {
                        fi
                    } else {
                        old_owner[j]
                    },
            );
            cov = cov.update(k as int, fi);
            assert(faces@[fi] == face);
            assert(in_box(v1, v3, v1));
            assert forall|f: int| 0 <= f < fi implies faces@[f] == prev_faces[f] by {}
            assert(faces@.subrange(0, start) =~= first) by {
                assert(prev_faces.subrange(0, start) == first);
            }
            assert forall|v: IVec3| #![trigger covers(face, v)] covers(face, v) implies visible(
                *chunk,
                *occlusion,
                side,
                v,
            ) by {
                assert(in_box(v1, v3, v));
            }
            assert(merged_face_ok(*chunk, *occlusion, face));
            assert forall|f: int|
                start <= f < faces@.len() implies (#[trigger] faces@[f]).side == side
                && merged_face_ok(*chunk, *occlusion, faces@[f]) by {
                if f < fi {
                    assert(faces@[f] == prev_faces[f]);
                }
            }
            assert forall|j: int|
                0 <= j < BUFFER_SIZE && #[trigger] merged@[j] implies start <= owner[j]
                < faces@.len() && covers(faces@[owner[j]], voxel_at(j)) by {
                if merged@[j] && !old_merged[j] {
                    assert(in_box(v1, v3, voxel_at(j)));
                } else {
                    assert(faces@[old_owner[j]] == prev_faces[old_owner[j]]);
                }
            }
            assert forall|m: int|
                0 <= m < k + 1 && visible(*chunk, *occlusion, side, #[trigger] voxel_at(m))
                    implies start <= cov[m] < faces@.len() && covers(faces@[cov[m]], voxel_at(m)) by {
                if m < k {
                    assert(faces@[cov[m]] == prev_faces[cov[m]]);
                }
            }
            assert(merged@[k as int]) by {
                chunk::lemma_index_of(v1);
            }
            assert forall|f: int, v: IVec3|
                start <= f < faces@.len() && #[trigger] covers(faces@[f], v) implies in_bounds(v)
                && merged@[index_of(v)] by {
                if f < fi {
                    assert(faces@[f] == prev_faces[f]);
                    assert(covers(prev_faces[f], v));
                } else {
                    assert(in_box(v1, v3, v));
                    lemma_box_in_bounds(v1, v3, v);
                    chunk::lemma_index_of(v);
                }
            }
            assert forall|f: int| start <= f < faces@.len() implies #[trigger] greedy_face(
                *chunk,
                *occlusion,
                faces@,
                f,
            ) by {
                if f < fi {
                    lemma_greedy_prefix(*chunk, *occlusion, prev_faces, faces@, f);
                } else {
                    // The faces merged before this one are those its predecessors cover.
                    assert forall|g: int| 0 <= g < fi implies #[trigger] faces@[g] == prev_faces[g] by {}
                    assert forall|g: int| 0 <= g < start implies #[trigger] faces@[g].side != side by {
                        assert(faces@.subrange(0, start)[g] == faces@[g]);
                    }
                    assert forall|v: IVec3| in_bounds(v) implies (#[trigger] old_merged[index_of(v)] <==> exists|g: int|
                        start <= g < fi && #[trigger] covers(faces@[g], v)) by {
                        chunk::lemma_index_of(v);
                        if old_merged[index_of(v)] {
                            let g = old_owner[index_of(v)];
                            assert(covers(prev_faces[g], voxel_at(index_of(v))));
                            assert(covers(faces@[g], v));
                        }
                        if exists|g: int| start <= g < fi && #[trigger] covers(faces@[g], v) {
                            let g = choose|g: int| start <= g < fi && #[trigger] covers(faces@[g], v);
                            assert(covers(prev_faces[g], v));
                        }
                    }
                    lemma_new_face_greedy(*chunk, *occlusion, old_merged, faces@, start, fi, k as int, axis);
                }
            }
            assert forall|f: int, g: int, v: IVec3|
                start <= f < faces@.len() && start <= g < faces@.len() && f != g
                    && #[trigger] covers(faces@[f], v) && #[trigger] covers(faces@[g], v)
                    implies false by {
                if f < fi && g < fi {
                    assert(faces@[f] == prev_faces[f]);
                    assert(faces@[g] == prev_faces[g]);
                    assert(covers(prev_faces[f], v));
                    assert(covers(prev_faces[g], v));
                } else if f < fi {
                    assert(faces@[f] == prev_faces[f]);
                    assert(covers(prev_faces[f], v));
                    assert(in_box(v1, v3, v));
                } else {
                    assert(faces@[g] == prev_faces[g]);
                    assert(covers(prev_faces[g], v));
                    assert(in_box(v1, v3, v));
                }
            }
        }
        k = k + 1;
    }
    proof {
        assert forall|v: IVec3|
            visible(*chunk, *occlusion, side, v) implies exists|f: int|
                start <= f < faces@.len() && #[trigger] covers(faces@[f], v) by {
            chunk::lemma_index_of(v);
            let m = index_of(v);
            assert(visible(*chunk, *occlusion, side, voxel_at(m)));
            assert(covers(faces@[cov[m]], voxel_at(m)));
        }
    }
}

/**
 Merges the faces of a chunk, side after side, into rectangles.

 For each side, the voxels are walked in buffer order. A face that is drawn and not merged yet
 starts a new face, which grows as far as faces of its kind go along the first axis of the side,
 then row after row along the second axis while a row of its kind and of the same length can be
 found. The
 voxels from the first to the third vertex, on each axis, are then flagged as merged.

 **Returns** the merged faces, side after side: every drawn face of the chunk is covered by
 exactly one merged face of its side, every merged face covers only drawn faces, and each face
 is the one the walk builds from the faces before it (see [`greedy_face`]).
*/
pub fn merge_faces(occlusion: &ChunkFacesOcclusion, chunk: &Chunk) -> (r: Vec<VoxelFace>)
    requires
        chunk.wf(),
        occlusion.wf(),
    ensures
        forall|f: int| 0 <= f < r@.len() ==> merged_face_ok(*chunk, *occlusion, #[trigger] r@[f]),
        forall|s: Side| #[trigger] partitions_side(*chunk, *occlusion, s, r@),
        forall|f: int, g: int| 0 <= f < g < r@.len() ==> r@[f].side.idx() <= r@[g].side.idx(),
        forall|f: int| 0 <= f < r@.len() ==> #[trigger] greedy_face(*chunk, *occlusion, r@, f),
        forall|f: int| 0 <= f < r@.len() ==> face_winding(#[trigger] r@[f]),
{
    let mut faces_vertices: Vec<VoxelFace> = Vec::new();
    let mut k: usize = 0;
    while k < SIDE_COUNT
        invariant
            chunk.wf(),
            occlusion.wf(),
            k <= SIDE_COUNT,
            forall|f: int|
                0 <= f < faces_vertices@.len() ==> merged_face_ok(
                    *chunk,
                    *occlusion,
                    #[trigger] faces_vertices@[f],
                ) && faces_vertices@[f].side.idx() < k,
            forall|f: int, g: int|
                0 <= f < g < faces_vertices@.len() ==> faces_vertices@[f].side.idx()
                    <= faces_vertices@[g].side.idx(),
            forall|s: Side|
                s.idx() < k ==> #[trigger] partitions_side(*chunk, *occlusion, s, faces_vertices@),
            forall|f: int|
                0 <= f < faces_vertices@.len() ==> #[trigger] greedy_face(
                    *chunk,
                    *occlusion,
                    faces_vertices@,
                    f,
                ),
        decreases SIDE_COUNT - k,
    {
        let side = Side::from_index(k);
        let ghost before = faces_vertices@;
        merge_side(occlusion, chunk, side, &mut faces_vertices);
        proof {
            let after = faces_vertices@;
            assert forall|f: int| 0 <= f < before.len() implies after[f] == before[f] by {
                assert(after.subrange(0, before.len() as int)[f] == after[f]);
            }
            assert forall|f: int| 0 <= f < after.len() implies #[trigger] greedy_face(
                *chunk,
                *occlusion,
                after,
                f,
            ) by {
                if f < before.len() {
                    lemma_greedy_prefix(*chunk, *occlusion, before, after, f);
                }
            }
            assert forall|s: Side| s.idx() < k + 1 implies #[trigger] partitions_side(
                *chunk,
                *occlusion,
                s,
                after,
            ) by {
                if s.idx() < k {
                    assert(partitions_side(*chunk, *occlusion, s, before));
                    assert forall|v: IVec3| visible(*chunk, *occlusion, s, v) implies exists|f: int|
                        0 <= f < after.len() && after[f].side == s && #[trigger] covers(after[f], v) by {
                        let f = choose|f: int|
                            0 <= f < before.len() && before[f].side == s && #[trigger] covers(
                                before[f],
                                v,
                            );
                        assert(after[f] == before[f]);
                    }
                    assert forall|f: int, g: int, v: IVec3|
                        0 <= f < after.len() && 0 <= g < after.len() && f != g && after[f].side == s
                            && after[g].side == s && #[trigger] covers(after[f], v)
                            && #[trigger] covers(after[g], v) implies false by {
                        if f < before.len() && g < before.len() {
                            assert(after[f] == before[f]);
                            assert(after[g] == before[g]);
                        } else if f < before.len() {
                            assert(after[f] == before[f]);
                        } else if g < before.len() {
                            assert(after[g] == before[g]);
                        }
                    }
                } else {
                    crate::voxel::lemma_side_index(s);
                    assert(s == side);
                    assert forall|v: IVec3| visible(*chunk, *occlusion, s, v) implies exists|f: int|
                        0 <= f < after.len() && after[f].side == s && #[trigger] covers(after[f], v) by {
                        let f = choose|f: int|
                            before.len() <= f < after.len() && #[trigger] covers(after[f], v);
                        assert(after[f].side == side);
                    }
                    assert forall|f: int, g: int, v: IVec3|
                        0 <= f < after.len() && 0 <= g < after.len() && f != g && after[f].side == s
                            && after[g].side == s && #[trigger] covers(after[f], v)
                            && #[trigger] covers(after[g], v) implies false by {
                        if f < before.len() {
                            assert(after[f] == before[f]);
                        } else if g < before.len() {
                            assert(after[g] == before[g]);
                        }
                    }
                }
            }
            assert forall|f: int, g: int| 0 <= f < g < after.len() implies after[f].side.idx()
                <= after[g].side.idx() by {
                if g < before.len() {
                    assert(after[f] == before[f]);
                    assert(after[g] == before[g]);
                } else if f < before.len() {
                    assert(after[f] == before[f]);
                }
            }
            assert forall|f: int| 0 <= f < after.len() implies merged_face_ok(
                *chunk,
                *occlusion,
                #[trigger] after[f],
            ) && after[f].side.idx() < k + 1 by {
                if f < before.len() {
                    assert(after[f] == before[f]);
                }
            }
        }
        k = k + 1;
    }
    proof {
        assert forall|s: Side| #[trigger] partitions_side(*chunk, *occlusion, s, faces_vertices@) by {
            crate::voxel::lemma_side_index(s);
        }
    }
    proof {
        assert forall|f: int| 0 <= f < faces_vertices@.len() implies face_winding(#[trigger] faces_vertices@[f]) by {
            lemma_merged_face_winding(*chunk, *occlusion, faces_vertices@[f]);
        }
    }
    faces_vertices
}

} // verus!
