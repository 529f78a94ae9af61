use vstd::prelude::*;

use crate::math::IVec3;

verus! {

/// The positions `(x, y0..y1, z)`, by growing `y`.
pub open spec fn row(x: i32, z: i32, y0: i32, y1: i32) -> Seq<IVec3> {
    Seq::new(
        (if y1 > y0 {
            y1 - y0
        } else {
            0
        }) as nat,
        |j: int| IVec3 { x, y: (y0 + j) as i32, z },
    )
}

/// The rows of `x` for `z` in `z0..z1`, by growing `z`.
pub open spec fn slab(x: i32, z0: i32, z1: i32, y0: i32, y1: i32) -> Seq<IVec3>
    decreases z1 - z0,
{
    if z1 <= z0 {
        Seq::empty()
    } else {
        slab(x, z0, (z1 - 1) as i32, y0, y1) + row(x, (z1 - 1) as i32, y0, y1)
    }
}

/// The positions from `begin` up to `end` exclusive on each axis: by growing `x`, then `z`,
/// then `y`, as three nested loops would list them.
pub open spec fn range_seq(begin: IVec3, end: IVec3) -> Seq<IVec3>
    decreases end.x - begin.x,
{
    if end.x <= begin.x {
        Seq::empty()
    } else {
        range_seq(begin, IVec3 { x: (end.x - 1) as i32, ..end }) + slab(
            (end.x - 1) as i32,
            begin.z,
            end.z,
            begin.y,
            end.y,
        )
    }
}

/// **Returns** the positions from `begin` until `end` exclusive on each axis, by growing `x`,
/// then `z`, then `y`.
pub fn range(begin: IVec3, end: IVec3) -> (r: Vec<IVec3>)
    ensures
        r@ == range_seq(begin, end),
{
    let mut r: Vec<IVec3> = Vec::new();
    if end.x <= begin.x {
        return r;
    }
    let mut x: i32 = begin.x;
    while x < end.x
        invariant
            begin.x <= x <= end.x,
            r@ == range_seq(begin, IVec3 { x, ..end }),
        decreases end.x - x,
    {
        let ghost before_x = r@;
        let mut z: i32 = begin.z;
        proof {
            assert(r@ =~= before_x + slab(x, begin.z, z, begin.y, end.y));
        }
        while z < end.z
            invariant
                begin.x <= x < end.x,
                begin.z <= z,
                z <= end.z || z == begin.z,
                r@ == before_x + slab(x, begin.z, z, begin.y, end.y),
            decreases end.z - z,
        {
            let ghost before_z = r@;
            let mut y: i32 = begin.y;
            proof {
                assert(r@ =~= before_z + row(x, z, begin.y, y));
            }
            while y < end.y
                invariant
                    begin.z <= z < end.z,
                    begin.y <= y,
                    y <= end.y || y == begin.y,
                    r@ == before_z + row(x, z, begin.y, y),
                decreases end.y - y,
            {
                r.push(IVec3 { x, y, z });
                proof {
                    assert(r@ =~= before_z + row(x, z, begin.y, (y + 1) as i32));
                }
                y = y + 1;
            }
            proof {
                if end.y > begin.y {
                    assert(y == end.y);
                } else {
                    assert(row(x, z, begin.y, y) =~= row(x, z, begin.y, end.y));
                }
                assert(slab(x, begin.z, (z + 1) as i32, begin.y, end.y) == slab(
                    x,
                    begin.z,
                    z,
                    begin.y,
                    end.y,
                ) + row(x, z, begin.y, end.y));
                assert(r@ =~= before_x + slab(x, begin.z, (z + 1) as i32, begin.y, end.y));
            }
            z = z + 1;
        }
        proof {
            if end.z <= begin.z {
                assert(slab(x, begin.z, z, begin.y, end.y) =~= slab(
                    x,
                    begin.z,
                    end.z,
                    begin.y,
                    end.y,
                ));
            }
            assert(range_seq(begin, IVec3 { x: (x + 1) as i32, ..end }) == range_seq(
                begin,
                IVec3 { x, ..end },
            ) + slab(x, begin.z, end.z, begin.y, end.y));
        }
        x = x + 1;
    }
    proof {
        assert(IVec3 { x, ..end } == end);
    }
    r
}

/// **Returns** the positions from `begin` until `end_inclusive` inclusive on each axis, by
/// growing `x`, then `z`, then `y`.
pub fn range_inclusive(begin: IVec3, end_inclusive: IVec3) -> (r: Vec<IVec3>)
    requires
        end_inclusive.x < i32::MAX,
        end_inclusive.y < i32::MAX,
        end_inclusive.z < i32::MAX,
    ensures
        r@ == range_seq(
            begin,
            IVec3 {
                x: (end_inclusive.x + 1) as i32,
                y: (end_inclusive.y + 1) as i32,
                z: (end_inclusive.z + 1) as i32,
            },
        ),
{
    range(
        begin,
        IVec3 { x: end_inclusive.x + 1, y: end_inclusive.y + 1, z: end_inclusive.z + 1 },
    )
}

proof fn lemma_concat_contains(a: Seq<IVec3>, b: Seq<IVec3>, v: IVec3)
    ensures
        (a + b).contains(v) <==> a.contains(v) || b.contains(v),
{
    if (a + b).contains(v) {
        let i = choose|i: int| 0 <= i < (a + b).len() && (a + b)[i] == v;
        if i < a.len() {
            assert(a[i] == v);
        } else {
            assert(b[i - a.len()] == v);
        }
    }
    if a.contains(v) {
        let i = choose|i: int| 0 <= i < a.len() && a[i] == v;
        assert((a + b)[i] == v);
    }
    if b.contains(v) {
        let i = choose|i: int| 0 <= i < b.len() && b[i] == v;
        assert((a + b)[a.len() + i] == v);
    }
}

proof fn lemma_row_contains(x: i32, z: i32, y0: i32, y1: i32, v: IVec3)
    ensures
        row(x, z, y0, y1).contains(v) <==> (v.x == x && v.z == z && y0 <= v.y < y1),
{
    let r = row(x, z, y0, y1);
    if v.x == x && v.z == z && y0 <= v.y < y1 {
        assert(r[v.y - y0] == v);
    }
}

proof fn lemma_slab_contains(x: i32, z0: i32, z1: i32, y0: i32, y1: i32, v: IVec3)
    ensures
        slab(x, z0, z1, y0, y1).contains(v) <==> (v.x == x && z0 <= v.z < z1 && y0 <= v.y < y1),
    decreases z1 - z0,
{
    if z1 > z0 {
        lemma_slab_contains(x, z0, (z1 - 1) as i32, y0, y1, v);
        lemma_row_contains(x, (z1 - 1) as i32, y0, y1, v);
        lemma_concat_contains(slab(x, z0, (z1 - 1) as i32, y0, y1), row(x, (z1 - 1) as i32, y0, y1), v);
    }
}

/// [`range`] lists exactly the positions from `begin` until `end` exclusive on each axis.
pub proof fn lemma_range_contains(begin: IVec3, end: IVec3, v: IVec3)
    ensures
        range_seq(begin, end).contains(v) <==> (begin.x <= v.x < end.x && begin.y <= v.y < end.y
            && begin.z <= v.z < end.z),
    decreases end.x - begin.x,
{
    if end.x > begin.x {
        let prev = IVec3 { x: (end.x - 1) as i32, ..end };
        lemma_range_contains(begin, prev, v);
        lemma_slab_contains((end.x - 1) as i32, begin.z, end.z, begin.y, end.y, v);
        lemma_concat_contains(
            range_seq(begin, prev),
            slab((end.x - 1) as i32, begin.z, end.z, begin.y, end.y),
            v,
        );
    }
}

} // verus!
