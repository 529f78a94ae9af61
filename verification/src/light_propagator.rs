use vstd::prelude::*;

use std::collections::VecDeque;

use crate::chunk::{
    ChunkKind, ChunkLight, BUFFER_SIZE, at_bounds, in_bounds, index_of, is_at_bounds,
    is_within_bounds, lemma_index_injective, lemma_index_of, near_bounds, neighboring,
    neighboring_spec, overlap_voxel,
};
use crate::math::{IVec3, is_small, vadd, vrem, vsub, within_cube};
use crate::voxel::{Kind, Light, Side, SIDE_COUNT, side_at, lemma_side_index, MAX_NATURAL_INTENSITY};
use crate::genesis::VoxelUpdateList;
use crate::voxworld::{Chunk, VoxWorld, has_neighbors};

verus! {

/// The natural intensity that flows from a voxel of intensity `intensity` to its neighbor on
/// `side`: full sun light goes down undimmed, anything else loses one unit.
pub open spec fn propagated(side: Side, intensity: u8) -> u8 {
    if side == Side::Down && intensity == MAX_NATURAL_INTENSITY {
        intensity
    } else if intensity > 0 {
        (intensity - 1) as u8
    } else {
        0
    }
}

/// **Returns** the natural intensity propagated from a voxel of `intensity` to its `side`.
pub fn calc_propagated_intensity(side: Side, intensity: u8) -> (r: u8)
    ensures
        r == propagated(side, intensity),
{
    match side {
        Side::Down if intensity == MAX_NATURAL_INTENSITY => intensity,
        _ => if intensity > 0 {
            intensity - 1
        } else {
            0
        },
    }
}

/// More light in gives at least as much light out.
pub proof fn lemma_propagated_monotonic(side: Side, x: u8, y: u8)
    requires
        x <= y,
    ensures
        propagated(side, x) <= propagated(side, y),
        propagated(side, y) <= y,
{
}

/// Light can flow into `w`: its kind is known and not opaque.
pub open spec fn passable(kinds: ChunkKind, w: IVec3) -> bool {
    match kinds.absolute(w) {
        Some(k) => !k.opaque(),
        None => false,
    }
}

/// The neighbor propagation list: for each chunk direction, the voxels of that neighbor and
/// the natural intensity to propagate to each.
pub type NeighborPropagation = Vec<(IVec3, Vec<(IVec3, u8)>)>;

/// The list holds `item` under `key`.
pub open spec fn has_item(map: Seq<(IVec3, Vec<(IVec3, u8)>)>, key: IVec3, item: (IVec3, u8)) -> bool {
    exists|i: int| 0 <= i < map.len() && map[i].0 == key && (#[trigger] map[i].1@).contains(item)
}

pub open spec fn unique_keys(map: Seq<(IVec3, Vec<(IVec3, u8)>)>) -> bool {
    forall|i: int, j: int| 0 <= i < map.len() && 0 <= j < map.len() && i != j ==> map[i].0 != map[j].0
}

/// The voxel next to the chunk, reached from `u` through `side`, may receive the natural
/// intensity `x` propagated from `u`: it lets light through and is darker than `x`.
pub open spec fn valid_neighbor_item(c: Chunk, u: IVec3, side: Side, x: u8) -> bool {
    let w = vadd(u, side.direction());
    &&& in_bounds(u)
    &&& !in_bounds(w)
    &&& passable(c.kinds, w)
    &&& c.lights.absolute(w) is Some
    &&& x > c.lights.absolute(w)->0.natural
    &&& x <= propagated(side, c.lights.natural_at(u))
}

/// `item` (a voxel of the neighbor chunk in direction `key`, and an intensity) stands for a
/// valid propagation out of the chunk `c`.
pub open spec fn item_sound(c: Chunk, key: IVec3, item: (IVec3, u8)) -> bool {
    exists|u: IVec3, s: int|
        #![trigger valid_neighbor_item(c, u, side_at(s), item.1)]
        0 <= s < SIDE_COUNT && side_at(s).direction() == key && vrem(
            vadd(u, side_at(s).direction()),
            16,
        ) == item.0 && in_bounds(item.0) && valid_neighbor_item(c, u, side_at(s), item.1)
}

/// Every item of the list stands for a valid propagation to a neighbor.
pub open spec fn items_sound(c: Chunk, map: Seq<(IVec3, Vec<(IVec3, u8)>)>) -> bool {
    forall|k: IVec3, it: (IVec3, u8)| #[trigger] has_item(map, k, it) ==> item_sound(c, k, it)
}

/// Light from `u` has been spread through `side`: the passable neighbor there, inside the
/// chunk, holds at least the propagated intensity; outside, when darker than that, it is listed.
pub open spec fn spread_side(
    c: Chunk,
    map: Seq<(IVec3, Vec<(IVec3, u8)>)>,
    to_neighbors: bool,
    u: IVec3,
    side: Side,
) -> bool {
    let w = vadd(u, side.direction());
    let x = propagated(side, c.lights.natural_at(u));
    &&& (in_bounds(w) && passable(c.kinds, w) ==> c.lights.natural_at(w) >= x)
    &&& (to_neighbors && !in_bounds(w) && passable(c.kinds, w) && c.lights.absolute(w) is Some
        && x > c.lights.absolute(w)->0.natural ==> has_item(map, side.direction(), (vrem(w, 16), x)))
}

/// Light from `u` has been spread to all six sides.
pub open spec fn spread(
    c: Chunk,
    map: Seq<(IVec3, Vec<(IVec3, u8)>)>,
    to_neighbors: bool,
    u: IVec3,
) -> bool {
    forall|s: int| 0 <= s < SIDE_COUNT ==> #[trigger] spread_side(c, map, to_neighbors, u, side_at(s))
}

/// A voxel brighter than before got its light from a non-opaque neighbor inside the chunk.
pub open spec fn justified(before: ChunkLight, c: Chunk, v: IVec3) -> bool {
    c.lights.natural_at(v) > before.natural_at(v) ==> {
        &&& !c.kinds.at(v).opaque()
        &&& exists|u: IVec3, s: int|
            #![trigger vadd(u, side_at(s).direction()), c.lights.natural_at(u)]
            0 <= s < SIDE_COUNT && in_bounds(u) && vadd(u, side_at(s).direction()) == v
                && !c.kinds.at(u).opaque() && c.lights.natural_at(v) <= propagated(
                side_at(s),
                c.lights.natural_at(u),
            )
    }
}

/// The lights only changed in natural intensity, and only upwards.
pub open spec fn lights_grew(before: ChunkLight, after: ChunkLight) -> bool {
    &&& after.wf()
    &&& after.neighbors() == before.neighbors()
    &&& forall|v: IVec3|
        #![trigger after.at(v)]
        in_bounds(v) ==> after.at(v).artificial == before.at(v).artificial
            && after.at(v).natural >= before.at(v).natural
}

/// Every key of the list is a direction to a chunk touching this one.
pub open spec fn keys_small(map: Seq<(IVec3, Vec<(IVec3, u8)>)>) -> bool {
    forall|k: IVec3| #[trigger] has_key(map, k) ==> is_small(k, 1)
}

pub open spec fn has_key(map: Seq<(IVec3, Vec<(IVec3, u8)>)>, key: IVec3) -> bool {
    exists|i: int| 0 <= i < map.len() && #[trigger] map[i].0 == key
}

/// The room left for natural light in the first `n` voxels: the sum of `255 - natural`.
pub open spec fn deficit(s: Seq<Light>, n: int) -> int
    decreases n,
{
    if n <= 0 {
        0
    } else {
        deficit(s, n - 1) + (255 - s[n - 1].natural)
    }
}

pub proof fn lemma_deficit_nonneg(s: Seq<Light>, n: int)
    ensures
        deficit(s, n) >= 0,
    decreases n,
{
    if n > 0 {
        lemma_deficit_nonneg(s, n - 1);
    }
}

proof fn lemma_deficit_update(s: Seq<Light>, i: int, l: Light, n: int)
    requires
        0 <= i < s.len(),
        n <= s.len(),
    ensures
        n <= i ==> deficit(s.update(i, l), n) == deficit(s, n),
        n > i ==> deficit(s.update(i, l), n) == deficit(s, n) - l.natural + s[i].natural,
    decreases n,
{
    if n > 0 {
        lemma_deficit_update(s, i, l, n - 1);
    }
}

/// Adds `item` under `key`, creating the entry when needed.
fn push_item(map: &mut NeighborPropagation, key: IVec3, item: (IVec3, u8))
    requires
        unique_keys(old(map)@),
    ensures
        unique_keys(final(map)@),
        forall|k: IVec3, it: (IVec3, u8)|
            has_item(final(map)@, k, it) <==> (has_item(old(map)@, k, it) || (k == key && it == item)),
        forall|k: IVec3| has_key(final(map)@, k) <==> (has_key(old(map)@, k) || k == key),
{
    let mut i: usize = 0;
    while i < map.len()
        invariant
            i <= map@.len(),
            unique_keys(map@),
            map@ == old(map)@,
            forall|j: int| 0 <= j < i ==> map@[j].0 != key,
        decreases map@.len() - i,
    {
        if map[i].0 == key {
            let ghost old_map = map@;
            let entry = &mut map[i];
            entry.1.push(item);
            proof {
                assert(map@ == old_map.update(i as int, map@[i as int]));
                assert(map@[i as int].1@ == old_map[i as int].1@.push(item));
                assert forall|k: IVec3, it: (IVec3, u8)|
                    has_item(map@, k, it) <==> (has_item(old_map, k, it) || (k == key && it == item)) by {
                    if has_item(map@, k, it) {
                        let j = choose|j: int| 0 <= j < map@.len() && map@[j].0 == k && (#[trigger] map@[j].1@).contains(it);
                        if j != i {
                            assert(old_map[j] == map@[j]);
                        } else {
                            let m = map@[j].1@.index_of(it);
                            if m < old_map[j].1@.len() {
                                assert(old_map[j].1@[m] == it);
                            }
                        }
                    }
                    if has_item(old_map, k, it) {
                        let j = choose|j: int| 0 <= j < old_map.len() && old_map[j].0 == k && (#[trigger] old_map[j].1@).contains(it);
                        if j != i {
                            assert(old_map[j] == map@[j]);
                        } else {
                            let m = old_map[j].1@.index_of(it);
                            assert(map@[j].1@[m] == it);
                        }
                    }
                    if k == key && it == item {
                        assert(map@[i as int].1@[old_map[i as int].1@.len() as int] == item);
                    }
                }
                assert forall|k: IVec3| has_key(map@, k) <==> (has_key(old_map, k) || k == key) by {
                    if has_key(map@, k) {
                        let j = choose|j: int| 0 <= j < map@.len() && #[trigger] map@[j].0 == k;
                        assert(old_map[j].0 == map@[j].0);
                    }
                    if has_key(old_map, k) {
                        let j = choose|j: int| 0 <= j < old_map.len() && #[trigger] old_map[j].0 == k;
                        assert(old_map[j].0 == map@[j].0);
                    }
                    if k == key {
                        assert(map@[i as int].0 == key);
                    }
                }
            }
            return;
        }
        i = i + 1;
    }
    let ghost old_map = map@;
    let mut items: Vec<(IVec3, u8)> = Vec::new();
    items.push(item);
    map.push((key, items));
    proof {
        assert forall|k: IVec3, it: (IVec3, u8)|
            has_item(map@, k, it) <==> (has_item(old_map, k, it) || (k == key && it == item)) by {
            if has_item(map@, k, it) {
                let j = choose|j: int| 0 <= j < map@.len() && map@[j].0 == k && (#[trigger] map@[j].1@).contains(it);
                if j < old_map.len() {
                    assert(old_map[j] == map@[j]);
                } else {
                    assert(map@[j].1@ == seq![item]);
                }
            }
            if has_item(old_map, k, it) {
                let j = choose|j: int| 0 <= j < old_map.len() && old_map[j].0 == k && (#[trigger] old_map[j].1@).contains(it);
                assert(old_map[j] == map@[j]);
            }
            if k == key && it == item {
                assert(map@[old_map.len() as int].1@[0] == item);
            }
        }
        assert forall|k: IVec3| has_key(map@, k) <==> (has_key(old_map, k) || k == key) by {
            if has_key(map@, k) {
                let j = choose|j: int| 0 <= j < map@.len() && #[trigger] map@[j].0 == k;
                if j < old_map.len() {
                    assert(old_map[j].0 == map@[j].0);
                }
            }
            if has_key(old_map, k) {
                let j = choose|j: int| 0 <= j < old_map.len() && #[trigger] old_map[j].0 == k;
                assert(old_map[j].0 == map@[j].0);
            }
            if k == key {
                assert(map@[old_map.len() as int].0 == key);
            }
        }
    }
}

/// Makes sure an entry exists for `key`.
fn touch_key(map: &mut NeighborPropagation, key: IVec3)
    requires
        unique_keys(old(map)@),
    ensures
        unique_keys(final(map)@),
        forall|k: IVec3, it: (IVec3, u8)| has_item(final(map)@, k, it) <==> has_item(old(map)@, k, it),
        forall|k: IVec3| has_key(final(map)@, k) <==> (has_key(old(map)@, k) || k == key),
{
    let mut i: usize = 0;
    while i < map.len()
        invariant
            i <= map@.len(),
            unique_keys(map@),
            map@ == old(map)@,
            forall|j: int| 0 <= j < i ==> map@[j].0 != key,
        decreases map@.len() - i,
    {
        if map[i].0 == key {
            proof {
                assert(has_key(map@, key));
            }
            return;
        }
        i = i + 1;
    }
    let ghost old_map = map@;
    map.push((key, Vec::new()));
    proof {
        assert forall|k: IVec3, it: (IVec3, u8)| has_item(map@, k, it) <==> has_item(old_map, k, it) by {
            if has_item(map@, k, it) {
                let j = choose|j: int| 0 <= j < map@.len() && map@[j].0 == k && (#[trigger] map@[j].1@).contains(it);
                if j < old_map.len() {
                    assert(old_map[j] == map@[j]);
                } else {
                    assert(map@[j].1@.len() == 0);
                }
            }
            if has_item(old_map, k, it) {
                let j = choose|j: int| 0 <= j < old_map.len() && old_map[j].0 == k && (#[trigger] old_map[j].1@).contains(it);
                assert(old_map[j] == map@[j]);
            }
        }
        assert forall|k: IVec3| has_key(map@, k) <==> (has_key(old_map, k) || k == key) by {
            if has_key(map@, k) {
                let j = choose|j: int| 0 <= j < map@.len() && #[trigger] map@[j].0 == k;
                if j < old_map.len() {
                    assert(old_map[j].0 == map@[j].0);
                }
            }
            if has_key(old_map, k) {
                let j = choose|j: int| 0 <= j < old_map.len() && #[trigger] old_map[j].0 == k;
                assert(old_map[j].0 == map@[j].0);
            }
            if k == key {
                assert(map@[old_map.len() as int].0 == key);
            }
        }
    }
}

/// The directions of the neighbor chunks that the chunk voxel `v` lies next to.
pub open spec fn touched_dirs(v: IVec3) -> Seq<IVec3> {
    neighboring_spec(IVec3 { x: 0, y: 0, z: 0 }, v)
}

proof fn lemma_touched_small(v: IVec3)
    ensures
        forall|d: IVec3| #[trigger] touched_dirs(v).contains(d) ==> is_small(d, 1),
{
    assert forall|d: IVec3| #[trigger] touched_dirs(v).contains(d) implies is_small(d, 1) by {
        let units = crate::math::spec_to_unit_dir(crate::chunk::boundary_dir(v));
        let i = choose|i: int| 0 <= i < touched_dirs(v).len() && touched_dirs(v)[i] == d;
        assert(touched_dirs(v)[i] == vadd(IVec3 { x: 0, y: 0, z: 0 }, units[i]));
    }
}

/// A voxel brighter than it was in `before`.
pub open spec fn raised(before: ChunkLight, c: Chunk, v: IVec3) -> bool {
    c.lights.natural_at(v) > before.natural_at(v)
}

/// Flags as touched every neighbor chunk that the chunk voxel `voxel` lies next to.
fn mark_touched(map: &mut NeighborPropagation, voxel: IVec3)
    requires
        unique_keys(old(map)@),
    ensures
        unique_keys(final(map)@),
        forall|k: IVec3, it: (IVec3, u8)| has_item(final(map)@, k, it) <==> has_item(old(map)@, k, it),
        forall|k: IVec3|
            has_key(final(map)@, k) <==> (has_key(old(map)@, k) || neighboring_spec(
                IVec3 { x: 0, y: 0, z: 0 },
                voxel,
            ).contains(k)),
{
    let dirs = neighboring(IVec3::zero(), voxel);
    let mut j: usize = 0;
    while j < dirs.len()
        invariant
            j <= dirs@.len(),
            dirs@ == neighboring_spec(IVec3 { x: 0, y: 0, z: 0 }, voxel),
            unique_keys(map@),
            forall|k: IVec3, it: (IVec3, u8)| has_item(map@, k, it) <==> has_item(old(map)@, k, it),
            forall|k: IVec3|
                has_key(map@, k) <==> (has_key(old(map)@, k) || dirs@.subrange(0, j as int).contains(k)),
        decreases dirs@.len() - j,
    {
        touch_key(map, dirs[j]);
        proof {
            let a = dirs@.subrange(0, j + 1);
            let b = dirs@.subrange(0, j as int);
            assert(a =~= b.push(dirs@[j as int]));
            assert forall|k: IVec3| a.contains(k) <==> (b.contains(k) || k == dirs@[j as int]) by {
                if a.contains(k) {
                    let i = choose|i: int| 0 <= i < a.len() && a[i] == k;
                    if i < b.len() {
                        assert(b[i] == k);
                    }
                }
                if b.contains(k) {
                    let i = choose|i: int| 0 <= i < b.len() && b[i] == k;
                    assert(a[i] == k);
                }
                if k == dirs@[j as int] {
                    assert(a[b.len() as int] == k);
                }
            }
        }
        j = j + 1;
    }
    proof {
        assert(dirs@.subrange(0, j as int) =~= dirs@);
    }
}

/// What one step of the flood fill, from `u` through `side`, did to the chunk, the neighbor
/// list and the queue.
pub open spec fn side_step(
    c1: Chunk,
    m1: Seq<(IVec3, Vec<(IVec3, u8)>)>,
    q1: Seq<IVec3>,
    c2: Chunk,
    m2: Seq<(IVec3, Vec<(IVec3, u8)>)>,
    q2: Seq<IVec3>,
    u: IVec3,
    side: Side,
    to_neighbors: bool,
) -> bool {
    let w = vadd(u, side.direction());
    let up = in_bounds(w) && c2.lights.natural_at(w) > c1.lights.natural_at(w);
    &&& c2.wf()
    &&& c2.kinds == c1.kinds
    &&& lights_grew(c1.lights, c2.lights)
    &&& forall|v: IVec3|
        #![trigger c2.lights.at(v)]
        in_bounds(v) && v != w ==> c2.lights.at(v) == c1.lights.at(v)
    &&& spread_side(c2, m2, to_neighbors, u, side)
    &&& unique_keys(m2)
    &&& (up ==> {
        &&& passable(c1.kinds, w)
        &&& c2.lights.natural_at(w) == propagated(side, c1.lights.natural_at(u))
        &&& (c2.lights.natural_at(w) > 1 ==> q2 == q1.push(w))
        &&& (c2.lights.natural_at(w) <= 1 ==> q2 == q1)
        &&& (at_bounds(w) ==> forall|d: IVec3|
            #[trigger] touched_dirs(w).contains(d) ==> has_key(m2, d))
    })
    &&& (!up ==> q2 == q1)
    &&& forall|k: IVec3, it: (IVec3, u8)| has_item(m1, k, it) ==> #[trigger] has_item(m2, k, it)
    &&& forall|k: IVec3, it: (IVec3, u8)|
        #[trigger] has_item(m2, k, it) ==> has_item(m1, k, it) || (to_neighbors && item_sound(
            c2,
            k,
            it,
        ))
    &&& forall|k: IVec3| has_key(m1, k) ==> #[trigger] has_key(m2, k)
    &&& forall|k: IVec3| #[trigger] has_key(m2, k) ==> has_key(m1, k) || is_small(k, 1)
    &&& deficit(c2.lights@, BUFFER_SIZE as int) + q2.len() <= deficit(c1.lights@, BUFFER_SIZE as int)
        + q1.len()
}

/// Spreads the natural light of the chunk voxel `u` to its neighbor on `side`.
#[verifier::rlimit(40)]
fn spread_to_side(
    chunk: &mut Chunk,
    map: &mut NeighborPropagation,
    queue: &mut VecDeque<IVec3>,
    u: IVec3,
    side: Side,
    to_neighbors: bool,
)
    requires
        old(chunk).wf(),
        in_bounds(u),
        unique_keys(old(map)@),
    ensures
        side_step(
            *old(chunk),
            old(map)@,
            old(queue)@,
            *final(chunk),
            final(map)@,
            final(queue)@,
            u,
            side,
            to_neighbors,
        ),
{
    let w = u.plus(side.dir());
    let passable_w = match chunk.kinds.get_absolute(w) {
        Some(k) => !k.is_opaque(),
        None => false,
    };
    if !passable_w {
        return;
    }
    let x = calc_propagated_intensity(side, chunk.lights.get_natural(u));
    if is_within_bounds(w) {
        let current = chunk.lights.get_natural(w);
        if x > current {
            let ghost l1 = chunk.lights;
            chunk.lights.set_natural(w, x);
            proof {
                lemma_index_of(w);
                lemma_deficit_update(
                    l1@,
                    index_of(w),
                    Light { natural: x, artificial: l1.at(w).artificial },
                    BUFFER_SIZE as int,
                );
                assert forall|v: IVec3| in_bounds(v) && v != w implies #[trigger] chunk.lights.at(v)
                    == l1.at(v) by {
                    lemma_index_of(v);
                    if index_of(v) == index_of(w) {
                        lemma_index_injective(v, w);
                    }
                }
            }
            if is_at_bounds(w) {
                mark_touched(map, w);
                proof {
                    lemma_touched_small(w);
                }
            }
            if x > 1 {
                queue.push_back(w);
            }
        }
    } else if to_neighbors {
        match chunk.lights.get_absolute(w) {
            Some(l) => {
                if x > l.natural {
                    let (_, neighbor_voxel) = overlap_voxel(w);
                    push_item(map, side.dir(), (neighbor_voxel, x));
                    proof {
                        lemma_side_index(side);
                        let item = (neighbor_voxel, x);
                        assert(side_at(side.idx()).direction() == side.direction());
                        assert(vrem(vadd(u, side_at(side.idx()).direction()), 16) == item.0);
                        assert(valid_neighbor_item(*chunk, u, side_at(side.idx()), item.1));
                        assert(item_sound(*chunk, side.direction(), (neighbor_voxel, x)));
                    }
                }
            },
            None => {},
        }
    }
}

proof fn lemma_spread_side_frame(
    c1: Chunk,
    c2: Chunk,
    m1: Seq<(IVec3, Vec<(IVec3, u8)>)>,
    m2: Seq<(IVec3, Vec<(IVec3, u8)>)>,
    to_neighbors: bool,
    u: IVec3,
    side: Side,
)
    requires
        c2.kinds == c1.kinds,
        lights_grew(c1.lights, c2.lights),
        in_bounds(u),
        c2.lights.natural_at(u) == c1.lights.natural_at(u),
        forall|k: IVec3, it: (IVec3, u8)| has_item(m1, k, it) ==> #[trigger] has_item(m2, k, it),
        spread_side(c1, m1, to_neighbors, u, side),
    ensures
        spread_side(c2, m2, to_neighbors, u, side),
{
    let w = vadd(u, side.direction());
    if in_bounds(w) {
        assert(c2.lights.at(w).natural >= c1.lights.at(w).natural);
    }
}

proof fn lemma_spread_frame(
    c1: Chunk,
    c2: Chunk,
    m1: Seq<(IVec3, Vec<(IVec3, u8)>)>,
    m2: Seq<(IVec3, Vec<(IVec3, u8)>)>,
    to_neighbors: bool,
    u: IVec3,
)
    requires
        c2.kinds == c1.kinds,
        lights_grew(c1.lights, c2.lights),
        in_bounds(u),
        c2.lights.natural_at(u) == c1.lights.natural_at(u),
        forall|k: IVec3, it: (IVec3, u8)| has_item(m1, k, it) ==> #[trigger] has_item(m2, k, it),
        spread(c1, m1, to_neighbors, u),
    ensures
        spread(c2, m2, to_neighbors, u),
{
    assert forall|s: int| 0 <= s < SIDE_COUNT implies #[trigger] spread_side(
        c2,
        m2,
        to_neighbors,
        u,
        side_at(s),
    ) by {
        lemma_spread_side_frame(c1, c2, m1, m2, to_neighbors, u, side_at(s));
    }
}

/// A voxel of natural intensity 0 or 1 has nothing to spread.
proof fn lemma_spread_low(
    c: Chunk,
    m: Seq<(IVec3, Vec<(IVec3, u8)>)>,
    to_neighbors: bool,
    u: IVec3,
)
    requires
        c.lights.natural_at(u) <= 1,
    ensures
        spread(c, m, to_neighbors, u),
{
    assert forall|s: int| 0 <= s < SIDE_COUNT implies #[trigger] spread_side(
        c,
        m,
        to_neighbors,
        u,
        side_at(s),
    ) by {
        assert(propagated(side_at(s), c.lights.natural_at(u)) == 0);
    }
}

proof fn lemma_item_frame(c1: Chunk, c2: Chunk, k: IVec3, it: (IVec3, u8))
    requires
        c2.kinds == c1.kinds,
        lights_grew(c1.lights, c2.lights),
        item_sound(c1, k, it),
    ensures
        item_sound(c2, k, it),
{
    let (u, s) = choose|u: IVec3, s: int|
        #![trigger valid_neighbor_item(c1, u, side_at(s), it.1)]
        0 <= s < SIDE_COUNT && side_at(s).direction() == k && vrem(
            vadd(u, side_at(s).direction()),
            16,
        ) == it.0 && in_bounds(it.0) && valid_neighbor_item(c1, u, side_at(s), it.1);
    assert(c2.lights.at(u).natural >= c1.lights.at(u).natural);
    lemma_propagated_monotonic(side_at(s), c1.lights.natural_at(u), c2.lights.natural_at(u));
    assert(valid_neighbor_item(c2, u, side_at(s), it.1));
}

proof fn lemma_justified_frame(before: ChunkLight, c1: Chunk, c2: Chunk, v: IVec3)
    requires
        c2.kinds == c1.kinds,
        lights_grew(c1.lights, c2.lights),
        c2.lights.natural_at(v) == c1.lights.natural_at(v),
        justified(before, c1, v),
    ensures
        justified(before, c2, v),
{
    if c2.lights.natural_at(v) > before.natural_at(v) {
        let (u, s) = choose|u: IVec3, s: int|
            #![trigger vadd(u, side_at(s).direction()), c1.lights.natural_at(u)]
            0 <= s < SIDE_COUNT && in_bounds(u) && vadd(u, side_at(s).direction()) == v
                && !c1.kinds.at(u).opaque() && c1.lights.natural_at(v) <= propagated(
                side_at(s),
                c1.lights.natural_at(u),
            );
        assert(c2.lights.at(u).natural >= c1.lights.at(u).natural);
        lemma_propagated_monotonic(side_at(s), c1.lights.natural_at(u), c2.lights.natural_at(u));
        assert(vadd(u, side_at(s).direction()) == v && c2.lights.natural_at(u) >= 0);
    }
}

/// What holds of the chunk and of the neighbor list all along the flood fill started on the
/// chunk `before`.
pub open spec fn fill_inv(
    before: Chunk,
    to_neighbors: bool,
    c: Chunk,
    map: Seq<(IVec3, Vec<(IVec3, u8)>)>,
) -> bool {
    &&& c.wf()
    &&& c.kinds == before.kinds
    &&& lights_grew(before.lights, c.lights)
    &&& unique_keys(map)
    &&& keys_small(map)
    &&& items_sound(c, map)
    &&& (!to_neighbors ==> forall|k: IVec3, it: (IVec3, u8)| !#[trigger] has_item(map, k, it))
    &&& forall|v: IVec3| in_bounds(v) ==> #[trigger] justified(before.lights, c, v)
    &&& forall|v: IVec3, d: IVec3|
        #![trigger touched_dirs(v).contains(d), raised(before.lights, c, v)]
        in_bounds(v) && raised(before.lights, c, v) && at_bounds(v) && touched_dirs(v).contains(d)
            ==> has_key(map, d)
}

/// A voxel that was a seed or got brighter, and lets light through, has spread its light or
/// waits in the queue.
pub open spec fn settled(
    before: Chunk,
    seeds: Seq<IVec3>,
    to_neighbors: bool,
    c: Chunk,
    map: Seq<(IVec3, Vec<(IVec3, u8)>)>,
    queue: Seq<IVec3>,
    v: IVec3,
) -> bool {
    (seeds.contains(v) || raised(before.lights, c, v)) && !c.kinds.at(v).opaque() ==> spread(
        c,
        map,
        to_neighbors,
        v,
    ) || queue.contains(v)
}

proof fn lemma_side_step(
    before: Chunk,
    seeds: Seq<IVec3>,
    to_neighbors: bool,
    c1: Chunk,
    m1: Seq<(IVec3, Vec<(IVec3, u8)>)>,
    q1: Seq<IVec3>,
    c2: Chunk,
    m2: Seq<(IVec3, Vec<(IVec3, u8)>)>,
    q2: Seq<IVec3>,
    u: IVec3,
    side: Side,
)
    requires
        fill_inv(before, to_neighbors, c1, m1),
        forall|v: IVec3|
            in_bounds(v) && v != u ==> #[trigger] settled(before, seeds, to_neighbors, c1, m1, q1, v),
        forall|i: int| 0 <= i < q1.len() ==> in_bounds(#[trigger] q1[i]),
        in_bounds(u),
        !c1.kinds.at(u).opaque(),
        side_step(c1, m1, q1, c2, m2, q2, u, side, to_neighbors),
    ensures
        fill_inv(before, to_neighbors, c2, m2),
        forall|v: IVec3|
            in_bounds(v) && v != u ==> #[trigger] settled(before, seeds, to_neighbors, c2, m2, q2, v),
        forall|i: int| 0 <= i < q2.len() ==> in_bounds(#[trigger] q2[i]),
        c2.lights.natural_at(u) == c1.lights.natural_at(u),
        forall|t: Side| #[trigger]
            spread_side(c1, m1, to_neighbors, u, t) ==> spread_side(c2, m2, to_neighbors, u, t),
{
    let w = vadd(u, side.direction());
    let up = in_bounds(w) && c2.lights.natural_at(w) > c1.lights.natural_at(w);
    assert(u != w);
    assert(c2.lights.at(u) == c1.lights.at(u));
    assert forall|v: IVec3|
        #![trigger c2.lights.at(v)]
        in_bounds(v) implies c2.lights.at(v).artificial == before.lights.at(v).artificial
        && c2.lights.at(v).natural >= before.lights.at(v).natural by {
        assert(c1.lights.at(v).natural >= before.lights.at(v).natural);
    }
    assert forall|k: IVec3, it: (IVec3, u8)| #[trigger] has_item(m2, k, it) implies item_sound(
        c2,
        k,
        it,
    ) by {
        if has_item(m1, k, it) {
            lemma_item_frame(c1, c2, k, it);
        }
    }
    assert forall|v: IVec3| in_bounds(v) implies #[trigger] justified(before.lights, c2, v) by {
        if v == w && up {
            lemma_side_index(side);
            let s = side.idx();
            assert(vadd(u, side_at(s).direction()) == v);
            assert(c2.lights.natural_at(u) == c1.lights.natural_at(u));
        } else {
            if v != w {
                assert(c2.lights.at(v) == c1.lights.at(v));
            } else {
                assert(c2.lights.at(v).natural >= c1.lights.at(v).natural);
            }
            lemma_justified_frame(before.lights, c1, c2, v);
        }
    }
    assert forall|v: IVec3, d: IVec3|
        #![trigger touched_dirs(v).contains(d), raised(before.lights, c2, v)]
        in_bounds(v) && raised(before.lights, c2, v) && at_bounds(v) && touched_dirs(v).contains(
            d,
        ) implies has_key(m2, d) by {
        if !(v == w && up) {
            if v != w {
                assert(c2.lights.at(v) == c1.lights.at(v));
            } else {
                assert(c2.lights.at(v).natural >= c1.lights.at(v).natural);
            }
            assert(raised(before.lights, c1, v));
            assert(has_key(m1, d));
        }
    }
    assert forall|v: IVec3| in_bounds(v) && v != u implies #[trigger] settled(
        before,
        seeds,
        to_neighbors,
        c2,
        m2,
        q2,
        v,
    ) by {
        if v == w && up {
            if c2.lights.natural_at(w) > 1 {
                assert(q2[q1.len() as int] == w);
            } else {
                lemma_spread_low(c2, m2, to_neighbors, w);
            }
        } else {
            if v != w {
                assert(c2.lights.at(v) == c1.lights.at(v));
            } else {
                assert(c2.lights.at(v).natural >= c1.lights.at(v).natural);
            }
            assert(settled(before, seeds, to_neighbors, c1, m1, q1, v));
            if (seeds.contains(v) || raised(before.lights, c2, v)) && !c2.kinds.at(v).opaque() {
                if spread(c1, m1, to_neighbors, v) {
                    lemma_spread_frame(c1, c2, m1, m2, to_neighbors, v);
                } else {
                    let i = choose|i: int| 0 <= i < q1.len() && q1[i] == v;
                    assert(q2[i] == v);
                }
            }
        }
    }
    assert forall|i: int| 0 <= i < q2.len() implies in_bounds(#[trigger] q2[i]) by {
        if i < q1.len() {
            assert(q2[i] == q1[i]);
        }
    }
    assert forall|t: Side| #[trigger]
        spread_side(c1, m1, to_neighbors, u, t) implies spread_side(c2, m2, to_neighbors, u, t) by {
        lemma_spread_side_frame(c1, c2, m1, m2, to_neighbors, u, t);
    }
}

/// Propagates the natural light of the chunk by flood fill, breadth first, from the seed
/// `voxels`: a voxel that lets light through gives each passable neighbor the intensity
/// propagated to it, unless it is already as bright, and a brightened voxel spreads in turn.
///
/// **Returns** the list of propagations for the neighbor chunks: for each direction of a
/// neighbor chunk (relative to this one), the voxels there and the intensity each should get.
/// It is filled only when `propagate_to_neighbors` holds. A neighbor next to a brightened
/// voxel on the chunk's edge gets an entry, empty or not, so that it can be updated.
pub fn propagate_chunk_natural_light(
    chunk: &mut Chunk,
    voxels: &[IVec3],
    propagate_to_neighbors: bool,
) -> (r: NeighborPropagation)
    requires
        old(chunk).wf(),
        forall|i: int| 0 <= i < voxels@.len() ==> in_bounds(#[trigger] voxels@[i]),
    ensures
        final(chunk).wf(),
        final(chunk).kinds == old(chunk).kinds,
        lights_grew(old(chunk).lights, final(chunk).lights),
        unique_keys(r@),
        keys_small(r@),
        items_sound(*final(chunk), r@),
        !propagate_to_neighbors ==> forall|k: IVec3, it: (IVec3, u8)| !#[trigger] has_item(r@, k, it),
        forall|v: IVec3| in_bounds(v) ==> #[trigger] justified(old(chunk).lights, *final(chunk), v),
        forall|v: IVec3, d: IVec3|
            #![trigger touched_dirs(v).contains(d), raised(old(chunk).lights, *final(chunk), v)]
            in_bounds(v) && raised(old(chunk).lights, *final(chunk), v) && at_bounds(v)
                && touched_dirs(v).contains(d) ==> has_key(r@, d),
        forall|v: IVec3|
            in_bounds(v) && (voxels@.contains(v) || raised(old(chunk).lights, *final(chunk), v))
                && !final(chunk).kinds.at(v).opaque() ==> #[trigger] spread(
                *final(chunk),
                r@,
                propagate_to_neighbors,
                v,
            ),
{
    let ghost before = *chunk;
    let mut queue: VecDeque<IVec3> = VecDeque::new();
    let mut i: usize = 0;
    while i < voxels.len()
        invariant
            i <= voxels@.len(),
            queue@ == voxels@.subrange(0, i as int),
        decreases voxels@.len() - i,
    {
        queue.push_back(voxels[i]);
        i = i + 1;
    }
    proof {
        assert(queue@ =~= voxels@);
    }
    let mut map: NeighborPropagation = Vec::new();
    proof {
        assert forall|v: IVec3| in_bounds(v) implies #[trigger] settled(
            before,
            voxels@,
            propagate_to_neighbors,
            *chunk,
            map@,
            queue@,
            v,
        ) by {}
        assert forall|k: IVec3, it: (IVec3, u8)| !#[trigger] has_item(map@, k, it) by {}
    }
    while queue.len() > 0
        invariant
            before == *old(chunk),
            fill_inv(before, propagate_to_neighbors, *chunk, map@),
            forall|v: IVec3|
                in_bounds(v) ==> #[trigger] settled(
                    before,
                    voxels@,
                    propagate_to_neighbors,
                    *chunk,
                    map@,
                    queue@,
                    v,
                ),
            forall|i: int| 0 <= i < queue@.len() ==> in_bounds(#[trigger] queue@[i]),
        decreases deficit(chunk.lights@, BUFFER_SIZE as int) + queue@.len(),
    {
        let ghost q0 = queue@;
        let u = queue.pop_front().unwrap();
        proof {
            assert(in_bounds(q0[0]));
            assert forall|v: IVec3| v != u && q0.contains(v) implies queue@.contains(v) by {
                let j = choose|j: int| 0 <= j < q0.len() && q0[j] == v;
                assert(queue@[j - 1] == v);
            }
            assert forall|i: int| 0 <= i < queue@.len() implies in_bounds(#[trigger] queue@[i]) by {
                assert(queue@[i] == q0[i + 1]);
            }
            lemma_deficit_nonneg(chunk.lights@, BUFFER_SIZE as int);
        }
        if chunk.kinds.get(u).is_opaque() {
            proof {
                assert forall|v: IVec3| in_bounds(v) implies #[trigger] settled(
                    before,
                    voxels@,
                    propagate_to_neighbors,
                    *chunk,
                    map@,
                    queue@,
                    v,
                ) by {
                    assert(settled(before, voxels@, propagate_to_neighbors, *chunk, map@, q0, v));
                }
            }
            continue;
        }
        let ghost d0 = deficit(chunk.lights@, BUFFER_SIZE as int) + queue@.len();
        proof {
            assert forall|v: IVec3| in_bounds(v) && v != u implies #[trigger] settled(
                before,
                voxels@,
                propagate_to_neighbors,
                *chunk,
                map@,
                queue@,
                v,
            ) by {
                assert(settled(before, voxels@, propagate_to_neighbors, *chunk, map@, q0, v));
            }
        }
        let mut s: usize = 0;
        while s < SIDE_COUNT
            invariant
                s <= SIDE_COUNT,
                before == *old(chunk),
                fill_inv(before, propagate_to_neighbors, *chunk, map@),
                forall|v: IVec3|
                    in_bounds(v) && v != u ==> #[trigger] settled(
                        before,
                        voxels@,
                        propagate_to_neighbors,
                        *chunk,
                        map@,
                        queue@,
                        v,
                    ),
                forall|i: int| 0 <= i < queue@.len() ==> in_bounds(#[trigger] queue@[i]),
                in_bounds(u),
                !chunk.kinds.at(u).opaque(),
                forall|t: int|
                    0 <= t < s ==> #[trigger] spread_side(
                        *chunk,
                        map@,
                        propagate_to_neighbors,
                        u,
                        side_at(t),
                    ),
                deficit(chunk.lights@, BUFFER_SIZE as int) + queue@.len() <= d0,
            decreases SIDE_COUNT - s,
        {
            let side = Side::from_index(s);
            let ghost c1 = *chunk;
            let ghost m1 = map@;
            let ghost q1 = queue@;
            spread_to_side(chunk, &mut map, &mut queue, u, side, propagate_to_neighbors);
            proof {
                lemma_side_step(
                    before,
                    voxels@,
                    propagate_to_neighbors,
                    c1,
                    m1,
                    q1,
                    *chunk,
                    map@,
                    queue@,
                    u,
                    side,
                );
                assert forall|t: int| 0 <= t < s + 1 implies #[trigger] spread_side(
                    *chunk,
                    map@,
                    propagate_to_neighbors,
                    u,
                    side_at(t),
                ) by {
                    if t < s {
                        assert(spread_side(c1, m1, propagate_to_neighbors, u, side_at(t)));
                    }
                }
            }
            s = s + 1;
        }
        proof {
            assert(spread(*chunk, map@, propagate_to_neighbors, u));
            assert forall|v: IVec3| in_bounds(v) implies #[trigger] settled(
                before,
                voxels@,
                propagate_to_neighbors,
                *chunk,
                map@,
                queue@,
                v,
            ) by {}
            lemma_deficit_nonneg(chunk.lights@, BUFFER_SIZE as int);
        }
    }
    proof {
        assert forall|v: IVec3|
            in_bounds(v) && (voxels@.contains(v) || raised(old(chunk).lights, *chunk, v))
                && !chunk.kinds.at(v).opaque() implies #[trigger] spread(
            *chunk,
            map@,
            propagate_to_neighbors,
            v,
        ) by {
            assert(settled(before, voxels@, propagate_to_neighbors, *chunk, map@, queue@, v));
        }
    }
    map
}

proof fn lemma_deficit_grew(a: Seq<Light>, b: Seq<Light>, n: int)
    requires
        0 <= n <= a.len(),
        n <= b.len(),
        forall|k: int| 0 <= k < n ==> (#[trigger] b[k]).natural >= a[k].natural,
    ensures
        deficit(b, n) <= deficit(a, n),
    decreases n,
{
    if n > 0 {
        lemma_deficit_grew(a, b, n - 1);
    }
}

/// Brighter lights leave less room.
proof fn lemma_lights_grew_room(before: ChunkLight, after: ChunkLight)
    requires
        before.wf(),
        lights_grew(before, after),
    ensures
        deficit(after@, BUFFER_SIZE as int) <= deficit(before@, BUFFER_SIZE as int),
{
    assert forall|k: int| 0 <= k < BUFFER_SIZE implies (#[trigger] after@[k]).natural
        >= before@[k].natural by {
        crate::chunk::lemma_voxel_at(k);
        let v = crate::chunk::voxel_at(k);
        assert(after.at(v).natural >= before.at(v).natural);
    }
    lemma_deficit_grew(before@, after@, BUFFER_SIZE as int);
}

/// Every loaded chunk has room for its six neighbor positions.
pub open spec fn world_in_range(world: Map<IVec3, Chunk>) -> bool {
    forall|k: IVec3| #[trigger] world.dom().contains(k) ==> has_neighbors(k)
}

/// The same chunks, with the same kinds; lights changed only in natural intensity, upwards.
pub open spec fn world_lights_grew(before: Map<IVec3, Chunk>, after: Map<IVec3, Chunk>) -> bool {
    &&& after.dom() == before.dom()
    &&& forall|k: IVec3|
        #[trigger] after.dom().contains(k) ==> {
            &&& after[k].kinds == before[k].kinds
            &&& after[k].lights.wf()
            &&& forall|v: IVec3|
                #![trigger after[k].lights.at(v)]
                in_bounds(v) ==> after[k].lights.at(v).artificial == before[k].lights.at(
                    v,
                ).artificial && after[k].lights.at(v).natural >= before[k].lights.at(v).natural
        }
}

/// Sets on the chunk at `local` the intensities of `items` that are brighter than what it
/// holds, flagging the chunks around each changed voxel as dirty.
/// **Returns** the changed voxels that have light to spread further.
fn apply_neighbor_items(
    chunk: &mut Chunk,
    local: IVec3,
    items: &Vec<(IVec3, u8)>,
    dirty: &mut Vec<IVec3>,
) -> (r: Vec<IVec3>)
    requires
        old(chunk).wf(),
        has_neighbors(local),
        old(dirty)@.no_duplicates(),
        forall|m: int| 0 <= m < items@.len() ==> in_bounds(#[trigger] items@[m].0),
    ensures
        final(chunk).wf(),
        final(chunk).kinds == old(chunk).kinds,
        lights_grew(old(chunk).lights, final(chunk).lights),
        final(dirty)@.no_duplicates(),
        forall|d: IVec3| old(dirty)@.contains(d) ==> #[trigger] final(dirty)@.contains(d),
        forall|m: int| 0 <= m < r@.len() ==> in_bounds(#[trigger] r@[m]),
        forall|v: IVec3|
            #![trigger final(chunk).lights.at(v)]
            in_bounds(v) && final(chunk).lights.at(v).natural > old(chunk).lights.at(v).natural
                && final(chunk).lights.at(v).natural > 1 ==> r@.contains(v),
        forall|m: int|
            0 <= m < items@.len() ==> final(chunk).lights.at(items@[m].0).natural
                >= #[trigger] items@[m].1,
        forall|v: IVec3|
            #![trigger final(chunk).lights.at(v)]
            in_bounds(v) && final(chunk).lights.at(v).natural > old(chunk).lights.at(v).natural
                ==> exists|m: int|
                0 <= m < items@.len() && items@[m].0 == v
                    && #[trigger] items@[m].1 == final(chunk).lights.at(v).natural,
        r@.len() > 0 ==> deficit(final(chunk).lights@, BUFFER_SIZE as int) < deficit(
            old(chunk).lights@,
            BUFFER_SIZE as int,
        ),
        deficit(final(chunk).lights@, BUFFER_SIZE as int) <= deficit(
            old(chunk).lights@,
            BUFFER_SIZE as int,
        ),
{
    let mut list: Vec<IVec3> = Vec::new();
    let mut m: usize = 0;
    while m < items.len()
        invariant
            m <= items@.len(),
            chunk.wf(),
            chunk.kinds == old(chunk).kinds,
            lights_grew(old(chunk).lights, chunk.lights),
            has_neighbors(local),
            forall|k: int| 0 <= k < items@.len() ==> in_bounds(#[trigger] items@[k].0),
            dirty@.no_duplicates(),
            forall|d: IVec3| old(dirty)@.contains(d) ==> #[trigger] dirty@.contains(d),
            forall|k: int| 0 <= k < list@.len() ==> in_bounds(#[trigger] list@[k]),
            forall|v: IVec3|
                #![trigger chunk.lights.at(v)]
                in_bounds(v) && chunk.lights.at(v).natural > old(chunk).lights.at(v).natural
                    && chunk.lights.at(v).natural > 1 ==> list@.contains(v),
            list@.len() > 0 ==> deficit(chunk.lights@, BUFFER_SIZE as int) < deficit(
                old(chunk).lights@,
                BUFFER_SIZE as int,
            ),
            deficit(chunk.lights@, BUFFER_SIZE as int) <= deficit(
                old(chunk).lights@,
                BUFFER_SIZE as int,
            ),
            forall|a: int| 0 <= a < m ==> chunk.lights.at(items@[a].0).natural >= #[trigger] items@[a].1,
            forall|v: IVec3|
                #![trigger chunk.lights.at(v)]
                in_bounds(v) && chunk.lights.at(v).natural > old(chunk).lights.at(v).natural
                    ==> exists|a: int|
                    0 <= a < m && items@[a].0 == v && #[trigger] items@[a].1 == chunk.lights.at(v).natural,
        decreases items@.len() - m,
    {
        let (voxel, intensity) = items[m];
        let current = chunk.lights.get_natural(voxel);
        if intensity > current {
            let ghost l1 = chunk.lights;
            chunk.lights.set_natural(voxel, intensity);
            proof {
                lemma_index_of(voxel);
                lemma_deficit_update(
                    l1@,
                    index_of(voxel),
                    Light { natural: intensity, artificial: l1.at(voxel).artificial },
                    BUFFER_SIZE as int,
                );
                assert forall|v: IVec3| #![trigger chunk.lights.at(v)] in_bounds(v) implies chunk.lights.at(v).natural
                    >= old(chunk).lights.at(v).natural && chunk.lights.at(v).artificial == old(
                    chunk,
                ).lights.at(v).artificial by {
                    lemma_index_of(v);
                    if index_of(v) == index_of(voxel) {
                        lemma_index_injective(v, voxel);
                    }
                    assert(l1.at(v).natural >= old(chunk).lights.at(v).natural);
                    assert(l1.at(v).artificial == old(chunk).lights.at(v).artificial);
                    if v == voxel {
                        assert(chunk.lights.at(v).artificial == l1.at(v).artificial);
                    } else {
                        assert(chunk.lights.at(v) == l1.at(v));
                    }
                }
                assert(chunk.lights.neighbors() == old(chunk).lights.neighbors());
                assert(chunk.lights.wf());
                assert(lights_grew(old(chunk).lights, chunk.lights));
            }
            let ghost list0 = list@;
            let around = neighboring(local, voxel);
            push_all_unique(dirty, &around);
            if intensity > 1 {
                list.push(voxel);
            }
            proof {
                assert forall|v: IVec3|
                    #![trigger chunk.lights.at(v)]
                    in_bounds(v) && chunk.lights.at(v).natural > old(chunk).lights.at(v).natural
                        && chunk.lights.at(v).natural > 1 implies list@.contains(v) by {
                    lemma_index_of(v);
                    if v == voxel {
                        assert(list@[list@.len() - 1] == voxel);
                    } else {
                        if index_of(v) == index_of(voxel) {
                            lemma_index_injective(v, voxel);
                        }
                        assert(chunk.lights.at(v) == l1.at(v));
                        assert(list0.contains(v));
                        let q = choose|q: int| 0 <= q < list0.len() && list0[q] == v;
                        assert(list@[q] == v);
                    }
                }
                assert forall|v: IVec3|
                    #![trigger chunk.lights.at(v)]
                    in_bounds(v) && chunk.lights.at(v).natural > old(chunk).lights.at(v).natural
                        implies exists|a: int|
                        0 <= a < m + 1 && items@[a].0 == v && #[trigger] items@[a].1 == chunk.lights.at(v).natural by {
                    lemma_index_of(v);
                    if v == voxel {
                        assert(items@[m as int].0 == v && items@[m as int].1 == chunk.lights.at(v).natural);
                    } else {
                        if index_of(v) == index_of(voxel) {
                            lemma_index_injective(v, voxel);
                        }
                        assert(chunk.lights.at(v) == l1.at(v));
                        let a = choose|a: int|
                            0 <= a < m && items@[a].0 == v && #[trigger] items@[a].1 == l1.at(v).natural;
                        assert(items@[a].1 == chunk.lights.at(v).natural);
                    }
                }
                assert forall|a: int| 0 <= a < m + 1 implies chunk.lights.at(items@[a].0).natural
                    >= #[trigger] items@[a].1 by {
                    let v = items@[a].0;
                    lemma_index_of(v);
                    if index_of(v) == index_of(voxel) {
                        lemma_index_injective(v, voxel);
                    }
                    if v != voxel {
                        assert(chunk.lights.at(v) == l1.at(v));
                    }
                }
            }
        } else {
            assert(items@[m as int] == (voxel, intensity));
        }
        m = m + 1;
    }
    list
}

/// Propagates natural light across the world, breadth first, from the given voxels of each
/// chunk: each chunk spreads its light inside and hands the light that leaves it to the
/// neighbor chunks, which spread it in turn. Chunks that aren't loaded are skipped.
/// Afterwards every given voxel, and every voxel that got brighter, that lets light through
/// has lit its passable neighbors, inside its chunk and in the loaded chunks next to it; and
/// every voxel that got brighter got its light from a neighbor bright enough to give it.
///
/// **Returns** the chunks touched, each once: every chunk whose light changed is among them.
#[verifier::rlimit(40)]
#[verifier::spinoff_prover]
pub fn propagate_natural_light(world: &mut VoxWorld, voxels: Vec<(IVec3, Vec<IVec3>)>) -> (r: Vec<
    IVec3,
>)
    requires
        old(world).wf(),
        old(world).chunks_wf(),
        world_in_range(old(world)@),
        forall|i: int, k: int|
            0 <= i < voxels@.len() && 0 <= k < voxels@[i].1@.len() ==> in_bounds(
                #[trigger] voxels@[i].1@[k],
            ),
    ensures
        final(world).wf(),
        final(world).chunks_wf(),
        world_lights_grew(old(world)@, final(world)@),
        r@.no_duplicates(),
        forall|k: IVec3, u: IVec3|
            final(world)@.dom().contains(k) && in_bounds(u) && (has_voxel(voxels@, k, u) || raised(
                old(world)@[k].lights,
                final(world)@[k],
                u,
            )) && !final(world)@[k].kinds.at(u).opaque() ==> #[trigger] spread_inside(
                final(world)@[k],
                u,
            ),
        forall|k: IVec3, u: IVec3|
            #[trigger] eligible(old(world)@, voxels@, final(world)@, k, u) ==> spread_out(
                final(world)@,
                k,
                u,
            ),
        forall|k: IVec3, v: IVec3|
            #![trigger final(world)@[k].lights.at(v)]
            final(world)@.dom().contains(k) && in_bounds(v) && final(world)@[k].lights.at(v).natural
                != old(world)@[k].lights.at(v).natural ==> r@.contains(k),
        world_justified(old(world)@, final(world)@),
{
    let ghost initial = voxels@;
    let mut queue: VecDeque<(IVec3, Vec<IVec3>)> = VecDeque::new();
    let mut voxels = voxels;
    let mut i: usize = 0;
    while i < voxels.len()
        invariant
            i <= voxels@.len(),
            voxels@ == initial,
            queue@.len() == i,
            forall|a: int| 0 <= a < i ==> (#[trigger] queue@[a]).0 == initial[a].0 && queue@[a].1@ == initial[a].1@,
            forall|a: int, k: int|
                0 <= a < voxels@.len() && 0 <= k < voxels@[a].1@.len() ==> in_bounds(
                    #[trigger] voxels@[a].1@[k],
                ),
            forall|a: int, k: int|
                0 <= a < queue@.len() && 0 <= k < queue@[a].1@.len() ==> in_bounds(
                    #[trigger] queue@[a].1@[k],
                ),
        decreases voxels@.len() - i,
    {
        let local = voxels[i].0;
        let list = copy_voxels(&voxels[i].1);
        let ghost q = queue@;
        queue.push_back((local, list));
        proof {
            assert forall|a: int| 0 <= a < i + 1 implies (#[trigger] queue@[a]).0 == initial[a].0
                && queue@[a].1@ == initial[a].1@ by {
                if a < i {
                    assert(queue@[a] == q[a]);
                }
            }
        }
        i = i + 1;
    }
    proof {
        assert forall|k: IVec3, u: IVec3| #[trigger]
            spread_or_queued(old(world)@, initial, world@, queue@, k, u) by {
            if has_voxel(initial, k, u) {
                let a = choose|a: int| 0 <= a < initial.len() && initial[a].0 == k && #[trigger] initial[a].1@.contains(u);
                assert(queue@[a].1@.contains(u));
            }
        }
        assert forall|k: IVec3, u: IVec3| #[trigger]
            crossed_or_queued(old(world)@, initial, world@, queue@, k, u) by {
            if has_voxel(initial, k, u) {
                let a = choose|a: int| 0 <= a < initial.len() && initial[a].0 == k && #[trigger] initial[a].1@.contains(u);
                assert(queue@[a].1@.contains(u));
            }
        }
    }
    let mut dirty: Vec<IVec3> = Vec::new();
    while queue.len() > 0
        invariant
            world.wf(),
            world.chunks_wf(),
            world_in_range(world@),
            world_lights_grew(old(world)@, world@),
            world_spread(old(world)@, initial, world@, queue@),
            world_crossed(old(world)@, initial, world@, queue@),
            world_justified(old(world)@, world@),
            dirty@.no_duplicates(),
            forall|k: IVec3, v: IVec3|
                #![trigger world@[k].lights.at(v)]
                world@.dom().contains(k) && in_bounds(v) && world@[k].lights.at(v).natural != old(
                    world,
                )@[k].lights.at(v).natural ==> dirty@.contains(k),
            forall|a: int, k: int|
                0 <= a < queue@.len() && 0 <= k < queue@[a].1@.len() ==> in_bounds(
                    #[trigger] queue@[a].1@[k],
                ),
        decreases world.light_room() + queue@.len(),
    {
        let ghost q0 = queue@;
        let (local, seeds) = queue.pop_front().unwrap();
        proof {
            assert forall|a: int, k: int|
                0 <= a < queue@.len() && 0 <= k < queue@[a].1@.len() implies in_bounds(
                #[trigger] queue@[a].1@[k],
            ) by {
                assert(queue@[a] == q0[a + 1]);
            }
            assert forall|k: int| 0 <= k < seeds@.len() implies in_bounds(#[trigger] seeds@[k]) by {
                assert(q0[0].1@[k] == seeds@[k]);
            }
            crate::voxworld::lemma_room_nonneg_of(world);
        }
        if !world.contains(local) {
            proof {
                lemma_world_spread_skip(old(world)@, initial, world@, q0);
                lemma_world_crossed_skip(old(world)@, initial, world@, q0);
            }
            continue;
        }
        let ghost w0 = world@;
        world.update_light_neighborhood(local);
        proof {
            assert forall|k: IVec3| #[trigger] world@.dom().contains(k) implies has_neighbors(k) by {
                assert(w0.dom().contains(k));
            }
        }
        let ghost w1 = world@;
        let ghost room1 = world.light_room() + queue@.len();
        let ghost mut spread_map: Seq<(IVec3, Vec<(IVec3, u8)>)> = Seq::empty();
        let neighbor_propagation = match world.get_mut(local) {
            Some(chunk) => {
                let np = propagate_chunk_natural_light(chunk, &seeds, true);
                proof {
                    lemma_lights_grew_room(w1[local].lights, chunk.lights);
                    spread_map = np@;
                }
                np
            },
            None => Vec::new(),
        };
        proof {
            assert(world@.dom() =~= w0.dom());
            assert(world_lights_grew(old(world)@, world@)) by {
                assert forall|k: IVec3| #[trigger] world@.dom().contains(k) implies {
                    &&& world@[k].kinds == old(world)@[k].kinds
                    &&& world@[k].lights.wf()
                    &&& forall|v: IVec3|
                        #![trigger world@[k].lights.at(v)]
                        in_bounds(v) ==> world@[k].lights.at(v).artificial == old(
                            world,
                        )@[k].lights.at(v).artificial && world@[k].lights.at(v).natural >= old(
                            world,
                        )@[k].lights.at(v).natural
                } by {
                    assert(w0.dom().contains(k));
                    if k == local {
                        assert forall|v: IVec3| #![trigger world@[k].lights.at(v)] in_bounds(v) implies world@[k].lights.at(v).artificial == old(
                            world,
                        )@[k].lights.at(v).artificial && world@[k].lights.at(v).natural >= old(
                            world,
                        )@[k].lights.at(v).natural by {
                            assert(w1[k].lights.at(v) == w0[k].lights.at(v));
                            assert(w0[k].lights.at(v).natural >= old(world)@[k].lights.at(v).natural);
                        }
                    } else {
                        assert(world@[k] == w0[k]);
                    }
                }
            }
        }
        proof {
            let c0 = w0[local];
            let c2 = world@[local];
            assert forall|k: IVec3| world@.dom().contains(k) && k != q0[0].0 implies #[trigger] world@[k]
                == w0[k] by {}
            assert forall|v: IVec3| #![trigger c2.lights.at(v)] in_bounds(v) implies c2.lights.at(v).natural
                >= c0.lights.at(v).natural by {
                assert(w1[local].lights.at(v) == c0.lights.at(v));
            }
            assert forall|u: IVec3|
                in_bounds(u) && (q0[0].1@.contains(u) || raised(c0.lights, c2, u))
                    && !c2.kinds.at(u).opaque() implies #[trigger] spread(c2, spread_map, true, u) by {
                assert(w1[local].lights.at(u) == c0.lights.at(u));
            }
            lemma_world_spread_propagated(old(world)@, initial, w0, world@, q0, spread_map);
            assert(world@[local].lights.neighbors() == w1[local].lights.neighbors());
            lemma_world_crossed_propagated(old(world)@, initial, w0, world@, q0, spread_map);
            lemma_grew_one(w0, world@, local);
            assert forall|v: IVec3| in_bounds(v) implies #[trigger] justified(w1[local].lights, world@[local], v) by {}
            lemma_world_justified_local(old(world)@, w0, world@, local, w1[local].lights);
        }
        let ghost wp = world@;
        crate::genesis::push_unique(&mut dirty, local);
        let mut j: usize = 0;
        while j < neighbor_propagation.len()
            invariant
                j <= neighbor_propagation@.len(),
                world.wf(),
                world.chunks_wf(),
                world_in_range(world@),
                world_lights_grew(old(world)@, world@),
                world_spread(old(world)@, initial, world@, queue@),
                crossed_pending(old(world)@, initial, world@, queue@, local, neighbor_propagation@, j as int),
                world_justified(old(world)@, world@),
                wp.dom().contains(local),
                items_sound(wp[local], neighbor_propagation@),
                world_lights_grew(wp, world@),
                has_neighbors(local),
                forall|k: IVec3, v: IVec3|
                    #![trigger world@[k].lights.at(v)]
                    world@.dom().contains(k) && in_bounds(v) && world@[k].lights.at(v).natural != old(
                        world,
                    )@[k].lights.at(v).natural ==> dirty@.contains(k),
                keys_small(neighbor_propagation@),
                forall|k: IVec3, it: (IVec3, u8)|
                    #[trigger] has_item(neighbor_propagation@, k, it) ==> in_bounds(it.0),
                dirty@.no_duplicates(),
                forall|a: int, k: int|
                    0 <= a < queue@.len() && 0 <= k < queue@[a].1@.len() ==> in_bounds(
                        #[trigger] queue@[a].1@[k],
                    ),
                world.light_room() + queue@.len() <= room1,
            decreases neighbor_propagation@.len() - j,
        {
            let dir = neighbor_propagation[j].0;
            proof {
                assert(has_key(neighbor_propagation@, dir));
            }
            let neighbor_local = local.plus(dir);
            let ghost w2 = world@;
            let ghost room2 = world.light_room();
            let ghost q_before = queue@;
            let ghost mut applied: Option<Vec<IVec3>> = None;
            match world.get_mut(neighbor_local) {
                Some(neighbor_chunk) => {
                    proof {
                        assert(w2.dom().contains(neighbor_local));
                        assert forall|m: int| 0 <= m < neighbor_propagation@[j as int].1@.len() implies in_bounds(
                            #[trigger] neighbor_propagation@[j as int].1@[m].0,
                        ) by {
                            assert(has_item(
                                neighbor_propagation@,
                                dir,
                                neighbor_propagation@[j as int].1@[m],
                            ));
                        }
                    }
                    crate::genesis::push_unique(&mut dirty, neighbor_local);
                    let list = apply_neighbor_items(
                        neighbor_chunk,
                        neighbor_local,
                        &neighbor_propagation[j].1,
                        &mut dirty,
                    );
                    proof {
                        applied = Some(list);
                    }
                    let has_list = list.len() > 0;
                    if has_list {
                        queue.push_back((neighbor_local, list));
                    }
                    proof {
                        assert forall|a: int, k: int|
                            0 <= a < queue@.len() && 0 <= k < queue@[a].1@.len() implies in_bounds(
                            #[trigger] queue@[a].1@[k],
                        ) by {}
                    }
                },
                None => {},
            }
            proof {
                assert(world@.dom() =~= w2.dom());
                if w2.dom().contains(neighbor_local) {
                    let c1 = w2[neighbor_local];
                    let c2 = world@[neighbor_local];
                    assert forall|k: IVec3| world@.dom().contains(k) && k != neighbor_local implies #[trigger] world@[k]
                        == w2[k] by {}
                    assert forall|v: IVec3| #![trigger c2.lights.at(v)] in_bounds(v) implies c2.lights.at(v).natural
                        >= c1.lights.at(v).natural by {}
                    lemma_world_spread_applied(
                        old(world)@,
                        initial,
                        w2,
                        world@,
                        q_before,
                        neighbor_local,
                        applied->0,
                    );
                    lemma_world_crossed_applied(
                        old(world)@,
                        initial,
                        w2,
                        world@,
                        q_before,
                        local,
                        neighbor_propagation@,
                        j as int,
                        applied->0,
                    );
                    lemma_grew_one(w2, world@, neighbor_local);
                    lemma_world_justified_applied(old(world)@, wp, w2, world@, local, neighbor_propagation@, j as int);
                    lemma_grew_trans(wp, w2, world@);
                } else {
                    lemma_world_crossed_unloaded(
                        old(world)@,
                        initial,
                        w2,
                        q_before,
                        local,
                        neighbor_propagation@,
                        j as int,
                    );
                }
                assert(world_lights_grew(old(world)@, world@)) by {
                    assert forall|k: IVec3| #[trigger] world@.dom().contains(k) implies {
                        &&& world@[k].kinds == old(world)@[k].kinds
                        &&& world@[k].lights.wf()
                        &&& forall|v: IVec3|
                            #![trigger world@[k].lights.at(v)]
                            in_bounds(v) ==> world@[k].lights.at(v).artificial == old(
                                world,
                            )@[k].lights.at(v).artificial && world@[k].lights.at(v).natural >= old(
                                world,
                            )@[k].lights.at(v).natural
                    } by {
                        assert(w2.dom().contains(k));
                        assert(world@.dom() =~= w2.dom());
                        if k == neighbor_local {
                            assert forall|v: IVec3| #![trigger world@[k].lights.at(v)] in_bounds(v) implies world@[k].lights.at(v).artificial == old(
                                world,
                            )@[k].lights.at(v).artificial && world@[k].lights.at(v).natural >= old(
                                world,
                            )@[k].lights.at(v).natural by {
                                assert(w2[k].lights.at(v).natural >= old(world)@[k].lights.at(v).natural);
                            }
                        } else {
                            assert(world@[k] == w2[k]);
                        }
                    }
                }
                assert forall|k: IVec3| #[trigger] world@.dom().contains(k) implies has_neighbors(k) by {
                    assert(w2.dom().contains(k));
                }
            }
            j = j + 1;
        }
        proof {
            crate::voxworld::lemma_room_nonneg_of(world);
            lemma_world_crossed_done(old(world)@, initial, world@, queue@, local, neighbor_propagation@);
        }
    }
    proof {
        assert forall|k: IVec3, u: IVec3|
            world@.dom().contains(k) && in_bounds(u) && (has_voxel(initial, k, u) || raised(
                old(world)@[k].lights,
                world@[k],
                u,
            )) && !world@[k].kinds.at(u).opaque() implies #[trigger] spread_inside(world@[k], u) by {
            assert(spread_or_queued(old(world)@, initial, world@, queue@, k, u));
        }
        assert forall|k: IVec3, u: IVec3|
            #[trigger] eligible(old(world)@, initial, world@, k, u) implies spread_out(world@, k, u) by {
            assert(crossed_or_queued(old(world)@, initial, world@, queue@, k, u));
        }
    }
    dirty
}

/// Adds to `v` each of `items` that it doesn't hold yet.
fn push_all_unique(v: &mut Vec<IVec3>, items: &Vec<IVec3>)
    requires
        old(v)@.no_duplicates(),
    ensures
        final(v)@.no_duplicates(),
        forall|d: IVec3| #[trigger] final(v)@.contains(d) <==> (old(v)@.contains(d) || items@.contains(d)),
{
    let mut a: usize = 0;
    while a < items.len()
        invariant
            a <= items@.len(),
            v@.no_duplicates(),
            forall|d: IVec3|
                #[trigger] v@.contains(d) <==> (old(v)@.contains(d) || items@.subrange(
                    0,
                    a as int,
                ).contains(d)),
        decreases items@.len() - a,
    {
        let ghost before = v@;
        crate::genesis::push_unique(v, items[a]);
        proof {
            let s0 = items@.subrange(0, a as int);
            let s1 = items@.subrange(0, a + 1);
            assert(s1 =~= s0.push(items@[a as int]));
            assert forall|d: IVec3| #[trigger] v@.contains(d) <==> (old(v)@.contains(d) || s1.contains(d)) by {
                assert(v@.contains(d) <==> (before.contains(d) || d == items@[a as int]));
                if s1.contains(d) {
                    let k = choose|k: int| 0 <= k < s1.len() && s1[k] == d;
                    if k < a {
                        assert(s0[k] == d);
                    }
                }
                if s0.contains(d) {
                    let k = choose|k: int| 0 <= k < s0.len() && s0[k] == d;
                    assert(s1[k] == d);
                }
                if d == items@[a as int] {
                    assert(s1[a as int] == d);
                }
            }
        }
        a = a + 1;
    }
    proof {
        assert(items@.subrange(0, a as int) =~= items@);
    }
}

fn copy_voxels(v: &Vec<IVec3>) -> (r: Vec<IVec3>)
    ensures
        r@ == v@,
{
    let mut r: Vec<IVec3> = Vec::new();
    let mut i: usize = 0;
    while i < v.len()
        invariant
            i <= v@.len(),
            r@ == v@.subrange(0, i as int),
        decreases v@.len() - i,
    {
        r.push(v[i]);
        i = i + 1;
    }
    proof {
        assert(v@.subrange(0, i as int) =~= v@);
    }
    r
}

/// Voxels of chunks, listed under the position (or direction) of their chunk.
pub type ChunkVoxelMap = Vec<(IVec3, Vec<IVec3>)>;

/// The map lists `voxel` under `key`.
pub open spec fn has_voxel(map: Seq<(IVec3, Vec<IVec3>)>, key: IVec3, voxel: IVec3) -> bool {
    exists|i: int| 0 <= i < map.len() && map[i].0 == key && (#[trigger] map[i].1@).contains(voxel)
}

/// The map has an entry for `key`.
pub open spec fn has_voxel_key(map: Seq<(IVec3, Vec<IVec3>)>, key: IVec3) -> bool {
    exists|i: int| 0 <= i < map.len() && #[trigger] map[i].0 == key
}

pub open spec fn voxel_keys_unique(map: Seq<(IVec3, Vec<IVec3>)>) -> bool {
    forall|i: int, j: int| 0 <= i < map.len() && 0 <= j < map.len() && i != j ==> map[i].0 != map[j].0
}

/// Every voxel of the map lies inside a chunk.
pub open spec fn voxels_in_bounds(map: Seq<(IVec3, Vec<IVec3>)>) -> bool {
    forall|i: int, k: int| 0 <= i < map.len() && 0 <= k < map[i].1@.len() ==> in_bounds(#[trigger] map[i].1@[k])
}

/// Adds `voxel` under `key`, creating the entry when needed.
fn push_voxel(map: &mut ChunkVoxelMap, key: IVec3, voxel: IVec3)
    requires
        voxel_keys_unique(old(map)@),
    ensures
        voxel_keys_unique(final(map)@),
        forall|k: IVec3, v: IVec3|
            #[trigger] has_voxel(final(map)@, k, v) <==> (has_voxel(old(map)@, k, v) || (k == key && v == voxel)),
        forall|k: IVec3| #[trigger] has_voxel_key(final(map)@, k) <==> (has_voxel_key(old(map)@, k) || k == key),
        forall|i: int, k: int|
            0 <= i < final(map)@.len() && 0 <= k < final(map)@[i].1@.len() ==> (#[trigger] final(map)@[i].1@[k] == voxel
                || has_voxel(old(map)@, final(map)@[i].0, final(map)@[i].1@[k])),
{
    let mut i: usize = 0;
    while i < map.len()
        invariant
            i <= map@.len(),
            voxel_keys_unique(map@),
            map@ == old(map)@,
            forall|j: int| 0 <= j < i ==> map@[j].0 != key,
        decreases map@.len() - i,
    {
        if map[i].0 == key {
            let ghost old_map = map@;
            let entry = &mut map[i];
            entry.1.push(voxel);
            proof {
                assert(map@ == old_map.update(i as int, map@[i as int]));
                assert(map@[i as int].1@ == old_map[i as int].1@.push(voxel));
                assert forall|k: IVec3, v: IVec3|
                    #[trigger] has_voxel(map@, k, v) <==> (has_voxel(old_map, k, v) || (k == key && v == voxel)) by {
                    if has_voxel(map@, k, v) {
                        let j = choose|j: int| 0 <= j < map@.len() && map@[j].0 == k && (#[trigger] map@[j].1@).contains(v);
                        if j != i {
                            assert(old_map[j] == map@[j]);
                        } else {
                            let m = map@[j].1@.index_of(v);
                            if m < old_map[j].1@.len() {
                                assert(old_map[j].1@[m] == v);
                            }
                        }
                    }
                    if has_voxel(old_map, k, v) {
                        let j = choose|j: int| 0 <= j < old_map.len() && old_map[j].0 == k && (#[trigger] old_map[j].1@).contains(v);
                        if j != i {
                            assert(old_map[j] == map@[j]);
                        } else {
                            let m = old_map[j].1@.index_of(v);
                            assert(map@[j].1@[m] == v);
                        }
                    }
                    if k == key && v == voxel {
                        assert(map@[i as int].1@[old_map[i as int].1@.len() as int] == voxel);
                    }
                }
                assert forall|k: IVec3| #[trigger] has_voxel_key(map@, k) <==> (has_voxel_key(old_map, k) || k == key) by {
                    if has_voxel_key(map@, k) {
                        let j = choose|j: int| 0 <= j < map@.len() && #[trigger] map@[j].0 == k;
                        assert(old_map[j].0 == map@[j].0);
                    }
                    if has_voxel_key(old_map, k) {
                        let j = choose|j: int| 0 <= j < old_map.len() && #[trigger] old_map[j].0 == k;
                        assert(old_map[j].0 == map@[j].0);
                    }
                    if k == key {
                        assert(map@[i as int].0 == key);
                    }
                }
                assert forall|a: int, k: int|
                    0 <= a < map@.len() && 0 <= k < map@[a].1@.len() implies (#[trigger] map@[a].1@[k] == voxel
                        || has_voxel(old_map, map@[a].0, map@[a].1@[k])) by {
                    if a != i {
                        assert(old_map[a] == map@[a]);
                        assert(old_map[a].1@.contains(map@[a].1@[k]));
                    } else if k < old_map[a].1@.len() {
                        assert(old_map[a].1@[k] == map@[a].1@[k]);
                        assert(old_map[a].1@.contains(map@[a].1@[k]));
                    }
                }
            }
            return;
        }
        i = i + 1;
    }
    let ghost old_map = map@;
    let mut voxels: Vec<IVec3> = Vec::new();
    voxels.push(voxel);
    map.push((key, voxels));
    proof {
        assert forall|k: IVec3, v: IVec3|
            #[trigger] has_voxel(map@, k, v) <==> (has_voxel(old_map, k, v) || (k == key && v == voxel)) by {
            if has_voxel(map@, k, v) {
                let j = choose|j: int| 0 <= j < map@.len() && map@[j].0 == k && (#[trigger] map@[j].1@).contains(v);
                if j < old_map.len() {
                    assert(old_map[j] == map@[j]);
                } else {
                    assert(map@[j].1@ == seq![voxel]);
                }
            }
            if has_voxel(old_map, k, v) {
                let j = choose|j: int| 0 <= j < old_map.len() && old_map[j].0 == k && (#[trigger] old_map[j].1@).contains(v);
                assert(old_map[j] == map@[j]);
            }
            if k == key && v == voxel {
                assert(map@[old_map.len() as int].1@[0] == voxel);
            }
        }
        assert forall|k: IVec3| #[trigger] has_voxel_key(map@, k) <==> (has_voxel_key(old_map, k) || k == key) by {
            if has_voxel_key(map@, k) {
                let j = choose|j: int| 0 <= j < map@.len() && #[trigger] map@[j].0 == k;
                if j < old_map.len() {
                    assert(old_map[j].0 == map@[j].0);
                }
            }
            if has_voxel_key(old_map, k) {
                let j = choose|j: int| 0 <= j < old_map.len() && #[trigger] old_map[j].0 == k;
                assert(old_map[j].0 == map@[j].0);
            }
            if k == key {
                assert(map@[old_map.len() as int].0 == key);
            }
        }
        assert forall|a: int, k: int|
            0 <= a < map@.len() && 0 <= k < map@[a].1@.len() implies (#[trigger] map@[a].1@[k] == voxel
                || has_voxel(old_map, map@[a].0, map@[a].1@[k])) by {
            if a < old_map.len() {
                assert(old_map[a] == map@[a]);
                assert(old_map[a].1@.contains(map@[a].1@[k]));
            }
        }
    }
}

/// The natural light of each voxel was kept or put out, and nothing else changed.
pub open spec fn lights_shrank(before: ChunkLight, after: ChunkLight) -> bool {
    &&& after.wf()
    &&& after.neighbors() == before.neighbors()
    &&& forall|v: IVec3|
        #![trigger after.at(v)]
        in_bounds(v) ==> after.at(v).artificial == before.at(v).artificial && (after.at(v).natural
            == before.at(v).natural || after.at(v).natural == 0)
}

/// The six directions to the chunks that share a face with a chunk.
pub open spec fn is_side_dir(d: IVec3) -> bool {
    exists|s: int| 0 <= s < SIDE_COUNT && #[trigger] side_at(s).direction() == d
}

pub proof fn lemma_deficit_upper(s: Seq<Light>, n: int)
    requires
        0 <= n,
    ensures
        deficit(s, n) <= 255 * n,
    decreases n,
{
    if n > 0 {
        lemma_deficit_upper(s, n - 1);
    }
}

/// Puts out the natural light of `voxel` and records the step.
proof fn lemma_put_out(l1: ChunkLight, l2: ChunkLight, voxel: IVec3)
    requires
        l1.wf(),
        in_bounds(voxel),
        l2.wf(),
        l2.neighbors() == l1.neighbors(),
        l2@ == l1@.update(index_of(voxel), Light { natural: 0, artificial: l1.at(voxel).artificial }),
    ensures
        deficit(l2@, BUFFER_SIZE as int) == deficit(l1@, BUFFER_SIZE as int) + l1.natural_at(voxel),
        lights_shrank(l1, l2),
        l2.natural_at(voxel) == 0,
        forall|v: IVec3| in_bounds(v) && v != voxel ==> #[trigger] l2.at(v) == l1.at(v),
{
    lemma_index_of(voxel);
    lemma_deficit_update(
        l1@,
        index_of(voxel),
        Light { natural: 0, artificial: l1.at(voxel).artificial },
        BUFFER_SIZE as int,
    );
    assert forall|v: IVec3| in_bounds(v) && v != voxel implies #[trigger] l2.at(v) == l1.at(v) by {
        lemma_index_of(v);
        if index_of(v) == index_of(voxel) {
            lemma_index_injective(v, voxel);
        }
    }
    assert forall|v: IVec3| #![trigger l2.at(v)] in_bounds(v) implies l2.at(v).artificial == l1.at(
        v,
    ).artificial && (l2.at(v).natural == l1.at(v).natural || l2.at(v).natural == 0) by {
        if v != voxel {
            assert(l2.at(v) == l1.at(v));
        }
    }
}

/// Light put out in two steps was put out once.
proof fn lemma_shrank_trans(a: ChunkLight, b: ChunkLight, c: ChunkLight)
    requires
        lights_shrank(a, b),
        lights_shrank(b, c),
    ensures
        lights_shrank(a, c),
{
    assert forall|v: IVec3| #![trigger c.at(v)] in_bounds(v) implies c.at(v).artificial == a.at(
        v,
    ).artificial && (c.at(v).natural == a.at(v).natural || c.at(v).natural == 0) by {
        assert(b.at(v).artificial == a.at(v).artificial);
    }
}

/// What one step of the removal, from `voxel` (whose light was `old_intensity`) through
/// `side`, did.
pub open spec fn remove_step(
    c1: Chunk,
    q1: Seq<(IVec3, u8)>,
    p1: Seq<(IVec3, Vec<IVec3>)>,
    r1: Seq<(IVec3, Vec<IVec3>)>,
    c2: Chunk,
    q2: Seq<(IVec3, u8)>,
    p2: Seq<(IVec3, Vec<IVec3>)>,
    r2: Seq<(IVec3, Vec<IVec3>)>,
    voxel: IVec3,
    old_intensity: u8,
    side: Side,
) -> bool {
    let w = vadd(voxel, side.direction());
    &&& c2.wf()
    &&& c2.kinds == c1.kinds
    &&& lights_shrank(c1.lights, c2.lights)
    &&& deficit(c2.lights@, BUFFER_SIZE as int) >= deficit(c1.lights@, BUFFER_SIZE as int)
    &&& (q2 == q1 || (q2 == q1.push((w, q2.last().1)) && in_bounds(w) && q2.last().1 > 0 && deficit(
        c2.lights@,
        BUFFER_SIZE as int,
    ) > deficit(c1.lights@, BUFFER_SIZE as int)))
    &&& voxel_keys_unique(p2)
    &&& voxel_keys_unique(r2)
    &&& forall|k: IVec3, v: IVec3| #[trigger] has_voxel(p1, k, v) ==> has_voxel(p2, k, v)
    &&& forall|k: IVec3, v: IVec3|
        #[trigger] has_voxel(p2, k, v) ==> has_voxel(p1, k, v) || (k == IVec3 { x: 0, y: 0, z: 0 }
            && in_bounds(v))
    &&& forall|k: IVec3|
        #[trigger] has_voxel_key(p2, k) ==> has_voxel_key(p1, k) || k == IVec3 { x: 0, y: 0, z: 0 }
    &&& forall|k: IVec3, v: IVec3| #[trigger] has_voxel(r1, k, v) ==> has_voxel(r2, k, v)
    &&& forall|k: IVec3, v: IVec3|
        #[trigger] has_voxel(r2, k, v) ==> has_voxel(r1, k, v) || (k == side.direction()
            && in_bounds(v) && old_intensity > 0)
    &&& forall|k: IVec3| #[trigger] has_voxel_key(r2, k) ==> has_voxel_key(r1, k) || k == side.direction()
    &&& (r2.len() > 0 ==> r1.len() > 0 || old_intensity > 0)
}

/// The lists `p2` holds what `p1` holds and, under `key`, `voxel`.
pub open spec fn adds_voxel(
    p1: Seq<(IVec3, Vec<IVec3>)>,
    p2: Seq<(IVec3, Vec<IVec3>)>,
    key: IVec3,
    voxel: IVec3,
) -> bool {
    forall|k: IVec3, v: IVec3| #[trigger] has_voxel(p2, k, v) <==> (has_voxel(p1, k, v) || (k == key && v == voxel))
}

/// Exactly what one step of the removal, from `voxel` (whose light was `old_intensity`)
/// through `side`, does. Inside the chunk, a neighbor that is full sun light straight below, or
/// lit but darker than the light removed, is put out and queued with its light; a neighbor at
/// least as bright is listed to spread its light again. In the layer of a neighbor chunk, a lit
/// voxel darker than the light removed is listed for removal there; one at least as bright
/// makes `voxel` listed to spread light again. Nothing else changes.
pub open spec fn through_side(
    c1: Chunk,
    q1: Seq<(IVec3, u8)>,
    p1: Seq<(IVec3, Vec<IVec3>)>,
    r1: Seq<(IVec3, Vec<IVec3>)>,
    c2: Chunk,
    q2: Seq<(IVec3, u8)>,
    p2: Seq<(IVec3, Vec<IVec3>)>,
    r2: Seq<(IVec3, Vec<IVec3>)>,
    voxel: IVec3,
    old_intensity: u8,
    side: Side,
) -> bool {
    let w = vadd(voxel, side.direction());
    let zero = IVec3 { x: 0, y: 0, z: 0 };
    if in_bounds(w) {
        let s = c1.lights.natural_at(w);
        if (side == Side::Down && s == MAX_NATURAL_INTENSITY) || (s != 0 && old_intensity > s) {
            &&& c2.kinds == c1.kinds
            &&& c2.lights.neighbors() == c1.lights.neighbors()
            &&& c2.lights@ == c1.lights@.update(
                index_of(w),
                Light { natural: 0, artificial: c1.lights.at(w).artificial },
            )
            &&& q2 == q1.push((w, s))
            &&& p2 == p1
            &&& r2 == r1
        } else if s >= old_intensity {
            &&& c2 == c1
            &&& q2 == q1
            &&& adds_voxel(p1, p2, zero, w)
            &&& r2 == r1
        } else {
            c2 == c1 && q2 == q1 && p2 == p1 && r2 == r1
        }
    } else {
        match c1.lights.absolute(w) {
            Some(l) => if l.natural != 0 && old_intensity > l.natural {
                &&& c2 == c1
                &&& q2 == q1
                &&& p2 == p1
                &&& adds_voxel(r1, r2, side.direction(), vrem(w, 16))
            } else if l.natural >= old_intensity {
                &&& c2 == c1
                &&& q2 == q1
                &&& adds_voxel(p1, p2, zero, voxel)
                &&& r2 == r1
            } else {
                c2 == c1 && q2 == q1 && p2 == p1 && r2 == r1
            },
            None => c2 == c1 && q2 == q1 && p2 == p1 && r2 == r1,
        }
    }
}

/// Removes the light flowing from `voxel`, whose light was `old_intensity`, through `side`.
#[verifier::rlimit(40)]
fn remove_through_side(
    chunk: &mut Chunk,
    voxel: IVec3,
    old_intensity: u8,
    side: Side,
    queue: &mut VecDeque<(IVec3, u8)>,
    propagate: &mut ChunkVoxelMap,
    remove: &mut ChunkVoxelMap,
)
    requires
        old(chunk).wf(),
        in_bounds(voxel),
        voxel_keys_unique(old(propagate)@),
        voxel_keys_unique(old(remove)@),
    ensures
        remove_step(
            *old(chunk),
            old(queue)@,
            old(propagate)@,
            old(remove)@,
            *final(chunk),
            final(queue)@,
            final(propagate)@,
            final(remove)@,
            voxel,
            old_intensity,
            side,
        ),
        through_side(
            *old(chunk),
            old(queue)@,
            old(propagate)@,
            old(remove)@,
            *final(chunk),
            final(queue)@,
            final(propagate)@,
            final(remove)@,
            voxel,
            old_intensity,
            side,
        ),
{
    let side_voxel = voxel.plus(side.dir());
    if is_within_bounds(side_voxel) {
        let side_intensity = chunk.lights.get_natural(side_voxel);
        if (side == Side::Down && side_intensity == MAX_NATURAL_INTENSITY) || (side_intensity != 0
            && old_intensity > side_intensity) {
            let ghost l1 = chunk.lights;
            chunk.lights.set_natural(side_voxel, 0);
            proof {
                lemma_put_out(l1, chunk.lights, side_voxel);
            }
            queue.push_back((side_voxel, side_intensity));
        } else if side_intensity >= old_intensity {
            push_voxel(propagate, IVec3::zero(), side_voxel);
        }
    } else {
        match chunk.lights.get_absolute(side_voxel) {
            Some(neighbor_light) => {
                let neighbor_intensity = neighbor_light.natural;
                let (_, neighbor_voxel) = overlap_voxel(side_voxel);
                if neighbor_intensity != 0 && old_intensity > neighbor_intensity {
                    push_voxel(remove, side.dir(), neighbor_voxel);
                } else if neighbor_intensity >= old_intensity {
                    push_voxel(propagate, IVec3::zero(), voxel);
                }
            },
            None => {},
        }
    }
}

/// The light of the voxel `p` (as it was in `before`) was removed through `side`: inside the
/// chunk, a neighbor that was full sun light straight below, or lit but darker, is dark now,
/// and one at least as bright is listed to spread its light again unless it is dark now; in
/// the layer of a neighbor chunk, a lit voxel darker than it is listed for removal there, and
/// one at least as bright makes `p` listed to spread light again.
pub open spec fn removed_through(
    before: Chunk,
    c: Chunk,
    propagate: Seq<(IVec3, Vec<IVec3>)>,
    remove: Seq<(IVec3, Vec<IVec3>)>,
    p: IVec3,
    side: Side,
) -> bool {
    let o = before.lights.natural_at(p);
    let w = vadd(p, side.direction());
    let zero = IVec3 { x: 0, y: 0, z: 0 };
    if in_bounds(w) {
        let ow = before.lights.natural_at(w);
        if (side == Side::Down && ow == MAX_NATURAL_INTENSITY) || (ow != 0 && o > ow) {
            c.lights.natural_at(w) == 0
        } else if ow >= o {
            has_voxel(propagate, zero, w) || c.lights.natural_at(w) == 0
        } else {
            true
        }
    } else {
        match before.lights.absolute(w) {
            Some(l) => if l.natural != 0 && o > l.natural {
                has_voxel(remove, side.direction(), vrem(w, 16))
            } else if l.natural >= o {
                has_voxel(propagate, zero, p)
            } else {
                true
            },
            None => true,
        }
    }
}

/// The light of `p` was removed through all six sides.
pub open spec fn removed_all(
    before: Chunk,
    c: Chunk,
    propagate: Seq<(IVec3, Vec<IVec3>)>,
    remove: Seq<(IVec3, Vec<IVec3>)>,
    p: IVec3,
) -> bool {
    forall|t: int| 0 <= t < SIDE_COUNT ==> #[trigger] removed_through(before, c, propagate, remove, p, side_at(t))
}

/// The queue holds `p` with the light it had in `before`.
pub open spec fn queued_with(q: Seq<(IVec3, u8)>, p: IVec3, o: u8) -> bool {
    exists|k: int| 0 <= k < q.len() && #[trigger] q[k] == (p, o)
}

/// What was removed through a side stays removed while lights only go out and the lists only
/// grow.
proof fn lemma_removed_kept(
    before: Chunk,
    c1: Chunk,
    p1: Seq<(IVec3, Vec<IVec3>)>,
    r1: Seq<(IVec3, Vec<IVec3>)>,
    c2: Chunk,
    p2: Seq<(IVec3, Vec<IVec3>)>,
    r2: Seq<(IVec3, Vec<IVec3>)>,
    p: IVec3,
    side: Side,
)
    requires
        removed_through(before, c1, p1, r1, p, side),
        lights_shrank(c1.lights, c2.lights),
        forall|k: IVec3, v: IVec3| #[trigger] has_voxel(p1, k, v) ==> has_voxel(p2, k, v),
        forall|k: IVec3, v: IVec3| #[trigger] has_voxel(r1, k, v) ==> has_voxel(r2, k, v),
    ensures
        removed_through(before, c2, p2, r2, p, side),
{
    let w = vadd(p, side.direction());
    if in_bounds(w) {
        assert(c2.lights.at(w).natural == c1.lights.at(w).natural || c2.lights.at(w).natural == 0);
    }
}

/// One step of the removal from `p`, whose light was that of `before`, removes its light
/// through `side`.
proof fn lemma_through_removed(
    before: Chunk,
    c1: Chunk,
    q1: Seq<(IVec3, u8)>,
    p1: Seq<(IVec3, Vec<IVec3>)>,
    r1: Seq<(IVec3, Vec<IVec3>)>,
    c2: Chunk,
    q2: Seq<(IVec3, u8)>,
    p2: Seq<(IVec3, Vec<IVec3>)>,
    r2: Seq<(IVec3, Vec<IVec3>)>,
    p: IVec3,
    side: Side,
)
    requires
        in_bounds(p),
        before.lights.wf(),
        lights_shrank(before.lights, c1.lights),
        through_side(c1, q1, p1, r1, c2, q2, p2, r2, p, before.lights.natural_at(p), side),
    ensures
        removed_through(before, c2, p2, r2, p, side),
{
    let w = vadd(p, side.direction());
    if in_bounds(w) {
        assert(c1.lights.at(w).natural == before.lights.at(w).natural || c1.lights.at(w).natural == 0);
        if c1.lights.natural_at(w) == 0 && c2 == c1 {
        } else if c2.lights@ == c1.lights@.update(
            index_of(w),
            Light { natural: 0, artificial: c1.lights.at(w).artificial },
        ) && c2.kinds == c1.kinds {
            lemma_index_of(w);
        }
    } else {
        assert(c1.lights.neighbors() == before.lights.neighbors());
        assert(c1.lights.absolute(w) == before.lights.absolute(w));
    }
}

/// While the removal handles the sides of `voxel` (whose light was `o`), up to side `s`: every
/// seed and every voxel put out has had its light removed through all sides, waits in the
/// queue with its former light, or is `voxel` itself, done up to side `s`.
pub open spec fn removal_done(
    before: Chunk,
    c: Chunk,
    propagate: Seq<(IVec3, Vec<IVec3>)>,
    remove: Seq<(IVec3, Vec<IVec3>)>,
    q: Seq<(IVec3, u8)>,
    voxel: IVec3,
    o: u8,
    s: int,
    p: IVec3,
) -> bool {
    ||| removed_all(before, c, propagate, remove, p)
    ||| queued_with(q, p, before.lights.natural_at(p))
    ||| (p == voxel && o == before.lights.natural_at(p) && forall|t: int|
        0 <= t < s ==> #[trigger] removed_through(before, c, propagate, remove, voxel, side_at(t)))
}

pub open spec fn removal_inv(
    before: Chunk,
    seeds: Seq<IVec3>,
    c: Chunk,
    propagate: Seq<(IVec3, Vec<IVec3>)>,
    remove: Seq<(IVec3, Vec<IVec3>)>,
    q: Seq<(IVec3, u8)>,
    voxel: IVec3,
    o: u8,
    s: int,
) -> bool {
    forall|p: IVec3|
        in_bounds(p) && (seeds.contains(p) || (before.lights.natural_at(p) > 0 && c.lights.natural_at(p) == 0))
            ==> #[trigger] removal_done(before, c, propagate, remove, q, voxel, o, s, p)
}

/// Removing light through side `s` of `voxel` moves the removal on to the next side.
proof fn lemma_removal_step(
    before: Chunk,
    seeds: Seq<IVec3>,
    c1: Chunk,
    q1: Seq<(IVec3, u8)>,
    p1: Seq<(IVec3, Vec<IVec3>)>,
    r1: Seq<(IVec3, Vec<IVec3>)>,
    c2: Chunk,
    q2: Seq<(IVec3, u8)>,
    p2: Seq<(IVec3, Vec<IVec3>)>,
    r2: Seq<(IVec3, Vec<IVec3>)>,
    voxel: IVec3,
    o: u8,
    s: int,
)
    requires
        0 <= s < SIDE_COUNT,
        in_bounds(voxel),
        before.lights.wf(),
        lights_shrank(before.lights, c1.lights),
        removal_inv(before, seeds, c1, p1, r1, q1, voxel, o, s),
        remove_step(c1, q1, p1, r1, c2, q2, p2, r2, voxel, o, side_at(s)),
        through_side(c1, q1, p1, r1, c2, q2, p2, r2, voxel, o, side_at(s)),
    ensures
        removal_inv(before, seeds, c2, p2, r2, q2, voxel, o, s + 1),
{
    let side = side_at(s);
    let w = vadd(voxel, side.direction());
    lemma_shrank_trans(before.lights, c1.lights, c2.lights);
    assert forall|p: IVec3|
        in_bounds(p) && (seeds.contains(p) || (before.lights.natural_at(p) > 0 && c2.lights.natural_at(p) == 0))
            implies #[trigger] removal_done(before, c2, p2, r2, q2, voxel, o, s + 1, p) by {
        assert(forall|k: int| 0 <= k < q1.len() ==> q2[k] == q1[k]);
        if seeds.contains(p) || (before.lights.natural_at(p) > 0 && c1.lights.natural_at(p) == 0) {
            assert(removal_done(before, c1, p1, r1, q1, voxel, o, s, p));
            if removed_all(before, c1, p1, r1, p) {
                assert forall|t: int| 0 <= t < SIDE_COUNT implies #[trigger] removed_through(before, c2, p2, r2, p, side_at(t)) by {
                    assert(removed_through(before, c1, p1, r1, p, side_at(t)));
                    lemma_removed_kept(before, c1, p1, r1, c2, p2, r2, p, side_at(t));
                }
            } else if queued_with(q1, p, before.lights.natural_at(p)) {
                let k = choose|k: int| 0 <= k < q1.len() && #[trigger] q1[k] == (p, before.lights.natural_at(p));
                assert(q2[k] == q1[k]);
            } else {
                assert forall|t: int| 0 <= t < s + 1 implies #[trigger] removed_through(before, c2, p2, r2, voxel, side_at(t)) by {
                    if t < s {
                        assert(removed_through(before, c1, p1, r1, voxel, side_at(t)));
                        lemma_removed_kept(before, c1, p1, r1, c2, p2, r2, voxel, side_at(t));
                    } else {
                        lemma_through_removed(before, c1, q1, p1, r1, c2, q2, p2, r2, voxel, side);
                    }
                }
            }
        } else {
            assert(c1.lights.at(p).natural == before.lights.at(p).natural || c1.lights.at(p).natural == 0);
            assert(c1.lights.natural_at(p) != c2.lights.natural_at(p));
            assert(in_bounds(w));
            if p != w {
                lemma_index_of(p);
                lemma_index_of(w);
                if index_of(p) == index_of(w) {
                    lemma_index_injective(p, w);
                }
                assert(c2.lights.at(p) == c1.lights.at(p));
            }
            assert(q2[q1.len() as int] == (w, c1.lights.natural_at(w)));
            assert(queued_with(q2, p, before.lights.natural_at(p)));
        }
    }
}

/// What removing light from a chunk leaves to do: voxels of this chunk to spread light from
/// again, listed under the zero direction, and voxels of neighbor chunks whose light must be
/// removed, listed under the direction of their chunk.
pub struct RemoveChunkNaturalLightResult {
    pub propagate: ChunkVoxelMap,
    pub remove: ChunkVoxelMap,
}

/// Removes the natural light of the given chunk voxels and, breadth first, the light that
/// flowed from them: a neighbor darker than the light removed next to it, or full sun light
/// straight below, is put out in turn.
///
/// **Returns** the voxels that keep light to spread back, and the voxels of neighbor chunks
/// whose light came from the removed light.
pub fn remove_chunk_natural_light(chunk: &mut Chunk, voxels: &[IVec3]) -> (r:
    RemoveChunkNaturalLightResult)
    requires
        old(chunk).wf(),
        forall|i: int| 0 <= i < voxels@.len() ==> in_bounds(#[trigger] voxels@[i]),
    ensures
        final(chunk).wf(),
        final(chunk).kinds == old(chunk).kinds,
        lights_shrank(old(chunk).lights, final(chunk).lights),
        forall|i: int| 0 <= i < voxels@.len() ==> #[trigger] final(chunk).lights.natural_at(voxels@[i]) == 0,
        voxel_keys_unique(r.propagate@),
        voxel_keys_unique(r.remove@),
        forall|k: IVec3, v: IVec3|
            #[trigger] has_voxel(r.propagate@, k, v) ==> k == (IVec3 { x: 0, y: 0, z: 0 }) && in_bounds(v),
        forall|k: IVec3| #[trigger] has_voxel_key(r.propagate@, k) ==> k == (IVec3 { x: 0, y: 0, z: 0 }),
        forall|k: IVec3, v: IVec3| #[trigger] has_voxel(r.remove@, k, v) ==> in_bounds(v) && is_side_dir(k),
        forall|k: IVec3| #[trigger] has_voxel_key(r.remove@, k) ==> is_side_dir(k),
        deficit(final(chunk).lights@, BUFFER_SIZE as int) >= deficit(
            old(chunk).lights@,
            BUFFER_SIZE as int,
        ),
        r.remove@.len() > 0 ==> deficit(final(chunk).lights@, BUFFER_SIZE as int) > deficit(
            old(chunk).lights@,
            BUFFER_SIZE as int,
        ),
        forall|p: IVec3|
            in_bounds(p) && (voxels@.contains(p) || (old(chunk).lights.natural_at(p) > 0
                && final(chunk).lights.natural_at(p) == 0)) ==> #[trigger] removed_all(
                *old(chunk),
                *final(chunk),
                r.propagate@,
                r.remove@,
                p,
            ),
{
    let ghost d0 = deficit(chunk.lights@, BUFFER_SIZE as int);
    let mut queue: VecDeque<(IVec3, u8)> = VecDeque::new();
    let mut i: usize = 0;
    while i < voxels.len()
        invariant
            i <= voxels@.len(),
            forall|k: int| 0 <= k < voxels@.len() ==> in_bounds(#[trigger] voxels@[k]),
            chunk.wf(),
            chunk.kinds == old(chunk).kinds,
            lights_shrank(old(chunk).lights, chunk.lights),
            d0 == deficit(old(chunk).lights@, BUFFER_SIZE as int),
            deficit(chunk.lights@, BUFFER_SIZE as int) >= d0,
            forall|k: int| 0 <= k < i ==> #[trigger] chunk.lights.natural_at(voxels@[k]) == 0,
            forall|k: int| 0 <= k < queue@.len() ==> in_bounds(#[trigger] queue@[k].0),
            forall|k: int|
                0 <= k < queue@.len() && (#[trigger] queue@[k]).1 > 0 ==> deficit(chunk.lights@, BUFFER_SIZE as int) > d0,
            forall|p: IVec3|
                in_bounds(p) && (voxels@.subrange(0, i as int).contains(p) || (old(chunk).lights.natural_at(p) > 0
                    && chunk.lights.natural_at(p) == 0)) ==> #[trigger] queued_with(
                    queue@,
                    p,
                    old(chunk).lights.natural_at(p),
                ),
        decreases voxels@.len() - i,
    {
        let voxel = voxels[i];
        let intensity = chunk.lights.get_natural(voxel);
        let ghost l1 = chunk.lights;
        chunk.lights.set_natural(voxel, 0);
        proof {
            lemma_put_out(l1, chunk.lights, voxel);
            lemma_shrank_trans(old(chunk).lights, l1, chunk.lights);
            assert forall|k: int| 0 <= k < i + 1 implies #[trigger] chunk.lights.natural_at(voxels@[k]) == 0 by {
                if k < i && voxels@[k] != voxel {
                    assert(l1.natural_at(voxels@[k]) == 0);
                    assert(chunk.lights.at(voxels@[k]) == l1.at(voxels@[k]));
                }
            }
        }
        let ghost q1 = queue@;
        queue.push_back((voxel, intensity));
        proof {
            assert forall|p: IVec3|
                in_bounds(p) && (voxels@.subrange(0, i + 1).contains(p) || (old(chunk).lights.natural_at(p) > 0
                    && chunk.lights.natural_at(p) == 0)) implies #[trigger] queued_with(
                queue@,
                p,
                old(chunk).lights.natural_at(p),
            ) by {
                assert(queue@[q1.len() as int] == (voxel, intensity));
                assert(l1.at(voxel).natural == old(chunk).lights.at(voxel).natural || l1.at(voxel).natural == 0);
                if p == voxel {
                    if intensity != old(chunk).lights.natural_at(p) {
                        assert(queued_with(q1, p, old(chunk).lights.natural_at(p)));
                    }
                } else {
                    assert(chunk.lights.at(p) == l1.at(p));
                    if voxels@.subrange(0, i + 1).contains(p) {
                        let k = choose|k: int| 0 <= k < i + 1 && #[trigger] voxels@.subrange(0, i + 1)[k] == p;
                        assert(voxels@.subrange(0, i as int)[k] == p);
                    }
                    assert(queued_with(q1, p, old(chunk).lights.natural_at(p)));
                }
                if queued_with(q1, p, old(chunk).lights.natural_at(p)) {
                    let k1 = choose|k1: int| 0 <= k1 < q1.len() && #[trigger] q1[k1] == (p, old(chunk).lights.natural_at(p));
                    assert(queue@[k1] == q1[k1]);
                }
            }
        }
        i = i + 1;
    }
    proof {
        assert(voxels@.subrange(0, voxels@.len() as int) =~= voxels@);
    }
    let mut propagate: ChunkVoxelMap = Vec::new();
    let mut remove: ChunkVoxelMap = Vec::new();
    proof {
        lemma_deficit_upper(chunk.lights@, BUFFER_SIZE as int);
    }
    while queue.len() > 0
        invariant
            forall|k: int| 0 <= k < voxels@.len() ==> in_bounds(#[trigger] voxels@[k]),
            chunk.wf(),
            chunk.kinds == old(chunk).kinds,
            lights_shrank(old(chunk).lights, chunk.lights),
            d0 == deficit(old(chunk).lights@, BUFFER_SIZE as int),
            deficit(chunk.lights@, BUFFER_SIZE as int) >= d0,
            forall|k: int| 0 <= k < voxels@.len() ==> #[trigger] chunk.lights.natural_at(voxels@[k]) == 0,
            forall|k: int| 0 <= k < queue@.len() ==> in_bounds(#[trigger] queue@[k].0),
            forall|k: int|
                0 <= k < queue@.len() && (#[trigger] queue@[k]).1 > 0 ==> deficit(chunk.lights@, BUFFER_SIZE as int) > d0,
            voxel_keys_unique(propagate@),
            voxel_keys_unique(remove@),
            forall|k: IVec3, v: IVec3|
                #[trigger] has_voxel(propagate@, k, v) ==> k == (IVec3 { x: 0, y: 0, z: 0 }) && in_bounds(v),
            forall|k: IVec3| #[trigger] has_voxel_key(propagate@, k) ==> k == (IVec3 { x: 0, y: 0, z: 0 }),
            forall|k: IVec3, v: IVec3| #[trigger] has_voxel(remove@, k, v) ==> in_bounds(v) && is_side_dir(k),
            forall|k: IVec3| #[trigger] has_voxel_key(remove@, k) ==> is_side_dir(k),
            remove@.len() > 0 ==> deficit(chunk.lights@, BUFFER_SIZE as int) > d0,
            deficit(chunk.lights@, BUFFER_SIZE as int) <= 255 * BUFFER_SIZE,
            old(chunk).lights.wf(),
            forall|p: IVec3|
                in_bounds(p) && (voxels@.contains(p) || (old(chunk).lights.natural_at(p) > 0
                    && chunk.lights.natural_at(p) == 0)) ==> #[trigger] removed_all(
                    *old(chunk),
                    *chunk,
                    propagate@,
                    remove@,
                    p,
                ) || queued_with(queue@, p, old(chunk).lights.natural_at(p)),
        decreases 255 * BUFFER_SIZE - deficit(chunk.lights@, BUFFER_SIZE as int), queue@.len(),
    {
        let ghost q0 = queue@;
        let ghost dstart = deficit(chunk.lights@, BUFFER_SIZE as int);
        let (voxel, old_intensity) = queue.pop_front().unwrap();
        proof {
            assert(queue@ =~= q0.subrange(1, q0.len() as int));
            assert forall|p: IVec3|
                in_bounds(p) && (voxels@.contains(p) || (old(chunk).lights.natural_at(p) > 0
                    && chunk.lights.natural_at(p) == 0)) implies #[trigger] removal_done(
                *old(chunk),
                *chunk,
                propagate@,
                remove@,
                queue@,
                voxel,
                old_intensity,
                0,
                p,
            ) by {
                if !removed_all(*old(chunk), *chunk, propagate@, remove@, p) {
                    assert(queued_with(q0, p, old(chunk).lights.natural_at(p)));
                    let k = choose|k: int| 0 <= k < q0.len() && #[trigger] q0[k] == (p, old(chunk).lights.natural_at(p));
                    if k > 0 {
                        assert(queue@[k - 1] == q0[k]);
                    }
                }
            }
            assert(q0[0] == (voxel, old_intensity));
            assert forall|k: int| 0 <= k < queue@.len() implies in_bounds(#[trigger] queue@[k].0) by {
                assert(queue@[k] == q0[k + 1]);
            }
            assert forall|k: int|
                0 <= k < queue@.len() && (#[trigger] queue@[k]).1 > 0 implies deficit(chunk.lights@, BUFFER_SIZE as int) > d0 by {
                assert(queue@[k] == q0[k + 1]);
            }
        }
        let ghost qlen = queue@.len();
        let mut s: usize = 0;
        while s < SIDE_COUNT
            invariant
                s <= SIDE_COUNT,
                in_bounds(voxel),
                old_intensity > 0 ==> dstart > d0,
                forall|k: int| 0 <= k < voxels@.len() ==> in_bounds(#[trigger] voxels@[k]),
                chunk.wf(),
                chunk.kinds == old(chunk).kinds,
                lights_shrank(old(chunk).lights, chunk.lights),
                d0 == deficit(old(chunk).lights@, BUFFER_SIZE as int),
                deficit(chunk.lights@, BUFFER_SIZE as int) >= dstart,
                dstart >= d0,
                forall|k: int| 0 <= k < voxels@.len() ==> #[trigger] chunk.lights.natural_at(voxels@[k]) == 0,
                forall|k: int| 0 <= k < queue@.len() ==> in_bounds(#[trigger] queue@[k].0),
                forall|k: int|
                    0 <= k < queue@.len() && (#[trigger] queue@[k]).1 > 0 ==> deficit(chunk.lights@, BUFFER_SIZE as int) > d0,
                queue@.len() >= qlen,
                queue@.len() > qlen ==> deficit(chunk.lights@, BUFFER_SIZE as int) > dstart,
                voxel_keys_unique(propagate@),
                voxel_keys_unique(remove@),
                forall|k: IVec3, v: IVec3|
                    #[trigger] has_voxel(propagate@, k, v) ==> k == (IVec3 { x: 0, y: 0, z: 0 }) && in_bounds(v),
                forall|k: IVec3| #[trigger] has_voxel_key(propagate@, k) ==> k == (IVec3 { x: 0, y: 0, z: 0 }),
                forall|k: IVec3, v: IVec3| #[trigger] has_voxel(remove@, k, v) ==> in_bounds(v) && is_side_dir(k),
                forall|k: IVec3| #[trigger] has_voxel_key(remove@, k) ==> is_side_dir(k),
                remove@.len() > 0 ==> deficit(chunk.lights@, BUFFER_SIZE as int) > d0,
                old(chunk).lights.wf(),
                removal_inv(*old(chunk), voxels@, *chunk, propagate@, remove@, queue@, voxel, old_intensity, s as int),
            decreases SIDE_COUNT - s,
        {
            let side = Side::from_index(s);
            let ghost c1 = *chunk;
            let ghost q1 = queue@;
            let ghost p1 = propagate@;
            let ghost r1 = remove@;
            remove_through_side(chunk, voxel, old_intensity, side, &mut queue, &mut propagate, &mut remove);
            proof {
                lemma_removal_step(
                    *old(chunk),
                    voxels@,
                    c1,
                    q1,
                    p1,
                    r1,
                    *chunk,
                    queue@,
                    propagate@,
                    remove@,
                    voxel,
                    old_intensity,
                    s as int,
                );
                lemma_shrank_trans(old(chunk).lights, c1.lights, chunk.lights);
                lemma_side_index(side);
                assert forall|k: int| 0 <= k < voxels@.len() implies #[trigger] chunk.lights.natural_at(voxels@[k]) == 0 by {
                    assert(c1.lights.natural_at(voxels@[k]) == 0);
                }
                assert forall|k: int| 0 <= k < queue@.len() implies in_bounds(#[trigger] queue@[k].0) by {
                    if k < q1.len() {
                        assert(queue@[k] == q1[k]);
                    }
                }
                assert forall|k: int|
                    0 <= k < queue@.len() && (#[trigger] queue@[k]).1 > 0 implies deficit(chunk.lights@, BUFFER_SIZE as int) > d0 by {
                    if k < q1.len() {
                        assert(queue@[k] == q1[k]);
                    }
                }
                assert forall|k: IVec3, v: IVec3| #[trigger] has_voxel(remove@, k, v) implies in_bounds(v) && is_side_dir(k) by {
                    if !has_voxel(r1, k, v) {
                        assert(side_at(side.idx()).direction() == k);
                    }
                }
                assert forall|k: IVec3| #[trigger] has_voxel_key(remove@, k) implies is_side_dir(k) by {
                    if !has_voxel_key(r1, k) {
                        assert(side_at(side.idx()).direction() == k);
                    }
                }
            }
            s = s + 1;
        }
        proof {
            lemma_deficit_upper(chunk.lights@, BUFFER_SIZE as int);
            assert forall|p: IVec3|
                in_bounds(p) && (voxels@.contains(p) || (old(chunk).lights.natural_at(p) > 0
                    && chunk.lights.natural_at(p) == 0)) implies #[trigger] removed_all(
                *old(chunk),
                *chunk,
                propagate@,
                remove@,
                p,
            ) || queued_with(queue@, p, old(chunk).lights.natural_at(p)) by {
                assert(removal_done(
                    *old(chunk),
                    *chunk,
                    propagate@,
                    remove@,
                    queue@,
                    voxel,
                    old_intensity,
                    SIDE_COUNT as int,
                    p,
                ));
            }
        }
    }
    RemoveChunkNaturalLightResult { propagate, remove }
}

/// Sets the voxels listed under `key`, replacing those listed there before.
fn put_entry(map: &mut ChunkVoxelMap, key: IVec3, voxels: Vec<IVec3>)
    requires
        voxel_keys_unique(old(map)@),
    ensures
        voxel_keys_unique(final(map)@),
        voxels_in_bounds(old(map)@) && (forall|k: int| 0 <= k < voxels@.len() ==> in_bounds(#[trigger] voxels@[k]))
            ==> voxels_in_bounds(final(map)@),
        forall|k: IVec3, u: IVec3|
            #[trigger] has_voxel(final(map)@, k, u) <==> if k == key {
                voxels@.contains(u)
            } else {
                has_voxel(old(map)@, k, u)
            },
{
    let mut i: usize = 0;
    while i < map.len()
        invariant
            i <= map@.len(),
            map@ == old(map)@,
            voxel_keys_unique(map@),
            forall|j: int| 0 <= j < i ==> map@[j].0 != key,
        decreases map@.len() - i,
    {
        if map[i].0 == key {
            let ghost old_map = map@;
            map.set(i, (key, voxels));
            proof {
                assert forall|a: int, b: int| 0 <= a < map@.len() && 0 <= b < map@.len() && a != b implies map@[a].0
                    != map@[b].0 by {
                    if a != i && b != i {
                        assert(map@[a] == old_map[a] && map@[b] == old_map[b]);
                    } else if a == i {
                        assert(map@[b] == old_map[b]);
                    } else {
                        assert(map@[a] == old_map[a]);
                    }
                }
                if voxels_in_bounds(old_map) && (forall|k: int| 0 <= k < voxels@.len() ==> in_bounds(#[trigger] voxels@[k])) {
                    assert forall|a: int, k: int| 0 <= a < map@.len() && 0 <= k < map@[a].1@.len() implies in_bounds(
                        #[trigger] map@[a].1@[k],
                    ) by {
                        if a != i {
                            assert(map@[a] == old_map[a]);
                        }
                    }
                }
                assert forall|k: IVec3, u: IVec3|
                    #[trigger] has_voxel(map@, k, u) <==> if k == key {
                        voxels@.contains(u)
                    } else {
                        has_voxel(old_map, k, u)
                    } by {
                    if has_voxel(map@, k, u) {
                        let a = choose|a: int| 0 <= a < map@.len() && map@[a].0 == k && (#[trigger] map@[a].1@).contains(u);
                        if a != i {
                            assert(map@[a] == old_map[a]);
                        }
                    }
                    if k == key && voxels@.contains(u) {
                        assert(map@[i as int].1@.contains(u));
                    }
                    if k != key && has_voxel(old_map, k, u) {
                        let a = choose|a: int| 0 <= a < old_map.len() && old_map[a].0 == k && (#[trigger] old_map[a].1@).contains(u);
                        assert(map@[a] == old_map[a]);
                    }
                }
            }
            return;
        }
        i = i + 1;
    }
    let ghost old_map = map@;
    map.push((key, voxels));
    proof {
        assert forall|a: int, b: int| 0 <= a < map@.len() && 0 <= b < map@.len() && a != b implies map@[a].0
            != map@[b].0 by {
            if a < old_map.len() && b < old_map.len() {
                assert(map@[a] == old_map[a] && map@[b] == old_map[b]);
            } else if a < old_map.len() {
                assert(map@[a] == old_map[a]);
            } else {
                assert(map@[b] == old_map[b]);
            }
        }
        if voxels_in_bounds(old_map) && (forall|k: int| 0 <= k < voxels@.len() ==> in_bounds(#[trigger] voxels@[k])) {
            assert forall|a: int, k: int| 0 <= a < map@.len() && 0 <= k < map@[a].1@.len() implies in_bounds(
                #[trigger] map@[a].1@[k],
            ) by {
                if a < old_map.len() {
                    assert(map@[a] == old_map[a]);
                }
            }
        }
        assert forall|k: IVec3, u: IVec3|
            #[trigger] has_voxel(map@, k, u) <==> if k == key {
                voxels@.contains(u)
            } else {
                has_voxel(old_map, k, u)
            } by {
            if has_voxel(map@, k, u) {
                let a = choose|a: int| 0 <= a < map@.len() && map@[a].0 == k && (#[trigger] map@[a].1@).contains(u);
                if a < old_map.len() {
                    assert(map@[a] == old_map[a]);
                }
            }
            if k == key && voxels@.contains(u) {
                assert(map@[old_map.len() as int].1@.contains(u));
            }
            if has_voxel(old_map, k, u) {
                let a = choose|a: int| 0 <= a < old_map.len() && old_map[a].0 == k && (#[trigger] old_map[a].1@).contains(u);
                assert(map@[a] == old_map[a]);
            }
        }
    }
}

/// The voxels listed in `entries` under a direction from `local`, at the position of their
/// chunk: each position is flagged as touched and the voxels are queued for removal.
fn queue_removals(
    local: IVec3,
    entries: &ChunkVoxelMap,
    queue: &mut VecDeque<(IVec3, Vec<IVec3>)>,
    touched: &mut Vec<IVec3>,
)
    requires
        has_neighbors(local),
        forall|k: IVec3| #[trigger] has_voxel_key(entries@, k) ==> is_small(k, 1),
        forall|k: IVec3, v: IVec3| #[trigger] has_voxel(entries@, k, v) ==> in_bounds(v),
        old(touched)@.no_duplicates(),
    ensures
        final(touched)@.no_duplicates(),
        forall|d: IVec3| old(touched)@.contains(d) ==> #[trigger] final(touched)@.contains(d),
        final(queue)@.len() >= old(queue)@.len(),
        entries@.len() == 0 ==> final(queue)@ == old(queue)@,
        forall|a: int| 0 <= a < old(queue)@.len() ==> #[trigger] final(queue)@[a] == old(queue)@[a],
        forall|a: int, k: int|
            old(queue)@.len() <= a < final(queue)@.len() && 0 <= k < final(queue)@[a].1@.len() ==> in_bounds(
                #[trigger] final(queue)@[a].1@[k],
            ),
        final(queue)@.len() == old(queue)@.len() + entries@.len(),
        forall|j: int|
            0 <= j < entries@.len() ==> (#[trigger] final(queue)@[old(queue)@.len() + j]).0 == vadd(
                local,
                entries@[j].0,
            ) && final(queue)@[old(queue)@.len() + j].1@ == entries@[j].1@,
        forall|d: IVec3|
            #[trigger] final(touched)@.contains(d) <==> (old(touched)@.contains(d) || exists|j: int|
                0 <= j < entries@.len() && d == vadd(local, #[trigger] entries@[j].0)),
{
    let mut j: usize = 0;
    while j < entries.len()
        invariant
            j <= entries@.len(),
            has_neighbors(local),
            forall|k: IVec3| #[trigger] has_voxel_key(entries@, k) ==> is_small(k, 1),
            forall|k: IVec3, v: IVec3| #[trigger] has_voxel(entries@, k, v) ==> in_bounds(v),
            touched@.no_duplicates(),
            forall|d: IVec3| old(touched)@.contains(d) ==> #[trigger] touched@.contains(d),
            queue@.len() == old(queue)@.len() + j,
            forall|a: int| 0 <= a < old(queue)@.len() ==> #[trigger] queue@[a] == old(queue)@[a],
            forall|a: int, k: int|
                old(queue)@.len() <= a < queue@.len() && 0 <= k < queue@[a].1@.len() ==> in_bounds(
                    #[trigger] queue@[a].1@[k],
                ),
            forall|jj: int|
                0 <= jj < j ==> (#[trigger] queue@[old(queue)@.len() + jj]).0 == vadd(local, entries@[jj].0)
                    && queue@[old(queue)@.len() + jj].1@ == entries@[jj].1@,
            forall|d: IVec3|
                #[trigger] touched@.contains(d) <==> (old(touched)@.contains(d) || exists|jj: int|
                    0 <= jj < j && d == vadd(local, #[trigger] entries@[jj].0)),
        decreases entries@.len() - j,
    {
        let dir = entries[j].0;
        proof {
            assert(has_voxel_key(entries@, dir));
        }
        let target = local.plus(dir);
        let ghost t0 = touched@;
        crate::genesis::push_unique(touched, target);
        proof {
            assert forall|d: IVec3|
                #[trigger] touched@.contains(d) <==> (old(touched)@.contains(d) || exists|jj: int|
                    0 <= jj < j + 1 && d == vadd(local, #[trigger] entries@[jj].0)) by {
                if d == target {
                    assert(d == vadd(local, entries@[j as int].0));
                }
                if exists|jj: int| 0 <= jj < j + 1 && d == vadd(local, #[trigger] entries@[jj].0) {
                    let jj = choose|jj: int| 0 <= jj < j + 1 && d == vadd(local, #[trigger] entries@[jj].0);
                    if jj < j {
                        assert(t0.contains(d));
                    }
                }
            }
        }
        let voxels = copy_voxels(&entries[j].1);
        proof {
            assert forall|k: int| 0 <= k < voxels@.len() implies in_bounds(#[trigger] voxels@[k]) by {
                assert(entries@[j as int].1@.contains(voxels@[k]));
                assert(has_voxel(entries@, dir, voxels@[k]));
            }
        }
        let ghost q0 = queue@;
        queue.push_back((target, voxels));
        proof {
            assert forall|a: int| 0 <= a < old(queue)@.len() implies #[trigger] queue@[a] == old(queue)@[a] by {
                assert(queue@[a] == q0[a]);
            }
            assert forall|a: int, k: int|
                old(queue)@.len() <= a < queue@.len() && 0 <= k < queue@[a].1@.len() implies in_bounds(
                    #[trigger] queue@[a].1@[k],
                ) by {
                if a < q0.len() {
                    assert(queue@[a] == q0[a]);
                }
            }
            assert forall|jj: int|
                0 <= jj < j + 1 implies (#[trigger] queue@[old(queue)@.len() + jj]).0 == vadd(
                local,
                entries@[jj].0,
            ) && queue@[old(queue)@.len() + jj].1@ == entries@[jj].1@ by {
                if jj < j {
                    assert(queue@[old(queue)@.len() + jj] == q0[old(queue)@.len() + jj]);
                }
            }
        }
        j = j + 1;
    }
    proof {
        if entries@.len() == 0 {
            assert(queue@ =~= old(queue)@);
        }
    }
}

/// The voxels listed in `entries` (all under the zero direction) are set, under `local`, for
/// the light to be spread from again; `local` is flagged as touched.
fn collect_propagations(
    local: IVec3,
    entries: &ChunkVoxelMap,
    prop: &mut ChunkVoxelMap,
    touched: &mut Vec<IVec3>,
)
    requires
        forall|k: IVec3, v: IVec3| #[trigger] has_voxel(entries@, k, v) ==> in_bounds(v),
        old(touched)@.no_duplicates(),
        voxel_keys_unique(old(prop)@),
        voxels_in_bounds(old(prop)@),
    ensures
        final(touched)@.no_duplicates(),
        forall|d: IVec3| old(touched)@.contains(d) ==> #[trigger] final(touched)@.contains(d),
        voxel_keys_unique(final(prop)@),
        voxels_in_bounds(final(prop)@),
        forall|d: IVec3|
            #[trigger] final(touched)@.contains(d) <==> (old(touched)@.contains(d) || (entries@.len()
                > 0 && d == local)),
        entries@.len() == 0 ==> final(prop)@ == old(prop)@,
        entries@.len() > 0 ==> forall|k: IVec3, v: IVec3|
            #[trigger] has_voxel(final(prop)@, k, v) <==> if k == local {
                entries@.last().1@.contains(v)
            } else {
                has_voxel(old(prop)@, k, v)
            },
{
    let mut j: usize = 0;
    while j < entries.len()
        invariant
            j <= entries@.len(),
            forall|k: IVec3, v: IVec3| #[trigger] has_voxel(entries@, k, v) ==> in_bounds(v),
            touched@.no_duplicates(),
            forall|d: IVec3| old(touched)@.contains(d) ==> #[trigger] touched@.contains(d),
            voxel_keys_unique(prop@),
            voxels_in_bounds(prop@),
            forall|d: IVec3|
                #[trigger] touched@.contains(d) <==> (old(touched)@.contains(d) || (j > 0 && d == local)),
            j == 0 ==> prop@ == old(prop)@,
            j > 0 ==> forall|k: IVec3, v: IVec3|
                #[trigger] has_voxel(prop@, k, v) <==> if k == local {
                    entries@[j - 1].1@.contains(v)
                } else {
                    has_voxel(old(prop)@, k, v)
                },
        decreases entries@.len() - j,
    {
        let ghost p0 = prop@;
        crate::genesis::push_unique(touched, local);
        let voxels = copy_voxels(&entries[j].1);
        proof {
            assert forall|k: int| 0 <= k < voxels@.len() implies in_bounds(#[trigger] voxels@[k]) by {
                assert(entries@[j as int].1@.contains(voxels@[k]));
                assert(has_voxel(entries@, entries@[j as int].0, voxels@[k]));
            }
        }
        put_entry(prop, local, voxels);
        proof {
            assert forall|k: IVec3, v: IVec3|
                #[trigger] has_voxel(prop@, k, v) <==> if k == local {
                    entries@[j as int].1@.contains(v)
                } else {
                    has_voxel(old(prop)@, k, v)
                } by {
                assert(has_voxel(prop@, k, v) == if k == local {
                    voxels@.contains(v)
                } else {
                    has_voxel(p0, k, v)
                });
                if k != local && j > 0 {
                    assert(has_voxel(p0, k, v) == has_voxel(old(prop)@, k, v));
                }
            }
        }
        j = j + 1;
    }
}

/// The same chunks, with the same kinds.
pub open spec fn world_kinds_same(before: Map<IVec3, Chunk>, after: Map<IVec3, Chunk>) -> bool {
    &&& after.dom() == before.dom()
    &&& forall|k: IVec3| #[trigger] after.dom().contains(k) ==> after[k].kinds == before[k].kinds
}

/// Removes natural light across the world from the given voxels of each chunk, following the
/// light into the neighbor chunks, then spreads back the light that remains around the
/// darkened voxels. Chunks that aren't loaded are skipped. A given voxel of a loaded chunk ends
/// dark, unless light was spread back into it, and then it has spread that light on in turn.
///
/// **Returns** the chunks touched, each once.
pub fn remove_natural_light(world: &mut VoxWorld, voxels: ChunkVoxelMap) -> (r: Vec<IVec3>)
    requires
        old(world).wf(),
        old(world).chunks_wf(),
        world_in_range(old(world)@),
        voxels_in_bounds(voxels@),
    ensures
        final(world).wf(),
        final(world).chunks_wf(),
        world_in_range(final(world)@),
        world_kinds_same(old(world)@, final(world)@),
        r@.no_duplicates(),
        forall|k: IVec3, u: IVec3|
            final(world)@.dom().contains(k) && in_bounds(u) && raised(
                old(world)@[k].lights,
                final(world)@[k],
                u,
            ) && !final(world)@[k].kinds.at(u).opaque() ==> #[trigger] spread_inside(
                final(world)@[k],
                u,
            ),
        forall|k: IVec3, u: IVec3|
            final(world)@.dom().contains(k) && in_bounds(u) && raised(
                old(world)@[k].lights,
                final(world)@[k],
                u,
            ) && !final(world)@[k].kinds.at(u).opaque() ==> #[trigger] spread_out(
                final(world)@,
                k,
                u,
            ),
        forall|k: IVec3, u: IVec3|
            #[trigger] has_voxel(voxels@, k, u) && final(world)@.dom().contains(k)
                && final(world)@[k].lights.natural_at(u) > 0 && !final(world)@[k].kinds.at(u).opaque()
                ==> spread_inside(final(world)@[k], u) && spread_out(final(world)@, k, u),
        voxels@.len() == 0 ==> world_lights_grew(old(world)@, final(world)@),
{
    let mut touched: Vec<IVec3> = Vec::new();
    let mut queue: VecDeque<(IVec3, Vec<IVec3>)> = VecDeque::new();
    let mut i: usize = 0;
    while i < voxels.len()
        invariant
            i <= voxels@.len(),
            voxels_in_bounds(voxels@),
            forall|a: int, k: int|
                0 <= a < queue@.len() && 0 <= k < queue@[a].1@.len() ==> in_bounds(#[trigger] queue@[a].1@[k]),
            queue@.len() == i,
            forall|a: int| 0 <= a < i ==> (#[trigger] queue@[a]).0 == voxels@[a].0 && queue@[a].1@ == voxels@[a].1@,
        decreases voxels@.len() - i,
    {
        let list = copy_voxels(&voxels[i].1);
        let ghost q = queue@;
        queue.push_back((voxels[i].0, list));
        proof {
            assert forall|a: int| 0 <= a < i + 1 implies (#[trigger] queue@[a]).0 == voxels@[a].0
                && queue@[a].1@ == voxels@[a].1@ by {
                if a < i {
                    assert(queue@[a] == q[a]);
                }
            }
        }
        i = i + 1;
    }
    proof {
        assert forall|k: IVec3, u: IVec3| #[trigger] has_voxel(voxels@, k, u) implies has_voxel(queue@, k, u) by {
            let a = choose|a: int| 0 <= a < voxels@.len() && voxels@[a].0 == k && (#[trigger] voxels@[a].1@).contains(u);
            assert(queue@[a].1@.contains(u));
        }
    }
    let mut prop: ChunkVoxelMap = Vec::new();
    proof {
        crate::voxworld::lemma_room_bounds(world);
    }
    while queue.len() > 0
        invariant
            world.wf(),
            world.chunks_wf(),
            world_in_range(world@),
            world_kinds_same(old(world)@, world@),
            forall|k: IVec3, v: IVec3|
                #![trigger world@[k].lights.at(v)]
                world@.dom().contains(k) && in_bounds(v) ==> world@[k].lights.at(v).natural <= old(
                    world,
                )@[k].lights.at(v).natural,
            touched@.no_duplicates(),
            voxel_keys_unique(prop@),
            voxels_in_bounds(prop@),
            forall|a: int, k: int|
                0 <= a < queue@.len() && 0 <= k < queue@[a].1@.len() ==> in_bounds(#[trigger] queue@[a].1@[k]),
            0 <= world.light_room() <= 255 * BUFFER_SIZE * world.chunk_count(),
            voxels@.len() == 0 ==> queue@.len() == 0 && *world == *old(world) && prop@.len() == 0,
            voxels_in_bounds(voxels@),
            forall|k: IVec3, u: IVec3|
                #[trigger] has_voxel(voxels@, k, u) && world@.dom().contains(k) ==> world@[k].lights.natural_at(u)
                    == 0 || has_voxel(queue@, k, u),
        decreases 255 * BUFFER_SIZE * world.chunk_count() - world.light_room(), queue@.len(),
    {
        let ghost q0 = queue@;
        let (local, seeds) = queue.pop_front().unwrap();
        proof {
            assert(queue@ =~= q0.subrange(1, q0.len() as int));
        }
        proof {
            assert forall|a: int, k: int|
                0 <= a < queue@.len() && 0 <= k < queue@[a].1@.len() implies in_bounds(#[trigger] queue@[a].1@[k]) by {
                assert(queue@[a] == q0[a + 1]);
            }
            assert forall|k: int| 0 <= k < seeds@.len() implies in_bounds(#[trigger] seeds@[k]) by {
                assert(q0[0].1@[k] == seeds@[k]);
            }
        }
        if !world.contains(local) {
            proof {
                assert forall|k: IVec3, u: IVec3|
                    #[trigger] has_voxel(voxels@, k, u) && world@.dom().contains(k) implies world@[k].lights.natural_at(
                    u,
                ) == 0 || has_voxel(queue@, k, u) by {
                    if has_voxel(q0, k, u) {
                        lemma_queued_pop(q0, k, u);
                    }
                }
            }
            continue;
        }
        let ghost w0 = world@;
        world.update_light_neighborhood(local);
        let ghost w1 = world@;
        let ghost room1 = world.light_room();
        let result = match world.get_mut(local) {
            Some(chunk) => remove_chunk_natural_light(chunk, &seeds),
            None => RemoveChunkNaturalLightResult { propagate: Vec::new(), remove: Vec::new() },
        };
        proof {
            assert forall|k: IVec3, u: IVec3|
                #[trigger] has_voxel(voxels@, k, u) && world@.dom().contains(k) implies world@[k].lights.natural_at(
                u,
            ) == 0 || has_voxel(queue@, k, u) by {
                assert(w0.dom().contains(k));
                let a = choose|a: int| 0 <= a < voxels@.len() && voxels@[a].0 == k && (#[trigger] voxels@[a].1@).contains(u);
                let b = voxels@[a].1@.index_of(u);
                assert(in_bounds(voxels@[a].1@[b]));
                if has_voxel(q0, k, u) {
                    lemma_queued_pop(q0, k, u);
                }
                if k == local {
                    if q0[0].0 == k && q0[0].1@.contains(u) {
                        let i = seeds@.index_of(u);
                        assert(world@[local].lights.natural_at(seeds@[i]) == 0);
                    } else if !has_voxel(queue@, k, u) {
                        assert(w1[k].lights.at(u) == w0[k].lights.at(u));
                        assert(world@[k].lights.at(u).natural == w1[k].lights.at(u).natural
                            || world@[k].lights.at(u).natural == 0);
                    }
                } else {
                    assert(world@[k] == w0[k]);
                }
            }
        }
        proof {
            assert(world@.dom() =~= w0.dom());
            assert forall|k: IVec3| #[trigger] world@.dom().contains(k) implies world@[k].kinds == old(world)@[k].kinds
                && has_neighbors(k) by {
                assert(w0.dom().contains(k));
                if k != local {
                    assert(world@[k] == w0[k]);
                }
            }
            crate::voxworld::lemma_room_bounds(world);
            assert forall|k: IVec3, v: IVec3|
                #![trigger world@[k].lights.at(v)]
                world@.dom().contains(k) && in_bounds(v) implies world@[k].lights.at(v).natural <= old(
                world,
            )@[k].lights.at(v).natural by {
                assert(w0.dom().contains(k));
                assert(w0[k].lights.at(v).natural <= old(world)@[k].lights.at(v).natural);
                if k == local {
                    assert(w1[k].lights.at(v) == w0[k].lights.at(v));
                    assert(world@[k].lights.at(v).natural <= w1[k].lights.at(v).natural);
                } else {
                    assert(world@[k] == w0[k]);
                }
            }
            assert forall|k: IVec3| #[trigger] has_voxel_key(result.remove@, k) implies is_small(k, 1) by {
                let s = choose|s: int| 0 <= s < SIDE_COUNT && #[trigger] side_at(s).direction() == k;
            }
            assert forall|k: IVec3| #[trigger] has_voxel_key(result.propagate@, k) implies is_small(k, 1) by {}
        }
        let ghost qlen = queue@.len();
        let ghost q1 = queue@;
        queue_removals(local, &result.remove, &mut queue, &mut touched);
        collect_propagations(local, &result.propagate, &mut prop, &mut touched);
        proof {
            assert forall|a: int, k: int|
                0 <= a < queue@.len() && 0 <= k < queue@[a].1@.len() implies in_bounds(#[trigger] queue@[a].1@[k]) by {
                if a < qlen {
                    assert(queue@[a] == q0[a + 1]);
                }
            }
        }
        proof {
            assert forall|k: IVec3, u: IVec3|
                #[trigger] has_voxel(voxels@, k, u) && world@.dom().contains(k) implies world@[k].lights.natural_at(
                u,
            ) == 0 || has_voxel(queue@, k, u) by {
                if world@[k].lights.natural_at(u) != 0 {
                    assert(has_voxel(q1, k, u));
                    let a = choose|a: int| 0 <= a < q1.len() && q1[a].0 == k && (#[trigger] q1[a].1@).contains(u);
                    assert(queue@[a] == q1[a]);
                }
            }
        }
    }
    let ghost mid = world@;
    let propagated = propagate_natural_light(world, prop);
    proof {
        if voxels@.len() == 0 {
            assert(mid == old(world)@);
        }
    }
    push_all_unique(&mut touched, &propagated);
    proof {
        assert forall|k: IVec3, u: IVec3|
            world@.dom().contains(k) && in_bounds(u) && raised(old(world)@[k].lights, world@[k], u)
                && !world@[k].kinds.at(u).opaque() implies #[trigger] spread_inside(world@[k], u) by {
            assert(mid.dom().contains(k));
            assert(mid[k].lights.at(u).natural <= old(world)@[k].lights.at(u).natural);
            assert(raised(mid[k].lights, world@[k], u));
        }
        assert forall|k: IVec3, u: IVec3|
            world@.dom().contains(k) && in_bounds(u) && raised(old(world)@[k].lights, world@[k], u)
                && !world@[k].kinds.at(u).opaque() implies #[trigger] spread_out(world@, k, u) by {
            assert(mid.dom().contains(k));
            assert(mid[k].lights.at(u).natural <= old(world)@[k].lights.at(u).natural);
            assert(eligible(mid, prop@, world@, k, u));
        }
        assert forall|k: IVec3, u: IVec3|
            #[trigger] has_voxel(voxels@, k, u) && world@.dom().contains(k) && world@[k].lights.natural_at(u) > 0
                && !world@[k].kinds.at(u).opaque() implies spread_inside(world@[k], u) && spread_out(
            world@,
            k,
            u,
        ) by {
            assert(mid.dom().contains(k));
            let a = choose|a: int| 0 <= a < voxels@.len() && voxels@[a].0 == k && (#[trigger] voxels@[a].1@).contains(u);
            let b = voxels@[a].1@.index_of(u);
            assert(in_bounds(voxels@[a].1@[b]));
            assert(mid[k].lights.natural_at(u) == 0);
            assert(raised(mid[k].lights, world@[k], u));
            assert(eligible(mid, prop@, world@, k, u));
        }
    }
    proof {
        assert forall|k: IVec3| #[trigger] world@.dom().contains(k) implies has_neighbors(k) by {}
    }
    touched
}

/// Refreshes, in the chunk at `local`, the copy of its loaded neighbors' light layers.
pub fn update_chunk_light_neighborhood(world: &mut VoxWorld, local: IVec3)
    requires
        old(world).wf(),
        old(world).chunks_wf(),
        has_neighbors(local),
    ensures
        final(world).wf(),
        final(world).chunks_wf(),
        world_lights_grew(old(world)@, final(world)@),
        final(world).light_room() == old(world).light_room(),
        final(world).chunk_count() == old(world).chunk_count(),
        old(world)@.dom().contains(local) ==> crate::voxworld::light_neighborhood_of(
            old(world)@,
            local,
            final(world)@[local].lights.neighbors(),
        ),
        forall|k: IVec3| #[trigger] final(world)@.dom().contains(k) && k != local ==> final(world)@[k] == old(world)@[k],
        old(world)@.dom().contains(local) ==> final(world)@[local].lights@ == old(world)@[local].lights@,
{
    world.update_light_neighborhood(local);
    proof {
        assert forall|k: IVec3| #[trigger] world@.dom().contains(k) implies {
            &&& world@[k].kinds == old(world)@[k].kinds
            &&& world@[k].lights.wf()
            &&& forall|v: IVec3|
                #![trigger world@[k].lights.at(v)]
                in_bounds(v) ==> world@[k].lights.at(v).artificial == old(world)@[k].lights.at(
                    v,
                ).artificial && world@[k].lights.at(v).natural >= old(world)@[k].lights.at(v).natural
        } by {
            if k == local {
                assert(world@[k].lights@ == old(world)@[k].lights@);
            }
        }
    }
}

/// The best lit of the first `n` sides around `voxel` whose light is known, the last one on
/// ties: its index and natural intensity.
pub open spec fn brightest_side(lights: ChunkLight, voxel: IVec3, n: int) -> Option<(int, u8)>
    decreases n,
{
    if n <= 0 {
        None
    } else {
        let prev = brightest_side(lights, voxel, n - 1);
        match lights.absolute(vadd(voxel, side_at(n - 1).direction())) {
            None => prev,
            Some(l) => match prev {
                None => Some((n - 1, l.natural)),
                Some(best) => if l.natural >= best.1 {
                    Some((n - 1, l.natural))
                } else {
                    prev
                },
            },
        }
    }
}

/// The chunk and voxel of the brightest neighbor of `voxel`, in the chunk at `local`, when it
/// has light to spread.
pub open spec fn highest_surrounding(world: Map<IVec3, Chunk>, local: IVec3, voxel: IVec3) -> Option<
    (IVec3, IVec3),
> {
    if !world.dom().contains(local) {
        None
    } else {
        match brightest_side(world[local].lights, voxel, SIDE_COUNT as int) {
            None => None,
            Some(best) => if best.1 <= 1 {
                None
            } else {
                let w = vadd(voxel, side_at(best.0).direction());
                if in_bounds(w) {
                    Some((local, w))
                } else {
                    Some((vadd(local, side_at(best.0).direction()), vrem(w, 16)))
                }
            },
        }
    }
}

proof fn lemma_brightest_range(lights: ChunkLight, voxel: IVec3, n: int)
    ensures
        brightest_side(lights, voxel, n) matches Some(best) ==> 0 <= best.0 < n,
    decreases n,
{
    if n > 0 {
        lemma_brightest_range(lights, voxel, n - 1);
    }
}

/// The brightest of the first `n` known sides is known, at least as bright as every other
/// known one among them, and there is none only when no side among them is known.
proof fn lemma_brightest_is_max(lights: ChunkLight, voxel: IVec3, n: int)
    ensures
        brightest_side(lights, voxel, n) matches Some(best) ==> {
            &&& 0 <= best.0 < n
            &&& lights.absolute(vadd(voxel, side_at(best.0).direction())) matches Some(l) && l.natural == best.1
            &&& forall|t: int| 0 <= t < n ==> (#[trigger] lights.absolute(vadd(voxel, side_at(t).direction())) matches Some(l)
                ==> l.natural <= best.1)
        },
        brightest_side(lights, voxel, n) is None ==> forall|t: int|
            0 <= t < n ==> #[trigger] lights.absolute(vadd(voxel, side_at(t).direction())) is None,
    decreases n,
{
    if n > 0 {
        lemma_brightest_is_max(lights, voxel, n - 1);
    }
}

/// The light source of `voxel` is its brightest known neighbor: when some neighbor, in the
/// chunk or in the known layer of a neighbor chunk, has natural light above 1, the source is
/// the neighbor on some side whose light is above 1 and at least that of every other known
/// neighbor, found in the chunk when it lies inside it and in the neighbor chunk on that side
/// otherwise; when no known neighbor has light above 1, there is no source.
pub proof fn lemma_highest_surrounding_brightest(world: Map<IVec3, Chunk>, local: IVec3, voxel: IVec3)
    requires
        world.dom().contains(local),
    ensures
        ({
            let lights = world[local].lights;
            match highest_surrounding(world, local, voxel) {
                Some(found) => exists|s: int| {
                    let w = #[trigger] vadd(voxel, side_at(s).direction());
                    &&& 0 <= s < SIDE_COUNT
                    &&& lights.absolute(w) matches Some(l) && l.natural > 1 && forall|t: int| 0 <= t < SIDE_COUNT
                        ==> (#[trigger] lights.absolute(vadd(voxel, side_at(t).direction())) matches Some(m)
                        ==> m.natural <= l.natural)
                    &&& in_bounds(w) ==> found == (local, w)
                    &&& !in_bounds(w) ==> found == (vadd(local, side_at(s).direction()), vrem(w, 16))
                },
                None => forall|t: int| 0 <= t < SIDE_COUNT ==> (#[trigger] lights.absolute(
                    vadd(voxel, side_at(t).direction()),
                ) matches Some(m) ==> m.natural <= 1),
            }
        }),
{
    let lights = world[local].lights;
    lemma_brightest_is_max(lights, voxel, SIDE_COUNT as int);
    match brightest_side(lights, voxel, SIDE_COUNT as int) {
        Some(best) => {
            let w = vadd(voxel, side_at(best.0).direction());
            assert(lights.absolute(w) matches Some(l) && l.natural == best.1);
        },
        None => {},
    }
}

/// **Returns** the chunk and voxel of the brightest neighbor of `voxel` in the chunk at
/// `local` (the last side on ties), when the chunk is loaded and that neighbor has light to
/// spread (more than 1).
pub fn find_highest_surrounding_light(world: &VoxWorld, local: IVec3, voxel: IVec3) -> (r: Option<
    (IVec3, IVec3),
>)
    requires
        world.wf(),
        world.chunks_wf(),
        has_neighbors(local),
        in_bounds(voxel),
    ensures
        r == highest_surrounding(world@, local, voxel),
        r matches Some(found) ==> in_bounds(found.1),
{
    let chunk = match world.get(local) {
        Some(c) => c,
        None => {
            return None;
        },
    };
    let mut best: Option<(usize, u8)> = None;
    let mut s: usize = 0;
    while s < SIDE_COUNT
        invariant
            s <= SIDE_COUNT,
            chunk.wf(),
            in_bounds(voxel),
            best == (match brightest_side(chunk.lights, voxel, s as int) {
                Some(b) => Some((b.0 as usize, b.1)),
                None => None::<(usize, u8)>,
            }),
            brightest_side(chunk.lights, voxel, s as int) matches Some(b) ==> 0 <= b.0 < s,
        decreases SIDE_COUNT - s,
    {
        let side = Side::from_index(s);
        let w = voxel.plus(side.dir());
        match chunk.lights.get_absolute(w) {
            Some(l) => {
                let replace = match best {
                    None => true,
                    Some(b) => l.natural >= b.1,
                };
                if replace {
                    best = Some((s, l.natural));
                }
            },
            None => {},
        }
        s = s + 1;
    }
    match best {
        None => None,
        Some(b) => {
            if b.1 <= 1 {
                None
            } else {
                let side = Side::from_index(b.0);
                let side_voxel = voxel.plus(side.dir());
                if is_within_bounds(side_voxel) {
                    Some((local, side_voxel))
                } else {
                    let (_, neighbor_voxel) = overlap_voxel(side_voxel);
                    Some((local.plus(side.dir()), neighbor_voxel))
                }
            }
        },
    }
}

/// Every voxel of the map lies inside a chunk, stated over listed voxels.
proof fn lemma_voxels_in_bounds(map: Seq<(IVec3, Vec<IVec3>)>, k: IVec3, v: IVec3)
    requires
        voxels_in_bounds(map),
        has_voxel(map, k, v),
    ensures
        in_bounds(v),
{
    let i = choose|i: int| 0 <= i < map.len() && map[i].0 == k && (#[trigger] map[i].1@).contains(v);
    let j = choose|j: int| 0 <= j < map[i].1@.len() && map[i].1@[j] == v;
}

/// Adds `voxel` under `key`, keeping every listed voxel inside a chunk.
fn push_voxel_in_bounds(map: &mut ChunkVoxelMap, key: IVec3, voxel: IVec3)
    requires
        voxel_keys_unique(old(map)@),
        voxels_in_bounds(old(map)@),
        in_bounds(voxel),
    ensures
        voxel_keys_unique(final(map)@),
        voxels_in_bounds(final(map)@),
        forall|k: IVec3, v: IVec3|
            #[trigger] has_voxel(final(map)@, k, v) <==> (has_voxel(old(map)@, k, v) || (k == key && v == voxel)),
{
    push_voxel(map, key, voxel);
    proof {
        assert forall|i: int, k: int| 0 <= i < map@.len() && 0 <= k < map@[i].1@.len() implies in_bounds(
            #[trigger] map@[i].1@[k],
        ) by {
            if map@[i].1@[k] != voxel {
                lemma_voxels_in_bounds(old(map)@, map@[i].0, map@[i].1@[k]);
            }
        }
    }
}

/// Every voxel update lies inside its chunk, and every updated chunk has room for its six
/// neighbor positions.
pub open spec fn updates_in_range(updated: Seq<(IVec3, VoxelUpdateList)>) -> bool {
    forall|i: int|
        0 <= i < updated.len() ==> has_neighbors(#[trigger] updated[i].0) && forall|k: int|
            0 <= k < updated[i].1@.len() ==> in_bounds(#[trigger] updated[i].1@[k].0)
}

/// Where the light of a voxel changed to `update.1` comes from: for a kind that lets light
/// through, its brightest surrounding voxel, if bright enough to light it.
pub open spec fn light_source(world: Map<IVec3, Chunk>, local: IVec3, update: (IVec3, Kind)) -> Option<
    (IVec3, IVec3),
> {
    if update.1.opaque() {
        None
    } else {
        highest_surrounding(world, local, update.0)
    }
}

/// A voxel that lets light through, inside its chunk, whose lit neighbors let light through,
/// ends at most one below its brightest neighbor, once that neighbor, found as its light
/// source, has spread its light around it and no light went down.
proof fn lemma_lit_from_brightest(
    before: Map<IVec3, Chunk>,
    after: Map<IVec3, Chunk>,
    local: IVec3,
    update: (IVec3, Kind),
    s: int,
)
    requires
        world_kinds_same(before, after),
        forall|k: IVec3, v: IVec3|
            #![trigger after[k].lights.at(v)]
            after.dom().contains(k) && in_bounds(v) ==> after[k].lights.at(v).natural >= before[k].lights.at(
                v,
            ).natural,
        forall|k: IVec3, u: IVec3|
            light_source(before, local, update) == Some((k, u)) && after.dom().contains(k) && !after[k].kinds.at(
                u,
            ).opaque() ==> #[trigger] spread_inside(after[k], u),
        !update.1.opaque(),
        before.dom().contains(local),
        interior(update.0),
        !before[local].kinds.at(update.0).opaque(),
        lit_neighbors_clear(before[local], update.0),
        0 <= s < SIDE_COUNT,
        before[local].lights.natural_at(vadd(update.0, side_at(s).direction())) > 1,
    ensures
        after[local].lights.natural_at(update.0) + 1 >= before[local].lights.natural_at(
            vadd(update.0, side_at(s).direction()),
        ),
{
    let v = update.0;
    let lights = before[local].lights;
    let w = vadd(v, side_at(s).direction());
    assert(in_bounds(w));
    assert(lights.absolute(w) == Some(lights.at(w)));
    lemma_highest_surrounding_brightest(before, local, v);
    let found = highest_surrounding(before, local, v)->0;
    let t = choose|t: int| {
        let x = #[trigger] vadd(v, side_at(t).direction());
        &&& 0 <= t < SIDE_COUNT
        &&& lights.absolute(x) matches Some(l) && l.natural > 1 && forall|q: int| 0 <= q < SIDE_COUNT
            ==> (#[trigger] lights.absolute(vadd(v, side_at(q).direction())) matches Some(m)
            ==> m.natural <= l.natural)
        &&& in_bounds(x) ==> found == (local, x)
        &&& !in_bounds(x) ==> found == (vadd(local, side_at(t).direction()), vrem(x, 16))
    };
    let u = vadd(v, side_at(t).direction());
    assert(in_bounds(u));
    assert(lights.absolute(u) == Some(lights.at(u)));
    assert(found == (local, u));
    assert(lights.natural_at(u) >= lights.natural_at(w));
    assert(!before[local].kinds.at(u).opaque());
    assert(after[local].kinds == before[local].kinds);
    assert(spread_inside(after[local], u));
    let o = if t % 2 == 0 { t + 1 } else { t - 1 };
    assert(vadd(u, side_at(o).direction()) == v);
    assert(spread_side(after[local], Seq::empty(), false, u, side_at(o)));
    assert(after[local].kinds.absolute(v) == Some(after[local].kinds.at(v)));
    assert(after[local].lights.at(u).natural >= before[local].lights.at(u).natural);
}

/// No voxel of the batch became opaque.
pub open spec fn no_opaque_updates(updated: Seq<(IVec3, VoxelUpdateList)>) -> bool {
    forall|i: int, m: int|
        0 <= i < updated.len() && 0 <= m < updated[i].1@.len() ==> !(#[trigger] updated[i].1@[m]).1.opaque()
}

/// A voxel whose six neighbors all lie in its own chunk.
pub open spec fn interior(v: IVec3) -> bool {
    &&& 1 <= v.x <= 14
    &&& 1 <= v.y <= 14
    &&& 1 <= v.z <= 14
}

/// Every neighbor of `v` with light to spread lets light through.
pub open spec fn lit_neighbors_clear(c: Chunk, v: IVec3) -> bool {
    forall|t: int|
        0 <= t < SIDE_COUNT && c.lights.natural_at(#[trigger] vadd(v, side_at(t).direction())) > 1 ==> !c.kinds.at(
            vadd(v, side_at(t).direction()),
        ).opaque()
}

/// Updates the natural light after voxels changed kind: the light of voxels that became
/// opaque is removed, and the light around voxels that let light through is spread into them
/// from their brightest neighbor. The light neighborhoods of the touched chunks are refreshed.
///
/// **Returns** the chunks touched.
pub fn update_light(world: &mut VoxWorld, updated: &[(IVec3, VoxelUpdateList)]) -> (r: Vec<IVec3>)
    requires
        old(world).wf(),
        old(world).chunks_wf(),
        world_in_range(old(world)@),
        updates_in_range(updated@),
    ensures
        final(world).wf(),
        final(world).chunks_wf(),
        world_in_range(final(world)@),
        world_kinds_same(old(world)@, final(world)@),
        forall|k: IVec3, u: IVec3|
            final(world)@.dom().contains(k) && in_bounds(u) && raised(
                old(world)@[k].lights,
                final(world)@[k],
                u,
            ) && !final(world)@[k].kinds.at(u).opaque() ==> #[trigger] spread_inside(
                final(world)@[k],
                u,
            ),
        forall|i: int, m: int, k: IVec3, u: IVec3|
            #![trigger light_source(old(world)@, updated@[i].0, updated@[i].1@[m]), spread_inside(final(world)@[k], u)]
            0 <= i < updated@.len() && 0 <= m < updated@[i].1@.len() && light_source(
                old(world)@,
                updated@[i].0,
                updated@[i].1@[m],
            ) == Some((k, u)) && final(world)@.dom().contains(k) && !final(world)@[k].kinds.at(
                u,
            ).opaque() ==> spread_inside(final(world)@[k], u),
        forall|k: IVec3, u: IVec3|
            final(world)@.dom().contains(k) && in_bounds(u) && raised(
                old(world)@[k].lights,
                final(world)@[k],
                u,
            ) && !final(world)@[k].kinds.at(u).opaque() ==> #[trigger] spread_out(
                final(world)@,
                k,
                u,
            ),
        forall|i: int, m: int, k: IVec3, u: IVec3|
            #![trigger light_source(old(world)@, updated@[i].0, updated@[i].1@[m]), spread_out(final(world)@, k, u)]
            0 <= i < updated@.len() && 0 <= m < updated@[i].1@.len() && light_source(
                old(world)@,
                updated@[i].0,
                updated@[i].1@[m],
            ) == Some((k, u)) && final(world)@.dom().contains(k) && !final(world)@[k].kinds.at(
                u,
            ).opaque() ==> spread_out(final(world)@, k, u),
        no_opaque_updates(updated@) ==> forall|k: IVec3, v: IVec3|
            #![trigger final(world)@[k].lights.at(v)]
            final(world)@.dom().contains(k) && in_bounds(v) ==> final(world)@[k].lights.at(v).natural >= old(
                world,
            )@[k].lights.at(v).natural,
        forall|i: int, m: int, s: int|
            #![trigger updated@[i].1@[m], side_at(s)]
            0 <= i < updated@.len() && 0 <= m < updated@[i].1@.len() && 0 <= s < SIDE_COUNT && no_opaque_updates(
                updated@,
            ) && old(world)@.dom().contains(updated@[i].0) && interior(updated@[i].1@[m].0) && !old(
                world,
            )@[updated@[i].0].kinds.at(updated@[i].1@[m].0).opaque() && lit_neighbors_clear(
                old(world)@[updated@[i].0],
                updated@[i].1@[m].0,
            ) && old(world)@[updated@[i].0].lights.natural_at(vadd(updated@[i].1@[m].0, side_at(s).direction()))
                > 1 ==> final(world)@[updated@[i].0].lights.natural_at(updated@[i].1@[m].0) + 1 >= old(
                world,
            )@[updated@[i].0].lights.natural_at(vadd(updated@[i].1@[m].0, side_at(s).direction())),
{
    let mut removal: ChunkVoxelMap = Vec::new();
    let mut propagation: ChunkVoxelMap = Vec::new();
    let mut i: usize = 0;
    while i < updated.len()
        invariant
            i <= updated@.len(),
            world.wf(),
            world.chunks_wf(),
            updates_in_range(updated@),
            *world == *old(world),
            voxel_keys_unique(removal@),
            voxels_in_bounds(removal@),
            voxel_keys_unique(propagation@),
            voxels_in_bounds(propagation@),
            no_opaque_updates(updated@) ==> removal@.len() == 0,
            forall|i2: int, m: int, k: IVec3, u: IVec3|
                #![trigger light_source(old(world)@, updated@[i2].0, updated@[i2].1@[m]), has_voxel(propagation@, k, u)]
                0 <= i2 < i && 0 <= m < updated@[i2].1@.len() && light_source(
                    old(world)@,
                    updated@[i2].0,
                    updated@[i2].1@[m],
                ) == Some((k, u)) ==> has_voxel(propagation@, k, u),
        decreases updated@.len() - i,
    {
        let local = updated[i].0;
        let list = &updated[i].1;
        let mut k: usize = 0;
        while k < list.len()
            invariant
                k <= list@.len(),
                world.wf(),
                world.chunks_wf(),
                has_neighbors(local),
                forall|a: int| 0 <= a < list@.len() ==> in_bounds(#[trigger] list@[a].0),
                voxel_keys_unique(removal@),
                voxels_in_bounds(removal@),
                voxel_keys_unique(propagation@),
                voxels_in_bounds(propagation@),
                no_opaque_updates(updated@) ==> removal@.len() == 0,
                i < updated@.len(),
                local == updated@[i as int].0,
                list@ == updated@[i as int].1@,
                *world == *old(world),
                forall|i2: int, m: int, c: IVec3, u: IVec3|
                    #![trigger light_source(old(world)@, updated@[i2].0, updated@[i2].1@[m]), has_voxel(propagation@, c, u)]
                    0 <= i2 < i && 0 <= m < updated@[i2].1@.len() && light_source(
                        old(world)@,
                        updated@[i2].0,
                        updated@[i2].1@[m],
                    ) == Some((c, u)) ==> has_voxel(propagation@, c, u),
                forall|m: int, c: IVec3, u: IVec3|
                    #![trigger light_source(old(world)@, local, list@[m]), has_voxel(propagation@, c, u)]
                    0 <= m < k && light_source(old(world)@, local, list@[m]) == Some((c, u))
                        ==> has_voxel(propagation@, c, u),
            decreases list@.len() - k,
        {
            let (voxel, kind) = list[k];
            let ghost before = propagation@;
            proof {
                assert(updated@[i as int].1@[k as int] == list@[k as int]);
            }
            if kind.is_opaque() {
                push_voxel_in_bounds(&mut removal, local, voxel);
            } else {
                match find_highest_surrounding_light(world, local, voxel) {
                    Some(found) => {
                        push_voxel_in_bounds(&mut propagation, found.0, found.1);
                    },
                    None => {},
                }
            }
            proof {
                assert forall|c: IVec3, u: IVec3| #[trigger] has_voxel(before, c, u) implies has_voxel(
                    propagation@,
                    c,
                    u,
                ) by {}
            }
            k = k + 1;
        }
        i = i + 1;
    }
    let ghost w0 = world@;
    let mut touched = remove_natural_light(world, removal);
    let ghost w1 = world@;
    let ghost seeds = propagation@;
    let propagated = propagate_natural_light(world, propagation);
    let ghost w2 = world@;
    let mut a: usize = 0;
    while a < propagated.len()
        invariant
            a <= propagated@.len(),
        decreases propagated@.len() - a,
    {
        touched.push(propagated[a]);
        a = a + 1;
    }
    proof {
        assert(world_kinds_same(old(world)@, world@)) by {
            assert forall|k: IVec3| #[trigger] world@.dom().contains(k) implies world@[k].kinds == old(
                world,
            )@[k].kinds by {
                assert(w1.dom().contains(k));
            }
        }
    }
    let mut t: usize = 0;
    while t < touched.len()
        invariant
            t <= touched@.len(),
            world.wf(),
            world.chunks_wf(),
            world_in_range(world@),
            world_kinds_same(old(world)@, world@),
            world@.dom() == w2.dom(),
            forall|k: IVec3|
                #[trigger] world@.dom().contains(k) ==> world@[k].kinds == w2[k].kinds
                    && world@[k].lights@ == w2[k].lights@,
        decreases touched@.len() - t,
    {
        let local = touched[t];
        if world.contains(local) {
            let ghost w3 = world@;
            update_chunk_light_neighborhood(world, local);
            proof {
                assert forall|k: IVec3| #[trigger] world@.dom().contains(k) implies has_neighbors(k)
                    && world@[k].kinds == old(world)@[k].kinds by {
                    assert(w3.dom().contains(k));
                }
                assert forall|k: IVec3| #[trigger] world@.dom().contains(k) implies world@[k].kinds
                    == w2[k].kinds && world@[k].lights@ == w2[k].lights@ by {
                    assert(w3.dom().contains(k));
                    if k != local {
                        assert(world@[k] == w3[k]);
                    }
                }
            }
        }
        t = t + 1;
    }
    proof {
        assert forall|k: IVec3| world@.dom().contains(k) implies forall|v: IVec3|
            #![trigger world@[k].lights.at(v)]
            in_bounds(v) ==> world@[k].lights.at(v) == w2[k].lights.at(v) by {}
        assert forall|k: IVec3, u: IVec3|
            world@.dom().contains(k) && in_bounds(u) && raised(old(world)@[k].lights, world@[k], u)
                && !world@[k].kinds.at(u).opaque() implies #[trigger] spread_inside(world@[k], u) by {
            assert(w1.dom().contains(k));
            assert(world@[k].lights.at(u) == w2[k].lights.at(u));
            if !raised(w1[k].lights, w2[k], u) {
                assert(w2[k].lights.at(u).natural >= w1[k].lights.at(u).natural);
                assert(raised(old(world)@[k].lights, w1[k], u));
                assert(spread_inside(w1[k], u));
                lemma_spread_inside_kept(w1[k], w2[k], u);
            }
            lemma_spread_inside_kept(w2[k], world@[k], u);
        }
        assert forall|i: int, m: int, k: IVec3, u: IVec3|
            #![trigger light_source(old(world)@, updated@[i].0, updated@[i].1@[m]), spread_inside(world@[k], u)]
            0 <= i < updated@.len() && 0 <= m < updated@[i].1@.len() && light_source(
                old(world)@,
                updated@[i].0,
                updated@[i].1@[m],
            ) == Some((k, u)) && world@.dom().contains(k) && !world@[k].kinds.at(u).opaque() implies spread_inside(
            world@[k],
            u,
        ) by {
            assert(has_voxel(seeds, k, u));
            assert(w2.dom().contains(k));
            assert(spread_inside(w2[k], u));
            lemma_spread_inside_kept(w2[k], world@[k], u);
        }
        assert forall|k: IVec3, u: IVec3|
            world@.dom().contains(k) && in_bounds(u) && raised(old(world)@[k].lights, world@[k], u)
                && !world@[k].kinds.at(u).opaque() implies #[trigger] spread_out(world@, k, u) by {
            assert(w1.dom().contains(k));
            assert(world@[k].lights.at(u) == w2[k].lights.at(u));
            if !raised(w1[k].lights, w2[k], u) {
                assert(w2[k].lights.at(u).natural >= w1[k].lights.at(u).natural);
                assert(raised(old(world)@[k].lights, w1[k], u));
                assert(spread_out(w1, k, u));
                lemma_spread_out_grew(w1, w2, k, u);
            } else {
                assert(eligible(w1, seeds, w2, k, u));
            }
            lemma_spread_out_same(w2, world@, k, u);
        }
        assert forall|i: int, m: int, k: IVec3, u: IVec3|
            #![trigger light_source(old(world)@, updated@[i].0, updated@[i].1@[m]), spread_out(world@, k, u)]
            0 <= i < updated@.len() && 0 <= m < updated@[i].1@.len() && light_source(
                old(world)@,
                updated@[i].0,
                updated@[i].1@[m],
            ) == Some((k, u)) && world@.dom().contains(k) && !world@[k].kinds.at(u).opaque() implies spread_out(
            world@,
            k,
            u,
        ) by {
            assert(has_voxel(seeds, k, u));
            assert(w2.dom().contains(k));
            assert(in_bounds(u));
            assert(eligible(w1, seeds, w2, k, u));
            lemma_spread_out_same(w2, world@, k, u);
        }
    }
    proof {
        assert forall|i: int, m: int, s: int|
            #![trigger updated@[i].1@[m], side_at(s)]
            0 <= i < updated@.len() && 0 <= m < updated@[i].1@.len() && 0 <= s < SIDE_COUNT && no_opaque_updates(
                updated@,
            ) && old(world)@.dom().contains(updated@[i].0) && interior(updated@[i].1@[m].0) && !old(
                world,
            )@[updated@[i].0].kinds.at(updated@[i].1@[m].0).opaque() && lit_neighbors_clear(
                old(world)@[updated@[i].0],
                updated@[i].1@[m].0,
            ) && old(world)@[updated@[i].0].lights.natural_at(vadd(updated@[i].1@[m].0, side_at(s).direction()))
                > 1 implies world@[updated@[i].0].lights.natural_at(updated@[i].1@[m].0) + 1 >= old(
                world,
            )@[updated@[i].0].lights.natural_at(vadd(updated@[i].1@[m].0, side_at(s).direction())) by {
            let local = updated@[i].0;
            let update = updated@[i].1@[m];
            assert(!update.1.opaque());
            assert forall|k: IVec3, u: IVec3|
                light_source(old(world)@, local, update) == Some((k, u)) && world@.dom().contains(k) && !world@[k].kinds.at(
                    u,
                ).opaque() implies #[trigger] spread_inside(world@[k], u) by {
                assert(light_source(old(world)@, updated@[i].0, updated@[i].1@[m]) == Some((k, u)));
            }
            lemma_lit_from_brightest(old(world)@, world@, local, update, s);
        }
    }
    touched
}

/// Light that has crossed into the neighbor chunks stays there when only the light layers
/// of the neighborhoods are refreshed.
proof fn lemma_spread_out_same(w: Map<IVec3, Chunk>, w2: Map<IVec3, Chunk>, k: IVec3, u: IVec3)
    requires
        spread_out(w, k, u),
        w.dom().contains(k),
        in_bounds(u),
        w2.dom() == w.dom(),
        forall|c: IVec3|
            #[trigger] w2.dom().contains(c) ==> w2[c].kinds == w[c].kinds && w2[c].lights@ == w[c].lights@,
    ensures
        spread_out(w2, k, u),
{
    assert forall|s: int| 0 <= s < SIDE_COUNT implies #[trigger] spread_across(w2, k, u, side_at(s)) by {
        assert(spread_across(w, k, u, side_at(s)));
        let k2 = vadd(k, side_at(s).direction());
        assert(w2.dom().contains(k));
        if w2.dom().contains(k2) {
            assert(w2[k2].lights@ == w[k2].lights@);
        }
    }
}

/// Light that has crossed into the neighbor chunks stays there while the lights only grow and
/// `u` keeps its intensity.
proof fn lemma_spread_out_grew(w: Map<IVec3, Chunk>, w2: Map<IVec3, Chunk>, k: IVec3, u: IVec3)
    requires
        spread_out(w, k, u),
        w.dom().contains(k),
        in_bounds(u),
        world_lights_grew(w, w2),
        w2[k].lights.natural_at(u) == w[k].lights.natural_at(u),
    ensures
        spread_out(w2, k, u),
{
    assert forall|s: int| 0 <= s < SIDE_COUNT implies #[trigger] spread_across(w2, k, u, side_at(s)) by {
        assert(spread_across(w, k, u, side_at(s)));
        let w_ = vadd(u, side_at(s).direction());
        let k2 = vadd(k, side_at(s).direction());
        if w2.dom().contains(k2) && !in_bounds(w_) {
            crate::chunk::lemma_overlap_roundtrip(w_);
            assert(w2[k2].lights.at(vrem(w_, 16)).natural >= w[k2].lights.at(vrem(w_, 16)).natural);
        }
    }
}

/// The voxels of the top layer of a chunk, by growing `x`, then `z`.
pub open spec fn top_voxels_seq() -> Seq<IVec3> {
    Seq::new(256, |i: int| IVec3 { x: (i / 16) as i32, y: 15, z: (i % 16) as i32 })
}

fn top_voxels() -> (r: Vec<IVec3>)
    ensures
        r@ == top_voxels_seq(),
        forall|i: int| 0 <= i < r@.len() ==> in_bounds(#[trigger] r@[i]),
{
    let mut r: Vec<IVec3> = Vec::new();
    let mut x: i32 = 0;
    while x < 16
        invariant
            0 <= x <= 16,
            r@ == top_voxels_seq().subrange(0, x * 16),
        decreases 16 - x,
    {
        let mut z: i32 = 0;
        while z < 16
            invariant
                0 <= x < 16,
                0 <= z <= 16,
                r@ == top_voxels_seq().subrange(0, x * 16 + z),
            decreases 16 - z,
        {
            r.push(IVec3 { x, y: 15, z });
            proof {
                let i = x * 16 + z;
                assert(i / 16 == x && i % 16 == z) by (nonlinear_arith)
                    requires
                        i == x * 16 + z,
                        0 <= z < 16,
                ;
                assert(r@ =~= top_voxels_seq().subrange(0, x * 16 + z + 1));
            }
            z = z + 1;
        }
        x = x + 1;
    }
    proof {
        assert(r@ =~= top_voxels_seq());
        assert forall|i: int| 0 <= i < r@.len() implies in_bounds(#[trigger] r@[i]) by {
            assert(0 <= i / 16 < 16 && 0 <= i % 16 < 16) by (nonlinear_arith)
                requires
                    0 <= i < 256,
            ;
        }
    }
    r
}

/// Inside its chunk, the light of `u` has reached every passable neighbor: each holds at least
/// the intensity propagated to it from `u`.
pub open spec fn spread_inside(c: Chunk, u: IVec3) -> bool {
    forall|s: int| 0 <= s < SIDE_COUNT ==> #[trigger] spread_side(c, Seq::empty(), false, u, side_at(s))
}

proof fn lemma_spread_inside(
    c: Chunk,
    map: Seq<(IVec3, Vec<(IVec3, u8)>)>,
    to_neighbors: bool,
    u: IVec3,
)
    requires
        spread(c, map, to_neighbors, u),
    ensures
        spread_inside(c, u),
{
    assert forall|s: int| 0 <= s < SIDE_COUNT implies #[trigger] spread_side(c, Seq::empty(), false, u, side_at(s)) by {
        assert(spread_side(c, map, to_neighbors, u, side_at(s)));
    }
}

/// The voxel `u` of the loaded chunk at `k`, if it was a seed or got brighter than in `before`
/// and lets light through, has spread its light inside its chunk or waits in `queue`.
pub open spec fn spread_or_queued(
    before: Map<IVec3, Chunk>,
    seeds: Seq<(IVec3, Vec<IVec3>)>,
    world: Map<IVec3, Chunk>,
    queue: Seq<(IVec3, Vec<IVec3>)>,
    k: IVec3,
    u: IVec3,
) -> bool {
    world.dom().contains(k) && in_bounds(u) && (has_voxel(seeds, k, u) || raised(
        before[k].lights,
        world[k],
        u,
    )) && !world[k].kinds.at(u).opaque() ==> spread_inside(world[k], u) || has_voxel(queue, k, u)
}

pub open spec fn world_spread(
    before: Map<IVec3, Chunk>,
    seeds: Seq<(IVec3, Vec<IVec3>)>,
    world: Map<IVec3, Chunk>,
    queue: Seq<(IVec3, Vec<IVec3>)>,
) -> bool {
    forall|k: IVec3, u: IVec3| #[trigger] spread_or_queued(before, seeds, world, queue, k, u)
}

proof fn lemma_queued_pop(q: Seq<(IVec3, Vec<IVec3>)>, k: IVec3, u: IVec3)
    requires
        q.len() > 0,
        has_voxel(q, k, u),
    ensures
        has_voxel(q.subrange(1, q.len() as int), k, u) || (q[0].0 == k && q[0].1@.contains(u)),
{
    let a = choose|a: int| 0 <= a < q.len() && q[a].0 == k && #[trigger] q[a].1@.contains(u);
    if a > 0 {
        assert(q.subrange(1, q.len() as int)[a - 1] == q[a]);
    }
}

proof fn lemma_queued_push(q: Seq<(IVec3, Vec<IVec3>)>, e: (IVec3, Vec<IVec3>), k: IVec3, u: IVec3)
    requires
        has_voxel(q, k, u) || (e.0 == k && e.1@.contains(u)),
    ensures
        has_voxel(q.push(e), k, u),
{
    if has_voxel(q, k, u) {
        let a = choose|a: int| 0 <= a < q.len() && q[a].0 == k && #[trigger] q[a].1@.contains(u);
        assert(q.push(e)[a] == q[a]);
    } else {
        assert(q.push(e)[q.len() as int] == e);
    }
}

/// Taking an entry of a chunk that isn't loaded off the queue keeps every voxel spread or
/// queued.
proof fn lemma_world_spread_skip(
    before: Map<IVec3, Chunk>,
    seeds: Seq<(IVec3, Vec<IVec3>)>,
    world: Map<IVec3, Chunk>,
    q: Seq<(IVec3, Vec<IVec3>)>,
)
    requires
        world_spread(before, seeds, world, q),
        q.len() > 0,
        !world.dom().contains(q[0].0),
    ensures
        world_spread(before, seeds, world, q.subrange(1, q.len() as int)),
{
    assert forall|k: IVec3, u: IVec3| #[trigger]
        spread_or_queued(before, seeds, world, q.subrange(1, q.len() as int), k, u) by {
        assert(spread_or_queued(before, seeds, world, q, k, u));
        if has_voxel(q, k, u) {
            lemma_queued_pop(q, k, u);
        }
    }
}

/// Spreading the light of the first queued chunk from its seeds keeps every voxel spread or
/// queued, once its entry is taken off the queue.
proof fn lemma_world_spread_propagated(
    before: Map<IVec3, Chunk>,
    seeds: Seq<(IVec3, Vec<IVec3>)>,
    w0: Map<IVec3, Chunk>,
    w2: Map<IVec3, Chunk>,
    q: Seq<(IVec3, Vec<IVec3>)>,
    map: Seq<(IVec3, Vec<(IVec3, u8)>)>,
)
    requires
        world_spread(before, seeds, w0, q),
        q.len() > 0,
        w0.dom().contains(q[0].0),
        w2.dom() == w0.dom(),
        forall|k: IVec3| w2.dom().contains(k) && k != q[0].0 ==> #[trigger] w2[k] == w0[k],
        w2[q[0].0].kinds == w0[q[0].0].kinds,
        forall|v: IVec3|
            #![trigger w2[q[0].0].lights.at(v)]
            in_bounds(v) ==> w2[q[0].0].lights.at(v).natural >= w0[q[0].0].lights.at(v).natural,
        forall|u: IVec3|
            in_bounds(u) && (q[0].1@.contains(u) || raised(w0[q[0].0].lights, w2[q[0].0], u))
                && !w2[q[0].0].kinds.at(u).opaque() ==> #[trigger] spread(w2[q[0].0], map, true, u),
    ensures
        world_spread(before, seeds, w2, q.subrange(1, q.len() as int)),
{
    let local = q[0].0;
    let q1 = q.subrange(1, q.len() as int);
    assert forall|k: IVec3, u: IVec3| #[trigger] spread_or_queued(before, seeds, w2, q1, k, u) by {
        assert(spread_or_queued(before, seeds, w0, q, k, u));
        if has_voxel(q, k, u) {
            lemma_queued_pop(q, k, u);
        }
        if k == local && w2.dom().contains(k) && in_bounds(u) && !w2[k].kinds.at(u).opaque() {
            if q[0].1@.contains(u) || raised(w0[local].lights, w2[local], u) {
                assert(spread(w2[local], map, true, u));
                lemma_spread_inside(w2[local], map, true, u);
            } else if spread_inside(w0[local], u) {
                lemma_spread_inside_kept(w0[local], w2[local], u);
            }
        }
    }
}

/// Handing light to a neighbor chunk keeps every voxel spread or queued, once the voxels it
/// brightened enough are queued.
proof fn lemma_world_spread_applied(
    before: Map<IVec3, Chunk>,
    seeds: Seq<(IVec3, Vec<IVec3>)>,
    w: Map<IVec3, Chunk>,
    w2: Map<IVec3, Chunk>,
    q: Seq<(IVec3, Vec<IVec3>)>,
    j: IVec3,
    list: Vec<IVec3>,
)
    requires
        world_spread(before, seeds, w, q),
        w.dom().contains(j),
        w2.dom() == w.dom(),
        forall|k: IVec3| w2.dom().contains(k) && k != j ==> #[trigger] w2[k] == w[k],
        w2[j].kinds == w[j].kinds,
        forall|v: IVec3|
            #![trigger w2[j].lights.at(v)]
            in_bounds(v) ==> w2[j].lights.at(v).natural >= w[j].lights.at(v).natural,
        forall|v: IVec3|
            #![trigger w2[j].lights.at(v)]
            in_bounds(v) && w2[j].lights.at(v).natural > w[j].lights.at(v).natural
                && w2[j].lights.at(v).natural > 1 ==> list@.contains(v),
    ensures
        world_spread(
            before,
            seeds,
            w2,
            if list@.len() > 0 {
                q.push((j, list))
            } else {
                q
            },
        ),
{
    let q2 = if list@.len() > 0 {
        q.push((j, list))
    } else {
        q
    };
    assert forall|k: IVec3, u: IVec3| #[trigger] spread_or_queued(before, seeds, w2, q2, k, u) by {
        assert(spread_or_queued(before, seeds, w, q, k, u));
        if has_voxel(q, k, u) && list@.len() > 0 {
            lemma_queued_push(q, (j, list), k, u);
        }
        if k == j && w2.dom().contains(k) && in_bounds(u) && !w2[k].kinds.at(u).opaque() {
            if w2[j].lights.at(u).natural > w[j].lights.at(u).natural {
                if w2[j].lights.at(u).natural > 1 {
                    assert(list@.contains(u));
                    lemma_queued_push(q, (j, list), k, u);
                } else {
                    lemma_dim_spread_inside(w2[j], u);
                }
            } else if spread_inside(w[j], u) {
                lemma_spread_inside_kept(w[j], w2[j], u);
            }
        }
    }
}

/// Light that has reached the neighbors of `u` stays there while the lights only grow and `u`
/// keeps its intensity.
proof fn lemma_spread_inside_kept(c1: Chunk, c2: Chunk, u: IVec3)
    requires
        spread_inside(c1, u),
        c2.kinds == c1.kinds,
        forall|v: IVec3|
            #![trigger c2.lights.at(v)]
            in_bounds(v) ==> c2.lights.at(v).natural >= c1.lights.at(v).natural,
        in_bounds(u),
        c2.lights.natural_at(u) == c1.lights.natural_at(u),
    ensures
        spread_inside(c2, u),
{
    assert forall|s: int| 0 <= s < SIDE_COUNT implies #[trigger] spread_side(c2, Seq::empty(), false, u, side_at(s)) by {
        assert(spread_side(c1, Seq::empty(), false, u, side_at(s)));
        let w = vadd(u, side_at(s).direction());
        if in_bounds(w) {
            assert(c2.lights.at(w).natural >= c1.lights.at(w).natural);
        }
    }
}

/// A voxel too dim to light anything has nothing to spread.
proof fn lemma_dim_spread_inside(c: Chunk, u: IVec3)
    requires
        c.lights.natural_at(u) <= 1,
    ensures
        spread_inside(c, u),
{
    assert forall|s: int| 0 <= s < SIDE_COUNT implies #[trigger] spread_side(c, Seq::empty(), false, u, side_at(s)) by {
        assert(propagated(side_at(s), c.lights.natural_at(u)) == 0);
    }
}

/// The natural light of `v`, in the chunk at `k`, can come from its neighbor through `s`:
/// inside the chunk, a neighbor that lets light through (and `v` lets it through too); in the
/// loaded chunk next to it, the voxel across the border, seen from there as letting light
/// through to `v`. Either way, the neighbor is bright enough to give `v` its light.
pub open spec fn lit_by(world: Map<IVec3, Chunk>, k: IVec3, v: IVec3, s: Side) -> bool {
    let u = vsub(v, s.direction());
    let x = world[k].lights.natural_at(v);
    if in_bounds(u) {
        &&& !world[k].kinds.at(v).opaque()
        &&& !world[k].kinds.at(u).opaque()
        &&& x <= propagated(s, world[k].lights.natural_at(u))
    } else {
        let ks = vsub(k, s.direction());
        let us = vrem(u, 16);
        &&& world.dom().contains(ks)
        &&& passable(world[ks].kinds, vadd(us, s.direction()))
        &&& x <= propagated(s, world[ks].lights.natural_at(us))
    }
}

/// Every voxel of a loaded chunk that is brighter than in `before` can get its light from one
/// of its neighbors.
pub open spec fn world_justified(before: Map<IVec3, Chunk>, world: Map<IVec3, Chunk>) -> bool {
    forall|k: IVec3, v: IVec3|
        world.dom().contains(k) && in_bounds(v) && #[trigger] world[k].lights.natural_at(v)
            > before[k].lights.natural_at(v) ==> exists|s: int|
            0 <= s < SIDE_COUNT && #[trigger] lit_by(world, k, v, side_at(s))
}

/// A neighbor that could light `v` still can while the lights only grow and `v` keeps its
/// light.
proof fn lemma_lit_by_kept(w1: Map<IVec3, Chunk>, w2: Map<IVec3, Chunk>, k: IVec3, v: IVec3, s: Side)
    requires
        lit_by(w1, k, v, s),
        world_lights_grew(w1, w2),
        w1.dom().contains(k),
        in_bounds(v),
        w2[k].lights.natural_at(v) == w1[k].lights.natural_at(v),
    ensures
        lit_by(w2, k, v, s),
{
    let u = vsub(v, s.direction());
    lemma_side_index(s);
    if in_bounds(u) {
        assert(w2[k].lights.at(u).natural >= w1[k].lights.at(u).natural);
        lemma_propagated_monotonic(s, w1[k].lights.natural_at(u), w2[k].lights.natural_at(u));
    } else {
        let ks = vsub(k, s.direction());
        crate::chunk::lemma_overlap_roundtrip(u);
        let us = vrem(u, 16);
        assert(w2[ks].lights.at(us).natural >= w1[ks].lights.at(us).natural);
        lemma_propagated_monotonic(s, w1[ks].lights.natural_at(us), w2[ks].lights.natural_at(us));
    }
}

/// Justified voxels stay justified while the lights only grow: those that got brighter since
/// are justified on their own.
proof fn lemma_world_justified_kept(
    before: Map<IVec3, Chunk>,
    w1: Map<IVec3, Chunk>,
    w2: Map<IVec3, Chunk>,
)
    requires
        world_justified(before, w1),
        world_justified(w1, w2),
        world_lights_grew(w1, w2),
        w1.dom() == before.dom(),
    ensures
        world_justified(before, w2),
{
    assert forall|k: IVec3, v: IVec3|
        w2.dom().contains(k) && in_bounds(v) && #[trigger] w2[k].lights.natural_at(v)
            > before[k].lights.natural_at(v) implies exists|s: int|
            0 <= s < SIDE_COUNT && #[trigger] lit_by(w2, k, v, side_at(s)) by {
        assert(w2[k].lights.at(v).natural >= w1[k].lights.at(v).natural);
        if w2[k].lights.natural_at(v) == w1[k].lights.natural_at(v) {
            let s = choose|s: int| 0 <= s < SIDE_COUNT && #[trigger] lit_by(w1, k, v, side_at(s));
            lemma_lit_by_kept(w1, w2, k, v, side_at(s));
        }
    }
}

/// Growth of the lights composes.
proof fn lemma_grew_trans(a: Map<IVec3, Chunk>, b: Map<IVec3, Chunk>, c: Map<IVec3, Chunk>)
    requires
        world_lights_grew(a, b),
        world_lights_grew(b, c),
    ensures
        world_lights_grew(a, c),
{
    assert forall|k: IVec3| #[trigger] c.dom().contains(k) implies {
        &&& c[k].kinds == a[k].kinds
        &&& c[k].lights.wf()
        &&& forall|v: IVec3|
            #![trigger c[k].lights.at(v)]
            in_bounds(v) ==> c[k].lights.at(v).artificial == a[k].lights.at(v).artificial
                && c[k].lights.at(v).natural >= a[k].lights.at(v).natural
    } by {
        assert(b.dom().contains(k));
        assert forall|v: IVec3| #![trigger c[k].lights.at(v)] in_bounds(v) implies c[k].lights.at(v).artificial
            == a[k].lights.at(v).artificial && c[k].lights.at(v).natural >= a[k].lights.at(v).natural by {
            assert(b[k].lights.at(v).natural >= a[k].lights.at(v).natural);
        }
    }
}

/// A world that changed only in the lights of one chunk, upwards, grew.
proof fn lemma_grew_one(a: Map<IVec3, Chunk>, b: Map<IVec3, Chunk>, key: IVec3)
    requires
        b.dom() == a.dom(),
        forall|k: IVec3| b.dom().contains(k) && k != key ==> #[trigger] b[k] == a[k],
        forall|k: IVec3| #[trigger] a.dom().contains(k) ==> a[k].lights.wf(),
        a.dom().contains(key) ==> {
            &&& b[key].kinds == a[key].kinds
            &&& b[key].lights.wf()
            &&& forall|v: IVec3|
                #![trigger b[key].lights.at(v)]
                in_bounds(v) ==> b[key].lights.at(v).artificial == a[key].lights.at(v).artificial
                    && b[key].lights.at(v).natural >= a[key].lights.at(v).natural
        },
    ensures
        world_lights_grew(a, b),
{
    assert forall|k: IVec3| #[trigger] b.dom().contains(k) implies {
        &&& b[k].kinds == a[k].kinds
        &&& b[k].lights.wf()
        &&& forall|v: IVec3|
            #![trigger b[k].lights.at(v)]
            in_bounds(v) ==> b[k].lights.at(v).artificial == a[k].lights.at(v).artificial
                && b[k].lights.at(v).natural >= a[k].lights.at(v).natural
    } by {
        if k != key {
            assert(b[k] == a[k]);
        }
    }
}

/// Spreading light inside the chunk at `local` keeps the world justified.
proof fn lemma_world_justified_local(
    before: Map<IVec3, Chunk>,
    w0: Map<IVec3, Chunk>,
    w2: Map<IVec3, Chunk>,
    local: IVec3,
    bl: ChunkLight,
)
    requires
        world_justified(before, w0),
        w0.dom() == before.dom(),
        w0.dom().contains(local),
        world_lights_grew(w0, w2),
        forall|k: IVec3| w2.dom().contains(k) && k != local ==> #[trigger] w2[k] == w0[k],
        bl@ == w0[local].lights@,
        forall|v: IVec3| in_bounds(v) ==> #[trigger] justified(bl, w2[local], v),
    ensures
        world_justified(before, w2),
{
    assert forall|k: IVec3, v: IVec3|
        w2.dom().contains(k) && in_bounds(v) && #[trigger] w2[k].lights.natural_at(v)
            > w0[k].lights.natural_at(v) implies exists|s: int|
            0 <= s < SIDE_COUNT && #[trigger] lit_by(w2, k, v, side_at(s)) by {
        assert(k == local);
        assert(bl.natural_at(v) == w0[local].lights.natural_at(v));
        assert(justified(bl, w2[local], v));
        let (u, s) = choose|u: IVec3, s: int|
            #![trigger vadd(u, side_at(s).direction()), w2[local].lights.natural_at(u)]
            0 <= s < SIDE_COUNT && in_bounds(u) && vadd(u, side_at(s).direction()) == v
                && !w2[local].kinds.at(u).opaque() && w2[local].lights.natural_at(v) <= propagated(
                side_at(s),
                w2[local].lights.natural_at(u),
            );
        lemma_side_index(side_at(s));
        assert(vsub(v, side_at(s).direction()) == u);
        assert(lit_by(w2, k, v, side_at(s)));
    }
    lemma_world_justified_kept(before, w0, w2);
}

/// Handing the items of an entry of the list over to the neighbor chunk they are for keeps the
/// world justified: each voxel they brighten gets its light from the voxel across the border.
proof fn lemma_world_justified_applied(
    before: Map<IVec3, Chunk>,
    wp: Map<IVec3, Chunk>,
    wa: Map<IVec3, Chunk>,
    wb: Map<IVec3, Chunk>,
    local: IVec3,
    map: Seq<(IVec3, Vec<(IVec3, u8)>)>,
    j: int,
)
    requires
        world_justified(before, wa),
        wa.dom() == before.dom(),
        0 <= j < map.len(),
        has_neighbors(local),
        wp.dom().contains(local),
        items_sound(wp[local], map),
        world_lights_grew(wp, wa),
        world_lights_grew(wa, wb),
        forall|k: IVec3| wb.dom().contains(k) && k != vadd(local, map[j].0) ==> #[trigger] wb[k] == wa[k],
        forall|v: IVec3|
            #![trigger wb[vadd(local, map[j].0)].lights.at(v)]
            wa.dom().contains(vadd(local, map[j].0)) && in_bounds(v) && wb[vadd(local, map[j].0)].lights.at(v).natural
                > wa[vadd(local, map[j].0)].lights.at(v).natural ==> exists|m: int|
                0 <= m < map[j].1@.len() && map[j].1@[m].0 == v
                    && #[trigger] map[j].1@[m].1 == wb[vadd(local, map[j].0)].lights.at(v).natural,
    ensures
        world_justified(before, wb),
{
    let j2 = vadd(local, map[j].0);
    lemma_grew_trans(wp, wa, wb);
    assert forall|k: IVec3, v: IVec3|
        wb.dom().contains(k) && in_bounds(v) && #[trigger] wb[k].lights.natural_at(v)
            > wa[k].lights.natural_at(v) implies exists|s: int|
            0 <= s < SIDE_COUNT && #[trigger] lit_by(wb, k, v, side_at(s)) by {
        assert(k == j2);
        assert(wb[j2].lights.at(v).natural > wa[j2].lights.at(v).natural);
        let m = choose|m: int|
            0 <= m < map[j].1@.len() && map[j].1@[m].0 == v
                && #[trigger] map[j].1@[m].1 == wb[j2].lights.at(v).natural;
        let item = map[j].1@[m];
        assert(map[j].1@.contains(item));
        assert(has_item(map, map[j].0, item));
        assert(item_sound(wp[local], map[j].0, item));
        let (u, s) = choose|u: IVec3, s: int|
            #![trigger valid_neighbor_item(wp[local], u, side_at(s), item.1)]
            0 <= s < SIDE_COUNT && side_at(s).direction() == map[j].0 && vrem(
                vadd(u, side_at(s).direction()),
                16,
            ) == item.0 && in_bounds(item.0) && valid_neighbor_item(wp[local], u, side_at(s), item.1);
        let side = side_at(s);
        lemma_across_back(u, side);
        assert(vsub(j2, side.direction()) == local);
        assert(vrem(vsub(v, side.direction()), 16) == u);
        assert(wb[local].lights.at(u).natural >= wp[local].lights.at(u).natural);
        lemma_propagated_monotonic(side, wp[local].lights.natural_at(u), wb[local].lights.natural_at(u));
        assert(lit_by(wb, k, v, side));
    }
    lemma_world_justified_kept(before, wa, wb);
}

/// A voxel across the border from `u` through `d`, taken inside its own chunk, has `u`,
/// taken inside its chunk, across the border back.
proof fn lemma_across_back(u: IVec3, s: Side)
    requires
        in_bounds(u),
        !in_bounds(vadd(u, s.direction())),
    ensures
        in_bounds(vrem(vadd(u, s.direction()), 16)),
        !in_bounds(vsub(vrem(vadd(u, s.direction()), 16), s.direction())),
        vrem(vsub(vrem(vadd(u, s.direction()), 16), s.direction()), 16) == u,
        vadd(vrem(vsub(vrem(vadd(u, s.direction()), 16), s.direction()), 16), s.direction()) == vadd(u, s.direction()),
{
    assert(-1int % 16 == 15) by (nonlinear_arith);
    assert(16int % 16 == 0) by (nonlinear_arith);
    assert(forall|c: int| 0 <= c < 16 ==> #[trigger] (c % 16) == c) by (nonlinear_arith);
}

/// The voxel `u` of the loaded chunk at `k` was a seed or got brighter than in `before`, and
/// lets light through.
pub open spec fn eligible(
    before: Map<IVec3, Chunk>,
    seeds: Seq<(IVec3, Vec<IVec3>)>,
    world: Map<IVec3, Chunk>,
    k: IVec3,
    u: IVec3,
) -> bool {
    &&& world.dom().contains(k)
    &&& in_bounds(u)
    &&& has_voxel(seeds, k, u) || raised(before[k].lights, world[k], u)
    &&& !world[k].kinds.at(u).opaque()
}

/// Light from `u` of the chunk at `k` has crossed through `side` into the loaded neighbor
/// chunk: the voxel there, when the chunk sees it as letting light through, holds at least the
/// propagated intensity.
pub open spec fn spread_across(world: Map<IVec3, Chunk>, k: IVec3, u: IVec3, side: Side) -> bool {
    let w = vadd(u, side.direction());
    let k2 = vadd(k, side.direction());
    world.dom().contains(k2) && !in_bounds(w) && passable(world[k].kinds, w) ==> world[k2].lights.natural_at(
        vrem(w, 16),
    ) >= propagated(side, world[k].lights.natural_at(u))
}

/// Light from `u` of the chunk at `k` has crossed into every loaded neighbor chunk it touches.
pub open spec fn spread_out(world: Map<IVec3, Chunk>, k: IVec3, u: IVec3) -> bool {
    forall|s: int| 0 <= s < SIDE_COUNT ==> #[trigger] spread_across(world, k, u, side_at(s))
}

/// A voxel that must spread its light has crossed into the neighbor chunks, or waits in
/// `queue`.
pub open spec fn crossed_or_queued(
    before: Map<IVec3, Chunk>,
    seeds: Seq<(IVec3, Vec<IVec3>)>,
    world: Map<IVec3, Chunk>,
    queue: Seq<(IVec3, Vec<IVec3>)>,
    k: IVec3,
    u: IVec3,
) -> bool {
    eligible(before, seeds, world, k, u) ==> spread_out(world, k, u) || has_voxel(queue, k, u)
}

pub open spec fn world_crossed(
    before: Map<IVec3, Chunk>,
    seeds: Seq<(IVec3, Vec<IVec3>)>,
    world: Map<IVec3, Chunk>,
    queue: Seq<(IVec3, Vec<IVec3>)>,
) -> bool {
    forall|k: IVec3, u: IVec3| #[trigger] crossed_or_queued(before, seeds, world, queue, k, u)
}

/// The list holds `item` under `key` at an index from `j` on.
pub open spec fn pending_item(map: Seq<(IVec3, Vec<(IVec3, u8)>)>, j: int, key: IVec3, item: (IVec3, u8)) -> bool {
    exists|i: int| j <= i < map.len() && map[i].0 == key && (#[trigger] map[i].1@).contains(item)
}

/// Light from `u` of the chunk at `k` has crossed through `side`, or the item that carries it
/// is still to be handed over from `map`, from index `j` on.
pub open spec fn across_or_pending(
    world: Map<IVec3, Chunk>,
    k: IVec3,
    u: IVec3,
    side: Side,
    map: Seq<(IVec3, Vec<(IVec3, u8)>)>,
    j: int,
) -> bool {
    spread_across(world, k, u, side) || pending_item(
        map,
        j,
        side.direction(),
        (vrem(vadd(u, side.direction()), 16), propagated(side, world[k].lights.natural_at(u))),
    )
}

/// While the items that the chunk at `local` hands to its neighbors are applied one entry
/// after the other, a voxel that must spread its light has crossed, waits for an entry of
/// `map` from `j` on (in the chunk at `local` only) or waits in `queue`.
pub open spec fn crossed_pending(
    before: Map<IVec3, Chunk>,
    seeds: Seq<(IVec3, Vec<IVec3>)>,
    world: Map<IVec3, Chunk>,
    queue: Seq<(IVec3, Vec<IVec3>)>,
    local: IVec3,
    map: Seq<(IVec3, Vec<(IVec3, u8)>)>,
    j: int,
) -> bool {
    forall|k: IVec3, u: IVec3|
        #![trigger eligible(before, seeds, world, k, u)]
        eligible(before, seeds, world, k, u) ==> has_voxel(queue, k, u) || forall|s: int|
            0 <= s < SIDE_COUNT ==> #[trigger] across_or_pending(
                world,
                k,
                u,
                side_at(s),
                items_of(local, map, k),
                j,
            )
}

/// The items that the chunk at `k` still hands over: those of `map` for the chunk at `local`,
/// none for any other.
pub open spec fn items_of(
    local: IVec3,
    map: Seq<(IVec3, Vec<(IVec3, u8)>)>,
    k: IVec3,
) -> Seq<(IVec3, Vec<(IVec3, u8)>)> {
    if k == local {
        map
    } else {
        Seq::empty()
    }
}

/// The light a chunk reads next to its voxel `u` through `s`, when its neighborhood was
/// gathered from `world`, is that of the voxel of the loaded neighbor chunk there.
proof fn lemma_absolute_neighbor(
    world: Map<IVec3, Chunk>,
    local: IVec3,
    lights: ChunkLight,
    u: IVec3,
    s: Side,
)
    requires
        crate::voxworld::light_neighborhood_of(world, local, lights.neighbors()),
        in_bounds(u),
        !in_bounds(vadd(u, s.direction())),
        world.dom().contains(vadd(local, s.direction())),
    ensures
        lights.absolute(vadd(u, s.direction())) == Some(
            world[vadd(local, s.direction())].lights.at(vrem(vadd(u, s.direction()), 16)),
        ),
{
    let w = vadd(u, s.direction());
    let k2 = vadd(local, s.direction());
    lemma_side_index(s);
    assert(crate::chunk::overlap_dir(w) == s.direction());
    assert(crate::chunk::side_of_dir(s.direction()) == Some(s));
    crate::chunk::lemma_overlap_layer(w);
    crate::chunk::lemma_overlap_roundtrip(w);
    assert(lights.neighbors()@[s.idx()] == Some(crate::voxworld::layer_of(world[k2].lights, s)));
    crate::chunk::lemma_layer_roundtrip(world[k2].lights@, s, vrem(w, 16));
}

/// A voxel too dim to light anything has crossed into every neighbor.
proof fn lemma_dim_spread_out(world: Map<IVec3, Chunk>, k: IVec3, u: IVec3)
    requires
        world[k].lights.natural_at(u) <= 1,
    ensures
        spread_out(world, k, u),
{
    assert forall|s: int| 0 <= s < SIDE_COUNT implies #[trigger] spread_across(world, k, u, side_at(s)) by {
        assert(propagated(side_at(s), world[k].lights.natural_at(u)) == 0);
    }
}

/// Taking an entry of a chunk that isn't loaded off the queue keeps every voxel crossed or
/// queued.
proof fn lemma_world_crossed_skip(
    before: Map<IVec3, Chunk>,
    seeds: Seq<(IVec3, Vec<IVec3>)>,
    world: Map<IVec3, Chunk>,
    q: Seq<(IVec3, Vec<IVec3>)>,
)
    requires
        world_crossed(before, seeds, world, q),
        q.len() > 0,
        !world.dom().contains(q[0].0),
    ensures
        world_crossed(before, seeds, world, q.subrange(1, q.len() as int)),
{
    assert forall|k: IVec3, u: IVec3| #[trigger]
        crossed_or_queued(before, seeds, world, q.subrange(1, q.len() as int), k, u) by {
        assert(crossed_or_queued(before, seeds, world, q, k, u));
        if has_voxel(q, k, u) {
            lemma_queued_pop(q, k, u);
        }
    }
}

/// Spreading the light of the first queued chunk from its seeds leaves every voxel crossed,
/// queued, or (in that chunk) waiting for an item of the list it handed to its neighbors.
proof fn lemma_world_crossed_propagated(
    before: Map<IVec3, Chunk>,
    seeds: Seq<(IVec3, Vec<IVec3>)>,
    w0: Map<IVec3, Chunk>,
    w2: Map<IVec3, Chunk>,
    q: Seq<(IVec3, Vec<IVec3>)>,
    map: Seq<(IVec3, Vec<(IVec3, u8)>)>,
)
    requires
        world_crossed(before, seeds, w0, q),
        q.len() > 0,
        w0.dom().contains(q[0].0),
        has_neighbors(q[0].0),
        w2.dom() == w0.dom(),
        forall|k: IVec3| w2.dom().contains(k) && k != q[0].0 ==> #[trigger] w2[k] == w0[k],
        w2[q[0].0].kinds == w0[q[0].0].kinds,
        crate::voxworld::light_neighborhood_of(w0, q[0].0, w2[q[0].0].lights.neighbors()),
        forall|v: IVec3|
            #![trigger w2[q[0].0].lights.at(v)]
            in_bounds(v) ==> w2[q[0].0].lights.at(v).natural >= w0[q[0].0].lights.at(v).natural,
        forall|u: IVec3|
            in_bounds(u) && (q[0].1@.contains(u) || raised(w0[q[0].0].lights, w2[q[0].0], u))
                && !w2[q[0].0].kinds.at(u).opaque() ==> #[trigger] spread(w2[q[0].0], map, true, u),
    ensures
        crossed_pending(before, seeds, w2, q.subrange(1, q.len() as int), q[0].0, map, 0),
{
    let local = q[0].0;
    let q1 = q.subrange(1, q.len() as int);
    assert forall|k: IVec3, u: IVec3| #[trigger] eligible(before, seeds, w2, k, u) implies has_voxel(
        q1,
        k,
        u,
    ) || forall|s: int|
        0 <= s < SIDE_COUNT ==> #[trigger] across_or_pending(
            w2,
            k,
            u,
            side_at(s),
            items_of(local, map, k),
            0,
        ) by {
        assert(crossed_or_queued(before, seeds, w0, q, k, u));
        if k == local && (q[0].1@.contains(u) || raised(w0[local].lights, w2[local], u)) {
            assert(spread(w2[local], map, true, u));
            assert forall|s: int| 0 <= s < SIDE_COUNT implies #[trigger] across_or_pending(
                w2,
                k,
                u,
                side_at(s),
                items_of(local, map, k),
                0,
            ) by {
                let side = side_at(s);
                let w = vadd(u, side.direction());
                let k2 = vadd(local, side.direction());
                let x = propagated(side, w2[local].lights.natural_at(u));
                assert(spread_side(w2[local], map, true, u, side));
                if w2.dom().contains(k2) && !in_bounds(w) && passable(w2[local].kinds, w) {
                    lemma_absolute_neighbor(w0, local, w2[local].lights, u, side);
                    assert(k2 != local);
                    assert(w2[k2] == w0[k2]);
                    if x > w0[k2].lights.at(vrem(w, 16)).natural {
                        assert(has_item(map, side.direction(), (vrem(w, 16), x)));
                        let i = choose|i: int|
                            0 <= i < map.len() && map[i].0 == side.direction() && (
                            #[trigger] map[i].1@).contains((vrem(w, 16), x));
                        assert(pending_item(map, 0, side.direction(), (vrem(w, 16), x)));
                    }
                }
            }
        } else {
            if has_voxel(q, k, u) {
                lemma_queued_pop(q, k, u);
            }
            if !has_voxel(q1, k, u) {
                assert(w2[k].lights.natural_at(u) == w0[k].lights.natural_at(u)) by {
                    if k == local {
                        assert(w2[local].lights.at(u).natural >= w0[local].lights.at(u).natural);
                    }
                }
                assert(eligible(before, seeds, w0, k, u));
                assert(spread_out(w0, k, u));
                assert forall|s: int| 0 <= s < SIDE_COUNT implies #[trigger] across_or_pending(
                    w2,
                    k,
                    u,
                    side_at(s),
                    items_of(local, map, k),
                    0,
                ) by {
                    let side = side_at(s);
                    let w = vadd(u, side.direction());
                    let k2 = vadd(k, side.direction());
                    assert(spread_across(w0, k, u, side));
                    if w2.dom().contains(k2) && !in_bounds(w) && passable(w2[k].kinds, w) {
                        crate::chunk::lemma_overlap_roundtrip(w);
                        if k2 == local {
                            assert(w2[local].lights.at(vrem(w, 16)).natural >= w0[local].lights.at(
                                vrem(w, 16),
                            ).natural);
                        }
                    }
                }
            }
        }
    }
}

/// Handing the items of entry `j` of the list over to the neighbor chunk they are for (when
/// it is loaded) moves the wait on to the next entry, once the voxels it brightened enough are
/// queued.
proof fn lemma_world_crossed_applied(
    before: Map<IVec3, Chunk>,
    seeds: Seq<(IVec3, Vec<IVec3>)>,
    w: Map<IVec3, Chunk>,
    w2: Map<IVec3, Chunk>,
    q: Seq<(IVec3, Vec<IVec3>)>,
    local: IVec3,
    map: Seq<(IVec3, Vec<(IVec3, u8)>)>,
    j: int,
    list: Vec<IVec3>,
)
    requires
        crossed_pending(before, seeds, w, q, local, map, j),
        0 <= j < map.len(),
        w2.dom() == w.dom(),
        forall|k: IVec3| w2.dom().contains(k) && k != vadd(local, map[j].0) ==> #[trigger] w2[k] == w[k],
        w.dom().contains(vadd(local, map[j].0)) ==> {
            let j2 = vadd(local, map[j].0);
            &&& w2[j2].kinds == w[j2].kinds
            &&& forall|v: IVec3|
                #![trigger w2[j2].lights.at(v)]
                in_bounds(v) ==> w2[j2].lights.at(v).natural >= w[j2].lights.at(v).natural
            &&& forall|v: IVec3|
                #![trigger w2[j2].lights.at(v)]
                in_bounds(v) && w2[j2].lights.at(v).natural > w[j2].lights.at(v).natural
                    && w2[j2].lights.at(v).natural > 1 ==> list@.contains(v)
            &&& forall|m: int|
                0 <= m < map[j].1@.len() ==> w2[j2].lights.at(map[j].1@[m].0).natural
                    >= #[trigger] map[j].1@[m].1
        },
    ensures
        crossed_pending(
            before,
            seeds,
            w2,
            if list@.len() > 0 {
                q.push((vadd(local, map[j].0), list))
            } else {
                q
            },
            local,
            map,
            j + 1,
        ),
{
    let j2 = vadd(local, map[j].0);
    let q2 = if list@.len() > 0 {
        q.push((j2, list))
    } else {
        q
    };
    assert forall|k: IVec3, u: IVec3| #[trigger] eligible(before, seeds, w2, k, u) implies has_voxel(
        q2,
        k,
        u,
    ) || forall|s: int|
        0 <= s < SIDE_COUNT ==> #[trigger] across_or_pending(
            w2,
            k,
            u,
            side_at(s),
            items_of(local, map, k),
            j + 1,
        ) by {
        if k == j2 && w2[k].lights.at(u).natural > w[k].lights.at(u).natural {
            if w2[k].lights.at(u).natural > 1 {
                assert(list@.contains(u));
                lemma_queued_push(q, (j2, list), k, u);
            } else {
                lemma_dim_spread_out(w2, k, u);
                assert forall|s: int| 0 <= s < SIDE_COUNT implies #[trigger] across_or_pending(
                    w2,
                    k,
                    u,
                    side_at(s),
                    items_of(local, map, k),
                    j + 1,
                ) by {
                    assert(spread_across(w2, k, u, side_at(s)));
                }
            }
        } else {
            assert(w2[k].lights.natural_at(u) == w[k].lights.natural_at(u)) by {
                if k == j2 {
                    assert(w2[k].lights.at(u).natural >= w[k].lights.at(u).natural);
                }
            }
            assert(eligible(before, seeds, w, k, u));
            if has_voxel(q, k, u) {
                if list@.len() > 0 {
                    lemma_queued_push(q, (j2, list), k, u);
                }
            } else {
                assert forall|s: int| 0 <= s < SIDE_COUNT implies #[trigger] across_or_pending(
                    w2,
                    k,
                    u,
                    side_at(s),
                    items_of(local, map, k),
                    j + 1,
                ) by {
                    let side = side_at(s);
                    let v = vadd(u, side.direction());
                    let k2 = vadd(k, side.direction());
                    let x = propagated(side, w[k].lights.natural_at(u));
                    assert(across_or_pending(w, k, u, side, items_of(local, map, k), j));
                    if w2.dom().contains(k2) && !in_bounds(v) && passable(w2[k].kinds, v) {
                        crate::chunk::lemma_overlap_roundtrip(v);
                        if k2 == j2 {
                            assert(w2[j2].lights.at(vrem(v, 16)).natural >= w[j2].lights.at(
                                vrem(v, 16),
                            ).natural);
                        }
                        if !spread_across(w, k, u, side) {
                            let m = items_of(local, map, k);
                            assert(pending_item(m, j, side.direction(), (vrem(v, 16), x)));
                            let i = choose|i: int|
                                j <= i < m.len() && m[i].0 == side.direction() && (
                                #[trigger] m[i].1@).contains((vrem(v, 16), x));
                            assert(k == local);
                            if i == j {
                                let a = choose|a: int| 0 <= a < map[j].1@.len() && map[j].1@[a] == (vrem(v, 16), x);
                                assert(map[j].1@[a].1 == x);
                                assert(k2 == j2);
                                assert(w2[j2].lights.at(map[j].1@[a].0).natural >= map[j].1@[a].1);
                            } else {
                                assert(pending_item(m, j + 1, side.direction(), (vrem(v, 16), x)));
                            }
                        }
                    } else if !spread_across(w, k, u, side) {
                        let m = items_of(local, map, k);
                        assert(pending_item(m, j, side.direction(), (vrem(v, 16), x)));
                    }
                }
            }
        }
    }
}

/// An entry of the list for a neighbor chunk that isn't loaded has nothing to hand over.
proof fn lemma_world_crossed_unloaded(
    before: Map<IVec3, Chunk>,
    seeds: Seq<(IVec3, Vec<IVec3>)>,
    w: Map<IVec3, Chunk>,
    q: Seq<(IVec3, Vec<IVec3>)>,
    local: IVec3,
    map: Seq<(IVec3, Vec<(IVec3, u8)>)>,
    j: int,
)
    requires
        crossed_pending(before, seeds, w, q, local, map, j),
        0 <= j < map.len(),
        !w.dom().contains(vadd(local, map[j].0)),
    ensures
        crossed_pending(before, seeds, w, q, local, map, j + 1),
{
    assert forall|k: IVec3, u: IVec3| #[trigger] eligible(before, seeds, w, k, u) implies has_voxel(
        q,
        k,
        u,
    ) || forall|s: int|
        0 <= s < SIDE_COUNT ==> #[trigger] across_or_pending(
            w,
            k,
            u,
            side_at(s),
            items_of(local, map, k),
            j + 1,
        ) by {
        if !has_voxel(q, k, u) {
            assert forall|s: int| 0 <= s < SIDE_COUNT implies #[trigger] across_or_pending(
                w,
                k,
                u,
                side_at(s),
                items_of(local, map, k),
                j + 1,
            ) by {
                let side = side_at(s);
                let m = items_of(local, map, k);
                let item = (
                    vrem(vadd(u, side.direction()), 16),
                    propagated(side, w[k].lights.natural_at(u)),
                );
                assert(across_or_pending(w, k, u, side, m, j));
                if !spread_across(w, k, u, side) {
                    let i = choose|i: int|
                        j <= i < m.len() && m[i].0 == side.direction() && (#[trigger] m[i].1@).contains(item);
                    if i > j {
                        assert(pending_item(m, j + 1, side.direction(), item));
                    }
                }
            }
        }
    }
}

/// Once every entry of the list was handed over, every voxel has crossed or is queued.
proof fn lemma_world_crossed_done(
    before: Map<IVec3, Chunk>,
    seeds: Seq<(IVec3, Vec<IVec3>)>,
    w: Map<IVec3, Chunk>,
    q: Seq<(IVec3, Vec<IVec3>)>,
    local: IVec3,
    map: Seq<(IVec3, Vec<(IVec3, u8)>)>,
)
    requires
        crossed_pending(before, seeds, w, q, local, map, map.len() as int),
    ensures
        world_crossed(before, seeds, w, q),
{
    assert forall|k: IVec3, u: IVec3| #[trigger] crossed_or_queued(before, seeds, w, q, k, u) by {
        if eligible(before, seeds, w, k, u) && !has_voxel(q, k, u) {
            assert forall|s: int| 0 <= s < SIDE_COUNT implies #[trigger] spread_across(w, k, u, side_at(s)) by {
                assert(across_or_pending(w, k, u, side_at(s), items_of(local, map, k), map.len() as int));
            }
        }
    }
}

/// Propagates inside each chunk of `locals` the natural light of its top voxels downwards;
/// nothing is spread to the neighbors. Afterwards, in each of these chunks, the light of every
/// top voxel and of every brightened voxel that lets light through has reached its passable
/// neighbors inside the chunk, and every brightened voxel got its light from a neighbor.
pub fn propagate_natural_light_top_down(world: &mut VoxWorld, locals: &[IVec3])
    requires
        old(world).wf(),
        old(world).chunks_wf(),
        forall|i: int| 0 <= i < locals@.len() ==> old(world)@.dom().contains(#[trigger] locals@[i]),
    ensures
        final(world).wf(),
        final(world).chunks_wf(),
        world_lights_grew(old(world)@, final(world)@),
        forall|a: int, u: IVec3|
            0 <= a < locals@.len() && in_bounds(u) && (top_voxels_seq().contains(u) || raised(
                old(world)@[locals@[a]].lights,
                final(world)@[locals@[a]],
                u,
            )) && !final(world)@[locals@[a]].kinds.at(u).opaque() ==> #[trigger] spread_inside(
                final(world)@[locals@[a]],
                u,
            ),
        forall|k: IVec3|
            final(world)@.dom().contains(k) && !locals@.contains(k) ==> #[trigger] final(world)@[k]
                == old(world)@[k],
        world_justified(old(world)@, final(world)@),
{
    let top = top_voxels();
    let mut i: usize = 0;
    while i < locals.len()
        invariant
            i <= locals@.len(),
            world.wf(),
            world.chunks_wf(),
            world_lights_grew(old(world)@, world@),
            top@ == top_voxels_seq(),
            forall|a: int| 0 <= a < top@.len() ==> in_bounds(#[trigger] top@[a]),
            forall|a: int| 0 <= a < locals@.len() ==> old(world)@.dom().contains(#[trigger] locals@[a]),
            world_justified(old(world)@, world@),
            forall|k: IVec3|
                world@.dom().contains(k) && !locals@.subrange(0, i as int).contains(k) ==> #[trigger] world@[k]
                    == old(world)@[k],
            forall|a: int, u: IVec3|
                0 <= a < i && in_bounds(u) && (top_voxels_seq().contains(u) || raised(
                    old(world)@[locals@[a]].lights,
                    world@[locals@[a]],
                    u,
                )) && !world@[locals@[a]].kinds.at(u).opaque() ==> #[trigger] spread_inside(
                    world@[locals@[a]],
                    u,
                ),
        decreases locals@.len() - i,
    {
        let local = locals[i];
        let ghost w0 = world@;
        let ghost mut spread_map: Seq<(IVec3, Vec<(IVec3, u8)>)> = Seq::empty();
        proof {
            assert(old(world)@.dom().contains(locals@[i as int]));
        }
        match world.get_mut(local) {
            Some(chunk) => {
                let r = propagate_chunk_natural_light(chunk, &top, false);
                proof {
                    spread_map = r@;
                }
            },
            None => {},
        }
        proof {
            assert(world@.dom() =~= w0.dom());
            let c0 = old(world)@[local];
            let c1 = w0[local];
            let c2 = world@[local];
            assert(locals@.subrange(0, i + 1) =~= locals@.subrange(0, i as int).push(local));
            assert forall|k: IVec3| #[trigger] world@.dom().contains(k) implies {
                &&& world@[k].kinds == old(world)@[k].kinds
                &&& world@[k].lights.wf()
                &&& forall|v: IVec3|
                    #![trigger world@[k].lights.at(v)]
                    in_bounds(v) ==> world@[k].lights.at(v).artificial == old(world)@[k].lights.at(
                        v,
                    ).artificial && world@[k].lights.at(v).natural >= old(world)@[k].lights.at(v).natural
            } by {
                assert(w0.dom().contains(k));
                if k == local {
                    assert forall|v: IVec3| #![trigger world@[k].lights.at(v)] in_bounds(v) implies world@[k].lights.at(v).artificial == old(
                        world,
                    )@[k].lights.at(v).artificial && world@[k].lights.at(v).natural >= old(world)@[k].lights.at(v).natural by {
                        assert(w0[k].lights.at(v).natural >= old(world)@[k].lights.at(v).natural);
                    }
                } else {
                    assert(world@[k] == w0[k]);
                }
            }
            assert forall|k: IVec3|
                world@.dom().contains(k) && !locals@.subrange(0, i + 1).contains(k) implies #[trigger] world@[k]
                    == old(world)@[k] by {
                vstd::seq_lib::lemma_seq_contains_after_push(locals@.subrange(0, i as int), local, k);
                assert(world@[k] == w0[k]);
            }
            assert forall|a: int, u: IVec3|
                0 <= a < i + 1 && in_bounds(u) && (top_voxels_seq().contains(u) || raised(
                    old(world)@[locals@[a]].lights,
                    world@[locals@[a]],
                    u,
                )) && !world@[locals@[a]].kinds.at(u).opaque() implies #[trigger] spread_inside(
                world@[locals@[a]],
                u,
            ) by {
                let k = locals@[a];
                if k != local {
                    assert(world@[k] == w0[k]);
                } else if top_voxels_seq().contains(u) || raised(c1.lights, c2, u) {
                    assert(top@.contains(u) || raised(c1.lights, c2, u));
                    lemma_spread_inside(c2, spread_map, false, u);
                } else {
                    assert(c2.lights.at(u).natural >= c1.lights.at(u).natural);
                    assert(c1.lights.at(u).natural > c0.lights.at(u).natural);
                    assert(locals@.subrange(0, i as int).contains(local)) by {
                        if !locals@.subrange(0, i as int).contains(local) {
                            assert(w0[local] == old(world)@[local]);
                        }
                    }
                    let b = choose|b: int| 0 <= b < i && locals@.subrange(0, i as int)[b] == local;
                    assert(locals@[b] == local);
                    assert(spread_inside(c1, u));
                    lemma_spread_inside_kept(c1, c2, u);
                }
            }
        }
        proof {
            lemma_grew_one(w0, world@, local);
            assert forall|v: IVec3| in_bounds(v) implies #[trigger] justified(w0[local].lights, world@[local], v) by {}
            lemma_world_justified_local(old(world)@, w0, world@, local, w0[local].lights);
        }
        i = i + 1;
    }
    proof {
        assert(locals@.subrange(0, i as int) =~= locals@);
    }
}

/// The voxels on the six faces of a chunk, face after face.
fn boundary_voxels() -> (r: Vec<IVec3>)
    ensures
        forall|i: int| 0 <= i < r@.len() ==> in_bounds(#[trigger] r@[i]),
        r@.len() == SIDE_COUNT * crate::chunk::SIDE_SIZE,
        forall|v: IVec3| in_bounds(v) && at_bounds(v) ==> #[trigger] r@.contains(v),
{
    let mut r: Vec<IVec3> = Vec::new();
    let mut s: usize = 0;
    while s < SIDE_COUNT
        invariant
            s <= SIDE_COUNT,
            r@.len() == s * crate::chunk::SIDE_SIZE,
            forall|i: int| 0 <= i < r@.len() ==> in_bounds(#[trigger] r@[i]),
            forall|t: int, k: int|
                0 <= t < s && 0 <= k < crate::chunk::SIDE_SIZE ==> r@[t * 256 + k]
                    == #[trigger] crate::chunk::side_voxel_at(side_at(t), k),
        decreases SIDE_COUNT - s,
    {
        let side = Side::from_index(s);
        let mut i: usize = 0;
        while i < crate::chunk::SIDE_SIZE
            invariant
                i <= crate::chunk::SIDE_SIZE,
                s < SIDE_COUNT,
                side == side_at(s as int),
                r@.len() == s * crate::chunk::SIDE_SIZE + i,
                forall|k: int| 0 <= k < r@.len() ==> in_bounds(#[trigger] r@[k]),
                forall|t: int, k: int|
                    (0 <= t < s && 0 <= k < crate::chunk::SIDE_SIZE) || (t == s && 0 <= k < i)
                        ==> r@[t * 256 + k] == #[trigger] crate::chunk::side_voxel_at(side_at(t), k),
            decreases crate::chunk::SIDE_SIZE - i,
        {
            let v = crate::chunk::side_voxel(side, i);
            proof {
                crate::chunk::lemma_side_voxel_at(side, i as int);
            }
            let ghost before = r@;
            r.push(v);
            proof {
                assert forall|t: int, k: int|
                    (0 <= t < s && 0 <= k < crate::chunk::SIDE_SIZE) || (t == s && 0 <= k < i + 1)
                        implies r@[t * 256 + k] == #[trigger] crate::chunk::side_voxel_at(side_at(t), k) by {
                    if !(t == s && k == i) {
                        assert(r@[t * 256 + k] == before[t * 256 + k]);
                    }
                }
            }
            i = i + 1;
        }
        s = s + 1;
    }
    proof {
        assert forall|v: IVec3| in_bounds(v) && at_bounds(v) implies #[trigger] r@.contains(v) by {
            let t: int = if v.x == 0 {
                0
            } else if v.x == 15 {
                1
            } else if v.y == 0 {
                2
            } else if v.y == 15 {
                3
            } else if v.z == 0 {
                4
            } else {
                5
            };
            let side = side_at(t);
            assert(crate::chunk::on_side_layer(side, v));
            crate::chunk::lemma_side_index_of(side, v);
            let k = crate::chunk::side_index_of(side, v);
            assert(r@[t * 256 + k] == crate::chunk::side_voxel_at(side_at(t), k));
        }
    }
    r
}

/// Propagates the natural light of the faces of each chunk of `locals` into its neighbors,
/// and from there on across the world.
/// **Returns** the chunks touched, each once: every chunk whose light changed is among them.
pub fn propagate_natural_light_neighborhood(world: &mut VoxWorld, locals: &[IVec3]) -> (r: Vec<
    IVec3,
>)
    requires
        old(world).wf(),
        old(world).chunks_wf(),
        world_in_range(old(world)@),
    ensures
        final(world).wf(),
        final(world).chunks_wf(),
        world_lights_grew(old(world)@, final(world)@),
        r@.no_duplicates(),
        forall|k: IVec3, u: IVec3|
            final(world)@.dom().contains(k) && in_bounds(u) && ((locals@.contains(k) && at_bounds(u))
                || raised(old(world)@[k].lights, final(world)@[k], u))
                && !final(world)@[k].kinds.at(u).opaque() ==> #[trigger] spread_inside(
                final(world)@[k],
                u,
            ),
        forall|k: IVec3, u: IVec3|
            final(world)@.dom().contains(k) && in_bounds(u) && ((locals@.contains(k) && at_bounds(u))
                || raised(old(world)@[k].lights, final(world)@[k], u))
                && !final(world)@[k].kinds.at(u).opaque() ==> #[trigger] spread_out(
                final(world)@,
                k,
                u,
            ),
        forall|k: IVec3, v: IVec3|
            #![trigger final(world)@[k].lights.at(v)]
            final(world)@.dom().contains(k) && in_bounds(v) && final(world)@[k].lights.at(v).natural
                != old(world)@[k].lights.at(v).natural ==> r@.contains(k),
        world_justified(old(world)@, final(world)@),
{
    let mut map: ChunkVoxelMap = Vec::new();
    let mut i: usize = 0;
    while i < locals.len()
        invariant
            i <= locals@.len(),
            voxel_keys_unique(map@),
            voxels_in_bounds(map@),
            forall|k: IVec3, u: IVec3|
                locals@.subrange(0, i as int).contains(k) && in_bounds(u) && at_bounds(u)
                    ==> #[trigger] has_voxel(map@, k, u),
        decreases locals@.len() - i,
    {
        let voxels = boundary_voxels();
        let ghost before = map@;
        put_entry(&mut map, locals[i], voxels);
        proof {
            assert forall|k: IVec3, u: IVec3|
                locals@.subrange(0, i + 1).contains(k) && in_bounds(u) && at_bounds(u)
                    implies #[trigger] has_voxel(map@, k, u) by {
                if k != locals@[i as int] {
                    let a = choose|a: int| 0 <= a < i + 1 && #[trigger] locals@.subrange(0, i + 1)[a] == k;
                    assert(locals@.subrange(0, i as int)[a] == k);
                    assert(has_voxel(before, k, u));
                }
            }
        }
        i = i + 1;
    }
    let ghost seeds = map@;
    let ghost w0 = world@;
    let r = propagate_natural_light(world, map);
    proof {
        assert(locals@.subrange(0, locals@.len() as int) =~= locals@);
        assert forall|k: IVec3, u: IVec3|
            world@.dom().contains(k) && in_bounds(u) && ((locals@.contains(k) && at_bounds(u))
                || raised(w0[k].lights, world@[k], u))
                && !world@[k].kinds.at(u).opaque() implies #[trigger] spread_out(world@, k, u) && spread_inside(world@[k], u) by {
            if locals@.contains(k) && at_bounds(u) {
                assert(has_voxel(seeds, k, u));
            }
            assert(eligible(w0, seeds, world@, k, u));
        }
    }
    r
}

/// Lights the new chunks of `locals`: their top light goes down inside each of them, then the
/// light of their faces spreads across the world. Every voxel that got brighter got its light
/// from a neighbor bright enough to give it.
pub fn propagate_natural_light_on_new_chunks(world: &mut VoxWorld, locals: &[IVec3])
    requires
        old(world).wf(),
        old(world).chunks_wf(),
        world_in_range(old(world)@),
        forall|i: int| 0 <= i < locals@.len() ==> old(world)@.dom().contains(#[trigger] locals@[i]),
    ensures
        final(world).wf(),
        final(world).chunks_wf(),
        world_lights_grew(old(world)@, final(world)@),
        forall|k: IVec3, u: IVec3|
            final(world)@.dom().contains(k) && in_bounds(u) && ((locals@.contains(k)
                && top_voxels_seq().contains(u)) || raised(old(world)@[k].lights, final(world)@[k], u))
                && !final(world)@[k].kinds.at(u).opaque() ==> #[trigger] spread_inside(
                final(world)@[k],
                u,
            ),
        forall|k: IVec3, u: IVec3|
            final(world)@.dom().contains(k) && in_bounds(u) && (locals@.contains(k) || raised(
                old(world)@[k].lights,
                final(world)@[k],
                u,
            )) && !final(world)@[k].kinds.at(u).opaque() ==> #[trigger] spread_out(
                final(world)@,
                k,
                u,
            ),
        world_justified(old(world)@, final(world)@),
{
    propagate_natural_light_top_down(world, locals);
    let ghost w1 = world@;
    proof {
        assert forall|k: IVec3| #[trigger] world@.dom().contains(k) implies has_neighbors(k) by {
            assert(old(world)@.dom().contains(k));
        }
    }
    propagate_natural_light_neighborhood(world, locals);
    proof {
        assert forall|k: IVec3| #[trigger] world@.dom().contains(k) implies {
            &&& world@[k].kinds == old(world)@[k].kinds
            &&& world@[k].lights.wf()
            &&& forall|v: IVec3|
                #![trigger world@[k].lights.at(v)]
                in_bounds(v) ==> world@[k].lights.at(v).artificial == old(world)@[k].lights.at(
                    v,
                ).artificial && world@[k].lights.at(v).natural >= old(world)@[k].lights.at(v).natural
        } by {
            assert(w1.dom().contains(k));
            assert forall|v: IVec3| #![trigger world@[k].lights.at(v)] in_bounds(v) implies world@[k].lights.at(v).artificial == old(
                world,
            )@[k].lights.at(v).artificial && world@[k].lights.at(v).natural >= old(world)@[k].lights.at(v).natural by {
                assert(w1[k].lights.at(v).natural >= old(world)@[k].lights.at(v).natural);
            }
        }
    }
    proof {
        assert forall|k: IVec3, u: IVec3|
            world@.dom().contains(k) && in_bounds(u) && ((locals@.contains(k) && top_voxels_seq().contains(
                u,
            )) || raised(old(world)@[k].lights, world@[k], u)) && !world@[k].kinds.at(u).opaque() implies #[trigger] spread_inside(
            world@[k],
            u,
        ) by {
            assert(w1.dom().contains(k));
            if !raised(w1[k].lights, world@[k], u) {
                assert(world@[k].lights.at(u).natural >= w1[k].lights.at(u).natural);
                if locals@.contains(k) {
                    let a = choose|a: int| 0 <= a < locals@.len() && locals@[a] == k;
                    assert(spread_inside(w1[locals@[a]], u));
                } else {
                    assert(w1[k] == old(world)@[k]);
                }
                assert forall|v: IVec3| #![trigger world@[k].lights.at(v)] in_bounds(v) implies world@[k].lights.at(v).natural
                    >= w1[k].lights.at(v).natural by {}
                lemma_spread_inside_kept(w1[k], world@[k], u);
            }
        }
        assert forall|k: IVec3, u: IVec3|
            world@.dom().contains(k) && in_bounds(u) && (locals@.contains(k) || raised(
                old(world)@[k].lights,
                world@[k],
                u,
            )) && !world@[k].kinds.at(u).opaque() implies #[trigger] spread_out(world@, k, u) by {
            assert(w1.dom().contains(k));
            if !at_bounds(u) {
                lemma_inner_spread_out(world@, k, u);
            } else if !locals@.contains(k) {
                assert(w1[k] == old(world)@[k]);
            }
        }
        lemma_world_justified_kept(old(world)@, w1, world@);
    }
}

/// Light from a voxel off the faces of its chunk stays inside: it has nothing to cross.
proof fn lemma_inner_spread_out(world: Map<IVec3, Chunk>, k: IVec3, u: IVec3)
    requires
        in_bounds(u),
        !at_bounds(u),
    ensures
        spread_out(world, k, u),
{
    assert forall|s: int| 0 <= s < SIDE_COUNT implies #[trigger] spread_across(world, k, u, side_at(s)) by {
        assert(in_bounds(vadd(u, side_at(s).direction())));
    }
}

} // verus!
