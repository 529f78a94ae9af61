use vstd::prelude::*;

use std::collections::VecDeque;

use crate::chunk::in_bounds;
use crate::math::{IVec3, can_add, vadd, vrem};
use crate::voxel::{Kind, Side, SIDE_COUNT, side_at, MAX_NATURAL_INTENSITY};
use crate::voxworld::{VoxWorld, chunk_of, lemma_chunk_split, lemma_loaded_voxels_bound};

verus! {

/// What the view around the character asks of the chunk material.
pub enum ViewFrustumChain {
    /// Nothing to change.
    DoNothing,
    /// Clip the material around the character at the given position, showing the given world
    /// voxels.
    ClipMaterial(IVec3, Vec<IVec3>),
    /// Show the material as it is.
    RevertMaterial,
}

/// The kind of the world voxel `w`, when its chunk is loaded.
pub open spec fn kind_at(world: Map<IVec3, crate::voxworld::Chunk>, w: IVec3) -> Option<Kind> {
    if world.dom().contains(chunk_of(w)) {
        Some(world[chunk_of(w)].kinds.at(vrem(w, 16)))
    } else {
        None
    }
}

/// The natural light of the world voxel `w`, when its chunk is loaded.
pub open spec fn natural_light_at(world: Map<IVec3, crate::voxworld::Chunk>, w: IVec3) -> Option<u8> {
    if world.dom().contains(chunk_of(w)) {
        Some(world[chunk_of(w)].lights.natural_at(vrem(w, 16)))
    } else {
        None
    }
}

/// The world voxel `w` is in a loaded chunk and lets light through.
pub open spec fn open_at(world: Map<IVec3, crate::voxworld::Chunk>, w: IVec3) -> bool {
    kind_at(world, w) matches Some(k) && !k.opaque()
}

/// The flood goes from `u` to its neighbor through side `s`: any side but up, towards an open
/// voxel.
pub open spec fn flood_step(world: Map<IVec3, crate::voxworld::Chunk>, u: IVec3, s: int, v: IVec3) -> bool {
    &&& 0 <= s < SIDE_COUNT
    &&& side_at(s) != Side::Up
    &&& can_add(u, side_at(s).direction())
    &&& v == vadd(u, side_at(s).direction())
    &&& open_at(world, v)
}

/// `v` is reached from `start` in `n` flood steps.
pub open spec fn reached_in(world: Map<IVec3, crate::voxworld::Chunk>, start: IVec3, v: IVec3, n: nat) -> bool
    decreases n,
{
    if n == 0 {
        v == start
    } else {
        exists|u: IVec3, s: int| #[trigger] flood_step(world, u, s, v) && reached_in(world, start, u, (n - 1) as nat)
    }
}

/// Every flood step from `u` lands in `flooded`.
pub open spec fn closed_at(world: Map<IVec3, crate::voxworld::Chunk>, flooded: Seq<IVec3>, u: IVec3) -> bool {
    forall|s: int, v: IVec3| #[trigger] flood_step(world, u, s, v) ==> flooded.contains(v)
}

fn world_kind(world: &VoxWorld, w: IVec3) -> (r: Option<Kind>)
    requires
        world.wf(),
        world.chunks_wf(),
    ensures
        r == kind_at(world@, w),
{
    let (c, v) = split_world(w);
    match world.get(c) {
        Some(chunk) => Some(chunk.kinds.get(v)),
        None => None,
    }
}

fn world_natural(world: &VoxWorld, w: IVec3) -> (r: Option<u8>)
    requires
        world.wf(),
        world.chunks_wf(),
    ensures
        r == natural_light_at(world@, w),
{
    let (c, v) = split_world(w);
    match world.get(c) {
        Some(chunk) => Some(chunk.lights.get_natural(v)),
        None => None,
    }
}

/// The chunk of a world voxel and its place inside it.
fn split_world(w: IVec3) -> (r: (IVec3, IVec3))
    ensures
        r.0 == chunk_of(w),
        r.1 == vrem(w, 16),
        in_bounds(r.1),
{
    proof {
        lemma_chunk_split(w);
    }
    let v = crate::math::euclid_rem(w, 16);
    let c = IVec3 {
        x: ((w.x as i64 - v.x as i64) / 16) as i32,
        y: ((w.y as i64 - v.y as i64) / 16) as i32,
        z: ((w.z as i64 - v.z as i64) / 16) as i32,
    };
    proof {
        assert(forall|a: int, b: int| #[trigger] ((a * 16 + b - b) / 16) == a) by (nonlinear_arith);
        assert((w.x as i64 - v.x as i64) / 16 == chunk_of(w).x) by {
            assert(w.x - v.x == chunk_of(w).x * 16);
        }
        assert((w.y as i64 - v.y as i64) / 16 == chunk_of(w).y) by {
            assert(w.y - v.y == chunk_of(w).y * 16);
        }
        assert((w.z as i64 - v.z as i64) / 16 == chunk_of(w).z) by {
            assert(w.z - v.z == chunk_of(w).z * 16);
        }
    }
    (c, v)
}

/// The neighbor of `u` through `side`, when its coordinates fit.
fn step_from(u: IVec3, side: Side) -> (r: Option<IVec3>)
    ensures
        r matches Some(v) ==> can_add(u, side.direction()) && v == vadd(u, side.direction()),
        r is None ==> !can_add(u, side.direction()),
{
    let d = side.dir();
    match (u.x.checked_add(d.x), u.y.checked_add(d.y), u.z.checked_add(d.z)) {
        (Some(x), Some(y), Some(z)) => Some(IVec3 { x, y, z }),
        _ => None,
    }
}

/**
 Decides how the chunk material follows the character at `position`, looking along `forward`.

 Nothing changes unless the position `changed`, or when the voxel in front of the character or
 the one above it is in no loaded chunk. Facing a voxel that doesn't let light through, or
 standing under full sun light, reverts the material. Otherwise the open voxels reached from
 the voxel in front, stepping through any side but up, are flooded.

 **Returns** what to do with the material; when clipping, the flooded voxels, each once.
*/
pub fn view_frustum(world: &VoxWorld, position: IVec3, forward: IVec3, changed: bool) -> (r: ViewFrustumChain)
    requires
        world.wf(),
        world.chunks_wf(),
        can_add(position, forward),
        can_add(position, IVec3 { x: 0, y: 1, z: 0 }),
    ensures
        ({
            let front = vadd(position, forward);
            let above = vadd(position, IVec3 { x: 0, y: 1, z: 0 });
            if !changed || kind_at(world@, front) is None {
                r is DoNothing
            } else if kind_at(world@, front)->0.opaque() {
                r is RevertMaterial
            } else if natural_light_at(world@, above) is None {
                r is DoNothing
            } else if natural_light_at(world@, above)->0 == MAX_NATURAL_INTENSITY {
                r is RevertMaterial
            } else {
                r matches ViewFrustumChain::ClipMaterial(p, flooded) && p == position && flooded@.no_duplicates()
                    && (forall|v: IVec3| #[trigger] flooded@.contains(v) ==> exists|n: nat|
                        n >= 1 && reached_in(world@, front, v, n))
                    && (forall|v: IVec3, n: nat| n >= 1 && #[trigger] reached_in(world@, front, v, n)
                        ==> flooded@.contains(v))
            }
        }),
{
    if !changed {
        return ViewFrustumChain::DoNothing;
    }
    let front = position.plus(forward);
    let front_kind = match world_kind(world, front) {
        Some(k) => k,
        None => return ViewFrustumChain::DoNothing,
    };
    if front_kind.is_opaque() {
        return ViewFrustumChain::RevertMaterial;
    }
    let above = position.plus(IVec3 { x: 0, y: 1, z: 0 });
    let above_light = match world_natural(world, above) {
        Some(l) => l,
        None => return ViewFrustumChain::DoNothing,
    };
    if above_light == MAX_NATURAL_INTENSITY {
        return ViewFrustumChain::RevertMaterial;
    }
    let flooded = flood(world, front);
    ViewFrustumChain::ClipMaterial(position, flooded)
}

/// Every voxel reached in one step or more is flooded, when the start and every flooded voxel
/// have all their steps flooded.
proof fn lemma_reached_flooded(world: Map<IVec3, crate::voxworld::Chunk>, start: IVec3, flooded: Seq<IVec3>, v: IVec3, n: nat)
    requires
        n >= 1,
        reached_in(world, start, v, n),
        closed_at(world, flooded, start),
        forall|u: IVec3| #[trigger] flooded.contains(u) ==> closed_at(world, flooded, u),
    ensures
        flooded.contains(v),
    decreases n,
{
    let (u, s) = choose|u: IVec3, s: int| #[trigger] flood_step(world, u, s, v) && reached_in(world, start, u, (n - 1) as nat);
    if n == 1 {
        assert(u == start);
    } else {
        lemma_reached_flooded(world, start, flooded, u, (n - 1) as nat);
    }
}

/// Floods from `start`, breadth first, the open voxels reached through any side but up.
fn flood(world: &VoxWorld, start: IVec3) -> (r: Vec<IVec3>)
    requires
        world.wf(),
        world.chunks_wf(),
    ensures
        r@.no_duplicates(),
        forall|v: IVec3| #[trigger] r@.contains(v) ==> exists|n: nat| n >= 1 && reached_in(world@, start, v, n),
        forall|v: IVec3, n: nat| n >= 1 && #[trigger] reached_in(world@, start, v, n) ==> r@.contains(v),
{
    let mut queue: VecDeque<IVec3> = VecDeque::new();
    queue.push_back(start);
    let mut flooded: Vec<IVec3> = Vec::new();
    proof {
        assert(queue@[0] == start);
        assert(queue@.contains(start));
    }
    while queue.len() > 0
        invariant
            world.wf(),
            world.chunks_wf(),
            flooded@.no_duplicates(),
            forall|i: int| 0 <= i < flooded@.len() ==> world@.dom().contains(chunk_of(#[trigger] flooded@[i])),
            forall|v: IVec3| #[trigger] flooded@.contains(v) ==> exists|n: nat| n >= 1 && reached_in(world@, start, v, n),
            forall|i: int| 0 <= i < queue@.len() ==> #[trigger] queue@[i] == start || flooded@.contains(queue@[i]),
            queue@.contains(start) || closed_at(world@, flooded@, start),
            forall|u: IVec3| #[trigger] flooded@.contains(u) ==> queue@.contains(u) || closed_at(world@, flooded@, u),
        decreases world.chunk_count() * crate::chunk::BUFFER_SIZE - flooded@.len(), queue@.len(),
    {
        proof {
            lemma_loaded_voxels_bound(world, flooded@);
        }
        let ghost q0 = queue@;
        let ghost f0 = flooded@;
        let voxel = queue.pop_front().unwrap();
        proof {
            assert(queue@ =~= q0.subrange(1, q0.len() as int));
            assert(q0[0] == voxel);
            assert(voxel == start || f0.contains(voxel));
        }
        let mut s: usize = 0;
        while s < SIDE_COUNT
            invariant
                world.wf(),
                world.chunks_wf(),
                s <= SIDE_COUNT,
                voxel == start || f0.contains(voxel),
                f0.len() <= flooded@.len(),
                forall|i: int| 0 <= i < f0.len() ==> flooded@[i] == f0[i],
                flooded@.no_duplicates(),
                forall|i: int| 0 <= i < flooded@.len() ==> world@.dom().contains(chunk_of(#[trigger] flooded@[i])),
                forall|v: IVec3| #[trigger] flooded@.contains(v) ==> exists|n: nat| n >= 1 && reached_in(world@, start, v, n),
                forall|i: int| 0 <= i < queue@.len() ==> #[trigger] queue@[i] == start || flooded@.contains(queue@[i]),
                queue@.len() == q0.len() - 1 + flooded@.len() - f0.len(),
                q0.contains(start) || closed_at(world@, f0, start),
                forall|u: IVec3| #[trigger] f0.contains(u) ==> q0.contains(u) || closed_at(world@, f0, u),
                forall|i: int| 0 <= i < q0.len() - 1 ==> #[trigger] queue@[i] == q0[i + 1],
                forall|i: int| f0.len() <= i < flooded@.len() ==> queue@.contains(#[trigger] flooded@[i]),
                forall|t: int, v: IVec3| 0 <= t < s && #[trigger] flood_step(world@, voxel, t, v) ==> flooded@.contains(v),
            decreases SIDE_COUNT - s,
        {
            let side = Side::from_index(s);
            let ghost fs = flooded@;
            let ghost qs = queue@;
            if side != Side::Up {
                match step_from(voxel, side) {
                    Some(next) => {
                        if !contains_voxel(&flooded, next) {
                            match world_kind(world, next) {
                                Some(kind) => {
                                    if !kind.is_opaque() {
                                        proof {
                                            assert(flood_step(world@, voxel, s as int, next));
                                            if voxel == start {
                                                assert(reached_in(world@, start, voxel, 0));
                                                assert(reached_in(world@, start, next, 1));
                                            } else {
                                                assert(f0.contains(voxel));
                                                assert(fs.contains(voxel)) by {
                                                    let k = f0.index_of(voxel);
                                                    assert(fs[k] == voxel);
                                                }
                                                let n = choose|n: nat| n >= 1 && reached_in(world@, start, voxel, n);
                                                assert(reached_in(world@, start, next, n + 1));
                                            }
                                        }
                                        flooded.push(next);
                                        queue.push_back(next);
                                        proof {
                                            assert(flooded@ == fs.push(next));
                                            assert(queue@ == qs.push(next));
                                            assert(flooded@[flooded@.len() - 1] == next);
                                            assert(queue@[queue@.len() - 1] == next);
                                            assert forall|v: IVec3| #[trigger] flooded@.contains(v) implies exists|n: nat|
                                                n >= 1 && reached_in(world@, start, v, n) by {
                                                if v != next {
                                                    let k = flooded@.index_of(v);
                                                    assert(fs[k] == v);
                                                    assert(fs.contains(v));
                                                }
                                            }
                                            assert forall|i: int| 0 <= i < queue@.len() implies #[trigger] queue@[i] == start
                                                || flooded@.contains(queue@[i]) by {
                                                if i < qs.len() {
                                                    assert(queue@[i] == qs[i]);
                                                    if qs[i] != start {
                                                        assert(fs.contains(qs[i]));
                                                        let k = fs.index_of(qs[i]);
                                                        assert(flooded@[k] == qs[i]);
                                                    }
                                                }
                                            }
                                            assert forall|i: int| f0.len() <= i < flooded@.len() implies queue@.contains(
                                                #[trigger] flooded@[i]) by {
                                                if i < fs.len() {
                                                    assert(qs.contains(fs[i]));
                                                    let k = qs.index_of(fs[i]);
                                                    assert(queue@[k] == fs[i]);
                                                } else {
                                                    assert(queue@[queue@.len() - 1] == flooded@[i]);
                                                }
                                            }
                                            assert forall|t: int, v: IVec3| 0 <= t < s + 1 && #[trigger] flood_step(world@, voxel, t, v)
                                                implies flooded@.contains(v) by {
                                                if t < s {
                                                    assert(fs.contains(v));
                                                    let k = fs.index_of(v);
                                                    assert(flooded@[k] == v);
                                                }
                                            }
                                        }
                                    }
                                },
                                None => {},
                            }
                        }
                    },
                    None => {},
                }
            }
            s = s + 1;
        }
        proof {
            lemma_loaded_voxels_bound(world, flooded@);
            assert(queue@.contains(start) || closed_at(world@, flooded@, start)) by {
                if start != voxel {
                    if q0.contains(start) {
                        let i = q0.index_of(start);
                        assert(queue@[i - 1] == start);
                    } else {
                        assert forall|t: int, v: IVec3| #[trigger] flood_step(world@, start, t, v) implies flooded@.contains(v) by {
                            assert(f0.contains(v));
                            let k = f0.index_of(v);
                            assert(flooded@[k] == v);
                        }
                    }
                }
            }
            assert forall|u: IVec3|
                u == start || #[trigger] flooded@.contains(u) implies queue@.contains(u) || closed_at(world@, flooded@, u) by {
                if u == voxel {
                } else if u == start || f0.contains(u) {
                    if q0.contains(u) {
                        let i = q0.index_of(u);
                        assert(i != 0);
                        assert(queue@[i - 1] == u);
                    } else {
                        assert(closed_at(world@, f0, u));
                        assert forall|t: int, v: IVec3| #[trigger] flood_step(world@, u, t, v) implies flooded@.contains(v) by {
                            assert(f0.contains(v));
                            let k = f0.index_of(v);
                            assert(flooded@[k] == v);
                        }
                    }
                } else {
                    let k = flooded@.index_of(u);
                    if k < f0.len() {
                        assert(f0[k] == u);
                        assert(f0.contains(u));
                    }
                    assert(queue@.contains(flooded@[k]));
                }
            }
        }
    }
    proof {
        assert(!queue@.contains(start));
        assert forall|u: IVec3| #[trigger] flooded@.contains(u) implies closed_at(world@, flooded@, u) by {
            assert(!queue@.contains(u));
        }
        assert forall|v: IVec3, n: nat| n >= 1 && #[trigger] reached_in(world@, start, v, n) implies flooded@.contains(v) by {
            lemma_reached_flooded(world@, start, flooded@, v, n);
        }
    }
    flooded
}

fn contains_voxel(v: &Vec<IVec3>, x: IVec3) -> (r: bool)
    ensures
        r == v@.contains(x),
{
    let mut i: usize = 0;
    while i < v.len()
        invariant
            i <= v@.len(),
            forall|k: int| 0 <= k < i ==> v@[k] != x,
        decreases v@.len() - i,
    {
        if v[i] == x {
            return true;
        }
        i = i + 1;
    }
    false
}

} // verus!
