use vstd::prelude::*;

use crate::genesis::{BatchChunkCmdRes, ChunkCmd};
use crate::math::IVec3;
use crate::query::{self, range_seq};
use crate::voxworld::VoxWorld;

verus! {

/// The landscape around the viewer, in chunks, horizontally and vertically.
pub const HORIZONTAL_SIZE: usize = 8;

pub const VERTICAL_SIZE: usize = 1;

pub const HORIZONTAL_BEGIN: i32 = -4;

pub const HORIZONTAL_END: i32 = 4;

pub const VERTICAL_BEGIN: i32 = 0;

pub const VERTICAL_END: i32 = 1;

/// Voxel columns along one horizontal axis of the landscape.
pub const X_AXIS: usize = 128;

/// An integer 2D vector: a column of the landscape.
#[derive(Clone, Copy, Debug, PartialEq, Eq, Structural, Hash)]
pub struct IVec2 {
    pub x: i32,
    pub y: i32,
}

impl IVec2 {
    pub fn new(x: i32, y: i32) -> (r: IVec2)
        ensures
            r == (IVec2 { x, y }),
    {
        IVec2 { x, y }
    }
}

/// Checks that `coords` is a column of the landscape.
pub fn is_on_landscape_bounds(coords: IVec2) -> (r: bool)
    ensures
        r == (0 <= coords.x < X_AXIS && 0 <= coords.y < X_AXIS),
{
    coords.x >= 0 && coords.x < X_AXIS as i32 && coords.y >= 0 && coords.y < X_AXIS as i32
}

/// **Returns** the index of the landscape column `coords`, row after row along `x`.
pub fn pack_landscape_coords(coords: IVec2) -> (r: usize)
    requires
        0 <= coords.x,
        0 <= coords.y,
        coords.x * X_AXIS + coords.y <= usize::MAX,
    ensures
        r == coords.x * X_AXIS + coords.y,
{
    (coords.x as usize) * X_AXIS + (coords.y as usize)
}

/// The positions of `a` that `b` doesn't hold, in the order of `a`.
pub open spec fn only_in(a: Seq<IVec3>, b: Seq<IVec3>) -> Seq<IVec3>
    decreases a.len(),
{
    if a.len() == 0 {
        Seq::empty()
    } else if b.contains(a.last()) {
        only_in(a.drop_last(), b)
    } else {
        only_in(a.drop_last(), b).push(a.last())
    }
}

fn contains_pos(s: &[IVec3], v: IVec3) -> (r: bool)
    ensures
        r == s@.contains(v),
{
    let mut i: usize = 0;
    while i < s.len()
        invariant
            i <= s@.len(),
            forall|k: int| 0 <= k < i ==> s@[k] != v,
        decreases s@.len() - i,
    {
        if s[i] == v {
            return true;
        }
        i = i + 1;
    }
    false
}

fn filter_out(a: &[IVec3], b: &[IVec3]) -> (r: Vec<IVec3>)
    ensures
        r@ == only_in(a@, b@),
{
    let mut r: Vec<IVec3> = Vec::new();
    let mut i: usize = 0;
    while i < a.len()
        invariant
            i <= a@.len(),
            r@ == only_in(a@.subrange(0, i as int), b@),
        decreases a@.len() - i,
    {
        proof {
            assert(a@.subrange(0, i + 1).drop_last() =~= a@.subrange(0, i as int));
            assert(a@.subrange(0, i + 1).last() == a@[i as int]);
        }
        if !contains_pos(b, a[i]) {
            r.push(a[i]);
        }
        i = i + 1;
    }
    proof {
        assert(a@.subrange(0, i as int) =~= a@);
    }
    r
}

/// **Returns** the positions of `set_a` missing from `set_b`, and those of `set_b` missing from
/// `set_a`, each in its own order.
pub fn disjoin(set_a: &[IVec3], set_b: &[IVec3]) -> (r: (Vec<IVec3>, Vec<IVec3>))
    ensures
        r.0@ == only_in(set_a@, set_b@),
        r.1@ == only_in(set_b@, set_a@),
{
    (filter_out(set_a, set_b), filter_out(set_b, set_a))
}

/// [`disjoin`] keeps exactly the positions of one list that the other lacks.
pub proof fn lemma_only_in(a: Seq<IVec3>, b: Seq<IVec3>, v: IVec3)
    ensures
        only_in(a, b).contains(v) <==> (a.contains(v) && !b.contains(v)),
    decreases a.len(),
{
    if a.len() > 0 {
        let a0 = a.drop_last();
        let last = a.last();
        lemma_only_in(a0, b, v);
        assert(a =~= a0.push(last));
        vstd::seq_lib::lemma_seq_contains_after_push(a0, last, v);
        vstd::seq_lib::lemma_seq_contains_after_push(only_in(a0, b), last, v);
    }
}

/// The first corner of the landscape area around `center`.
pub open spec fn area_begin(center: IVec3, radius: int) -> IVec3 {
    IVec3 { x: (center.x - radius) as i32, y: center.y, z: (center.z - radius) as i32 }
}

/// The corner past the end of the landscape area around `center`, on each axis.
pub open spec fn area_end(center: IVec3, radius: int) -> IVec3 {
    IVec3 { x: (center.x + radius + 1) as i32, y: (center.y + 1) as i32, z: (center.z + radius + 1) as i32 }
}

/// The chunk positions at most `radius` away from `center` along X and Z, on the layer of
/// `center`, by growing X, then Z.
pub open spec fn landscape_area(center: IVec3, radius: int) -> Seq<IVec3> {
    range_seq(area_begin(center, radius), area_end(center, radius))
}

/// The landscape area around `center` has coordinates that fit in `i32`.
pub open spec fn area_fits(center: IVec3, radius: int) -> bool {
    &&& i32::MIN <= center.x - radius
    &&& center.x + radius + 1 <= i32::MAX
    &&& i32::MIN <= center.z - radius
    &&& center.z + radius + 1 <= i32::MAX
    &&& center.y + 1 <= i32::MAX
}

fn area_around(center: IVec3, horizontal_radius: u32) -> (r: Vec<IVec3>)
    requires
        area_fits(center, horizontal_radius as int),
    ensures
        r@ == landscape_area(center, horizontal_radius as int),
{
    let radius = horizontal_radius as i32;
    let begin = IVec3 { x: center.x - radius, y: center.y, z: center.z - radius };
    let end = IVec3 { x: center.x + radius, y: center.y, z: center.z + radius };
    query::range_inclusive(begin, end)
}

/// The load commands of `locals`, in their order.
pub open spec fn load_cmds(locals: Seq<IVec3>) -> Seq<ChunkCmd> {
    locals.map_values(|v: IVec3| ChunkCmd::Load(v))
}

/// The unload commands of `locals`, in their order.
pub open spec fn unload_cmds(locals: Seq<IVec3>) -> Seq<ChunkCmd> {
    locals.map_values(|v: IVec3| ChunkCmd::Unload(v))
}

/**
 Asks for the chunks of the landscape around `center` that are missing from the world, and for
 the removal of the loaded chunks outside of it: first the loads, in the order of the area, then
 the unloads, in the order of the world.
*/
pub fn update_landscape(
    center: IVec3,
    horizontal_radius: u32,
    world: &VoxWorld,
    cmd_buffer: &mut BatchChunkCmdRes,
)
    requires
        world.wf(),
        area_fits(center, horizontal_radius as int),
    ensures
        final(cmd_buffer).pending_cmds() == old(cmd_buffer).pending_cmds() + load_cmds(
            only_in(landscape_area(center, horizontal_radius as int), world.order()),
        ) + unload_cmds(only_in(world.order(), landscape_area(center, horizontal_radius as int))),
        final(cmd_buffer).running_cmds() == old(cmd_buffer).running_cmds(),
{
    let visible_range = area_around(center, horizontal_radius);
    let existing_chunks = world.list_chunks();
    let (to_load, to_unload) = disjoin(&visible_range, &existing_chunks);
    let ghost start = cmd_buffer.pending_cmds();
    let mut i: usize = 0;
    while i < to_load.len()
        invariant
            i <= to_load@.len(),
            cmd_buffer.pending_cmds() == start + load_cmds(to_load@.take(i as int)),
            cmd_buffer.running_cmds() == old(cmd_buffer).running_cmds(),
        decreases to_load@.len() - i,
    {
        cmd_buffer.load(to_load[i]);
        proof {
            assert(load_cmds(to_load@.take(i + 1)) =~= load_cmds(to_load@.take(i as int)).push(
                ChunkCmd::Load(to_load@[i as int]),
            ));
        }
        i = i + 1;
    }
    let ghost middle = cmd_buffer.pending_cmds();
    let mut j: usize = 0;
    while j < to_unload.len()
        invariant
            j <= to_unload@.len(),
            cmd_buffer.pending_cmds() == middle + unload_cmds(to_unload@.take(j as int)),
            cmd_buffer.running_cmds() == old(cmd_buffer).running_cmds(),
        decreases to_unload@.len() - j,
    {
        cmd_buffer.unload(to_unload[j]);
        proof {
            assert(unload_cmds(to_unload@.take(j + 1)) =~= unload_cmds(to_unload@.take(j as int)).push(
                ChunkCmd::Unload(to_unload@[j as int]),
            ));
        }
        j = j + 1;
    }
    proof {
        assert(to_load@.take(i as int) =~= to_load@);
        assert(to_unload@.take(j as int) =~= to_unload@);
    }
}

/**
 Finds which chunks to show and which to hide around `center`: the chunks of the landscape area
 that are not shown yet and are loaded in the world, in the order of the area, and the shown
 chunks outside of the area, in their order.
*/
pub fn landscape_spawns(
    center: IVec3,
    horizontal_radius: u32,
    shown: &[IVec3],
    world: &VoxWorld,
) -> (r: (Vec<IVec3>, Vec<IVec3>))
    requires
        world.wf(),
        area_fits(center, horizontal_radius as int),
    ensures
        r.0@ == only_in(landscape_area(center, horizontal_radius as int), shown@).filter(
            |v: IVec3| world@.dom().contains(v),
        ),
        r.1@ == only_in(shown@, landscape_area(center, horizontal_radius as int)),
{
    let visible_locals = area_around(center, horizontal_radius);
    let (missing, despawn) = disjoin(&visible_locals, shown);
    let ghost pred = |v: IVec3| world@.dom().contains(v);
    let mut spawn: Vec<IVec3> = Vec::new();
    let mut i: usize = 0;
    while i < missing.len()
        invariant
            world.wf(),
            i <= missing@.len(),
            pred == (|v: IVec3| world@.dom().contains(v)),
            spawn@ == missing@.take(i as int).filter(pred),
        decreases missing@.len() - i,
    {
        proof {
            assert(missing@.take(i + 1) =~= missing@.take(i as int).push(missing@[i as int]));
            missing@.take(i as int).lemma_filter_push(missing@[i as int], pred);
        }
        if world.contains(missing[i]) {
            spawn.push(missing[i]);
        }
        i = i + 1;
    }
    proof {
        assert(missing@.take(i as int) =~= missing@);
    }
    (spawn, despawn)
}

/// Keeping only the positions missing from `a`, then those different from `x`, keeps those
/// missing from `a` and different from `x`.
proof fn lemma_only_in_push(s: Seq<IVec3>, a: Seq<IVec3>, x: IVec3)
    ensures
        only_in(only_in(s, a), seq![x]) == only_in(s, a.push(x)),
    decreases s.len(),
{
    let one = seq![x];
    if s.len() > 0 {
        let s0 = s.drop_last();
        let l = s.last();
        lemma_only_in_push(s0, a, x);
        vstd::seq_lib::lemma_seq_contains_after_push(a, x, l);
        assert(one.contains(l) <==> l == x) by {
            if one.contains(l) {
                let k = choose|k: int| 0 <= k < one.len() && one[k] == l;
                assert(k == 0);
            }
            if l == x {
                assert(one[0] == l);
            }
        }
        if !a.contains(l) {
            let t = only_in(s0, a);
            assert(t.push(l).drop_last() =~= t);
            assert(t.push(l).last() == l);
        }
    }
}

/// Removes every occurrence of `x` from `v`, keeping the order of the others.
fn remove_all(v: &mut Vec<IVec3>, x: IVec3)
    ensures
        final(v)@ == only_in(old(v)@, seq![x]),
{
    let mut one: Vec<IVec3> = Vec::new();
    one.push(x);
    proof {
        assert(one@ =~= seq![x]);
    }
    let kept = filter_out(v.as_slice(), one.as_slice());
    *v = kept;
}

/// The positions of `s` that are in neither `known` nor `pending`, each once, in the order of
/// their first occurrence.
pub open spec fn newcomers(s: Seq<IVec3>, known: Seq<IVec3>, pending: Seq<IVec3>) -> Seq<IVec3>
    decreases s.len(),
{
    if s.len() == 0 {
        Seq::empty()
    } else {
        let r = newcomers(s.drop_last(), known, pending);
        let v = s.last();
        if known.contains(v) || pending.contains(v) || r.contains(v) {
            r
        } else {
            r.push(v)
        }
    }
}

proof fn lemma_concat_contains(a: Seq<IVec3>, b: Seq<IVec3>, v: IVec3)
    ensures
        (a + b).contains(v) <==> a.contains(v) || b.contains(v),
{
    if (a + b).contains(v) {
        let i = choose|i: int| 0 <= i < (a + b).len() && (a + b)[i] == v;
        if i < a.len() {
            assert(a[i] == v);
        } else {
            assert(b[i - a.len()] == v);
        }
    }
    if a.contains(v) {
        let i = choose|i: int| 0 <= i < a.len() && a[i] == v;
        assert((a + b)[i] == v);
    }
    if b.contains(v) {
        let i = choose|i: int| 0 <= i < b.len() && b[i] == v;
        assert((a + b)[a.len() + i] == v);
    }
}

/// The state kept by the landscape update between two runs: the chunks waiting to be asked
/// for, the last center, and the chunks asked for whose answer did not come yet.
pub struct UpdateLandscapeMeta {
    pub load_queue: Vec<IVec3>,
    pub unload_queue: Vec<IVec3>,
    pub last_pos: IVec3,
    pub pending_load: Vec<IVec3>,
    pub pending_unload: Vec<IVec3>,
}

impl Default for UpdateLandscapeMeta {
    fn default() -> (r: Self)
        ensures
            r.load_queue@ == Seq::<IVec3>::empty(),
            r.unload_queue@ == Seq::<IVec3>::empty(),
            r.last_pos == (IVec3 { x: 0, y: 0, z: 0 }),
            r.pending_load@ == Seq::<IVec3>::empty(),
            r.pending_unload@ == Seq::<IVec3>::empty(),
    {
        UpdateLandscapeMeta {
            load_queue: Vec::new(),
            unload_queue: Vec::new(),
            last_pos: IVec3 { x: 0, y: 0, z: 0 },
            pending_load: Vec::new(),
            pending_unload: Vec::new(),
        }
    }
}

impl UpdateLandscapeMeta {
    /// The queues and the chunks asked for are sound, as [`queues_ok`] says.
    pub open spec fn sound(&self) -> bool {
        queues_ok(self.load_queue@, self.unload_queue@, self.pending_load@, self.pending_unload@)
    }

    /// Forgets the pending loads of the chunks that were loaded.
    pub fn chunks_loaded(&mut self, loaded: &[IVec3])
        ensures
            final(self).pending_load@ == only_in(old(self).pending_load@, loaded@),
            final(self).load_queue == old(self).load_queue,
            final(self).unload_queue == old(self).unload_queue,
            final(self).last_pos == old(self).last_pos,
            final(self).pending_unload == old(self).pending_unload,
    {
        let ghost start = self.pending_load@;
        let mut i: usize = 0;
        proof {
            assert(only_in(start, loaded@.take(0)) =~= start) by {
                lemma_only_in_nothing(start, loaded@.take(0));
            }
        }
        while i < loaded.len()
            invariant
                i <= loaded@.len(),
                self.pending_load@ == only_in(start, loaded@.take(i as int)),
                self.load_queue == old(self).load_queue,
                self.unload_queue == old(self).unload_queue,
                self.last_pos == old(self).last_pos,
                self.pending_unload == old(self).pending_unload,
            decreases loaded@.len() - i,
        {
            remove_all(&mut self.pending_load, loaded[i]);
            proof {
                lemma_only_in_push(start, loaded@.take(i as int), loaded@[i as int]);
                assert(loaded@.take(i as int).push(loaded@[i as int]) =~= loaded@.take(i + 1));
            }
            i = i + 1;
        }
        proof {
            assert(loaded@.take(i as int) =~= loaded@);
        }
    }

    /// Forgets the pending unloads of the chunks that were unloaded.
    pub fn chunks_unloaded(&mut self, unloaded: &[IVec3])
        ensures
            final(self).pending_unload@ == only_in(old(self).pending_unload@, unloaded@),
            final(self).load_queue == old(self).load_queue,
            final(self).unload_queue == old(self).unload_queue,
            final(self).last_pos == old(self).last_pos,
            final(self).pending_load == old(self).pending_load,
    {
        let ghost start = self.pending_unload@;
        let mut i: usize = 0;
        proof {
            assert(only_in(start, unloaded@.take(0)) =~= start) by {
                lemma_only_in_nothing(start, unloaded@.take(0));
            }
        }
        while i < unloaded.len()
            invariant
                i <= unloaded@.len(),
                self.pending_unload@ == only_in(start, unloaded@.take(i as int)),
                self.load_queue == old(self).load_queue,
                self.unload_queue == old(self).unload_queue,
                self.last_pos == old(self).last_pos,
                self.pending_load == old(self).pending_load,
            decreases unloaded@.len() - i,
        {
            remove_all(&mut self.pending_unload, unloaded[i]);
            proof {
                lemma_only_in_push(start, unloaded@.take(i as int), unloaded@[i as int]);
                assert(unloaded@.take(i as int).push(unloaded@[i as int]) =~= unloaded@.take(i + 1));
            }
            i = i + 1;
        }
        proof {
            assert(unloaded@.take(i as int) =~= unloaded@);
        }
    }
}

proof fn lemma_only_in_nothing(s: Seq<IVec3>, none: Seq<IVec3>)
    requires
        none.len() == 0,
    ensures
        only_in(s, none) == s,
    decreases s.len(),
{
    if s.len() > 0 {
        lemma_only_in_nothing(s.drop_last(), none);
        assert(s.drop_last().push(s.last()) =~= s);
    }
}

proof fn lemma_only_in_absent(s: Seq<IVec3>, x: IVec3)
    requires
        !s.contains(x),
    ensures
        only_in(s, seq![x]) == s,
    decreases s.len(),
{
    if s.len() > 0 {
        let s0 = s.drop_last();
        assert(!s0.contains(x)) by {
            if s0.contains(x) {
                let k = choose|k: int| 0 <= k < s0.len() && s0[k] == x;
                assert(s[k] == x);
            }
        }
        lemma_only_in_absent(s0, x);
        assert(!seq![x].contains(s.last())) by {
            if seq![x].contains(s.last()) {
                let k = choose|k: int| 0 <= k < 1 && seq![x][k] == s.last();
                assert(s[s.len() - 1] == x);
            }
        }
        assert(s0.push(s.last()) =~= s);
    }
}

/// The chunk positions of the landscape around `center`, from `begin` until `end` exclusive
/// along each axis, relative to `center`.
pub open spec fn sync_area(center: IVec3, begin: i32, end: i32) -> Seq<IVec3> {
    range_seq(
        crate::math::vadd(center, IVec3 { x: begin, y: begin, z: begin }),
        crate::math::vadd(center, IVec3 { x: end, y: end, z: end }),
    )
}

/// The area around `center` has coordinates that fit in `i32`.
pub open spec fn sync_fits(center: IVec3, begin: i32, end: i32) -> bool {
    &&& crate::math::can_add(center, IVec3 { x: begin, y: begin, z: begin })
    &&& crate::math::can_add(center, IVec3 { x: end, y: end, z: end })
}

/// The load queue once the chunks of `load` are queued, unless queued or asked for already,
/// and the chunks of `unload` are taken out of it.
pub open spec fn synced_load_queue(
    queue: Seq<IVec3>,
    pending: Seq<IVec3>,
    load: Seq<IVec3>,
    unload: Seq<IVec3>,
) -> Seq<IVec3> {
    only_in(queue + newcomers(load, queue, pending), unload)
}

/// The unload queue once the chunks of `load` are taken out of it and the chunks of `unload`
/// are queued, unless queued or asked for already.
pub open spec fn synced_unload_queue(
    queue: Seq<IVec3>,
    pending: Seq<IVec3>,
    load: Seq<IVec3>,
    unload: Seq<IVec3>,
) -> Seq<IVec3> {
    only_in(queue, load) + newcomers(unload, only_in(queue, load), pending)
}

impl UpdateLandscapeMeta {
    /**
     Moves the landscape to `center`: queues for loading the chunks of the area around it that
     do not exist, unless already queued or asked for, and queues for unloading the existing
     chunks out of the area in the same way. A chunk queued for one is taken out of the other
     queue.
    */
    pub fn sync(&mut self, center: IVec3, begin: i32, end: i32, existing: &[IVec3])
        requires
            sync_fits(center, begin, end),
        ensures
            final(self).last_pos == center,
            final(self).load_queue@ == synced_load_queue(
                old(self).load_queue@,
                old(self).pending_load@,
                only_in(sync_area(center, begin, end), existing@),
                only_in(existing@, sync_area(center, begin, end)),
            ),
            final(self).unload_queue@ == synced_unload_queue(
                old(self).unload_queue@,
                old(self).pending_unload@,
                only_in(sync_area(center, begin, end), existing@),
                only_in(existing@, sync_area(center, begin, end)),
            ),
            final(self).pending_load == old(self).pending_load,
            final(self).pending_unload == old(self).pending_unload,
    {
        self.last_pos = center;
        let first = center.plus(IVec3 { x: begin, y: begin, z: begin });
        let last = center.plus(IVec3 { x: end, y: end, z: end });
        let visible_locals = query::range(first, last);
        let (to_load, to_unload) = disjoin(&visible_locals, existing);
        let ghost lq0 = self.load_queue@;
        let ghost uq0 = self.unload_queue@;
        let ghost pl = self.pending_load@;
        let ghost pu = self.pending_unload@;
        proof {
            assert(lq0 + newcomers(to_load@.take(0), lq0, pl) =~= lq0);
            lemma_only_in_nothing(uq0, to_load@.take(0));
        }

        let mut i: usize = 0;
        while i < to_load.len()
            invariant
                i <= to_load@.len(),
                self.last_pos == center,
                self.load_queue@ == lq0 + newcomers(to_load@.take(i as int), lq0, pl),
                self.unload_queue@ == only_in(uq0, to_load@.take(i as int)),
                self.pending_load@ == pl,
                self.pending_load == old(self).pending_load,
                self.pending_unload == old(self).pending_unload,
            decreases to_load@.len() - i,
        {
            let v = to_load[i];
            let ghost r = newcomers(to_load@.take(i as int), lq0, pl);
            proof {
                assert(to_load@.take(i + 1).drop_last() =~= to_load@.take(i as int));
                assert(to_load@.take(i + 1).last() == v);
                lemma_concat_contains(lq0, r, v);
                lemma_only_in_push(uq0, to_load@.take(i as int), v);
                assert(to_load@.take(i as int).push(v) =~= to_load@.take(i + 1));
            }
            if !contains_pos(&self.load_queue, v) && !contains_pos(&self.pending_load, v) {
                self.load_queue.push(v);
                proof {
                    assert((lq0 + r).push(v) =~= lq0 + r.push(v));
                }
            }
            if contains_pos(&self.unload_queue, v) {
                remove_all(&mut self.unload_queue, v);
            } else {
                proof {
                    lemma_only_in_absent(self.unload_queue@, v);
                }
            }
            i = i + 1;
        }
        proof {
            assert(to_load@.take(i as int) =~= to_load@);
        }

        let ghost lq1 = self.load_queue@;
        let ghost uq1 = self.unload_queue@;
        proof {
            assert(uq1 + newcomers(to_unload@.take(0), uq1, pu) =~= uq1);
            lemma_only_in_nothing(lq1, to_unload@.take(0));
        }
        let mut j: usize = 0;
        while j < to_unload.len()
            invariant
                j <= to_unload@.len(),
                self.last_pos == center,
                self.unload_queue@ == uq1 + newcomers(to_unload@.take(j as int), uq1, pu),
                self.load_queue@ == only_in(lq1, to_unload@.take(j as int)),
                self.pending_unload@ == pu,
                self.pending_load == old(self).pending_load,
                self.pending_unload == old(self).pending_unload,
            decreases to_unload@.len() - j,
        {
            let v = to_unload[j];
            let ghost r = newcomers(to_unload@.take(j as int), uq1, pu);
            proof {
                assert(to_unload@.take(j + 1).drop_last() =~= to_unload@.take(j as int));
                assert(to_unload@.take(j + 1).last() == v);
                lemma_concat_contains(uq1, r, v);
                lemma_only_in_push(lq1, to_unload@.take(j as int), v);
                assert(to_unload@.take(j as int).push(v) =~= to_unload@.take(j + 1));
            }
            if !contains_pos(&self.unload_queue, v) && !contains_pos(&self.pending_unload, v) {
                self.unload_queue.push(v);
                proof {
                    assert((uq1 + r).push(v) =~= uq1 + r.push(v));
                }
            }
            if contains_pos(&self.load_queue, v) {
                remove_all(&mut self.load_queue, v);
            } else {
                proof {
                    lemma_only_in_absent(self.load_queue@, v);
                }
            }
            j = j + 1;
        }
        proof {
            assert(to_unload@.take(j as int) =~= to_unload@);
        }
    }

    /// Hands out the queued chunks, loads and unloads in queue order, and remembers them as
    /// asked for.
    pub fn drain(&mut self) -> (r: (Vec<IVec3>, Vec<IVec3>))
        ensures
            r.0@ == old(self).load_queue@,
            r.1@ == old(self).unload_queue@,
            final(self).load_queue@ == Seq::<IVec3>::empty(),
            final(self).unload_queue@ == Seq::<IVec3>::empty(),
            final(self).pending_load@ == old(self).pending_load@ + old(self).load_queue@,
            final(self).pending_unload@ == old(self).pending_unload@ + old(self).unload_queue@,
            final(self).last_pos == old(self).last_pos,
    {
        let mut loads: Vec<IVec3> = Vec::new();
        let mut unloads: Vec<IVec3> = Vec::new();
        std::mem::swap(&mut loads, &mut self.load_queue);
        std::mem::swap(&mut unloads, &mut self.unload_queue);
        let ghost pl = self.pending_load@;
        let ghost pu = self.pending_unload@;
        proof {
            assert(loads@.take(0) =~= Seq::<IVec3>::empty());
        }
        let mut i: usize = 0;
        while i < loads.len()
            invariant
                i <= loads@.len(),
                self.pending_load@ == pl + loads@.take(i as int),
                self.pending_unload@ == pu,
                self.load_queue@ == Seq::<IVec3>::empty(),
                self.unload_queue@ == Seq::<IVec3>::empty(),
                self.last_pos == old(self).last_pos,
            decreases loads@.len() - i,
        {
            self.pending_load.push(loads[i]);
            proof {
                assert(pl + loads@.take(i + 1) =~= (pl + loads@.take(i as int)).push(loads@[i as int]));
            }
            i = i + 1;
        }
        proof {
            assert(loads@.take(i as int) =~= loads@);
            assert(unloads@.take(0) =~= Seq::<IVec3>::empty());
        }
        let mut j: usize = 0;
        while j < unloads.len()
            invariant
                j <= unloads@.len(),
                self.pending_unload@ == pu + unloads@.take(j as int),
                self.pending_load@ == pl + loads@,
                self.load_queue@ == Seq::<IVec3>::empty(),
                self.unload_queue@ == Seq::<IVec3>::empty(),
                self.last_pos == old(self).last_pos,
            decreases unloads@.len() - j,
        {
            self.pending_unload.push(unloads[j]);
            proof {
                assert(pu + unloads@.take(j + 1) =~= (pu + unloads@.take(j as int)).push(unloads@[j as int]));
            }
            j = j + 1;
        }
        proof {
            assert(loads@.take(i as int) =~= loads@);
            assert(unloads@.take(j as int) =~= unloads@);
        }
        (loads, unloads)
    }
}

impl UpdateLandscapeMeta {
    /**
     Runs one landscape update. The pending loads and unloads answered by `loaded` and
     `unloaded` are forgotten first. Unless the update is `paused` or there is no `center`, the
     landscape is moved to `center` when it differs from the last one or `sync_due` is set, and
     the queued chunks are handed out.

     **Returns** `None` when paused or without a center; otherwise whether the landscape was
     moved, with the chunks to load and to unload.
    */
    pub fn update(
        &mut self,
        loaded: &[IVec3],
        unloaded: &[IVec3],
        paused: bool,
        center: Option<IVec3>,
        sync_due: bool,
        begin: i32,
        end: i32,
        existing: &[IVec3],
    ) -> (r: Option<(bool, Vec<IVec3>, Vec<IVec3>)>)
        requires
            center matches Some(c) ==> sync_fits(c, begin, end),
        ensures
            ({
                let pl = only_in(old(self).pending_load@, loaded@);
                let pu = only_in(old(self).pending_unload@, unloaded@);
                if paused || center is None {
                    &&& r is None
                    &&& final(self).pending_load@ == pl
                    &&& final(self).pending_unload@ == pu
                    &&& final(self).load_queue == old(self).load_queue
                    &&& final(self).unload_queue == old(self).unload_queue
                    &&& final(self).last_pos == old(self).last_pos
                } else {
                    let c = center->0;
                    let moved = c != old(self).last_pos || sync_due;
                    let area = sync_area(c, begin, end);
                    let load = only_in(area, existing@);
                    let unload = only_in(existing@, area);
                    let lq = if moved {
                        synced_load_queue(old(self).load_queue@, pl, load, unload)
                    } else {
                        old(self).load_queue@
                    };
                    let uq = if moved {
                        synced_unload_queue(old(self).unload_queue@, pu, load, unload)
                    } else {
                        old(self).unload_queue@
                    };
                    &&& r matches Some(t) && t.0 == moved && t.1@ == lq && t.2@ == uq
                    &&& final(self).load_queue@ == Seq::<IVec3>::empty()
                    &&& final(self).unload_queue@ == Seq::<IVec3>::empty()
                    &&& final(self).pending_load@ == pl + lq
                    &&& final(self).pending_unload@ == pu + uq
                    &&& final(self).last_pos == (if moved {
                        c
                    } else {
                        old(self).last_pos
                    })
                }
            }),
            old(self).sound() ==> final(self).sound(),
    {
        let ghost sound = self.sound();
        self.chunks_loaded(loaded);
        self.chunks_unloaded(unloaded);
        proof {
            if sound {
                lemma_forget_queues_ok(
                    old(self).load_queue@,
                    old(self).unload_queue@,
                    old(self).pending_load@,
                    old(self).pending_unload@,
                    loaded@,
                    unloaded@,
                );
            }
        }

        if paused {
            return None;
        }
        let center = match center {
            Some(c) => c,
            None => {
                return None;
            },
        };

        let moved = center != self.last_pos || sync_due;
        if moved {
            let ghost before = *self;
            self.sync(center, begin, end, existing);
            proof {
                if sound {
                    lemma_sync_queues_ok(
                        before.load_queue@,
                        before.unload_queue@,
                        before.pending_load@,
                        before.pending_unload@,
                        only_in(sync_area(center, begin, end), existing@),
                        only_in(existing@, sync_area(center, begin, end)),
                    );
                }
            }
        }
        let ghost before_drain = *self;
        let (loads, unloads) = self.drain();
        proof {
            if sound {
                lemma_drain_queues_ok(
                    before_drain.load_queue@,
                    before_drain.unload_queue@,
                    before_drain.pending_load@,
                    before_drain.pending_unload@,
                );
            }
        }
        Some((moved, loads, unloads))
    }
}

/// Each queue and each list of asked chunks holds a chunk once, no chunk is queued for both,
/// and no queued chunk is asked for already.
pub open spec fn queues_ok(
    load_queue: Seq<IVec3>,
    unload_queue: Seq<IVec3>,
    pending_load: Seq<IVec3>,
    pending_unload: Seq<IVec3>,
) -> bool {
    &&& load_queue.no_duplicates()
    &&& unload_queue.no_duplicates()
    &&& pending_load.no_duplicates()
    &&& pending_unload.no_duplicates()
    &&& forall|x: IVec3| #[trigger] load_queue.contains(x) ==> !unload_queue.contains(x)
    &&& forall|x: IVec3| #[trigger] load_queue.contains(x) ==> !pending_load.contains(x)
    &&& forall|x: IVec3| #[trigger] unload_queue.contains(x) ==> !pending_unload.contains(x)
}

proof fn lemma_only_in_no_duplicates(s: Seq<IVec3>, a: Seq<IVec3>)
    requires
        s.no_duplicates(),
    ensures
        only_in(s, a).no_duplicates(),
    decreases s.len(),
{
    if s.len() > 0 {
        let s0 = s.drop_last();
        let l = s.last();
        assert(s0.no_duplicates()) by {
            assert forall|i: int, j: int| 0 <= i < s0.len() && 0 <= j < s0.len() && i != j implies s0[i]
                != s0[j] by {
                assert(s0[i] == s[i] && s0[j] == s[j]);
            }
        }
        lemma_only_in_no_duplicates(s0, a);
        lemma_only_in(s0, a, l);
        assert(!s0.contains(l)) by {
            if s0.contains(l) {
                let k = choose|k: int| 0 <= k < s0.len() && s0[k] == l;
                assert(s[k] == s[s.len() - 1]);
            }
        }
        lemma_push_no_duplicates(only_in(s0, a), l);
    }
}

proof fn lemma_push_no_duplicates(s: Seq<IVec3>, x: IVec3)
    requires
        s.no_duplicates(),
        !s.contains(x),
    ensures
        s.push(x).no_duplicates(),
{
    let t = s.push(x);
    assert forall|i: int, j: int| 0 <= i < t.len() && 0 <= j < t.len() && i != j implies t[i] != t[j] by {
        if i < s.len() && j < s.len() {
            assert(t[i] == s[i] && t[j] == s[j]);
        } else if i < s.len() {
            assert(t[i] == s[i]);
        } else if j < s.len() {
            assert(t[j] == s[j]);
        }
    }
}

proof fn lemma_newcomers(s: Seq<IVec3>, known: Seq<IVec3>, pending: Seq<IVec3>)
    ensures
        newcomers(s, known, pending).no_duplicates(),
        forall|x: IVec3| #[trigger]
            newcomers(s, known, pending).contains(x) <==> (s.contains(x) && !known.contains(x)
                && !pending.contains(x)),
    decreases s.len(),
{
    if s.len() > 0 {
        let s0 = s.drop_last();
        let l = s.last();
        let r = newcomers(s0, known, pending);
        lemma_newcomers(s0, known, pending);
        assert(s0.push(l) =~= s);
        assert forall|x: IVec3| #[trigger]
            newcomers(s, known, pending).contains(x) <==> (s.contains(x) && !known.contains(x)
                && !pending.contains(x)) by {
            vstd::seq_lib::lemma_seq_contains_after_push(s0, l, x);
            vstd::seq_lib::lemma_seq_contains_after_push(r, l, x);
        }
        if !(known.contains(l) || pending.contains(l) || r.contains(l)) {
            lemma_push_no_duplicates(r, l);
        }
    }
}

proof fn lemma_concat_no_duplicates(a: Seq<IVec3>, b: Seq<IVec3>)
    requires
        a.no_duplicates(),
        b.no_duplicates(),
        forall|x: IVec3| #[trigger] a.contains(x) ==> !b.contains(x),
    ensures
        (a + b).no_duplicates(),
{
    let t = a + b;
    assert forall|i: int, j: int| 0 <= i < t.len() && 0 <= j < t.len() && i != j implies t[i] != t[j] by {
        if i < a.len() && j < a.len() {
            assert(t[i] == a[i] && t[j] == a[j]);
        } else if i < a.len() {
            assert(t[i] == a[i] && t[j] == b[j - a.len()]);
            assert(a.contains(a[i]));
            assert(b.contains(b[j - a.len()]));
        } else if j < a.len() {
            assert(t[j] == a[j] && t[i] == b[i - a.len()]);
            assert(a.contains(a[j]));
            assert(b.contains(b[i - a.len()]));
        } else {
            assert(t[i] == b[i - a.len()] && t[j] == b[j - a.len()]);
        }
    }
}

/// Moving the landscape keeps the queues sound.
proof fn lemma_sync_queues_ok(
    lq: Seq<IVec3>,
    uq: Seq<IVec3>,
    pl: Seq<IVec3>,
    pu: Seq<IVec3>,
    load: Seq<IVec3>,
    unload: Seq<IVec3>,
)
    requires
        queues_ok(lq, uq, pl, pu),
    ensures
        queues_ok(
            synced_load_queue(lq, pl, load, unload),
            synced_unload_queue(uq, pu, load, unload),
            pl,
            pu,
        ),
{
    let nl = newcomers(load, lq, pl);
    let lq2 = lq + nl;
    let uq1 = only_in(uq, load);
    let nu = newcomers(unload, uq1, pu);
    let lq3 = only_in(lq2, unload);
    let uq3 = uq1 + nu;
    lemma_newcomers(load, lq, pl);
    lemma_newcomers(unload, uq1, pu);
    assert forall|x: IVec3| #[trigger] lq.contains(x) implies !nl.contains(x) by {}
    lemma_concat_no_duplicates(lq, nl);
    lemma_only_in_no_duplicates(lq2, unload);
    lemma_only_in_no_duplicates(uq, load);
    assert forall|x: IVec3| #[trigger] uq1.contains(x) implies !nu.contains(x) by {}
    lemma_concat_no_duplicates(uq1, nu);
    assert forall|x: IVec3| #[trigger] lq3.contains(x) implies !uq3.contains(x) && !pl.contains(x) by {
        lemma_only_in(lq2, unload, x);
        lemma_concat_contains(lq, nl, x);
        lemma_only_in(uq, load, x);
        lemma_concat_contains(uq1, nu, x);
    }
    assert forall|x: IVec3| #[trigger] uq3.contains(x) implies !pu.contains(x) by {
        lemma_only_in(uq, load, x);
        lemma_concat_contains(uq1, nu, x);
    }
}

/// Forgetting answered chunks keeps the queues sound.
proof fn lemma_forget_queues_ok(
    lq: Seq<IVec3>,
    uq: Seq<IVec3>,
    pl: Seq<IVec3>,
    pu: Seq<IVec3>,
    loaded: Seq<IVec3>,
    unloaded: Seq<IVec3>,
)
    requires
        queues_ok(lq, uq, pl, pu),
    ensures
        queues_ok(lq, uq, only_in(pl, loaded), only_in(pu, unloaded)),
{
    lemma_only_in_no_duplicates(pl, loaded);
    lemma_only_in_no_duplicates(pu, unloaded);
    assert forall|x: IVec3| #[trigger] lq.contains(x) implies !only_in(pl, loaded).contains(x) by {
        lemma_only_in(pl, loaded, x);
    }
    assert forall|x: IVec3| #[trigger] uq.contains(x) implies !only_in(pu, unloaded).contains(x) by {
        lemma_only_in(pu, unloaded, x);
    }
}

/// Handing out the queued chunks keeps the queues sound.
proof fn lemma_drain_queues_ok(lq: Seq<IVec3>, uq: Seq<IVec3>, pl: Seq<IVec3>, pu: Seq<IVec3>)
    requires
        queues_ok(lq, uq, pl, pu),
    ensures
        queues_ok(Seq::empty(), Seq::empty(), pl + lq, pu + uq),
{
    assert forall|x: IVec3| #[trigger] pl.contains(x) implies !lq.contains(x) by {}
    assert forall|x: IVec3| #[trigger] pu.contains(x) implies !uq.contains(x) by {}
    lemma_concat_no_duplicates(pl, lq);
    lemma_concat_no_duplicates(pu, uq);
}

} // verus!
