use vstd::prelude::*;

use crate::chunk::{
    self, BUFFER_SIZE, ChunkStorage, at_bounds, from_index, in_bounds, index_of, lemma_index_of,
    lemma_voxel_at, neighboring_spec, voxel_at,
};
use crate::math::{IVec3, vadd};
use crate::voxel::{Kind, Light, Side, SIDE_COUNT, side_at, MAX_NATURAL_INTENSITY};
use crate::voxworld::{Chunk, VoxWorld, has_neighbors, kind_neighborhood_of};

verus! {

/// Voxels to set on a chunk, with their new kinds.
pub type VoxelUpdateList = Vec<(IVec3, Kind)>;

/// A command on a chunk of the world.
#[derive(Debug, PartialEq)]
pub enum ChunkCmd {
    Load(IVec3),
    Unload(IVec3),
    Update(IVec3, VoxelUpdateList),
}

impl ChunkCmd {
    pub open spec fn target(self) -> IVec3 {
        match self {
            ChunkCmd::Load(l) => l,
            ChunkCmd::Unload(l) => l,
            ChunkCmd::Update(l, _) => l,
        }
    }

    pub fn local(&self) -> (r: IVec3)
        ensures
            r == self.target(),
    {
        match self {
            ChunkCmd::Load(l) => *l,
            ChunkCmd::Unload(l) => *l,
            ChunkCmd::Update(l, _) => *l,
        }
    }
}

/// No two kept commands are about the same chunk.
pub open spec fn unique_targets(s: Seq<ChunkCmd>) -> bool {
    forall|i: int, j: int|
        0 <= i < s.len() && 0 <= j < s.len() && i != j ==> s[i].target() != s[j].target()
}

/// Whether a kept command is about `local`.
pub open spec fn has_target(s: Seq<ChunkCmd>, local: IVec3) -> bool {
    exists|i: int| 0 <= i < s.len() && s[i].target() == local
}

/// The position of the kept command about `local`.
pub open spec fn target_index(s: Seq<ChunkCmd>, local: IVec3) -> int {
    choose|i: int| 0 <= i < s.len() && s[i].target() == local
}

/// One step of the command optimization, on the commands kept so far (in the order they were
/// kept), given which chunks exist. `None` stands for a combination the rules leave undefined.
///
/// 1. Skips any duplicated commands (Load -> Load, Update -> Update, Unload -> Unload).
/// 2. Skips Load and removes the kept Unload when the chunk exists.
/// 3. Skips Unload and removes the kept Load when the chunk doesn't exist.
/// 4. Skips Unload when the chunk doesn't exist.
/// 5. Skips Load when the chunk exists.
/// 6. Skips Update when the chunk doesn't exist.
/// 7. Replaces a kept Update by the Unload when the chunk exists; it moves to the end.
/// 9. Skips Update when an Unload is kept.
pub open spec fn optimize_step(
    exists: Set<IVec3>,
    kept: Option<Seq<ChunkCmd>>,
    cmd: ChunkCmd,
) -> Option<Seq<ChunkCmd>> {
    match kept {
        None => None,
        Some(s) => {
            let l = cmd.target();
            let e = exists.contains(l);
            let found = has_target(s, l);
            let i = target_index(s, l);
            match cmd {
                ChunkCmd::Load(_) => {
                    if found {
                        match s[i] {
                            ChunkCmd::Load(_) => Some(s),
                            ChunkCmd::Unload(_) => if e {
                                Some(s.remove(i))
                            } else {
                                None
                            },
                            ChunkCmd::Update(_, _) => None,
                        }
                    } else if e {
                        Some(s)
                    } else {
                        Some(s.push(cmd))
                    }
                },
                ChunkCmd::Unload(_) => {
                    if found {
                        match s[i] {
                            ChunkCmd::Unload(_) => Some(s),
                            ChunkCmd::Load(_) => if !e {
                                Some(s.remove(i))
                            } else {
                                None
                            },
                            ChunkCmd::Update(_, _) => if e {
                                Some(s.remove(i).push(cmd))
                            } else {
                                None
                            },
                        }
                    } else if !e {
                        Some(s)
                    } else {
                        Some(s.push(cmd))
                    }
                },
                ChunkCmd::Update(_, _) => {
                    if !e {
                        Some(s)
                    } else if found {
                        match s[i] {
                            ChunkCmd::Update(_, _) => Some(s),
                            ChunkCmd::Unload(_) => Some(s),
                            ChunkCmd::Load(_) => None,
                        }
                    } else {
                        Some(s.push(cmd))
                    }
                },
            }
        },
    }
}

/// The commands kept after optimizing `cmds` in order; `None` when the rules meet a
/// combination they leave undefined.
pub open spec fn optimized(exists: Set<IVec3>, cmds: Seq<ChunkCmd>) -> Option<Seq<ChunkCmd>>
    decreases cmds.len(),
{
    if cmds.len() == 0 {
        Some(Seq::empty())
    } else {
        optimize_step(exists, optimized(exists, cmds.drop_last()), cmds.last())
    }
}

proof fn lemma_step_unique(exists: Set<IVec3>, s: Seq<ChunkCmd>, cmd: ChunkCmd)
    requires
        unique_targets(s),
    ensures
        optimize_step(exists, Some(s), cmd) is Some ==> unique_targets(
            optimize_step(exists, Some(s), cmd)->0,
        ),
{
    let l = cmd.target();
    let found = has_target(s, l);
    let i = target_index(s, l);
    if found {
        let r = s.remove(i);
        assert(forall|k: int| 0 <= k < r.len() ==> r[k] == s[if k < i { k } else { k + 1 }]);
        assert forall|a: int| 0 <= a < r.len() implies #[trigger] r[a].target() != l by {
            let a2 = if a < i { a } else { a + 1 };
            assert(a2 != i);
        }
        assert(unique_targets(r)) by {
            assert forall|a: int, b: int| 0 <= a < r.len() && 0 <= b < r.len() && a != b implies r[a].target()
                != r[b].target() by {
                let a2 = if a < i { a } else { a + 1 };
                let b2 = if b < i { b } else { b + 1 };
            }
        }
        let r2 = r.push(cmd);
        assert(unique_targets(r2)) by {
            assert forall|a: int, b: int|
                0 <= a < r2.len() && 0 <= b < r2.len() && a != b implies r2[a].target()
                != r2[b].target() by {
                if a < r.len() && b < r.len() {
                } else if a < r.len() {
                    assert(r[a].target() != l);
                } else {
                    assert(r[b].target() != l);
                }
            }
        }
    } else {
        let r2 = s.push(cmd);
        assert(unique_targets(r2)) by {
            assert forall|a: int, b: int|
                0 <= a < r2.len() && 0 <= b < r2.len() && a != b implies r2[a].target()
                != r2[b].target() by {
                if a < s.len() && b < s.len() {
                } else if a < s.len() {
                    assert(s[a].target() != l);
                } else {
                    assert(s[b].target() != l);
                }
            }
        }
    }
}

proof fn lemma_optimized_unique(exists: Set<IVec3>, cmds: Seq<ChunkCmd>)
    ensures
        optimized(exists, cmds) is Some ==> unique_targets(optimized(exists, cmds)->0),
    decreases cmds.len(),
{
    if cmds.len() > 0 {
        lemma_optimized_unique(exists, cmds.drop_last());
        if optimized(exists, cmds.drop_last()) is Some {
            lemma_step_unique(exists, optimized(exists, cmds.drop_last())->0, cmds.last());
        }
    }
}

/// A failed step leaves every later step failed.
proof fn lemma_optimized_prefix(exists: Set<IVec3>, cmds: Seq<ChunkCmd>, n: int)
    requires
        0 <= n <= cmds.len(),
        optimized(exists, cmds) is Some,
    ensures
        optimized(exists, cmds.take(n)) is Some,
    decreases cmds.len() - n,
{
    if n < cmds.len() {
        assert(cmds.take(n + 1).drop_last() =~= cmds.take(n));
        lemma_optimized_prefix(exists, cmds, n + 1);
    } else {
        assert(cmds.take(n) =~= cmds);
    }
}

/// The position of the kept command about `local`, if any.
fn find_target(kept: &Vec<ChunkCmd>, local: IVec3) -> (r: Option<usize>)
    requires
        unique_targets(kept@),
    ensures
        match r {
            Some(i) => i < kept@.len() && kept@[i as int].target() == local && target_index(
                kept@,
                local,
            ) == i && has_target(kept@, local),
            None => !has_target(kept@, local),
        },
{
    let mut i: usize = 0;
    while i < kept.len()
        invariant
            i <= kept@.len(),
            unique_targets(kept@),
            forall|k: int| 0 <= k < i ==> kept@[k].target() != local,
        decreases kept@.len() - i,
    {
        if kept[i].local() == local {
            proof {
                assert(has_target(kept@, local));
                let t = target_index(kept@, local);
                assert(kept@[t].target() == local);
                assert(kept@[i as int].target() == local);
                if t != i {
                    assert(kept@[t].target() != kept@[i as int].target());
                }
            }
            return Some(i);
        }
        i = i + 1;
    }
    None
}

/**
Optimizes the command list, removing duplicated commands or commands that nullify each other,
following the rules of [`optimize_step`]. The order in which commands were kept is preserved.

**Returns** an optimized command list
*/
pub fn optimize_commands(world: &VoxWorld, commands: Vec<ChunkCmd>) -> (r: Vec<ChunkCmd>)
    requires
        world.wf(),
        optimized(world@.dom(), commands@) is Some,
    ensures
        r@ == optimized(world@.dom(), commands@)->0,
        unique_targets(r@),
{
    let ghost exists = world@.dom();
    let ghost all = commands@;
    // Reverse the list, so that popping takes the commands in their order.
    let mut commands = commands;
    let mut pending: Vec<ChunkCmd> = Vec::new();
    while commands.len() > 0
        invariant
            commands@ + pending@.reverse() == all,
        decreases commands@.len(),
    {
        let cmd = commands.pop().unwrap();
        proof {
            assert(commands@ + pending@.push(cmd).reverse() =~= commands@.push(cmd)
                + pending@.reverse());
        }
        pending.push(cmd);
    }
    proof {
        assert(pending@.reverse() =~= all);
    }

    let mut kept: Vec<ChunkCmd> = Vec::new();
    let ghost mut n: int = 0;
    while pending.len() > 0
        invariant
            world.wf(),
            exists == world@.dom(),
            optimized(exists, all) is Some,
            0 <= n <= all.len(),
            n + pending@.len() == all.len(),
            pending@.reverse() == all.skip(n),
            optimized(exists, all.take(n)) == Some(kept@),
            unique_targets(kept@),
        decreases pending@.len(),
    {
        let ghost before = pending@;
        let cmd = pending.pop().unwrap();
        proof {
            assert(before == pending@.push(cmd));
            assert(all[n] == cmd) by {
                assert(before.reverse()[0] == cmd);
                assert(all.skip(n)[0] == all[n]);
            }
            assert(all.take(n + 1).drop_last() =~= all.take(n));
            assert(all.take(n + 1).last() == cmd);
            lemma_optimized_prefix(exists, all, n + 1);
            lemma_step_unique(exists, kept@, cmd);
            assert(pending@.reverse() =~= all.skip(n + 1)) by {
                assert(pending@.push(cmd).reverse() =~= all.skip(n));
                assert forall|k: int| 0 <= k < pending@.len() implies pending@.reverse()[k]
                    == all.skip(n + 1)[k] by {
                    assert(pending@.push(cmd).reverse()[k + 1] == all.skip(n)[k + 1]);
                }
            }
        }
        let local = cmd.local();
        let chunk_exists = world.contains(local);
        let found = find_target(&kept, local);
        let ghost s = kept@;
        match cmd {
            ChunkCmd::Load(_) => {
                match found {
                    Some(i) => {
                        let drop = match &kept[i] {
                            ChunkCmd::Unload(_) => true,
                            _ => false,
                        };
                        if drop {
                            kept.remove(i);
                        }
                    },
                    None => {
                        if !chunk_exists {
                            kept.push(cmd);
                        }
                    },
                }
            },
            ChunkCmd::Unload(_) => {
                match found {
                    Some(i) => {
                        let existing = match &kept[i] {
                            ChunkCmd::Load(_) => 0u8,
                            ChunkCmd::Unload(_) => 1u8,
                            ChunkCmd::Update(_, _) => 2u8,
                        };
                        if existing == 0 {
                            kept.remove(i);
                        } else if existing == 2 {
                            kept.remove(i);
                            kept.push(cmd);
                        }
                    },
                    None => {
                        if chunk_exists {
                            kept.push(cmd);
                        }
                    },
                }
            },
            ChunkCmd::Update(_, _) => {
                if chunk_exists && found.is_none() {
                    kept.push(cmd);
                }
            },
        }
        proof {
            assert(kept@ =~= optimize_step(exists, Some(s), all.take(n + 1).last())->0);
            n = n + 1;
        }
    }
    proof {
        assert(all.take(n) =~= all);
    }
    kept
}

/// Splits the given command list into the locals to load, the locals to unload and the
/// updates, each in the order of `commands`.
pub open spec fn loads_of(cmds: Seq<ChunkCmd>) -> Seq<IVec3>
    decreases cmds.len(),
{
    if cmds.len() == 0 {
        Seq::empty()
    } else {
        let rest = loads_of(cmds.drop_last());
        match cmds.last() {
            ChunkCmd::Load(l) => rest.push(l),
            _ => rest,
        }
    }
}

pub open spec fn unloads_of(cmds: Seq<ChunkCmd>) -> Seq<IVec3>
    decreases cmds.len(),
{
    if cmds.len() == 0 {
        Seq::empty()
    } else {
        let rest = unloads_of(cmds.drop_last());
        match cmds.last() {
            ChunkCmd::Unload(l) => rest.push(l),
            _ => rest,
        }
    }
}

pub open spec fn update_targets_of(cmds: Seq<ChunkCmd>) -> Seq<IVec3>
    decreases cmds.len(),
{
    if cmds.len() == 0 {
        Seq::empty()
    } else {
        let rest = update_targets_of(cmds.drop_last());
        match cmds.last() {
            ChunkCmd::Update(l, _) => rest.push(l),
            _ => rest,
        }
    }
}

pub open spec fn updates_of(cmds: Seq<ChunkCmd>) -> Seq<Seq<(IVec3, Kind)>>
    decreases cmds.len(),
{
    if cmds.len() == 0 {
        Seq::empty()
    } else {
        let rest = updates_of(cmds.drop_last());
        match cmds.last() {
            ChunkCmd::Update(_, v) => rest.push(v@),
            _ => rest,
        }
    }
}

/**
Utility function that splits the given list of [`ChunkCmd`] into individual cmd lists

***Returns*** tuple with load, unload and update cmd lists
 */
pub fn split_commands(commands: Vec<ChunkCmd>) -> (r: (
    Vec<IVec3>,
    Vec<IVec3>,
    Vec<(IVec3, VoxelUpdateList)>,
))
    ensures
        r.0@ == loads_of(commands@),
        r.1@ == unloads_of(commands@),
        r.2@.map_values(|u: (IVec3, VoxelUpdateList)| u.0) == update_targets_of(commands@),
        r.2@.map_values(|u: (IVec3, VoxelUpdateList)| u.1@) == updates_of(commands@),
{
    let ghost all = commands@;
    let mut commands = commands;
    let mut pending: Vec<ChunkCmd> = Vec::new();
    while commands.len() > 0
        invariant
            commands@ + pending@.reverse() == all,
        decreases commands@.len(),
    {
        let cmd = commands.pop().unwrap();
        proof {
            assert(commands@ + pending@.push(cmd).reverse() =~= commands@.push(cmd)
                + pending@.reverse());
        }
        pending.push(cmd);
    }
    proof {
        assert(pending@.reverse() =~= all);
    }

    let mut load: Vec<IVec3> = Vec::new();
    let mut unload: Vec<IVec3> = Vec::new();
    let mut update: Vec<(IVec3, VoxelUpdateList)> = Vec::new();
    let ghost mut n: int = 0;
    while pending.len() > 0
        invariant
            0 <= n <= all.len(),
            n + pending@.len() == all.len(),
            pending@.reverse() == all.skip(n),
            load@ == loads_of(all.take(n)),
            unload@ == unloads_of(all.take(n)),
            update@.map_values(|u: (IVec3, VoxelUpdateList)| u.0) == update_targets_of(
                all.take(n),
            ),
            update@.map_values(|u: (IVec3, VoxelUpdateList)| u.1@) == updates_of(all.take(n)),
        decreases pending@.len(),
    {
        let ghost before = pending@;
        let cmd = pending.pop().unwrap();
        proof {
            assert(before == pending@.push(cmd));
            assert(all[n] == cmd) by {
                assert(before.reverse()[0] == cmd);
                assert(all.skip(n)[0] == all[n]);
            }
            assert(all.take(n + 1).drop_last() =~= all.take(n));
            assert(all.take(n + 1).last() == cmd);
            assert(pending@.reverse() =~= all.skip(n + 1)) by {
                assert(pending@.push(cmd).reverse() =~= all.skip(n));
                assert forall|k: int| 0 <= k < pending@.len() implies pending@.reverse()[k]
                    == all.skip(n + 1)[k] by {
                    assert(pending@.push(cmd).reverse()[k + 1] == all.skip(n)[k + 1]);
                }
            }
        }
        let ghost old_update = update@;
        match cmd {
            ChunkCmd::Load(local) => load.push(local),
            ChunkCmd::Unload(local) => unload.push(local),
            ChunkCmd::Update(local, data) => update.push((local, data)),
        }
        proof {
            assert(update@.map_values(|u: (IVec3, VoxelUpdateList)| u.0) =~= update_targets_of(
                all.take(n + 1),
            ));
            assert(update@.map_values(|u: (IVec3, VoxelUpdateList)| u.1@) =~= updates_of(
                all.take(n + 1),
            ));
            n = n + 1;
        }
    }
    proof {
        assert(all.take(n) =~= all);
    }
    (load, unload, update)
}

/// Two commands of the same kind, on the same chunk, with the same voxel updates.
pub open spec fn same_cmd(a: ChunkCmd, b: ChunkCmd) -> bool {
    match (a, b) {
        (ChunkCmd::Load(x), ChunkCmd::Load(y)) => x == y,
        (ChunkCmd::Unload(x), ChunkCmd::Unload(y)) => x == y,
        (ChunkCmd::Update(x, u), ChunkCmd::Update(y, v)) => x == y && u@ == v@,
        _ => false,
    }
}

fn copy_update_list(v: &VoxelUpdateList) -> (r: VoxelUpdateList)
    ensures
        r@ == v@,
{
    let mut r: VoxelUpdateList = Vec::new();
    let mut i: usize = 0;
    while i < v.len()
        invariant
            i <= v@.len(),
            r@ == v@.subrange(0, i as int),
        decreases v@.len() - i,
    {
        r.push(v[i]);
        i = i + 1;
    }
    proof {
        assert(v@.subrange(0, i as int) =~= v@);
    }
    r
}

impl Clone for ChunkCmd {
    fn clone(&self) -> (r: Self)
        ensures
            same_cmd(r, *self),
    {
        match self {
            ChunkCmd::Load(l) => ChunkCmd::Load(*l),
            ChunkCmd::Unload(l) => ChunkCmd::Unload(*l),
            ChunkCmd::Update(l, v) => ChunkCmd::Update(*l, copy_update_list(v)),
        }
    }
}

/// How many load, unload and update commands a list holds.
pub open spec fn cmd_counts(cmds: Seq<ChunkCmd>) -> (int, int, int)
    decreases cmds.len(),
{
    if cmds.len() == 0 {
        (0, 0, 0)
    } else {
        let rest = cmd_counts(cmds.drop_last());
        match cmds.last() {
            ChunkCmd::Load(_) => (rest.0 + 1, rest.1, rest.2),
            ChunkCmd::Unload(_) => (rest.0, rest.1 + 1, rest.2),
            ChunkCmd::Update(_, _) => (rest.0, rest.1, rest.2 + 1),
        }
    }
}

proof fn lemma_cmd_counts_bound(cmds: Seq<ChunkCmd>)
    ensures
        0 <= cmd_counts(cmds).0,
        0 <= cmd_counts(cmds).1,
        0 <= cmd_counts(cmds).2,
        cmd_counts(cmds).0 + cmd_counts(cmds).1 + cmd_counts(cmds).2 == cmds.len(),
    decreases cmds.len(),
{
    if cmds.len() > 0 {
        lemma_cmd_counts_bound(cmds.drop_last());
    }
}

/// Chunk commands to be processed in batch, double buffered: the commands waiting for the next
/// batch, and those of the batch being processed.
pub struct BatchChunkCmdRes {
    pending: Vec<ChunkCmd>,
    running: Vec<ChunkCmd>,
}

impl Default for BatchChunkCmdRes {
    fn default() -> (r: Self)
        ensures
            r.pending_cmds() == Seq::<ChunkCmd>::empty(),
            r.running_cmds() == Seq::<ChunkCmd>::empty(),
    {
        BatchChunkCmdRes { pending: Vec::new(), running: Vec::new() }
    }
}

impl BatchChunkCmdRes {
    pub closed spec fn pending_cmds(&self) -> Seq<ChunkCmd> {
        self.pending@
    }

    pub closed spec fn running_cmds(&self) -> Seq<ChunkCmd> {
        self.running@
    }

    /// Swaps the running and pending buffers.
    /// **Returns** a copy of the new running buffer.
    pub fn swap_and_clone(&mut self) -> (r: Vec<ChunkCmd>)
        ensures
            final(self).running_cmds() == old(self).pending_cmds(),
            final(self).pending_cmds() == old(self).running_cmds(),
            r@.len() == old(self).pending_cmds().len(),
            forall|i: int|
                0 <= i < r@.len() ==> same_cmd(#[trigger] r@[i], old(self).pending_cmds()[i]),
    {
        std::mem::swap(&mut self.running, &mut self.pending);
        let mut r: Vec<ChunkCmd> = Vec::new();
        let mut i: usize = 0;
        while i < self.running.len()
            invariant
                i <= self.running@.len(),
                r@.len() == i,
                forall|k: int| 0 <= k < i ==> same_cmd(#[trigger] r@[k], self.running@[k]),
            decreases self.running@.len() - i,
        {
            r.push(self.running[i].clone());
            i = i + 1;
        }
        r
    }

    /// Clears the running buffer.
    pub fn finished(&mut self)
        ensures
            final(self).running_cmds() == Seq::<ChunkCmd>::empty(),
            final(self).pending_cmds() == old(self).pending_cmds(),
    {
        self.running.clear();
    }

    /// Checks if there are pending commands to be processed.
    pub fn has_pending_commands(&self) -> (r: bool)
        ensures
            r == (self.pending_cmds().len() > 0),
    {
        self.pending.len() > 0
    }

    /// Adds a load command to the batch.
    pub fn load(&mut self, local: IVec3)
        ensures
            final(self).pending_cmds() == old(self).pending_cmds().push(ChunkCmd::Load(local)),
            final(self).running_cmds() == old(self).running_cmds(),
    {
        self.pending.push(ChunkCmd::Load(local));
    }

    /// Adds an unload command to the batch.
    pub fn unload(&mut self, local: IVec3)
        ensures
            final(self).pending_cmds() == old(self).pending_cmds().push(ChunkCmd::Unload(local)),
            final(self).running_cmds() == old(self).running_cmds(),
    {
        self.pending.push(ChunkCmd::Unload(local));
    }

    /// Adds an update command to the batch.
    pub fn update(&mut self, local: IVec3, voxels: VoxelUpdateList)
        ensures
            final(self).pending_cmds() == old(self).pending_cmds().push(
                ChunkCmd::Update(local, voxels),
            ),
            final(self).running_cmds() == old(self).running_cmds(),
    {
        self.pending.push(ChunkCmd::Update(local, voxels));
    }

    /// **Returns** how many load, unload and update commands `vec` holds.
    pub fn count_chunk_cmd(vec: &Vec<ChunkCmd>) -> (r: (i32, i32, i32))
        requires
            vec@.len() <= i32::MAX,
        ensures
            r.0 == cmd_counts(vec@).0,
            r.1 == cmd_counts(vec@).1,
            r.2 == cmd_counts(vec@).2,
    {
        let mut r: (i32, i32, i32) = (0, 0, 0);
        let mut i: usize = 0;
        while i < vec.len()
            invariant
                i <= vec@.len(),
                vec@.len() <= i32::MAX,
                r.0 == cmd_counts(vec@.subrange(0, i as int)).0,
                r.1 == cmd_counts(vec@.subrange(0, i as int)).1,
                r.2 == cmd_counts(vec@.subrange(0, i as int)).2,
            decreases vec@.len() - i,
        {
            proof {
                assert(vec@.subrange(0, i + 1).drop_last() =~= vec@.subrange(0, i as int));
                lemma_cmd_counts_bound(vec@.subrange(0, i as int));
            }
            match &vec[i] {
                ChunkCmd::Load(_) => r.0 = r.0 + 1,
                ChunkCmd::Unload(_) => r.1 = r.1 + 1,
                ChunkCmd::Update(_, _) => r.2 = r.2 + 1,
            }
            i = i + 1;
        }
        proof {
            assert(vec@.subrange(0, i as int) =~= vec@);
        }
        r
    }

    /// The pending and running counts of each command kind, in that order: loads, unloads,
    /// updates.
    pub fn counts(&self) -> (r: ((i32, i32, i32), (i32, i32, i32)))
        requires
            self.pending_cmds().len() <= i32::MAX,
            self.running_cmds().len() <= i32::MAX,
        ensures
            r.0 == ((
                cmd_counts(self.pending_cmds()).0 as i32,
                cmd_counts(self.pending_cmds()).1 as i32,
                cmd_counts(self.pending_cmds()).2 as i32,
            )),
            r.1 == ((
                cmd_counts(self.running_cmds()).0 as i32,
                cmd_counts(self.running_cmds()).1 as i32,
                cmd_counts(self.running_cmds()).2 as i32,
            )),
    {
        (Self::count_chunk_cmd(&self.pending), Self::count_chunk_cmd(&self.running))
    }
}

/// The world, when it is not lent out for processing.
pub struct WorldRes(Option<VoxWorld>);

impl WorldRes {
    pub closed spec fn world(&self) -> Option<VoxWorld> {
        self.0
    }

    /// A resource holding `world`, or none.
    pub fn new(world: Option<VoxWorld>) -> (r: Self)
        ensures
            r.world() == world,
    {
        WorldRes(world)
    }

    /// Checks whether the world is here.
    pub fn is_ready(&self) -> (r: bool)
        ensures
            r == self.world() is Some,
    {
        self.0.is_some()
    }

    /// Takes the world out; it must be here.
    pub fn take(&mut self) -> (r: VoxWorld)
        requires
            old(self).world() is Some,
        ensures
            r == old(self).world()->0,
            final(self).world() is None,
    {
        self.0.take().unwrap()
    }

    /// Puts the world back; there can be only one at a time.
    pub fn set(&mut self, world: VoxWorld)
        requires
            old(self).world() is None,
        ensures
            final(self).world() == Some(world),
    {
        self.0 = Some(world);
    }

    /// **Returns** the world; it must be here.
    pub fn get(&self) -> (r: &VoxWorld)
        requires
            self.world() is Some,
        ensures
            *r == self.world()->0,
    {
        self.0.as_ref().unwrap()
    }
}

/// What the world update asks of its caller.
pub enum WorldUpdate {
    /// Nothing to do this time.
    Idle,
    /// The running batch finished: the chunks it updated.
    Finished(Vec<IVec3>),
    /// Process these commands on this world in the background, then hand back the world.
    Dispatch(VoxWorld, Vec<ChunkCmd>),
}

/**
 Drives the processing of chunk commands, one batch at a time. While a batch runs the world is
 lent out to it, which `running` tells; `completed` is what the running batch gave back once it
 finished: the world and the chunks it updated.

 A finished batch gives the world back and clears the running commands; with no batch running,
 the pending commands, if any, become the running batch and go out with the world.
*/
pub fn update_world(
    batch_res: &mut BatchChunkCmdRes,
    world_res: &mut WorldRes,
    running: bool,
    completed: Option<(VoxWorld, Vec<IVec3>)>,
) -> (r: WorldUpdate)
    requires
        running <==> old(world_res).world() is None,
        completed is Some ==> running,
    ensures
        running && completed is Some ==> {
            &&& r == WorldUpdate::Finished((completed->0).1)
            &&& final(world_res).world() == Some((completed->0).0)
            &&& final(batch_res).running_cmds() == Seq::<ChunkCmd>::empty()
            &&& final(batch_res).pending_cmds() == old(batch_res).pending_cmds()
        },
        !running && old(batch_res).pending_cmds().len() > 0 ==> {
            &&& r matches WorldUpdate::Dispatch(w, cmds) && w == old(world_res).world()->0
                && cmds@.len() == old(batch_res).pending_cmds().len() && forall|i: int|
                0 <= i < cmds@.len() ==> same_cmd(#[trigger] cmds@[i], old(batch_res).pending_cmds()[i])
            &&& final(world_res).world() is None
            &&& final(batch_res).running_cmds() == old(batch_res).pending_cmds()
            &&& final(batch_res).pending_cmds() == old(batch_res).running_cmds()
        },
        (running && completed is None) || (!running && old(batch_res).pending_cmds().len() == 0) ==> {
            &&& r is Idle
            &&& *final(world_res) == *old(world_res)
            &&& *final(batch_res) == *old(batch_res)
        },
        final(world_res).world() is None <==> (r is Dispatch || (running && completed is None)),
{
    if running {
        match completed {
            Some((world, updated_list)) => {
                world_res.set(world);
                batch_res.finished();
                WorldUpdate::Finished(updated_list)
            },
            None => WorldUpdate::Idle,
        }
    } else if batch_res.has_pending_commands() {
        let world = world_res.take();
        let batch = batch_res.swap_and_clone();
        WorldUpdate::Dispatch(world, batch)
    } else {
        WorldUpdate::Idle
    }
}

/// Every position of `locals` has six neighbor positions in `i32`.
pub open spec fn all_have_neighbors(locals: Seq<IVec3>) -> bool {
    forall|i: int| 0 <= i < locals.len() ==> has_neighbors(#[trigger] locals[i])
}

/// The six positions next to `local`, in side order.
pub open spec fn sides_of(local: IVec3) -> Seq<IVec3> {
    Seq::new(SIDE_COUNT as nat, |t: int| vadd(local, side_at(t).direction()))
}

/// `d` is next to a position of `locals` that was loaded in `world`.
pub open spec fn next_to_unloaded(world: Map<IVec3, Chunk>, locals: Seq<IVec3>, d: IVec3) -> bool {
    exists|i: int|
        0 <= i < locals.len() && world.dom().contains(locals[i]) && #[trigger] sides_of(
            locals[i],
        ).contains(d)
}

proof fn lemma_push_contains<A>(s: Seq<A>, a: A)
    ensures
        forall|x: A| #[trigger] s.push(a).contains(x) <==> (s.contains(x) || x == a),
{
    assert forall|x: A| #[trigger] s.push(a).contains(x) <==> (s.contains(x) || x == a) by {
        if s.push(a).contains(x) {
            let i = choose|i: int| 0 <= i < s.push(a).len() && s.push(a)[i] == x;
            if i < s.len() {
                assert(s[i] == x);
            }
        }
        if s.contains(x) {
            let i = choose|i: int| 0 <= i < s.len() && s[i] == x;
            assert(s.push(a)[i] == x);
        }
        if x == a {
            assert(s.push(a)[s.len() as int] == x);
        }
    }
}

/// Adds `x` to `v` unless it is there already.
pub fn push_unique(v: &mut Vec<IVec3>, x: IVec3)
    requires
        old(v)@.no_duplicates(),
    ensures
        final(v)@.no_duplicates(),
        forall|e: IVec3| #[trigger] final(v)@.contains(e) <==> (old(v)@.contains(e) || e == x),
{
    proof {
        lemma_push_contains(v@, x);
    }
    if !contains_local(v, x) {
        v.push(x);
        proof {
            assert forall|i: int, j: int|
                0 <= i < v@.len() && 0 <= j < v@.len() && i != j implies v@[i] != v@[j] by {
                if i < old(v)@.len() && j < old(v)@.len() {
                    assert(old(v)@[i] == v@[i] && old(v)@[j] == v@[j]);
                } else if i < old(v)@.len() {
                    assert(old(v)@[i] == v@[i]);
                } else if j < old(v)@.len() {
                    assert(old(v)@[j] == v@[j]);
                }
            }
        }
    }
}

/// Removes from the world every chunk of `locals`.
/// **Returns** the positions next to the chunks that were removed, each once: those chunks
/// are dirty, since their neighbor is gone.
pub fn unload_chunks(world: &mut VoxWorld, locals: &[IVec3]) -> (r: Vec<IVec3>)
    requires
        old(world).wf(),
        all_have_neighbors(locals@),
    ensures
        final(world).wf(),
        final(world)@ == old(world)@.remove_keys(locals@.to_set()),
        r@.no_duplicates(),
        forall|d: IVec3| #[trigger] r@.contains(d) <==> next_to_unloaded(old(world)@, locals@, d),
{
    let mut dirty: Vec<IVec3> = Vec::new();
    let mut i: usize = 0;
    while i < locals.len()
        invariant
            i <= locals@.len(),
            world.wf(),
            all_have_neighbors(locals@),
            world@ == old(world)@.remove_keys(locals@.subrange(0, i as int).to_set()),
            dirty@.no_duplicates(),
            forall|d: IVec3|
                #[trigger] dirty@.contains(d) <==> next_to_unloaded(
                    old(world)@,
                    locals@.subrange(0, i as int),
                    d,
                ),
        decreases locals@.len() - i,
    {
        let local = locals[i];
        let ghost w0 = world@;
        let ghost sub = locals@.subrange(0, i as int);
        let ghost sub1 = locals@.subrange(0, i + 1);
        proof {
            assert(sub1 =~= sub.push(local));
            lemma_push_contains(sub, local);
            assert(sub1.to_set() =~= sub.to_set().insert(local));
        }
        let removed = world.remove(local);
        let was_loaded = removed.is_some();
        proof {
            assert(world@ =~= old(world)@.remove_keys(sub1.to_set()));
            if sub.contains(local) {
                assert(sub.to_set().contains(local));
                assert(!w0.dom().contains(local));
            }
        }
        let ghost d0 = dirty@;
        if was_loaded {
            let mut s: usize = 0;
            while s < SIDE_COUNT
                invariant
                    s <= SIDE_COUNT,
                    has_neighbors(local),
                    dirty@.no_duplicates(),
                    forall|d: IVec3|
                        #[trigger] dirty@.contains(d) <==> (d0.contains(d) || sides_of(local).subrange(
                            0,
                            s as int,
                        ).contains(d)),
                decreases SIDE_COUNT - s,
            {
                let side = Side::from_index(s);
                let d = local.plus(side.dir());
                let ghost before = dirty@;
                push_unique(&mut dirty, d);
                proof {
                    assert(sides_of(local)[s as int] == d);
                    assert(sides_of(local).subrange(0, s + 1) =~= sides_of(local).subrange(
                        0,
                        s as int,
                    ).push(d));
                    lemma_push_contains(sides_of(local).subrange(0, s as int), d);
                    assert forall|e: IVec3|
                        dirty@.contains(e) <==> (d0.contains(e) || sides_of(local).subrange(
                            0,
                            s + 1,
                        ).contains(e)) by {
                        assert(sides_of(local).subrange(0, s as int).push(d).contains(e) <==> (
                        sides_of(local).subrange(0, s as int).contains(e) || e == d));
                        assert(dirty@.contains(e) <==> (before.contains(e) || e == d));
                        assert(before.contains(e) <==> (d0.contains(e) || sides_of(local).subrange(
                            0,
                            s as int,
                        ).contains(e)));
                    }
                }
                s = s + 1;
            }
            proof {
                assert(sides_of(local).subrange(0, 6) =~= sides_of(local));
            }
        }
        proof {
            assert forall|d: IVec3| dirty@.contains(d) <==> next_to_unloaded(old(world)@, sub1, d) by {
                if next_to_unloaded(old(world)@, sub1, d) {
                    let j = choose|j: int|
                        0 <= j < sub1.len() && old(world)@.dom().contains(sub1[j]) && #[trigger] sides_of(
                            sub1[j],
                        ).contains(d);
                    if j < sub.len() {
                        assert(sub[j] == sub1[j]);
                        assert(next_to_unloaded(old(world)@, sub, d));
                    } else {
                        assert(sub1[j] == local);
                        if sub.contains(local) {
                            assert(sub.to_set().contains(local));
                            let k = choose|k: int| 0 <= k < sub.len() && sub[k] == local;
                            assert(next_to_unloaded(old(world)@, sub, d));
                        }
                    }
                }
                if dirty@.contains(d) {
                    if d0.contains(d) {
                        let j = choose|j: int|
                            0 <= j < sub.len() && old(world)@.dom().contains(sub[j]) && #[trigger] sides_of(
                                sub[j],
                            ).contains(d);
                        assert(sub1[j] == sub[j]);
                    } else {
                        assert(sub1[i as int] == local);
                    }
                }
            }
        }
        i = i + 1;
    }
    proof {
        assert(locals@.subrange(0, i as int) =~= locals@);
    }
    dirty
}

/// Removes the chunk at `local` from the world.
/// **Returns** the six positions next to it, in side order, when it was loaded: those chunks
/// are dirty, since their neighbor is gone; nothing otherwise.
pub fn unload_chunk(world: &mut VoxWorld, local: IVec3) -> (r: Vec<IVec3>)
    requires
        old(world).wf(),
        has_neighbors(local),
    ensures
        final(world).wf(),
        final(world)@ == old(world)@.remove(local),
        r@ == (if old(world)@.dom().contains(local) {
            sides_of(local)
        } else {
            Seq::empty()
        }),
{
    let mut dirty_chunks: Vec<IVec3> = Vec::new();
    match world.remove(local) {
        None => {},
        Some(_) => {
            let mut s: usize = 0;
            while s < SIDE_COUNT
                invariant
                    s <= SIDE_COUNT,
                    has_neighbors(local),
                    dirty_chunks@ == sides_of(local).subrange(0, s as int),
                decreases SIDE_COUNT - s,
            {
                let side = Side::from_index(s);
                dirty_chunks.push(local.plus(side.dir()));
                proof {
                    assert(dirty_chunks@ =~= sides_of(local).subrange(0, s + 1));
                }
                s = s + 1;
            }
            proof {
                assert(sides_of(local).subrange(0, 6) =~= sides_of(local));
            }
        },
    }
    dirty_chunks
}

/// The kinds of a chunk once the voxels of `voxels` are set, in order.
pub open spec fn kinds_set(kinds: Seq<Kind>, voxels: Seq<(IVec3, Kind)>) -> Seq<Kind>
    decreases voxels.len(),
{
    if voxels.len() == 0 {
        kinds
    } else {
        kinds_set(kinds, voxels.drop_last()).update(index_of(voxels.last().0), voxels.last().1)
    }
}

/// `d` is a chunk next to the chunk at `local` that one of `voxels` on the chunk's outer layer
/// touches.
pub open spec fn touched_by(local: IVec3, voxels: Seq<(IVec3, Kind)>, d: IVec3) -> bool {
    exists|m: int|
        0 <= m < voxels.len() && at_bounds(voxels[m].0) && #[trigger] neighboring_spec(
            local,
            voxels[m].0,
        ).contains(d)
}

/// Sets the voxels of `voxels` on the chunk at `local`, in order.
/// **Returns** the dirty chunks, each once: the chunk itself, and the chunks next to it that a
/// voxel on its outer layer touches; nothing when the chunk isn't loaded.
pub fn update_voxel(world: &mut VoxWorld, local: IVec3, voxels: &[(IVec3, Kind)]) -> (r: Vec<IVec3>)
    requires
        old(world).wf(),
        old(world).chunks_wf(),
        has_neighbors(local),
        forall|m: int| 0 <= m < voxels@.len() ==> in_bounds(#[trigger] voxels@[m].0),
    ensures
        final(world).wf(),
        final(world).chunks_wf(),
        r@.no_duplicates(),
        old(world)@.dom().contains(local) ==> {
            &&& final(world)@ == old(world)@.insert(
                local,
                Chunk { kinds: final(world)@[local].kinds, lights: old(world)@[local].lights },
            )
            &&& final(world)@[local].kinds@ == kinds_set(old(world)@[local].kinds@, voxels@)
            &&& final(world)@[local].kinds.neighbors() == old(world)@[local].kinds.neighbors()
            &&& forall|d: IVec3| #[trigger] r@.contains(d) <==> (d == local || touched_by(local, voxels@, d))
        },
        !old(world)@.dom().contains(local) ==> final(world)@ == old(world)@ && r@.len() == 0,
{
    let mut dirty_chunks: Vec<IVec3> = Vec::new();
    match world.get_mut(local) {
        Some(chunk) => {
            let ghost c0 = *chunk;
            let mut i: usize = 0;
            while i < voxels.len()
                invariant
                    i <= voxels@.len(),
                    has_neighbors(local),
                    forall|m: int| 0 <= m < voxels@.len() ==> in_bounds(#[trigger] voxels@[m].0),
                    chunk.wf(),
                    chunk.lights == c0.lights,
                    chunk.kinds@ == kinds_set(c0.kinds@, voxels@.take(i as int)),
                    chunk.kinds.neighbors() == c0.kinds.neighbors(),
                    dirty_chunks@.no_duplicates(),
                    forall|d: IVec3| #[trigger] dirty_chunks@.contains(d) <==> touched_by(local, voxels@.take(i as int), d),
                decreases voxels@.len() - i,
            {
                let (voxel, kind) = voxels[i];
                proof {
                    assert(voxels@.take(i + 1).drop_last() =~= voxels@.take(i as int));
                    assert(voxels@.take(i + 1).last() == voxels@[i as int]);
                    lemma_index_of(voxel);
                }
                chunk.kinds.set(voxel, kind);
                let ghost before = dirty_chunks@;
                if chunk::is_at_bounds(voxel) {
                    let around = chunk::neighboring(local, voxel);
                    let mut a: usize = 0;
                    while a < around.len()
                        invariant
                            a <= around@.len(),
                            around@ == neighboring_spec(local, voxel),
                            dirty_chunks@.no_duplicates(),
                            forall|d: IVec3| #[trigger] dirty_chunks@.contains(d) <==> (before.contains(d)
                                || around@.take(a as int).contains(d)),
                        decreases around@.len() - a,
                    {
                        push_unique(&mut dirty_chunks, around[a]);
                        proof {
                            assert(around@.take(a + 1) =~= around@.take(a as int).push(around@[a as int]));
                            lemma_push_contains(around@.take(a as int), around@[a as int]);
                        }
                        a = a + 1;
                    }
                    proof {
                        assert(around@.take(a as int) =~= around@);
                    }
                }
                proof {
                    let t0 = voxels@.take(i as int);
                    let t1 = voxels@.take(i + 1);
                    assert forall|d: IVec3| #[trigger] dirty_chunks@.contains(d) <==> touched_by(local, t1, d) by {
                        if touched_by(local, t1, d) {
                            let m = choose|m: int|
                                0 <= m < t1.len() && at_bounds(t1[m].0) && #[trigger] neighboring_spec(
                                    local,
                                    t1[m].0,
                                ).contains(d);
                            if m < i {
                                assert(t0[m] == t1[m]);
                                assert(touched_by(local, t0, d));
                            }
                        }
                        if touched_by(local, t0, d) {
                            let m = choose|m: int|
                                0 <= m < t0.len() && at_bounds(t0[m].0) && #[trigger] neighboring_spec(
                                    local,
                                    t0[m].0,
                                ).contains(d);
                            assert(t0[m] == t1[m]);
                        }
                        if at_bounds(voxel) && neighboring_spec(local, voxel).contains(d) {
                            assert(t1[i as int] == voxels@[i as int]);
                        }
                    }
                }
                i = i + 1;
            }
            proof {
                assert(voxels@.take(i as int) =~= voxels@);
            }
            push_unique(&mut dirty_chunks, local);
        },
        None => {},
    }
    dirty_chunks
}

/// Refreshes, in the chunk at `local`, the copy of its loaded neighbors' kind layers.
/// **Returns** whether the chunk is loaded.
pub fn update_chunk(world: &mut VoxWorld, local: IVec3) -> (r: bool)
    requires
        old(world).wf(),
        old(world).chunks_wf(),
        has_neighbors(local),
    ensures
        r == old(world)@.dom().contains(local),
        final(world).wf(),
        final(world).chunks_wf(),
        r ==> final(world)@ == old(world)@.insert(
            local,
            Chunk { kinds: final(world)@[local].kinds, lights: old(world)@[local].lights },
        ),
        r ==> final(world)@[local].kinds@ == old(world)@[local].kinds@,
        r ==> kind_neighborhood_of(old(world)@, local, final(world)@[local].kinds.neighbors()),
        !r ==> final(world)@ == old(world)@,
{
    if world.get(local).is_some() {
        world.update_neighborhood(local);
        true
    } else {
        false
    }
}

/// Checks whether `v` holds `local`.
pub fn contains_local(v: &Vec<IVec3>, local: IVec3) -> (r: bool)
    ensures
        r == v@.contains(local),
{
    let mut i: usize = 0;
    while i < v.len()
        invariant
            i <= v@.len(),
            forall|k: int| 0 <= k < i ==> v@[k] != local,
        decreases v@.len() - i,
    {
        if v[i] == local {
            return true;
        }
        i = i + 1;
    }
    false
}

/// The kind generated at height `y` of a column whose ground reaches `end` voxels: grass on
/// top, dirt under it, stone below three voxels deep, and air above.
pub open spec fn generated_kind(end: int, y: int) -> Kind {
    if y < end {
        if y == end - 1 {
            Kind(2)
        } else if y < end - 3 {
            Kind(3)
        } else {
            Kind(1)
        }
    } else {
        Kind(0)
    }
}

/// The ground height of the column of `v`, at most the chunk's height.
pub open spec fn column_end(heights: Seq<usize>, v: IVec3) -> int {
    let h = heights[v.x * 16 + v.z];
    if h < 16 {
        h as int
    } else {
        16
    }
}

/// The column at `(x, z)` of a generated chunk reads its ground height `h` at
/// `heights[x * 16 + z]`: a voxel is solid exactly below `h` (and below the chunk's top), the
/// highest solid voxel is grass (kind 2), the two under it dirt (kind 1), anything deeper
/// stone (kind 3), and every voxel at or above `h` is air.
pub proof fn lemma_generated_column(heights: Seq<usize>, v: IVec3)
    requires
        heights.len() == 256,
        in_bounds(v),
    ensures
        ({
            let h = heights[v.x * 16 + v.z] as int;
            let top = if h < 16 { h } else { 16 };
            let k = generated_kind(column_end(heights, v), v.y as int);
            &&& k.0 != 0 <==> v.y < h
            &&& k == Kind(2) <==> v.y == top - 1
            &&& k == Kind(1) <==> top - 3 <= v.y < top - 1
            &&& k == Kind(3) <==> v.y < top - 3
        }),
{
}

/// Builds a generated chunk from the ground height of each of its columns, in `x * 16 + z`
/// order: each column is filled up to its height, and the top layer gets full natural light.
pub fn generate_chunk(heights: &[usize]) -> (r: Chunk)
    requires
        heights@.len() == 256,
    ensures
        r.wf(),
        forall|v: IVec3|
            in_bounds(v) ==> #[trigger] r.kinds.at(v) == generated_kind(column_end(heights@, v), v.y as int),
        forall|v: IVec3|
            in_bounds(v) ==> (#[trigger] r.kinds.at(v).0 != 0 <==> v.y < heights@[v.x * 16 + v.z]),
        forall|v: IVec3|
            in_bounds(v) ==> (#[trigger] r.kinds.at(v) == Kind(2) <==> v.y + 1 == (if heights@[v.x * 16 + v.z]
                < 16 {
                heights@[v.x * 16 + v.z] as int
            } else {
                16
            })),
        forall|v: IVec3|
            in_bounds(v) ==> #[trigger] r.lights.at(v) == (if v.y == 15 {
                Light { natural: MAX_NATURAL_INTENSITY, artificial: 0 }
            } else {
                Light { natural: 0, artificial: 0 }
            }),
        forall|i: int| 0 <= i < SIDE_COUNT ==> #[trigger] r.kinds.neighbors()@[i] is None,
        forall|i: int| 0 <= i < SIDE_COUNT ==> #[trigger] r.lights.neighbors()@[i] is None,
{
    let mut kinds: Vec<Kind> = Vec::new();
    let mut lights: Vec<Light> = Vec::new();
    let mut i: usize = 0;
    while i < BUFFER_SIZE
        invariant
            i <= BUFFER_SIZE,
            heights@.len() == 256,
            kinds@.len() == i,
            lights@.len() == i,
            forall|k: int|
                0 <= k < i ==> #[trigger] kinds@[k] == generated_kind(
                    column_end(heights@, voxel_at(k)),
                    voxel_at(k).y as int,
                ),
            forall|k: int|
                0 <= k < i ==> #[trigger] lights@[k] == (if voxel_at(k).y == 15 {
                    Light { natural: MAX_NATURAL_INTENSITY, artificial: 0 }
                } else {
                    Light { natural: 0, artificial: 0 }
                }),
        decreases BUFFER_SIZE - i,
    {
        let v = from_index(i);
        let h = heights[(v.x as usize) * 16 + (v.z as usize)];
        let end: usize = if h < 16 {
            h
        } else {
            16
        };
        let y = v.y as usize;
        let kind = if y < end {
            if y == end - 1 {
                Kind(2)
            } else if y + 3 < end {
                Kind(3)
            } else {
                Kind(1)
            }
        } else {
            Kind(0)
        };
        kinds.push(kind);
        if v.y == 15 {
            lights.push(Light { natural: MAX_NATURAL_INTENSITY, artificial: 0 });
        } else {
            lights.push(Light { natural: 0, artificial: 0 });
        }
        i = i + 1;
    }
    let r = Chunk { kinds: ChunkStorage::from_values(kinds), lights: ChunkStorage::from_values(lights) };
    proof {
        assert forall|v: IVec3| in_bounds(v) implies #[trigger] r.kinds.at(v) == generated_kind(
            column_end(heights@, v),
            v.y as int,
        ) by {
            lemma_index_of(v);
        }
        assert forall|v: IVec3| in_bounds(v) implies (#[trigger] r.kinds.at(v).0 != 0 <==> v.y < heights@[v.x * 16
            + v.z]) by {
            lemma_index_of(v);
            lemma_generated_column(heights@, v);
        }
        assert forall|v: IVec3| in_bounds(v) implies (#[trigger] r.kinds.at(v) == Kind(2) <==> v.y + 1 == (if heights@[v.x
            * 16 + v.z] < 16 {
            heights@[v.x * 16 + v.z] as int
        } else {
            16
        })) by {
            lemma_index_of(v);
            lemma_generated_column(heights@, v);
        }
        assert forall|v: IVec3| in_bounds(v) implies #[trigger] r.lights.at(v) == (if v.y == 15 {
            Light { natural: MAX_NATURAL_INTENSITY, artificial: 0 }
        } else {
            Light { natural: 0, artificial: 0 }
        }) by {
            lemma_index_of(v);
        }
    }
    r
}

/// Splitting a command list loses nothing: every command goes to exactly one of the loads,
/// the unloads and the updates.
pub proof fn lemma_split_partitions(cmds: Seq<ChunkCmd>)
    ensures
        loads_of(cmds).len() + unloads_of(cmds).len() + update_targets_of(cmds).len() == cmds.len(),
        update_targets_of(cmds).len() == updates_of(cmds).len(),
    decreases cmds.len(),
{
    if cmds.len() > 0 {
        lemma_split_partitions(cmds.drop_last());
    }
}

/// Whatever the world, the optimized commands name each chunk at most once.
pub proof fn lemma_optimized_one_per_chunk(exists: Set<IVec3>, cmds: Seq<ChunkCmd>)
    requires
        optimized(exists, cmds) is Some,
    ensures
        unique_targets(optimized(exists, cmds)->0),
{
    lemma_optimized_unique(exists, cmds);
}

/// A command that the rules keep as it is in a world where the chunks of `exists` exist: a
/// Load of a missing chunk, an Unload or an Update of an existing one.
pub open spec fn consistent(exists: Set<IVec3>, cmd: ChunkCmd) -> bool {
    match cmd {
        ChunkCmd::Load(l) => !exists.contains(l),
        ChunkCmd::Unload(l) => exists.contains(l),
        ChunkCmd::Update(l, _) => exists.contains(l),
    }
}

/// A list the rules have nothing left to optimize in: one command per chunk, each consistent.
pub open spec fn clean(exists: Set<IVec3>, s: Seq<ChunkCmd>) -> bool {
    &&& unique_targets(s)
    &&& forall|i: int| 0 <= i < s.len() ==> #[trigger] consistent(exists, s[i])
}

proof fn lemma_clean_step(exists: Set<IVec3>, s: Seq<ChunkCmd>, cmd: ChunkCmd)
    requires
        clean(exists, s),
        optimize_step(exists, Some(s), cmd) is Some,
    ensures
        clean(exists, optimize_step(exists, Some(s), cmd)->0),
{
    lemma_step_unique(exists, s, cmd);
    let r = optimize_step(exists, Some(s), cmd)->0;
    let l = cmd.target();
    let i = target_index(s, l);
    assert forall|k: int| 0 <= k < r.len() implies #[trigger] consistent(exists, r[k]) by {
        if r == s.push(cmd) {
            if k < s.len() {
                assert(r[k] == s[k]);
            }
        } else if has_target(s, l) && r == s.remove(i).push(cmd) {
            if k < s.len() - 1 {
                let k2 = if k < i { k } else { k + 1 };
                assert(r[k] == s[k2]);
            }
        } else if has_target(s, l) && r == s.remove(i) {
            let k2 = if k < i { k } else { k + 1 };
            assert(r[k] == s[k2]);
        } else {
            assert(r == s);
        }
    }
}

proof fn lemma_optimized_clean(exists: Set<IVec3>, cmds: Seq<ChunkCmd>)
    requires
        optimized(exists, cmds) is Some,
    ensures
        clean(exists, optimized(exists, cmds)->0),
    decreases cmds.len(),
{
    if cmds.len() > 0 {
        lemma_optimized_prefix(exists, cmds, cmds.len() - 1);
        assert(cmds.take(cmds.len() - 1) =~= cmds.drop_last());
        lemma_optimized_clean(exists, cmds.drop_last());
        lemma_clean_step(exists, optimized(exists, cmds.drop_last())->0, cmds.last());
    }
}

proof fn lemma_clean_kept(exists: Set<IVec3>, s: Seq<ChunkCmd>)
    requires
        clean(exists, s),
    ensures
        optimized(exists, s) == Some(s),
    decreases s.len(),
{
    if s.len() > 0 {
        let p = s.drop_last();
        assert(clean(exists, p)) by {
            assert forall|k: int| 0 <= k < p.len() implies #[trigger] consistent(exists, p[k]) by {
                assert(consistent(exists, s[k]));
            }
        }
        lemma_clean_kept(exists, p);
        let cmd = s.last();
        assert(!has_target(p, cmd.target())) by {
            if has_target(p, cmd.target()) {
                let k = choose|k: int| 0 <= k < p.len() && p[k].target() == cmd.target();
                assert(s[k].target() == s[s.len() - 1].target());
            }
        }
        assert(consistent(exists, s[s.len() - 1]));
        assert(p.push(cmd) =~= s);
    }
}

/// Optimizing an optimized list changes nothing.
pub proof fn lemma_optimize_idempotent(exists: Set<IVec3>, cmds: Seq<ChunkCmd>)
    requires
        optimized(exists, cmds) is Some,
    ensures
        optimized(exists, optimized(exists, cmds)->0) == optimized(exists, cmds),
{
    lemma_optimized_clean(exists, cmds);
    lemma_clean_kept(exists, optimized(exists, cmds)->0);
}

} // verus!
