use projekto::chunk;
use projekto::genesis::{self, BatchChunkCmdRes, ChunkCmd, WorldRes};
use projekto::math::IVec3;
use projekto::voxel::{self, Kind, Light};
use projekto::voxworld::{Chunk, VoxWorld};

#[test]
fn genesis_unload_chunk() {
    let local = (9111, -9222, 9333).into();
    let mut world = VoxWorld::new();

    world.add(local, Chunk::new());

    let dirty_chunks = genesis::unload_chunks(&mut world, &vec![local]);

    assert_eq!(dirty_chunks.len(), voxel::SIDE_COUNT);
    assert!(world.get(local).is_none(), "Chunk should be removed from world");
}

#[test]
fn task_unload_chunk() {
    let local = (9111, -9222, 9333).into();
    let mut world = VoxWorld::new();

    world.add(local, Chunk::new());

    let dirty_chunks = genesis::unload_chunks(&mut world, &vec![local]);

    assert_eq!(dirty_chunks.len(), voxel::SIDE_COUNT);
    assert!(world.get(local).is_none(), "Chunk should be removed from world");
}

#[test]
fn unload_chunks_shared_neighbors() {
    let mut world = VoxWorld::new();
    world.add((0, 0, 0).into(), Chunk::new());
    world.add((1, 0, 0).into(), Chunk::new());

    let dirty = genesis::unload_chunks(&mut world, &[(0, 0, 0).into(), (1, 0, 0).into(), (5, 5, 5).into()]);

    // Six positions around each removed chunk, none shared; the missing chunk adds none.
    assert_eq!(dirty.len(), 12);
    assert!(dirty.contains(&(1, 0, 0).into()));
    assert!(dirty.contains(&(0, 0, 0).into()));
    assert!(!dirty.contains(&(5, 5, 6).into()));
    assert!(world.list_chunks().is_empty());
}

#[test]
fn generate_chunk() {
    let heights: Vec<usize> = (0..256).map(|i| 4 + i % 7).collect();
    let chunk = genesis::generate_chunk(&heights);

    assert!(!chunk.kinds.is_default(), "Generate chunk should should not be default");

    // Column (0, 0) is 4 voxels high: stone, dirt, dirt, grass.
    assert_eq!(chunk.kinds.get((0, 0, 0).into()), Kind::id(3));
    assert_eq!(chunk.kinds.get((0, 1, 0).into()), Kind::id(1));
    assert_eq!(chunk.kinds.get((0, 2, 0).into()), Kind::id(1));
    assert_eq!(chunk.kinds.get((0, 3, 0).into()), Kind::id(2));
    assert_eq!(chunk.kinds.get((0, 4, 0).into()), Kind::none());
    assert_eq!(chunk.lights.get((3, chunk::Y_END, 9).into()), Light::natural(15));
    assert_eq!(chunk.lights.get((3, 0, 9).into()), Light::natural(0));
}

#[test]
fn generate_chunk_tall_column_is_cut() {
    let heights = vec![40usize; 256];
    let chunk = genesis::generate_chunk(&heights);
    assert_eq!(chunk.kinds.get((5, 15, 5).into()), Kind::id(2));
    assert_eq!(chunk.kinds.get((5, 12, 5).into()), Kind::id(3));
    assert_eq!(chunk.kinds.get((5, 13, 5).into()), Kind::id(1));
}

#[test]
fn batch_commands() {
    let mut batch = BatchChunkCmdRes::default();
    assert!(!batch.has_pending_commands());

    batch.load((0, 0, 0).into());
    batch.unload((1, 0, 0).into());
    batch.update((2, 0, 0).into(), vec![((1, 1, 1).into(), 3.into())]);
    assert!(batch.has_pending_commands());
    assert_eq!(batch.counts(), ((1, 1, 1), (0, 0, 0)));

    let running = batch.swap_and_clone();
    assert_eq!(
        running,
        vec![
            ChunkCmd::Load((0, 0, 0).into()),
            ChunkCmd::Unload((1, 0, 0).into()),
            ChunkCmd::Update((2, 0, 0).into(), vec![((1, 1, 1).into(), 3.into())]),
        ]
    );
    assert!(!batch.has_pending_commands());
    assert_eq!(batch.counts(), ((0, 0, 0), (1, 1, 1)));

    batch.finished();
    assert_eq!(batch.counts(), ((0, 0, 0), (0, 0, 0)));
}

#[test]
fn count_chunk_cmd() {
    let cmds = vec![
        ChunkCmd::Load((0, 0, 0).into()),
        ChunkCmd::Load((0, 1, 0).into()),
        ChunkCmd::Update((0, 0, 0).into(), vec![]),
    ];
    assert_eq!(BatchChunkCmdRes::count_chunk_cmd(&cmds), (2, 0, 1));
}

#[test]
fn world_res() {
    let mut res = WorldRes::new(None);
    assert!(!res.is_ready());
    let mut world = VoxWorld::new();
    world.add((3, 3, 3).into(), Chunk::new());
    res.set(world);
    assert!(res.is_ready());
    assert!(res.get().contains((3, 3, 3).into()));
    let world = res.take();
    assert!(!res.is_ready());
    assert!(world.contains((3, 3, 3).into()));
}

#[test]
fn split_commands() {
    let cmds = vec![
        ChunkCmd::Load((0, 0, 0).into()),
        ChunkCmd::Update((1, 0, 0).into(), vec![((0, 0, 0).into(), 1.into())]),
        ChunkCmd::Unload((2, 0, 0).into()),
        ChunkCmd::Load((3, 0, 0).into()),
    ];
    let (load, unload, update) = genesis::split_commands(cmds);
    assert_eq!(load, vec![IVec3::new(0, 0, 0), IVec3::new(3, 0, 0)]);
    assert_eq!(unload, vec![IVec3::new(2, 0, 0)]);
    assert_eq!(update, vec![((1, 0, 0).into(), vec![((0, 0, 0).into(), 1.into())])]);
}

#[test]
fn chunk_cmd_clone_and_local() {
    let cmd = ChunkCmd::Update((4, 5, 6).into(), vec![((1, 2, 3).into(), 9.into())]);
    assert_eq!(cmd.clone(), cmd);
    assert_eq!(cmd.local(), (4, 5, 6).into());
}

#[test]
fn update_voxel() {
    let mut world = VoxWorld::new();
    let local = (0, 0, 0).into();
    world.add(local, Chunk::new());

    let voxels: Vec<(IVec3, Kind)> = vec![
        ((0, 0, 0).into(), 1.into()),
        ((1, 1, 1).into(), 2.into()),
        ((0, chunk::AXIS_ENDING as i32, 5).into(), 3.into()),
    ];

    let dirty_chunks = genesis::update_voxel(&mut world, local, &voxels);

    let chunk = world.get(local).unwrap();

    assert_eq!(chunk.kinds.get((0, 0, 0).into()), 1.into());
    assert_eq!(chunk.kinds.get((1, 1, 1).into()), 2.into());
    assert_eq!(chunk.kinds.get((0, chunk::AXIS_ENDING as i32, 5).into()), 3.into());

    assert_eq!(
        dirty_chunks.len(),
        5,
        "Should have 5 dirty chunks = central, left, down, back and up chunk. Currently {:?}",
        dirty_chunks
    );
}

#[test]
fn update_voxel_missing_chunk() {
    let mut world = VoxWorld::new();
    let voxels: Vec<(IVec3, Kind)> = vec![((0, 0, 0).into(), 1.into())];
    assert!(genesis::update_voxel(&mut world, (0, 0, 0).into(), &voxels).is_empty());
    assert!(world.get((0, 0, 0).into()).is_none());
}

#[test]
fn unload_chunk_single() {
    let local: IVec3 = (9111, -9222, 9333).into();
    let mut world = VoxWorld::new();
    world.add(local, Chunk::new());

    let dirty_chunks = genesis::unload_chunk(&mut world, local);
    assert_eq!(dirty_chunks.len(), voxel::SIDE_COUNT);
    assert_eq!(dirty_chunks[0], local.plus(voxel::Side::Right.dir()));
    assert!(world.get(local).is_none(), "Chunk should be removed from world");
    assert!(genesis::unload_chunk(&mut world, local).is_empty());
}

#[test]
fn update_chunk() {
    let mut world = VoxWorld::new();
    assert!(
        !genesis::update_chunk(&mut world, (0, 0, 0).into()),
        "should return false when chunk doesn't exists"
    );

    world.add((0, 0, 0).into(), Chunk::new());
    world.add((0, 1, 0).into(), Chunk::new());

    assert!(
        genesis::update_chunk(&mut world, (0, 0, 0).into()),
        "should return true when chunk doesn't exists"
    );

    let chunk = world.get((0, 0, 0).into()).unwrap();
    assert!(
        chunk.kinds.neighborhood().get(voxel::Side::Up, (0, 0, 0).into()).is_some(),
        "Neighborhood should be updated on update_chunk call"
    );
}

#[test]
fn update_world_runs_one_batch_at_a_time() {
    let mut batch = BatchChunkCmdRes::default();
    let mut world_res = WorldRes::new(Some(VoxWorld::new()));

    // Nothing pending: nothing happens.
    assert!(matches!(genesis::update_world(&mut batch, &mut world_res, false, None), genesis::WorldUpdate::Idle));
    assert!(world_res.is_ready());

    batch.load((1, 0, 0).into());
    batch.unload((2, 0, 0).into());
    let (world, cmds) = match genesis::update_world(&mut batch, &mut world_res, false, None) {
        genesis::WorldUpdate::Dispatch(w, c) => (w, c),
        _ => panic!("the pending commands should be dispatched"),
    };
    assert_eq!(cmds, vec![ChunkCmd::Load((1, 0, 0).into()), ChunkCmd::Unload((2, 0, 0).into())]);
    assert!(!world_res.is_ready(), "the world is lent to the batch");
    assert!(!batch.has_pending_commands());

    // While the batch runs, new commands wait.
    batch.load((3, 0, 0).into());
    assert!(matches!(genesis::update_world(&mut batch, &mut world_res, true, None), genesis::WorldUpdate::Idle));
    assert!(!world_res.is_ready());

    match genesis::update_world(&mut batch, &mut world_res, true, Some((world, vec![(1, 0, 0).into()]))) {
        genesis::WorldUpdate::Finished(updated) => assert_eq!(updated, vec![IVec3::new(1, 0, 0)]),
        _ => panic!("the batch should finish"),
    }
    assert!(world_res.is_ready(), "the world is back");
    assert!(batch.has_pending_commands());
    assert_eq!(batch.counts().1, (0, 0, 0), "the running batch is cleared");
}
