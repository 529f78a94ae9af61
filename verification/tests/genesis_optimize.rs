use projekto::genesis::{self, ChunkCmd};
use projekto::voxworld::{Chunk, VoxWorld};

#[test]
fn genesis_optimize_commands_preserve_insertion_order() {
    let cmds = (0..100)
        .into_iter()
        .map(|i| ChunkCmd::Load((i, i, i).into()))
        .collect::<Vec<_>>();

    let optimized = genesis::optimize_commands(&VoxWorld::new(), cmds.clone());

    assert_eq!(cmds, optimized);
}

#[test]
fn genesis_optimize_commands_rule_1() {
    let cmds = vec![
        ChunkCmd::Load((1, 1, 1).into()),
        ChunkCmd::Load((1, 2, 1).into()),
        ChunkCmd::Load((1, 1, 1).into()),
        ChunkCmd::Load((1, 1, 1).into()),
        ChunkCmd::Load((1, 2, 1).into()),
        ChunkCmd::Load((1, 1, 1).into()),
        ChunkCmd::Load((1, 3, 1).into()),
        ChunkCmd::Load((1, 2, 1).into()),
    ];
    let world = VoxWorld::new();

    let optimized = genesis::optimize_commands(&world, cmds.clone());

    assert_eq!(
        optimized,
        vec![
            ChunkCmd::Load((1, 1, 1).into()),
            ChunkCmd::Load((1, 2, 1).into()),
            ChunkCmd::Load((1, 3, 1).into()),
        ]
    );
}

#[test]
fn genesis_optimize_commands_rule_2() {
    let cmds = vec![
        ChunkCmd::Unload((1, 1, 1).into()),
        ChunkCmd::Load((1, 1, 1).into()),
    ];
    let mut world = VoxWorld::new();
    world.add((1, 1, 1).into(), Chunk::new());

    let optimized = genesis::optimize_commands(&world, cmds.clone());

    assert_eq!(optimized, Vec::<ChunkCmd>::new());
}

#[test]
fn genesis_optimize_commands_rule_3() {
    let cmds = vec![
        ChunkCmd::Load((1, 1, 1).into()),
        ChunkCmd::Unload((1, 1, 1).into()),
    ];
    let world = VoxWorld::new();

    let optimized = genesis::optimize_commands(&world, cmds.clone());

    assert_eq!(optimized, Vec::<ChunkCmd>::new());
}

#[test]
fn genesis_optimize_commands_rule_4() {
    let cmds = vec![ChunkCmd::Unload((1, 1, 1).into())];
    let world = VoxWorld::new();

    let optimized = genesis::optimize_commands(&world, cmds.clone());

    assert_eq!(optimized, Vec::<ChunkCmd>::new());
}

#[test]
fn genesis_optimize_commands_rule_5() {
    let cmds = vec![ChunkCmd::Load((1, 1, 1).into())];
    let mut world = VoxWorld::new();
    world.add((1, 1, 1).into(), Chunk::new());

    let optimized = genesis::optimize_commands(&world, cmds.clone());

    assert_eq!(optimized, Vec::<ChunkCmd>::new());
}

#[test]
fn genesis_optimize_commands_rule_6() {
    let cmds = vec![ChunkCmd::Update((1, 1, 1).into(), vec![])];
    let world = VoxWorld::new();

    let optimized = genesis::optimize_commands(&world, cmds.clone());

    assert_eq!(optimized, Vec::<ChunkCmd>::new());
}

#[test]
fn genesis_optimize_commands_rule_7() {
    let cmds = vec![
        ChunkCmd::Update((1, 1, 1).into(), vec![]),
        ChunkCmd::Unload((1, 1, 1).into()),
    ];
    let mut world = VoxWorld::new();
    world.add((1, 1, 1).into(), Chunk::new());

    let optimized = genesis::optimize_commands(&world, cmds.clone());

    assert_eq!(optimized, vec![ChunkCmd::Unload((1, 1, 1).into())]);
}

#[test]
fn genesis_optimize_commands_rule_9() {
    let cmds = vec![
        ChunkCmd::Unload((1, 1, 1).into()),
        ChunkCmd::Update((1, 1, 1).into(), vec![]),
    ];
    let mut world = VoxWorld::new();
    world.add((1, 1, 1).into(), Chunk::new());

    let optimized = genesis::optimize_commands(&world, cmds.clone());

    assert_eq!(optimized, vec![ChunkCmd::Unload((1, 1, 1).into())]);
}

#[test]
fn genesis_optimize_commands_all_rules() {
    let cmds = vec![
        ChunkCmd::Load((0, 0, 0).into()),
        ChunkCmd::Load((1, 1, 1).into()),   // Skipped by Rule 1
        ChunkCmd::Unload((1, 1, 1).into()), // Removed by Rule 2
        ChunkCmd::Load((1, 1, 1).into()),   // Skipped by Rule 2
        ChunkCmd::Update((1, 1, 1).into(), vec![]),
        ChunkCmd::Load((1, 2, 1).into()),   // Removed by Rule 3
        ChunkCmd::Unload((1, 2, 1).into()), // Skipped by Rule 3
        ChunkCmd::Unload((1, 2, 1).into()), // Skipped by rule 4
        ChunkCmd::Load((1, 3, 1).into()),   // Skipped by Rule 5
        ChunkCmd::Update((1, 4, 1).into(), vec![]), // Skipped by Rule 6
        ChunkCmd::Update((1, 5, 1).into(), vec![]), // Replaced by Rule 7
        ChunkCmd::Update((1, 5, 1).into(), vec![]), // Replaced by Rule 1
        ChunkCmd::Update((1, 5, 1).into(), vec![]), // Replaced by Rule 1
        ChunkCmd::Unload((1, 5, 1).into()),
        ChunkCmd::Unload((1, 6, 1).into()),
        ChunkCmd::Update((1, 6, 1).into(), vec![]), // Skipped by Rule 9
    ];

    let mut world = VoxWorld::new();
    world.add((1, 1, 1).into(), Chunk::new());
    world.add((1, 3, 1).into(), Chunk::new());
    world.add((1, 5, 1).into(), Chunk::new());
    world.add((1, 6, 1).into(), Chunk::new());

    let optimized = genesis::optimize_commands(&world, cmds.clone());

    assert_eq!(
        optimized,
        vec![
            ChunkCmd::Load((0, 0, 0).into()),
            ChunkCmd::Update((1, 1, 1).into(), vec![]),
            ChunkCmd::Unload((1, 5, 1).into()),
            ChunkCmd::Unload((1, 6, 1).into())
        ]
    );
}

#[test]
fn mod_optimize_commands_preserve_insertion_order() {
    let cmds = (0..100)
        .into_iter()
        .map(|i| ChunkCmd::Load((i, i, i).into()))
        .collect::<Vec<_>>();

    let optimized = genesis::optimize_commands(&VoxWorld::new(), cmds.clone());

    assert_eq!(cmds, optimized);
}

#[test]
fn mod_optimize_commands_rule_1() {
    let cmds = vec![
        ChunkCmd::Load((1, 1, 1).into()),
        ChunkCmd::Load((1, 2, 1).into()),
        ChunkCmd::Load((1, 1, 1).into()),
        ChunkCmd::Load((1, 1, 1).into()),
        ChunkCmd::Load((1, 2, 1).into()),
        ChunkCmd::Load((1, 1, 1).into()),
        ChunkCmd::Load((1, 3, 1).into()),
        ChunkCmd::Load((1, 2, 1).into()),
    ];
    let world = VoxWorld::new();

    let optimized = genesis::optimize_commands(&world, cmds.clone());

    assert_eq!(
        optimized,
        vec![
            ChunkCmd::Load((1, 1, 1).into()),
            ChunkCmd::Load((1, 2, 1).into()),
            ChunkCmd::Load((1, 3, 1).into()),
        ]
    );
}

#[test]
fn mod_optimize_commands_rule_2() {
    let cmds = vec![
        ChunkCmd::Unload((1, 1, 1).into()),
        ChunkCmd::Load((1, 1, 1).into()),
    ];
    let mut world = VoxWorld::new();
    world.add((1, 1, 1).into(), Chunk::new());

    let optimized = genesis::optimize_commands(&world, cmds.clone());

    assert_eq!(optimized, Vec::<ChunkCmd>::new());
}

#[test]
fn mod_optimize_commands_rule_3() {
    let cmds = vec![
        ChunkCmd::Load((1, 1, 1).into()),
        ChunkCmd::Unload((1, 1, 1).into()),
    ];
    let world = VoxWorld::new();

    let optimized = genesis::optimize_commands(&world, cmds.clone());

    assert_eq!(optimized, Vec::<ChunkCmd>::new());
}

#[test]
fn mod_optimize_commands_rule_4() {
    let cmds = vec![ChunkCmd::Unload((1, 1, 1).into())];
    let world = VoxWorld::new();

    let optimized = genesis::optimize_commands(&world, cmds.clone());

    assert_eq!(optimized, Vec::<ChunkCmd>::new());
}

#[test]
fn mod_optimize_commands_rule_5() {
    let cmds = vec![ChunkCmd::Load((1, 1, 1).into())];
    let mut world = VoxWorld::new();
    world.add((1, 1, 1).into(), Chunk::new());

    let optimized = genesis::optimize_commands(&world, cmds.clone());

    assert_eq!(optimized, Vec::<ChunkCmd>::new());
}

#[test]
fn mod_optimize_commands_rule_6() {
    let cmds = vec![ChunkCmd::Update((1, 1, 1).into(), vec![])];
    let world = VoxWorld::new();

    let optimized = genesis::optimize_commands(&world, cmds.clone());

    assert_eq!(optimized, Vec::<ChunkCmd>::new());
}

#[test]
fn mod_optimize_commands_rule_7() {
    let cmds = vec![
        ChunkCmd::Update((1, 1, 1).into(), vec![]),
        ChunkCmd::Unload((1, 1, 1).into()),
    ];
    let mut world = VoxWorld::new();
    world.add((1, 1, 1).into(), Chunk::new());

    let optimized = genesis::optimize_commands(&world, cmds.clone());

    assert_eq!(optimized, vec![ChunkCmd::Unload((1, 1, 1).into())]);
}

#[test]
fn mod_optimize_commands_rule_9() {
    let cmds = vec![
        ChunkCmd::Unload((1, 1, 1).into()),
        ChunkCmd::Update((1, 1, 1).into(), vec![]),
    ];
    let mut world = VoxWorld::new();
    world.add((1, 1, 1).into(), Chunk::new());

    let optimized = genesis::optimize_commands(&world, cmds.clone());

    assert_eq!(optimized, vec![ChunkCmd::Unload((1, 1, 1).into())]);
}

#[test]
fn mod_optimize_commands_all_rules() {
    let cmds = vec![
        ChunkCmd::Load((0, 0, 0).into()),
        ChunkCmd::Load((1, 1, 1).into()),   // Skipped by Rule 1
        ChunkCmd::Unload((1, 1, 1).into()), // Removed by Rule 2
        ChunkCmd::Load((1, 1, 1).into()),   // Skipped by Rule 2
        ChunkCmd::Update((1, 1, 1).into(), vec![]),
        ChunkCmd::Load((1, 2, 1).into()),   // Removed by Rule 3
        ChunkCmd::Unload((1, 2, 1).into()), // Skipped by Rule 3
        ChunkCmd::Unload((1, 2, 1).into()), // Skipped by rule 4
        ChunkCmd::Load((1, 3, 1).into()),   // Skipped by Rule 5
        ChunkCmd::Update((1, 4, 1).into(), vec![]), // Skipped by Rule 6
        ChunkCmd::Update((1, 5, 1).into(), vec![]), // Replaced by Rule 7
        ChunkCmd::Update((1, 5, 1).into(), vec![]), // Replaced by Rule 1
        ChunkCmd::Update((1, 5, 1).into(), vec![]), // Replaced by Rule 1
        ChunkCmd::Unload((1, 5, 1).into()),
        ChunkCmd::Unload((1, 6, 1).into()),
        ChunkCmd::Update((1, 6, 1).into(), vec![]), // Skipped by Rule 9
    ];

    let mut world = VoxWorld::new();
    world.add((1, 1, 1).into(), Chunk::new());
    world.add((1, 3, 1).into(), Chunk::new());
    world.add((1, 5, 1).into(), Chunk::new());
    world.add((1, 6, 1).into(), Chunk::new());

    let optimized = genesis::optimize_commands(&world, cmds.clone());

    assert_eq!(
        optimized,
        vec![
            ChunkCmd::Load((0, 0, 0).into()),
            ChunkCmd::Update((1, 1, 1).into(), vec![]),
            ChunkCmd::Unload((1, 5, 1).into()),
            ChunkCmd::Unload((1, 6, 1).into())
        ]
    );
}

#[test]
fn genesis_optimize_commands_twice_changes_nothing() {
    let mut world = VoxWorld::new();
    world.add((1, 1, 1).into(), Chunk::new());
    let cmds = vec![
        ChunkCmd::Load((2, 1, 1).into()),
        ChunkCmd::Unload((1, 1, 1).into()),
        ChunkCmd::Load((2, 1, 1).into()),
        ChunkCmd::Load((1, 1, 1).into()),
        ChunkCmd::Unload((3, 1, 1).into()),
        ChunkCmd::Load((4, 1, 1).into()),
    ];
    let once = genesis::optimize_commands(&world, cmds);
    let twice = genesis::optimize_commands(&world, once.clone());
    assert_eq!(once, twice);
    assert_eq!(once, vec![ChunkCmd::Load((2, 1, 1).into()), ChunkCmd::Load((4, 1, 1).into())]);
}
