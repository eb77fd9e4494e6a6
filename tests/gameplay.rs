use space_splatter::anim::frame_at;
use space_splatter::chunk::Chunk;
use space_splatter::trigger::{on_group_marker, spawner_triggers, Trigger};
use space_splatter::world::{TileEntity, World};

#[test]
fn frame_at_loops_over_durations() {
    let d = [100, 50, 200];
    assert_eq!(frame_at(&d, 0), Some(0));
    assert_eq!(frame_at(&d, 99), Some(0));
    assert_eq!(frame_at(&d, 100), Some(1));
    assert_eq!(frame_at(&d, 149), Some(1));
    assert_eq!(frame_at(&d, 150), Some(2));
    assert_eq!(frame_at(&d, 349), Some(2));
    assert_eq!(frame_at(&d, 350), Some(0));
    assert_eq!(frame_at(&d, 350 * 7 + 120), Some(1));
    assert_eq!(frame_at(&[0, 0, 40], 5), Some(2));
}

#[test]
fn frame_at_without_length() {
    assert_eq!(frame_at(&[], 10), None);
    assert_eq!(frame_at(&[0, 0], 10), None);
}

#[test]
fn triggers_skip_spawned_and_gate_doors() {
    let found = vec![((1, 1), 96), ((2, 1), 64), ((3, 1), 110), ((4, 1), 97)];
    let spawned = vec![(4, 1)];
    assert_eq!(
        spawner_triggers(&found, &spawned, true),
        Ok(vec![
            Trigger::SpawnEnemy { x: 1, y: 1, kind: 0 },
            Trigger::OpenDoor { x: 2, y: 1 },
            Trigger::SpawnEnemy { x: 3, y: 1, kind: 14 },
        ])
    );
    assert_eq!(
        spawner_triggers(&found, &spawned, false),
        Ok(vec![
            Trigger::SpawnEnemy { x: 1, y: 1, kind: 0 },
            Trigger::SpawnEnemy { x: 3, y: 1, kind: 14 },
        ])
    );
}

#[test]
fn unknown_wired_value_is_reported() {
    let found = vec![((1, 1), 96), ((2, 2), 111), ((3, 3), 5)];
    assert_eq!(spawner_triggers(&found, &vec![], true), Err(((2, 2), 111)));
    assert_eq!(spawner_triggers(&found, &vec![(2, 2)], true), Err(((3, 3), 5)));
}

#[test]
fn group_marker_detection() {
    let mut c = Chunk { x: 0, y: 0, tiles: vec![0; 256] };
    c.tiles[5] = 33;
    c.tiles[6] = 32;
    let layer = vec![c];
    assert!(on_group_marker(&layer, 5, 0));
    assert!(!on_group_marker(&layer, 6, 0));
    assert!(!on_group_marker(&layer, 7, 0));
    assert!(!on_group_marker(&layer, -5, 0));
}

#[test]
fn door_removal_keeps_other_entities() {
    let e = |x, y| TileEntity { x, y, collision: true, enabled: true };
    let mut w = World::new(Vec::new(), Vec::new(), Vec::new(), Vec::new(), vec![e(1, 1), e(2, 2), e(3, 3)]).unwrap();
    w.remove_tile_entity(2, 2);
    assert_eq!(w.tile_entities, vec![e(1, 1), e(3, 3)]);
    w.remove_tile_entity(9, 9);
    assert_eq!(w.tile_entities, vec![e(1, 1), e(3, 3)]);
}

#[test]
fn negative_wired_value_is_reported() {
    assert_eq!(spawner_triggers(&vec![((2, 1), -6)], &vec![], true), Err(((2, 1), -6)));
}
