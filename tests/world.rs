use space_splatter::chunk::Chunk;
use space_splatter::point::Point;
use space_splatter::world::{get_tile, TileEntity, World, WorldError};

fn chunk(x: i16, y: i16) -> Chunk {
    Chunk { x, y, tiles: vec![0; 256] }
}

fn chunk_with(x: i16, y: i16, cells: &[(usize, usize, i16)]) -> Chunk {
    let mut c = chunk(x, y);
    for &(lx, ly, v) in cells {
        c.tiles[lx + ly * 16] = v;
    }
    c
}

fn world_of(collision: Vec<Chunk>, interactable: Vec<Chunk>) -> World {
    World::new(collision, Vec::new(), Vec::new(), interactable, Vec::new()).unwrap()
}

#[test]
fn tile_at_inside_and_outside() {
    let c = chunk_with(0, 0, &[(3, 2, 7), (15, 15, 9)]);
    assert_eq!(c.tile_at(3, 2), Some(7));
    assert_eq!(c.tile_at(15, 15), Some(9));
    assert_eq!(c.tile_at(0, 0), Some(0));
    assert_eq!(c.tile_at(16, 0), None);
    assert_eq!(c.tile_at(0, 16), None);
    assert_eq!(c.tile_at(17, 3), None);
}

#[test]
fn lookup_outside_every_chunk_is_empty() {
    let layer = vec![chunk_with(0, 0, &[(0, 0, 5)]), chunk_with(16, 0, &[(0, 0, 6)])];
    assert_eq!(get_tile(&layer, 0, 0), 5);
    assert_eq!(get_tile(&layer, 16, 0), 6);
    assert_eq!(get_tile(&layer, -1, 0), 0);
    assert_eq!(get_tile(&layer, 0, 16), 0);
    assert_eq!(get_tile(&layer, 40, 3), 0);
    assert_eq!(get_tile(&layer, -1000, -1000), 0);
    assert_eq!(get_tile(&[], 3, 3), 0);
}

#[test]
fn lookup_with_negative_coordinates() {
    let layer = vec![chunk_with(-16, -16, &[(15, 15, 4), (0, 0, 3)])];
    assert_eq!(get_tile(&layer, -1, -1), 4);
    assert_eq!(get_tile(&layer, -16, -16), 3);
    assert_eq!(get_tile(&layer, -17, -1), 0);
    assert_eq!(get_tile(&layer, 0, -1), 0);
}

#[test]
fn world_bounds_span_all_layers() {
    let w = World::new(
        vec![chunk(0, 0), chunk(32, -16)],
        vec![chunk(-48, 0)],
        Vec::new(),
        vec![chunk(16, 64)],
        Vec::new(),
    )
    .unwrap();
    assert_eq!((w.x_min, w.x_max, w.y_min, w.y_max), (-48, 32, -16, 64));
}

#[test]
fn empty_world_bounds() {
    let w = World::new(Vec::new(), Vec::new(), Vec::new(), Vec::new(), Vec::new()).unwrap();
    assert_eq!((w.x_min, w.x_max, w.y_min, w.y_max), (i16::MAX, i16::MIN, i16::MAX, i16::MIN));
}

#[test]
fn world_rejects_short_chunk() {
    let bad = Chunk { x: 0, y: 0, tiles: vec![0; 255] };
    let r = World::new(Vec::new(), vec![bad], Vec::new(), Vec::new(), Vec::new());
    assert_eq!(r.err(), Some(WorldError::WrongTileCount));
}

#[test]
fn world_rejects_misaligned_origin() {
    let r = World::new(vec![chunk(8, 0)], Vec::new(), Vec::new(), Vec::new(), Vec::new());
    assert_eq!(r.err(), Some(WorldError::MisalignedOrigin));
    let r = World::new(Vec::new(), Vec::new(), vec![chunk(0, -4)], Vec::new(), Vec::new());
    assert_eq!(r.err(), Some(WorldError::MisalignedOrigin));
}

#[test]
fn world_rejects_duplicate_origin() {
    let r = World::new(vec![chunk(16, 16), chunk(16, 16)], Vec::new(), Vec::new(), Vec::new(), Vec::new());
    assert_eq!(r.err(), Some(WorldError::DuplicateOrigin));
}

#[test]
fn same_origin_in_two_layers_is_fine() {
    let r = World::new(vec![chunk(16, 16)], vec![chunk(16, 16)], Vec::new(), Vec::new(), Vec::new());
    assert!(r.is_ok());
}

#[test]
fn world_rejects_duplicate_entity() {
    let e = TileEntity { x: 1, y: 1, collision: true, enabled: true };
    let r = World::new(Vec::new(), Vec::new(), Vec::new(), Vec::new(), vec![e, e]);
    assert_eq!(r.err(), Some(WorldError::DuplicateEntity));
}

#[test]
fn built_world_chunks_are_aligned_and_complete() {
    let w = world_of(vec![chunk(-32, 48), chunk(0, 0)], vec![chunk(16, 16)]);
    for c in w.collision.iter().chain(w.interactable.iter()) {
        assert_eq!(c.x % 16, 0);
        assert_eq!(c.y % 16, 0);
        assert_eq!(c.tiles.len(), 256);
    }
}

#[test]
fn set_collision_tile_changes_one_tile() {
    let mut w = world_of(vec![chunk(0, 0), chunk(-16, 0)], Vec::new());
    w.set_collision_tile(-3, 5, 12);
    assert_eq!(get_tile(&w.collision, -3, 5), 12);
    assert_eq!(get_tile(&w.collision, -4, 5), 0);
    assert_eq!(get_tile(&w.collision, 3, 5), 0);
    w.set_collision_tile(-3, 5, 0);
    assert_eq!(get_tile(&w.collision, -3, 5), 0);
}

#[test]
fn named_spawn_at_tile_three_two() {
    let marker: i16 = 16;
    let w = world_of(Vec::new(), vec![chunk_with(0, 0, &[(3, 2, marker + 1)])]);
    assert_eq!(w.get_interactable_spawn(marker), Some(Point::from_pixels(48, 32)));
    assert_eq!(Point::from_pixels(48, 32), Point { x: 48 * 256, y: 32 * 256 });
}

#[test]
fn named_spawn_absent() {
    let w = world_of(Vec::new(), vec![chunk_with(0, 0, &[(3, 2, 5)])]);
    assert_eq!(w.get_interactable_spawn(7), None);
    assert_eq!(w.get_interactable_spawn(i16::MAX), None);
}

#[test]
fn named_spawn_takes_first_in_scan_order() {
    let w = world_of(
        Vec::new(),
        vec![chunk_with(16, 0, &[(1, 0, 129)]), chunk_with(0, 0, &[(0, 0, 129)])],
    );
    assert_eq!(w.get_interactable_spawn(128), Some(Point::from_pixels(17 * 16, 0)));
    let w = world_of(Vec::new(), vec![chunk_with(0, 0, &[(5, 1, 129), (2, 3, 129)])]);
    assert_eq!(w.get_interactable_spawn(128), Some(Point::from_pixels(5 * 16, 16)));
}

#[test]
fn named_spawn_in_negative_chunk() {
    let w = world_of(Vec::new(), vec![chunk_with(-16, -16, &[(15, 14, 3)])]);
    assert_eq!(w.get_interactable_spawn(2), Some(Point::from_pixels(-16, -32)));
}

#[test]
fn marker_cells_lists_every_match() {
    let w = world_of(
        Vec::new(),
        vec![chunk_with(0, 0, &[(1, 2, 65), (3, 0, 65), (4, 4, 64)]), chunk_with(-16, 16, &[(15, 0, 65)])],
    );
    assert_eq!(w.marker_cells(64), vec![(3, 0), (1, 2), (-1, 16)]);
    assert_eq!(w.marker_cells(63), vec![(4, 4)]);
    assert_eq!(w.marker_cells(5), vec![]);
}
