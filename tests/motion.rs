use space_splatter::chunk::Chunk;
use space_splatter::motion::update_physicsbody;
use space_splatter::point::Point;
use space_splatter::world::{TileEntity, World};

const TILE: i32 = 4096;
const SECOND: u32 = 1_000_000;

fn world_with_solids(solids: &[(usize, usize)], entities: Vec<TileEntity>) -> World {
    let mut c = Chunk { x: 0, y: 0, tiles: vec![0; 256] };
    for &(x, y) in solids {
        c.tiles[x + y * 16] = 1;
    }
    World::new(vec![c], Vec::new(), Vec::new(), Vec::new(), entities).unwrap()
}

#[test]
fn free_motion_moves_by_velocity_times_time() {
    let w = world_with_solids(&[], Vec::new());
    let mut v = Point { x: 256 * 30, y: -256 * 10 };
    let p = update_physicsbody(Point::from_pixels(64, 64), &mut v, SECOND / 2, &w);
    assert_eq!(p, Point::from_pixels(79, 59));
    assert_eq!(v, Point { x: 256 * 30, y: -256 * 10 });
}

#[test]
fn travel_rounds_toward_zero() {
    let w = world_with_solids(&[], Vec::new());
    let mut v = Point { x: 3, y: -3 };
    let p = update_physicsbody(Point { x: 100_000, y: 100_000 }, &mut v, 500_000, &w);
    assert_eq!(p, Point { x: 100_001, y: 99_999 });
}

#[test]
fn falling_onto_a_solid_row_snaps_to_the_boundary() {
    let w = world_with_solids(&[(0, 2)], Vec::new());
    let mut v = Point { x: 0, y: TILE / 2 };
    let p = update_physicsbody(Point { x: 0, y: TILE }, &mut v, SECOND, &w);
    assert_eq!(p, Point { x: 0, y: TILE });
    assert_eq!(v, Point { x: 0, y: 0 });
}

#[test]
fn moving_down_from_between_rows_snaps_to_the_upper_boundary_of_travel() {
    let w = world_with_solids(&[(0, 3)], Vec::new());
    let mut v = Point { x: 0, y: TILE };
    let p = update_physicsbody(Point { x: 0, y: TILE + TILE / 2 }, &mut v, SECOND, &w);
    assert_eq!(p, Point { x: 0, y: 2 * TILE });
    assert_eq!(v.y, 0);
}

#[test]
fn moving_up_into_a_solid_snaps_to_the_floor_boundary() {
    let w = world_with_solids(&[(0, 0)], Vec::new());
    let mut v = Point { x: 0, y: -TILE };
    let p = update_physicsbody(Point { x: 0, y: TILE + TILE / 2 }, &mut v, SECOND, &w);
    assert_eq!(p, Point { x: 0, y: TILE });
    assert_eq!(v.y, 0);
}

#[test]
fn horizontal_wall_stops_only_x() {
    let w = world_with_solids(&[(3, 1)], Vec::new());
    let mut v = Point { x: TILE, y: 0 };
    let p = update_physicsbody(Point { x: TILE + TILE / 2, y: TILE }, &mut v, SECOND, &w);
    assert_eq!(p, Point { x: 2 * TILE, y: TILE });
    assert_eq!(v, Point { x: 0, y: 0 });
    let mut v = Point { x: TILE, y: TILE / 4 };
    let w = world_with_solids(&[(3, 1), (3, 2)], Vec::new());
    let p = update_physicsbody(Point { x: TILE + TILE / 2, y: TILE }, &mut v, SECOND, &w);
    assert_eq!(p, Point { x: 2 * TILE, y: TILE + TILE / 4 });
    assert_eq!(v, Point { x: 0, y: TILE / 4 });
}

#[test]
fn enabled_colliding_entity_blocks() {
    let door = TileEntity { x: 0, y: 2, collision: true, enabled: true };
    let w = world_with_solids(&[], vec![door]);
    let mut v = Point { x: 0, y: TILE };
    let p = update_physicsbody(Point { x: 0, y: TILE }, &mut v, SECOND, &w);
    assert_eq!(p, Point { x: 0, y: TILE });
    assert_eq!(v.y, 0);
}

#[test]
fn disabled_or_passable_entity_does_not_block() {
    for door in [
        TileEntity { x: 0, y: 2, collision: true, enabled: false },
        TileEntity { x: 0, y: 2, collision: false, enabled: true },
    ] {
        let w = world_with_solids(&[], vec![door]);
        let mut v = Point { x: 0, y: TILE };
        let p = update_physicsbody(Point { x: 0, y: TILE }, &mut v, SECOND, &w);
        assert_eq!(p, Point { x: 0, y: 2 * TILE });
        assert_eq!(v.y, TILE);
    }
}

#[test]
fn resting_body_stays_put() {
    let w = world_with_solids(&[(1, 2), (2, 1), (0, 1)], Vec::new());
    for pos in [Point::from_pixels(16, 16), Point::from_pixels(56, 40), Point::from_pixels(100, 100)] {
        let mut v = Point { x: 0, y: 0 };
        assert_eq!(update_physicsbody(pos, &mut v, SECOND / 60, &w), pos);
        assert_eq!(v, Point { x: 0, y: 0 });
    }
}

#[test]
fn resting_body_overlapping_a_wall_stays() {
    let w = world_with_solids(&[(2, 1)], Vec::new());
    let mut v = Point { x: 0, y: 0 };
    let p = update_physicsbody(Point::from_pixels(40, 8), &mut v, SECOND / 60, &w);
    assert_eq!(p, Point::from_pixels(40, 8));
    let w = world_with_solids(&[(0, 1)], Vec::new());
    let p = update_physicsbody(Point::from_pixels(0, 5), &mut v, SECOND / 60, &w);
    assert_eq!(p, Point::from_pixels(0, 5));
    assert_eq!(v, Point { x: 0, y: 0 });
}

#[test]
fn axis_at_rest_is_not_snapped() {
    let w = world_with_solids(&[(0, 1)], Vec::new());
    let mut v = Point { x: TILE, y: 0 };
    let p = update_physicsbody(Point::from_pixels(0, 5), &mut v, SECOND / 16, &w);
    assert_eq!(p, Point::from_pixels(0, 5));
    assert_eq!(v, Point { x: 0, y: 0 });
}

#[test]
fn very_fast_body_can_skip_a_thin_wall() {
    let w = world_with_solids(&[(0, 5)], Vec::new());
    let mut v = Point { x: 0, y: 4 * TILE * 60 };
    let p = update_physicsbody(Point { x: 0, y: 3 * TILE }, &mut v, SECOND / 60, &w);
    assert_eq!(p.y, 3 * TILE + 16383);
    assert!(p.y > 6 * TILE);
}

#[test]
fn fast_body_does_not_end_inside_the_wall_it_hit() {
    let w = world_with_solids(&[(0, 5)], Vec::new());
    let mut v = Point { x: 0, y: 2 * TILE * 60 };
    let p = update_physicsbody(Point { x: 0, y: 3 * TILE }, &mut v, SECOND / 60, &w);
    assert_eq!(p.y, 3 * TILE);
    assert!(p.y / TILE != 5 && (p.y + TILE - 1) / TILE != 5);
}

#[test]
fn probes_use_negative_rounding_away_from_zero() {
    let w = World::new(
        vec![{
            let mut c = Chunk { x: -16, y: -16, tiles: vec![0; 256] };
            c.tiles[15 + 14 * 16] = 1;
            c
        }],
        Vec::new(),
        Vec::new(),
        Vec::new(),
        Vec::new(),
    )
    .unwrap();
    let mut v = Point { x: 0, y: -TILE };
    let p = update_physicsbody(Point { x: -TILE / 2, y: -TILE / 2 }, &mut v, SECOND, &w);
    assert_eq!(p, Point { x: -TILE / 2, y: -TILE });
    assert_eq!(v.y, 0);
}

#[test]
fn capped_body_driven_into_walls_never_overlaps_them() {
    let w = world_with_solids(&[(5, 3), (5, 4), (2, 7), (3, 7), (4, 7)], Vec::new());
    let solid = |c: i32, r: i32| [(5, 3), (5, 4), (2, 7), (3, 7), (4, 7)].contains(&(c, r));
    let cells = |a: i32| {
        let f = a.div_euclid(TILE);
        if a.rem_euclid(TILE) == 0 { vec![f] } else { vec![f, f + 1] }
    };
    let mut pos = Point::from_pixels(40, 56);
    for tick in 0..600 {
        let mut v = Point { x: 35840, y: if tick % 2 == 0 { 35840 } else { 20000 } };
        pos = update_physicsbody(pos, &mut v, 16666, &w);
        for c in cells(pos.x) {
            for r in cells(pos.y) {
                assert!(!solid(c, r), "tick {tick}: overlapping ({c}, {r}) at {pos:?}");
            }
        }
    }
}
