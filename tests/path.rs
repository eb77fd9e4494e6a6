use space_splatter::chunk::Chunk;
use space_splatter::path::{at_goal, follow_path, heuristic, successors};
use space_splatter::point::Point;
use space_splatter::world::{TileEntity, World};

fn world(cells: &[(usize, usize, i16)], fill: i16, entities: Vec<TileEntity>) -> World {
    let mut c = Chunk { x: 0, y: 0, tiles: vec![fill; 256] };
    for &(x, y, v) in cells {
        c.tiles[x + y * 16] = v;
    }
    World::new(vec![c], Vec::new(), Vec::new(), Vec::new(), entities).unwrap()
}

fn tile_px(x: i16, y: i16) -> Point {
    Point::from_pixels(x * 16, y * 16)
}

#[test]
fn open_corridor_route() {
    let w = world(&[(0, 0, 0), (1, 0, 0), (2, 0, 0)], 1, Vec::new());
    let r = w.pathfind(tile_px(0, 0), tile_px(2, 0));
    assert_eq!(r, Some((vec![(0, 0), (1, 0), (2, 0)], 2)));
}

#[test]
fn route_to_own_tile() {
    let w = world(&[], 0, Vec::new());
    assert_eq!(w.pathfind(tile_px(4, 4), tile_px(4, 4)), Some((vec![(4, 4)], 0)));
}

#[test]
fn enclosed_goal_has_no_route() {
    let w = world(&[(4, 5, 1), (6, 5, 1), (5, 4, 1), (5, 6, 1)], 0, Vec::new());
    assert_eq!(w.pathfind(tile_px(1, 1), tile_px(5, 5)), None);
}

#[test]
fn entity_walls_enclose_too() {
    let e = |x, y| TileEntity { x, y, collision: true, enabled: true };
    let w = world(&[], 0, vec![e(4, 5), e(6, 5), e(5, 4), e(5, 6)]);
    assert_eq!(w.pathfind(tile_px(1, 1), tile_px(5, 5)), None);
}

#[test]
fn route_goes_around_a_wall() {
    let w = world(&[(1, 0, 1), (1, 1, 1)], 0, Vec::new());
    let (p, c) = w.pathfind(tile_px(0, 0), tile_px(2, 0)).unwrap();
    assert_eq!(c, 6);
    assert_eq!(p.len(), 7);
    assert_eq!(p[0], (0, 0));
    assert_eq!(p[6], (2, 0));
    for s in p.windows(2) {
        let d = (s[0].0 - s[1].0).abs() + (s[0].1 - s[1].1).abs();
        assert_eq!(d, 1);
    }
}

#[test]
fn repeated_searches_agree() {
    let w = world(&[(3, 3, 1), (3, 4, 1), (4, 2, 1)], 0, Vec::new());
    let a = w.pathfind(tile_px(1, 1), tile_px(7, 6));
    let b = w.pathfind(tile_px(1, 1), tile_px(7, 6));
    assert!(a.is_some());
    assert_eq!(a, b);
}

#[test]
fn search_stays_in_chunks_next_to_start() {
    let far = Chunk { x: 32, y: 0, tiles: vec![0; 256] };
    let mid = Chunk { x: 16, y: 0, tiles: vec![0; 256] };
    let near = Chunk { x: 0, y: 0, tiles: vec![0; 256] };
    let w = World::new(vec![near, mid, far], Vec::new(), Vec::new(), Vec::new(), Vec::new()).unwrap();
    assert!(w.pathfind(tile_px(2, 2), tile_px(17, 2)).is_none());
    let r = w.pathfind(tile_px(15, 2), tile_px(17, 2)).unwrap();
    assert_eq!(r.1, 2);
    assert!(w.pathfind(tile_px(15, 2), tile_px(33, 2)).is_none());
}

#[test]
fn heuristic_is_manhattan_over_three() {
    assert_eq!(heuristic((0, 0), (0, 0)), 0);
    assert_eq!(heuristic((0, 0), (2, 0)), 0);
    assert_eq!(heuristic((0, 0), (2, 1)), 1);
    assert_eq!(heuristic((-5, 3), (4, -7)), 6);
    assert_eq!(heuristic((i16::MIN, i16::MIN), (i16::MAX, i16::MAX)), 43690);
    assert!(at_goal((3, 4), (3, 4)));
    assert!(!at_goal((3, 4), (4, 3)));
}

#[test]
fn successors_respect_borders_and_walls() {
    let w = world(&[(1, 0, 1)], 0, Vec::new());
    let window = vec![(0, 0), (0, 0), (0, 0), (0, 0)];
    assert_eq!(successors(&w, &window, (0, 0)), vec![((0, 1), 1)]);
    assert_eq!(
        successors(&w, &window, (2, 1)),
        vec![((3, 1), 1), ((2, 2), 1), ((1, 1), 1), ((2, 0), 1)]
    );
    assert_eq!(successors(&w, &window, (0, 1)), vec![((1, 1), 1), ((0, 2), 1), ((0, 0), 1)]);
    assert_eq!(successors(&w, &window, (15, 15)), vec![((14, 15), 1), ((15, 14), 1)]);
}

#[test]
fn following_a_route_drops_reached_tiles() {
    let mut route = vec![(0, 0), (1, 0), (2, 0)];
    let t = follow_path(&mut route, Point::from_pixels(2, 0));
    assert_eq!(t, Some(Point::from_pixels(16, 0)));
    assert_eq!(route, vec![(0, 0), (1, 0), (2, 0)]);
    let t = follow_path(&mut route, Point::from_pixels(13, 1));
    assert_eq!(t, Some(Point::from_pixels(16, 0)));
    assert_eq!(route, vec![(1, 0), (2, 0)]);
    let t = follow_path(&mut route, Point::from_pixels(16, 0));
    assert_eq!(t, Some(Point::from_pixels(32, 0)));
    assert_eq!(route, vec![(1, 0), (2, 0)]);
    let mut last = vec![(2, 0)];
    assert_eq!(follow_path(&mut last, Point::from_pixels(32, 0)), None);
    assert_eq!(last, vec![(2, 0)]);
}

#[test]
fn chunks_outside_the_window_do_not_change_the_route() {
    let near = || Chunk { x: 0, y: 0, tiles: vec![0; 256] };
    let mut walled = Chunk { x: 48, y: 48, tiles: vec![1; 256] };
    walled.tiles[0] = 0;
    let a = World::new(vec![near()], Vec::new(), Vec::new(), Vec::new(), Vec::new()).unwrap();
    let b = World::new(vec![walled, near()], Vec::new(), Vec::new(), Vec::new(), Vec::new()).unwrap();
    let ra = a.pathfind(tile_px(3, 3), tile_px(9, 12));
    assert!(ra.is_some());
    assert_eq!(ra, b.pathfind(tile_px(3, 3), tile_px(9, 12)));
}
