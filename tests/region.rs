use space_splatter::chunk::Chunk;
use space_splatter::region::get_connected_spawners;

fn layer(cells: &[(usize, usize, i16)]) -> Vec<Chunk> {
    let mut c = Chunk { x: 0, y: 0, tiles: vec![0; 256] };
    for &(x, y, v) in cells {
        c.tiles[x + y * 16] = v;
    }
    vec![c]
}

#[test]
fn group_cycle_collects_each_neighbour_once() {
    let l = layer(&[
        (1, 1, 33),
        (2, 1, 33),
        (1, 2, 33),
        (2, 2, 33),
        (3, 1, 97),
        (0, 2, 98),
        (1, 3, 65),
        (2, 0, 97),
        (6, 6, 97),
    ]);
    let mut r = get_connected_spawners(&l, (1, 1));
    r.sort();
    assert_eq!(r, vec![((0, 2), 97), ((1, 3), 64), ((2, 0), 96), ((3, 1), 96)]);
}

#[test]
fn ring_of_group_tiles_terminates() {
    let mut cells = Vec::new();
    for i in 0..6 {
        cells.push((2 + i, 2, 33));
        cells.push((2 + i, 7, 33));
        cells.push((2, 2 + i, 33));
        cells.push((7, 2 + i, 33));
    }
    cells.push((4, 4, 100));
    cells.push((1, 2, 100));
    cells.push((8, 7, 101));
    let l = layer(&cells);
    let mut r = get_connected_spawners(&l, (2, 2));
    r.sort();
    assert_eq!(r, vec![((1, 2), 99), ((8, 7), 100)]);
    for i in 0..r.len() {
        for j in i + 1..r.len() {
            assert_ne!(r[i].0, r[j].0);
        }
    }
}

#[test]
fn spawners_do_not_extend_the_region() {
    let l = layer(&[(1, 1, 33), (2, 1, 97), (3, 1, 97), (4, 1, 33), (5, 1, 97)]);
    assert_eq!(get_connected_spawners(&l, (1, 1)), vec![((2, 1), 96)]);
}

#[test]
fn start_outside_any_group() {
    let l = layer(&[(5, 5, 97), (5, 6, 33), (5, 7, 98)]);
    let mut r = get_connected_spawners(&l, (4, 5));
    r.sort();
    assert_eq!(r, vec![((5, 5), 96)]);
    assert_eq!(get_connected_spawners(&l, (10, 10)), vec![]);
    let mut r = get_connected_spawners(&l, (5, 5));
    r.sort();
    assert_eq!(r, vec![((5, 5), 96), ((5, 7), 97)]);
}

#[test]
fn region_crosses_chunk_borders() {
    let mut a = Chunk { x: 0, y: 0, tiles: vec![0; 256] };
    let mut b = Chunk { x: -16, y: 0, tiles: vec![0; 256] };
    a.tiles[0] = 33;
    b.tiles[15] = 33;
    b.tiles[14] = 97;
    let r = get_connected_spawners(&[a, b], (0, 0));
    assert_eq!(r, vec![((-2, 0), 96)]);
}

#[test]
fn negative_ids_are_tiles_too() {
    let l = layer(&[(1, 1, 33), (2, 1, -5), (1, 2, -32768), (3, 1, 97)]);
    let mut r = get_connected_spawners(&l, (1, 1));
    r.sort();
    assert_eq!(r, vec![((1, 2), -32769), ((2, 1), -6)]);
}
