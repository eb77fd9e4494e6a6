use space_splatter::map::{chunk_ok, get_all_chunks, get_layer, parse_chunk, parse_field, parse_i16, parse_map, MapError};
use space_splatter::point::Point;
use space_splatter::world::{get_tile, WorldError};

fn csv(special: &[(usize, i16)]) -> String {
    let mut vals = vec![0i16; 256];
    for &(i, v) in special {
        vals[i] = v;
    }
    let rows: Vec<String> = vals
        .chunks(16)
        .map(|r| r.iter().map(|v| v.to_string()).collect::<Vec<_>>().join(","))
        .collect();
    format!("\n{}\n", rows.join(",\n"))
}

fn chunk_text(x: i32, y: i32, special: &[(usize, i16)]) -> String {
    format!("<chunk x=\"{x}\" y=\"{y}\" width=\"16\" height=\"16\">{}</chunk>\n", csv(special))
}

fn layer_text(id: u32, name: &str, chunks: &[String]) -> String {
    format!(
        " <layer id=\"{id}\" name=\"{name}\" width=\"30\" height=\"20\">\n  <data encoding=\"csv\">\n{}  </data>\n </layer>\n",
        chunks.concat()
    )
}

fn map_text(collision: &[String], interactable: &[String]) -> String {
    format!(
        "<?xml version=\"1.0\" encoding=\"UTF-8\"?>\n<map version=\"1.10\" infinite=\"1\">\n{}{}{}{}</map>\n",
        layer_text(1, "Background", &[chunk_text(0, 0, &[(0, 3)])]),
        layer_text(2, "Collision", collision),
        layer_text(3, "Detail", &[]),
        layer_text(4, "Interactable", interactable),
    )
}

#[test]
fn numbers_read_like_i16() {
    let t = b"  -32768 , 32767,+12,007,-0, 32768,1a,,- ";
    assert_eq!(parse_i16(t, 2, 8), Some(-32768));
    assert_eq!(parse_field(t, 0, 9), Some(-32768));
    assert_eq!(parse_field(t, 10, 16), Some(32767));
    assert_eq!(parse_field(t, 17, 20), Some(12));
    assert_eq!(parse_field(t, 21, 24), Some(7));
    assert_eq!(parse_field(t, 25, 27), Some(0));
    assert_eq!(parse_field(t, 28, 34), None);
    assert_eq!(parse_field(t, 35, 37), None);
    assert_eq!(parse_field(t, 38, 38), None);
    assert_eq!(parse_field(t, 39, 41), None);
}

#[test]
fn chunk_header_and_tiles() {
    let t = chunk_text(-16, 32, &[(0, 5), (255, 9)]);
    let end = t.find("</chunk>").unwrap();
    assert!(!chunk_ok(t.as_bytes(), 0, t.len()));
    assert!(chunk_ok(t.as_bytes(), 0, end));
    let c = parse_chunk(t.as_bytes(), 0, end);
    assert_eq!((c.x, c.y), (-16, 32));
    assert_eq!(c.tiles.len(), 256);
    assert_eq!(c.tiles[0], 5);
    assert_eq!(c.tiles[255], 9);
    assert_eq!(c.tiles[1], 0);
}

#[test]
fn chunk_with_too_few_tiles_is_rejected() {
    let t = "<chunk x=\"0\" y=\"0\">1,2,3";
    assert!(!chunk_ok(t.as_bytes(), 0, t.len()));
    let t = "<chunk y=\"0\">1";
    assert!(!chunk_ok(t.as_bytes(), 0, t.len()));
}

#[test]
fn chunk_with_too_many_tiles_is_rejected() {
    let t = chunk_text(0, 0, &[]);
    let end = t.find("</chunk>").unwrap();
    let longer = format!("{},7\n", &t[..end - 1]);
    assert!(!chunk_ok(longer.as_bytes(), 0, longer.len()));
    let trailing = format!("{},", &t[..end - 1]);
    assert!(!chunk_ok(trailing.as_bytes(), 0, trailing.len()));
    assert!(chunk_ok(t.as_bytes(), 0, end));
}

#[test]
fn chunk_off_the_grid_is_rejected() {
    let t = chunk_text(16, -8, &[]);
    let end = t.find("</chunk>").unwrap();
    assert!(!chunk_ok(t.as_bytes(), 0, end));
    let t = chunk_text(-32, 48, &[]);
    let end = t.find("</chunk>").unwrap();
    assert!(chunk_ok(t.as_bytes(), 0, end));
}

#[test]
fn layer_body_and_its_chunks() {
    let text = map_text(&[chunk_text(0, 0, &[(17, 1)]), chunk_text(16, 0, &[])], &[]);
    let h = text.as_bytes();
    let (lo, hi) = get_layer(h, b"Collision").unwrap();
    assert!(text[lo..hi].contains("<chunk x=\"0\""));
    assert!(!text[lo..hi].contains("</layer>"));
    let chunks = get_all_chunks(h, lo, hi).unwrap();
    assert_eq!(chunks.len(), 2);
    assert_eq!((chunks[1].x, chunks[1].y), (16, 0));
    assert_eq!(chunks[0].tiles[17], 1);
    assert!(get_layer(h, b"Missing").is_none());
}

#[test]
fn whole_map_builds_a_world() {
    let text = map_text(
        &[chunk_text(0, 0, &[(1 + 2 * 16, 4)]), chunk_text(-16, 16, &[])],
        &[chunk_text(0, 0, &[(3 + 2 * 16, 17)])],
    );
    let w = parse_map(text.as_bytes()).unwrap();
    assert_eq!(w.collision.len(), 2);
    assert_eq!(w.details.len(), 0);
    assert_eq!(w.background.len(), 1);
    assert_eq!(get_tile(&w.collision, 1, 2), 4);
    assert_eq!(get_tile(&w.background, 0, 0), 3);
    assert_eq!((w.x_min, w.x_max, w.y_min, w.y_max), (-16, 0, 0, 16));
    assert_eq!(w.get_interactable_spawn(16), Some(Point::from_pixels(48, 32)));
    assert!(w.tile_entities.is_empty());
}

#[test]
fn map_errors() {
    let good = map_text(&[chunk_text(0, 0, &[])], &[]);
    let missing = good.replace("name=\"Detail\"", "name=\"Other\"");
    assert_eq!(parse_map(missing.as_bytes()).err(), Some(MapError::MissingLayer));
    let bad = good.replace("x=\"0\" y=\"0\" width=\"16\" height=\"16\">\n0,", "x=\"0\" y=\"0\" width=\"16\" height=\"16\">\nq,");
    assert_eq!(parse_map(bad.as_bytes()).err(), Some(MapError::BadChunk));
    let misaligned = map_text(&[chunk_text(8, 0, &[])], &[]);
    assert_eq!(parse_map(misaligned.as_bytes()).err(), Some(MapError::BadChunk));
    let dup = map_text(&[chunk_text(0, 0, &[]), chunk_text(0, 0, &[])], &[]);
    assert_eq!(parse_map(dup.as_bytes()).err(), Some(MapError::Invalid(WorldError::DuplicateOrigin)));
}
