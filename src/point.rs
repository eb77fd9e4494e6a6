use vstd::prelude::*;

verus! {

/// Fixed-point subdivisions of one pixel.
pub const SUBPIXELS: i32 = 256;

/// Fixed-point units along one side of a tile (`16 * 256`).
pub const TILE_UNITS: i32 = 4096;

/// Largest magnitude of a position coordinate, in fixed-point units: the
/// edge of tile 32767, so that every tile coordinate derived from a position
/// fits an `i16`.
pub const MAX_COORD: i32 = 134213632;

/// A position or a velocity in world space, in fixed-point units of 1/256
/// pixel (velocities: units per second).
#[derive(Clone, Copy, Debug, PartialEq, Eq, Structural)]
pub struct Point {
    pub x: i32,
    pub y: i32,
}

/// Both coordinates lie within `MAX_COORD` of the origin.
pub open spec fn in_range(p: Point) -> bool {
    &&& -MAX_COORD <= p.x <= MAX_COORD
    &&& -MAX_COORD <= p.y <= MAX_COORD
}

/// `floor(a / tile)`: the tile row or column that holds fixed-point coordinate `a`.
pub open spec fn floor_tile(a: int) -> int {
    a / 4096
}

/// `ceil(a / tile)`.
pub open spec fn ceil_tile(a: int) -> int {
    -((-a) / 4096)
}

/// `a / tile` rounded toward zero.
pub open spec fn trunc_tile(a: int) -> int {
    if a >= 0 {
        floor_tile(a)
    } else {
        ceil_tile(a)
    }
}

/// `a / tile` rounded away from zero.
pub open spec fn away_tile(a: int) -> int {
    if a >= 0 {
        ceil_tile(a)
    } else {
        floor_tile(a)
    }
}

impl Point {
    /// The point at whole pixel coordinates `(x, y)`.
    pub fn from_pixels(x: i16, y: i16) -> (r: Point)
        ensures
            r.x == x * 256,
            r.y == y * 256,
    {
        Point { x: x as i32 * SUBPIXELS, y: y as i32 * SUBPIXELS }
    }
}

/// `floor(a / tile)` on machine integers.
pub fn floor_tile_of(a: i32) -> (r: i32)
    requires
        -MAX_COORD <= a <= MAX_COORD,
    ensures
        r == floor_tile(a as int),
        -32767 <= r <= 32767,
{
    if a >= 0 {
        a / TILE_UNITS
    } else {
        let m: i32 = -1 - a;
        -1 - m / TILE_UNITS
    }
}

/// `ceil(a / tile)` on machine integers.
pub fn ceil_tile_of(a: i32) -> (r: i32)
    requires
        -MAX_COORD <= a <= MAX_COORD,
    ensures
        r == ceil_tile(a as int),
        -32767 <= r <= 32767,
{
    -floor_tile_of(-a)
}

/// `a / tile` rounded toward zero, on machine integers.
pub fn trunc_tile_of(a: i32) -> (r: i32)
    requires
        -MAX_COORD <= a <= MAX_COORD,
    ensures
        r == trunc_tile(a as int),
        -32767 <= r <= 32767,
{
    if a >= 0 {
        floor_tile_of(a)
    } else {
        ceil_tile_of(a)
    }
}

/// `a / tile` rounded away from zero, on machine integers.
pub fn away_tile_of(a: i32) -> (r: i32)
    requires
        -MAX_COORD <= a <= MAX_COORD,
    ensures
        r == away_tile(a as int),
        -32767 <= r <= 32767,
{
    if a >= 0 {
        ceil_tile_of(a)
    } else {
        floor_tile_of(a)
    }
}

} // verus!
