use vstd::prelude::*;

verus! {

/// Number of tiles that a chunk holds.
pub const CHUNK_TILES: usize = 256;

/// Origin (lowest tile coordinate) of the chunk that holds tile coordinate `c`,
/// along one axis: `floor(c / 16) * 16`.
pub open spec fn chunk_origin(c: int) -> int {
    (c / 16) * 16
}

/// A 16x16 block of tile ids, addressed by its origin, stored row by row.
pub struct Chunk {
    pub x: i16,
    pub y: i16,
    pub tiles: Vec<i16>,
}

impl Chunk {
    /// The origin lies on the chunk grid and the block is complete.
    pub open spec fn wf(&self) -> bool {
        &&& self.x % 16 == 0
        &&& self.y % 16 == 0
        &&& self.tiles@.len() == CHUNK_TILES
    }

    /// Tile at chunk-local coordinates, if they lie inside the chunk.
    pub open spec fn tile_spec(&self, lx: int, ly: int) -> Option<i16> {
        if 0 <= lx < 16 && 0 <= ly < 16 && lx + 16 * ly < self.tiles@.len() {
            Some(self.tiles@[lx + 16 * ly])
        } else {
            None
        }
    }

    /// Tile at chunk-local coordinates; `None` outside the chunk.
    pub fn tile_at(&self, x: usize, y: usize) -> (r: Option<i16>)
        ensures
            r == self.tile_spec(x as int, y as int),
            self.wf() ==> (r is Some <==> (x < 16 && y < 16)),
    {
        if x >= 16 || y >= 16 {
            return None;
        }
        let i = x + y * 16;
        if i < self.tiles.len() {
            Some(self.tiles[i])
        } else {
            None
        }
    }
}

/// Exact `floor(c / 16) * 16` on machine integers.
pub fn origin_of(c: i32) -> (r: i32)
    ensures
        r == chunk_origin(c as int),
        r <= c < r + 16,
        r % 16 == 0,
{
    if c >= 0 {
        c / 16 * 16
    } else {
        let m: i32 = -1 - c;
        -1 - m / 16 * 16 - 15
    }
}

} // verus!
