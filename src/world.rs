use vstd::prelude::*;

use crate::chunk::{chunk_origin, origin_of, Chunk, CHUNK_TILES};
use crate::point::{Point, TILE_UNITS};

verus! {

/// Whether chunk `i` of `layer` has origin `(ox, oy)`.
pub open spec fn has_origin(layer: Seq<Chunk>, i: int, ox: int, oy: int) -> bool {
    layer[i].x == ox && layer[i].y == oy
}

/// Chunk `i` is the first chunk of `layer` with origin `(ox, oy)`.
pub open spec fn first_with_origin(layer: Seq<Chunk>, i: int, ox: int, oy: int) -> bool {
    &&& 0 <= i < layer.len()
    &&& has_origin(layer, i, ox, oy)
    &&& forall|j: int| 0 <= j < i ==> !has_origin(layer, j, ox, oy)
}

/// Whether some chunk of `layer` holds tile `(x, y)`.
pub open spec fn covered(layer: Seq<Chunk>, x: int, y: int) -> bool {
    exists|i: int| 0 <= i < layer.len() && has_origin(layer, i, chunk_origin(x), chunk_origin(y))
}

/// The tile id at world tile `(x, y)` in `layer`: read from the first chunk
/// whose origin is `(floor(x/16)*16, floor(y/16)*16)`, and `0` (empty,
/// passable) where no chunk holds the coordinate.
pub open spec fn layer_tile(layer: Seq<Chunk>, x: int, y: int) -> i16 {
    let ox = chunk_origin(x);
    let oy = chunk_origin(y);
    if exists|i: int| first_with_origin(layer, i, ox, oy) {
        let i = choose|i: int| first_with_origin(layer, i, ox, oy);
        match layer[i].tile_spec(x - ox, y - oy) {
            Some(t) => t,
            None => 0,
        }
    } else {
        0
    }
}

/// A layer: well-formed chunks with distinct origins.
pub open spec fn layer_wf(layer: Seq<Chunk>) -> bool {
    &&& forall|i: int| 0 <= i < layer.len() ==> (#[trigger] layer[i]).wf()
    &&& forall|i: int, j: int|
        0 <= i < layer.len() && 0 <= j < layer.len() && i != j ==> !has_origin(
            layer,
            j,
            layer[i].x as int,
            layer[i].y as int,
        )
}

pub proof fn lemma_first_unique(layer: Seq<Chunk>, i: int, j: int, ox: int, oy: int)
    requires
        first_with_origin(layer, i, ox, oy),
        first_with_origin(layer, j, ox, oy),
    ensures
        i == j,
{
    if i < j {
        assert(!has_origin(layer, i, ox, oy));
    } else if j < i {
        assert(!has_origin(layer, j, ox, oy));
    }
}

/// Index of the first chunk of `layer` with origin `(ox, oy)`, if any.
pub fn find_chunk(layer: &[Chunk], ox: i32, oy: i32) -> (r: Option<usize>)
    ensures
        r matches Some(i) ==> first_with_origin(layer@, i as int, ox as int, oy as int),
        r is None ==> forall|j: int| 0 <= j < layer@.len() ==> !has_origin(layer@, j, ox as int, oy as int),
{
    let mut i: usize = 0;
    while i < layer.len()
        invariant
            0 <= i <= layer@.len(),
            forall|j: int| 0 <= j < i ==> !has_origin(layer@, j, ox as int, oy as int),
        decreases layer@.len() - i,
    {
        if layer[i].x as i32 == ox && layer[i].y as i32 == oy {
            return Some(i);
        }
        i += 1;
    }
    None
}

/// The tile id at world tile `(x, y)` of a layer; `0` where no chunk holds it.
pub fn get_tile(chunks: &[Chunk], x: i32, y: i32) -> (r: i16)
    ensures
        r == layer_tile(chunks@, x as int, y as int),
        !covered(chunks@, x as int, y as int) ==> r == 0,
{
    let ox = origin_of(x);
    let oy = origin_of(y);
    match find_chunk(chunks, ox, oy) {
        Some(i) => {
            proof {
                let c = choose|c: int| first_with_origin(chunks@, c, ox as int, oy as int);
                lemma_first_unique(chunks@, i as int, c, ox as int, oy as int);
            }
            match chunks[i].tile_at((x - ox) as usize, (y - oy) as usize) {
                Some(t) => t,
                None => 0,
            }
        },
        None => {
            proof {
                if exists|c: int| first_with_origin(chunks@, c, ox as int, oy as int) {
                    let c = choose|c: int| first_with_origin(chunks@, c, ox as int, oy as int);
                    assert(!has_origin(chunks@, c, ox as int, oy as int));
                }
            }
            0
        },
    }
}

} // verus!

verus! {

/// A dynamic object bound to one tile (a door, a locker): it blocks movement
/// while both `collision` and `enabled` are set.
#[derive(Clone, Copy, Debug, PartialEq, Eq, Structural)]
pub struct TileEntity {
    pub x: i16,
    pub y: i16,
    pub collision: bool,
    pub enabled: bool,
}

/// Some entity at tile `(x, y)` currently blocks movement.
pub open spec fn entity_blocks(entities: Seq<TileEntity>, x: int, y: int) -> bool {
    exists|i: int|
        0 <= i < entities.len() && entities[i].x == x && entities[i].y == y && (
        #[trigger] entities[i]).collision && entities[i].enabled
}

/// No two entities share a tile.
pub open spec fn entities_distinct(entities: Seq<TileEntity>) -> bool {
    forall|i: int, j: int|
        0 <= i < entities.len() && 0 <= j < entities.len() && i != j ==> !(entities[i].x
            == entities[j].x && entities[i].y == entities[j].y)
}

/// Whether an entity at tile `(x, y)` currently blocks movement.
pub fn entity_blocks_at(entities: &[TileEntity], x: i32, y: i32) -> (r: bool)
    ensures
        r == entity_blocks(entities@, x as int, y as int),
{
    let mut i: usize = 0;
    while i < entities.len()
        invariant
            0 <= i <= entities@.len(),
            forall|j: int|
                0 <= j < i ==> !(entities@[j].x == x && entities@[j].y == y && (
                #[trigger] entities@[j]).collision && entities@[j].enabled),
        decreases entities@.len() - i,
    {
        let e = entities[i];
        if e.x as i32 == x && e.y as i32 == y && e.collision && e.enabled {
            return true;
        }
        i += 1;
    }
    false
}

/// Every chunk of `layer` holds exactly 256 tiles.
pub open spec fn tile_counts_ok(layer: Seq<Chunk>) -> bool {
    forall|i: int| 0 <= i < layer.len() ==> (#[trigger] layer[i]).tiles@.len() == CHUNK_TILES
}

/// Every chunk origin of `layer` lies on the chunk grid.
pub open spec fn origins_aligned(layer: Seq<Chunk>) -> bool {
    forall|i: int| 0 <= i < layer.len() ==> (#[trigger] layer[i]).x % 16 == 0 && layer[i].y % 16 == 0
}

/// No two chunks of `layer` share an origin.
pub open spec fn origins_distinct(layer: Seq<Chunk>) -> bool {
    forall|i: int, j: int|
        0 <= i < layer.len() && 0 <= j < layer.len() && i != j ==> !has_origin(
            layer,
            j,
            layer[i].x as int,
            layer[i].y as int,
        )
}

/// The extent of the chunk origins in `s`: each bound is attained by some
/// chunk, and with no chunk at all the bounds are `(i16::MAX, i16::MIN)`.
pub open spec fn bounds_of(s: Seq<Chunk>, x_min: int, x_max: int, y_min: int, y_max: int) -> bool {
    &&& forall|i: int|
        0 <= i < s.len() ==> x_min <= (#[trigger] s[i]).x <= x_max && y_min <= s[i].y <= y_max
    &&& s.len() == 0 ==> x_min == i16::MAX && y_min == i16::MAX && x_max == i16::MIN && y_max
        == i16::MIN
    &&& s.len() > 0 ==> (exists|i: int| 0 <= i < s.len() && s[i].x == x_min) && (exists|i: int|
        0 <= i < s.len() && s[i].x == x_max) && (exists|i: int| 0 <= i < s.len() && s[i].y == y_min)
        && (exists|i: int| 0 <= i < s.len() && s[i].y == y_max)
}

/// Why a set of layers cannot form a world.
#[derive(Clone, Copy, Debug, PartialEq, Eq, Structural)]
pub enum WorldError {
    /// A chunk does not hold exactly 256 tiles.
    WrongTileCount,
    /// A chunk origin is not a multiple of 16.
    MisalignedOrigin,
    /// Two chunks of one layer share an origin.
    DuplicateOrigin,
    /// Two tile entities share a tile.
    DuplicateEntity,
}

/// The tile world: four chunk layers, the tile entities, and the extent of
/// all chunk origins.
pub struct World {
    pub collision: Vec<Chunk>,
    pub details: Vec<Chunk>,
    pub background: Vec<Chunk>,
    pub interactable: Vec<Chunk>,
    pub tile_entities: Vec<TileEntity>,
    pub x_min: i16,
    pub x_max: i16,
    pub y_min: i16,
    pub y_max: i16,
}

impl World {
    /// All chunks of the four layers, in the order collision, details,
    /// background, interactable.
    pub open spec fn all_chunks(&self) -> Seq<Chunk> {
        self.collision@ + self.details@ + self.background@ + self.interactable@
    }

    pub open spec fn wf(&self) -> bool {
        &&& layer_wf(self.collision@)
        &&& layer_wf(self.details@)
        &&& layer_wf(self.background@)
        &&& layer_wf(self.interactable@)
        &&& entities_distinct(self.tile_entities@)
        &&& bounds_of(
            self.all_chunks(),
            self.x_min as int,
            self.x_max as int,
            self.y_min as int,
            self.y_max as int,
        )
    }

    /// Tile id of the collision layer at world tile `(x, y)`.
    pub open spec fn collision_tile(&self, x: int, y: int) -> i16 {
        layer_tile(self.collision@, x, y)
    }

    /// A solid collision tile, or an entity that blocks, stands at `(x, y)`.
    pub open spec fn blocked(&self, x: int, y: int) -> bool {
        self.collision_tile(x, y) != 0 || entity_blocks(self.tile_entities@, x, y)
    }

    /// Builds a world from its layers and entities, after checking them, in
    /// this order: tile counts, origin alignment, distinct origins per layer,
    /// distinct entity tiles. The extent of the chunk origins is derived here.
    pub fn new(
        collision: Vec<Chunk>,
        details: Vec<Chunk>,
        background: Vec<Chunk>,
        interactable: Vec<Chunk>,
        tile_entities: Vec<TileEntity>,
    ) -> (r: Result<World, WorldError>)
        ensures
            ({
                let counts = tile_counts_ok(collision@) && tile_counts_ok(details@)
                    && tile_counts_ok(background@) && tile_counts_ok(interactable@);
                let aligned = origins_aligned(collision@) && origins_aligned(details@)
                    && origins_aligned(background@) && origins_aligned(interactable@);
                let distinct = origins_distinct(collision@) && origins_distinct(details@)
                    && origins_distinct(background@) && origins_distinct(interactable@);
                let ents = entities_distinct(tile_entities@);
                &&& r == Err::<World, WorldError>(WorldError::WrongTileCount) <==> !counts
                &&& r == Err::<World, WorldError>(WorldError::MisalignedOrigin) <==> counts
                    && !aligned
                &&& r == Err::<World, WorldError>(WorldError::DuplicateOrigin) <==> counts
                    && aligned && !distinct
                &&& r == Err::<World, WorldError>(WorldError::DuplicateEntity) <==> counts
                    && aligned && distinct && !ents
                &&& r is Ok <==> counts && aligned && distinct && ents
            }),
            r matches Ok(w) ==> {
                &&& w.wf()
                &&& w.collision@ == collision@
                &&& w.details@ == details@
                &&& w.background@ == background@
                &&& w.interactable@ == interactable@
                &&& w.tile_entities@ == tile_entities@
            },
    {
        if !(check_tile_counts(&collision) && check_tile_counts(&details) && check_tile_counts(
            &background,
        ) && check_tile_counts(&interactable)) {
            return Err(WorldError::WrongTileCount);
        }
        if !(check_aligned(&collision) && check_aligned(&details) && check_aligned(&background)
            && check_aligned(&interactable)) {
            return Err(WorldError::MisalignedOrigin);
        }
        if !(check_distinct(&collision) && check_distinct(&details) && check_distinct(&background)
            && check_distinct(&interactable)) {
            return Err(WorldError::DuplicateOrigin);
        }
        if !check_entities(&tile_entities) {
            return Err(WorldError::DuplicateEntity);
        }
        let b0: (i16, i16, i16, i16) = (i16::MAX, i16::MIN, i16::MAX, i16::MIN);
        let b1 = scan_bounds(&collision, b0, Ghost(Seq::empty()));
        let b2 = scan_bounds(&details, b1, Ghost(collision@));
        let b3 = scan_bounds(&background, b2, Ghost(collision@ + details@));
        let b4 = scan_bounds(&interactable, b3, Ghost(collision@ + details@ + background@));
        proof {
            assert(Seq::<Chunk>::empty() + collision@ =~= collision@);
        }
        Ok(
            World {
                collision,
                details,
                background,
                interactable,
                tile_entities,
                x_min: b4.0,
                x_max: b4.1,
                y_min: b4.2,
                y_max: b4.3,
            },
        )
    }
}

fn check_tile_counts(layer: &Vec<Chunk>) -> (r: bool)
    ensures
        r == tile_counts_ok(layer@),
{
    let mut i: usize = 0;
    while i < layer.len()
        invariant
            0 <= i <= layer@.len(),
            forall|j: int| 0 <= j < i ==> (#[trigger] layer@[j]).tiles@.len() == CHUNK_TILES,
        decreases layer@.len() - i,
    {
        if layer[i].tiles.len() != CHUNK_TILES {
            return false;
        }
        i += 1;
    }
    true
}

fn check_aligned(layer: &Vec<Chunk>) -> (r: bool)
    ensures
        r == origins_aligned(layer@),
{
    let mut i: usize = 0;
    while i < layer.len()
        invariant
            0 <= i <= layer@.len(),
            forall|j: int| 0 <= j < i ==> (#[trigger] layer@[j]).x % 16 == 0 && layer@[j].y % 16 == 0,
        decreases layer@.len() - i,
    {
        if layer[i].x % 16 != 0 || layer[i].y % 16 != 0 {
            return false;
        }
        i += 1;
    }
    true
}

fn check_distinct(layer: &Vec<Chunk>) -> (r: bool)
    ensures
        r == origins_distinct(layer@),
{
    let mut i: usize = 0;
    while i < layer.len()
        invariant
            0 <= i <= layer@.len(),
            forall|a: int, b: int|
                0 <= a < i && 0 <= b < layer@.len() && a != b ==> !has_origin(
                    layer@,
                    b,
                    layer@[a].x as int,
                    layer@[a].y as int,
                ),
        decreases layer@.len() - i,
    {
        let mut j: usize = 0;
        while j < layer.len()
            invariant
                0 <= i < layer@.len(),
                0 <= j <= layer@.len(),
                forall|a: int, b: int|
                    0 <= a < i && 0 <= b < layer@.len() && a != b ==> !has_origin(
                        layer@,
                        b,
                        layer@[a].x as int,
                        layer@[a].y as int,
                    ),
                forall|b: int|
                    0 <= b < j && i != b ==> !has_origin(
                        layer@,
                        b,
                        layer@[i as int].x as int,
                        layer@[i as int].y as int,
                    ),
            decreases layer@.len() - j,
        {
            if i != j && layer[i].x == layer[j].x && layer[i].y == layer[j].y {
                assert(has_origin(layer@, j as int, layer@[i as int].x as int, layer@[i as int].y as int));
                return false;
            }
            j += 1;
        }
        i += 1;
    }
    true
}

fn check_entities(entities: &Vec<TileEntity>) -> (r: bool)
    ensures
        r == entities_distinct(entities@),
{
    let mut i: usize = 0;
    while i < entities.len()
        invariant
            0 <= i <= entities@.len(),
            forall|a: int, b: int|
                0 <= a < i && 0 <= b < entities@.len() && a != b ==> !(entities@[a].x
                    == entities@[b].x && entities@[a].y == entities@[b].y),
        decreases entities@.len() - i,
    {
        let mut j: usize = 0;
        while j < entities.len()
            invariant
                0 <= i < entities@.len(),
                0 <= j <= entities@.len(),
                forall|a: int, b: int|
                    0 <= a < i && 0 <= b < entities@.len() && a != b ==> !(entities@[a].x
                        == entities@[b].x && entities@[a].y == entities@[b].y),
                forall|b: int|
                    0 <= b < j && i != b ==> !(entities@[i as int].x == entities@[b].x
                        && entities@[i as int].y == entities@[b].y),
            decreases entities@.len() - j,
        {
            if i != j && entities[i].x == entities[j].x && entities[i].y == entities[j].y {
                return false;
            }
            j += 1;
        }
        i += 1;
    }
    true
}

/// Widens the bounds `b` (x_min, x_max, y_min, y_max) of the chunks `prev`
/// by the chunks of `layer`.
fn scan_bounds(layer: &Vec<Chunk>, b: (i16, i16, i16, i16), Ghost(prev): Ghost<Seq<Chunk>>) -> (r: (
    i16,
    i16,
    i16,
    i16,
))
    requires
        bounds_of(prev, b.0 as int, b.1 as int, b.2 as int, b.3 as int),
    ensures
        bounds_of(prev + layer@, r.0 as int, r.1 as int, r.2 as int, r.3 as int),
{
    let mut r = b;
    let mut i: usize = 0;
    while i < layer.len()
        invariant
            0 <= i <= layer@.len(),
            bounds_of(prev + layer@.subrange(0, i as int), r.0 as int, r.1 as int, r.2 as int, r.3 as int),
        decreases layer@.len() - i,
    {
        let ghost seen = prev + layer@.subrange(0, i as int);
        let ghost next = prev + layer@.subrange(0, i as int + 1);
        let c = &layer[i];
        let ghost old_r = r;
        if c.x < r.0 {
            r.0 = c.x;
        }
        if c.x > r.1 {
            r.1 = c.x;
        }
        if c.y < r.2 {
            r.2 = c.y;
        }
        if c.y > r.3 {
            r.3 = c.y;
        }
        proof {
            assert(next =~= seen.push(layer@[i as int]));
            let k = seen.len() as int;
            assert(next[k] == layer@[i as int]);
            assert forall|j: int| 0 <= j < seen.len() implies next[j] == seen[j] by {}
            if seen.len() == 0 {
                assert(next[0] == layer@[i as int]);
            } else {
                if r.0 != c.x {
                    let w = choose|w: int| 0 <= w < seen.len() && seen[w].x == old_r.0;
                    assert(next[w].x == r.0);
                }
                if r.1 != c.x {
                    let w = choose|w: int| 0 <= w < seen.len() && seen[w].x == old_r.1;
                    assert(next[w].x == r.1);
                }
                if r.2 != c.y {
                    let w = choose|w: int| 0 <= w < seen.len() && seen[w].y == old_r.2;
                    assert(next[w].y == r.2);
                }
                if r.3 != c.y {
                    let w = choose|w: int| 0 <= w < seen.len() && seen[w].y == old_r.3;
                    assert(next[w].y == r.3);
                }
            }
            assert forall|j: int| 0 <= j < next.len() implies r.0 <= (#[trigger] next[j]).x <= r.1
                && r.2 <= next[j].y <= r.3 by {
                if j < seen.len() {
                    assert(next[j] == seen[j]);
                }
            }
        }
        i += 1;
    }
    proof {
        assert(layer@.subrange(0, layer@.len() as int) =~= layer@);
    }
    r
}

} // verus!

verus! {

/// Two chunk sequences with the same origins, position by position.
pub open spec fn same_origins(s1: Seq<Chunk>, s2: Seq<Chunk>) -> bool {
    &&& s1.len() == s2.len()
    &&& forall|i: int| 0 <= i < s1.len() ==> (#[trigger] s1[i]).x == s2[i].x && s1[i].y == s2[i].y
}

proof fn lemma_bounds_same_origins(
    s1: Seq<Chunk>,
    s2: Seq<Chunk>,
    x_min: int,
    x_max: int,
    y_min: int,
    y_max: int,
)
    requires
        same_origins(s1, s2),
        bounds_of(s1, x_min, x_max, y_min, y_max),
    ensures
        bounds_of(s2, x_min, x_max, y_min, y_max),
{
    assert forall|i: int| 0 <= i < s2.len() implies x_min <= (#[trigger] s2[i]).x <= x_max && y_min
        <= s2[i].y <= y_max by {
        assert(s1[i].x == s2[i].x);
    }
    if s1.len() > 0 {
        let w = choose|w: int| 0 <= w < s1.len() && s1[w].x == x_min;
        assert(s1[w].x == s2[w].x);
        let w = choose|w: int| 0 <= w < s1.len() && s1[w].x == x_max;
        assert(s1[w].x == s2[w].x);
        let w = choose|w: int| 0 <= w < s1.len() && s1[w].y == y_min;
        assert(s1[w].x == s2[w].x);
        let w = choose|w: int| 0 <= w < s1.len() && s1[w].y == y_max;
        assert(s1[w].x == s2[w].x);
    }
}

/// Overwriting tile `(x, y)` in its chunk `i` changes the layer's tile at
/// `(x, y)` and nowhere else.
proof fn lemma_layer_tile_update(l1: Seq<Chunk>, l2: Seq<Chunk>, i: int, x: int, y: int, tile: i16)
    requires
        layer_wf(l1),
        first_with_origin(l1, i, chunk_origin(x), chunk_origin(y)),
        l2.len() == l1.len(),
        forall|j: int| 0 <= j < l1.len() && j != i ==> l2[j] == l1[j],
        l2[i].x == l1[i].x,
        l2[i].y == l1[i].y,
        l2[i].tiles@ == l1[i].tiles@.update((x - chunk_origin(x)) + 16 * (y - chunk_origin(y)), tile),
    ensures
        forall|a: int, b: int|
            #[trigger] layer_tile(l2, a, b) == if a == x && b == y {
                tile
            } else {
                layer_tile(l1, a, b)
            },
{
    assert forall|a: int, b: int|
        #[trigger] layer_tile(l2, a, b) == if a == x && b == y {
            tile
        } else {
            layer_tile(l1, a, b)
        } by {
        let oa = chunk_origin(a);
        let ob = chunk_origin(b);
        assert forall|j: int| 0 <= j < l1.len() implies has_origin(l1, j, oa, ob) == has_origin(
            l2,
            j,
            oa,
            ob,
        ) by {}
        if exists|k: int| first_with_origin(l1, k, oa, ob) {
            let k = choose|k: int| first_with_origin(l1, k, oa, ob);
            assert(first_with_origin(l2, k, oa, ob));
            let k2 = choose|k2: int| first_with_origin(l2, k2, oa, ob);
            lemma_first_unique(l2, k, k2, oa, ob);
            if k == i {
                assert(oa == chunk_origin(x) && ob == chunk_origin(y));
            } else {
                if a == x && b == y {
                    lemma_first_unique(l1, k, i, oa, ob);
                }
            }
        } else {
            if exists|k2: int| first_with_origin(l2, k2, oa, ob) {
                let k2 = choose|k2: int| first_with_origin(l2, k2, oa, ob);
                assert(first_with_origin(l1, k2, oa, ob));
            }
            if a == x && b == y {
                assert(first_with_origin(l1, i, oa, ob));
            }
        }
    }
}

impl World {
    /// Overwrites the collision tile at world tile `(x, y)`. The chunk that
    /// holds the tile must exist: layers are never extended.
    pub fn set_collision_tile(&mut self, x: i16, y: i16, tile: i16)
        requires
            old(self).wf(),
            covered(old(self).collision@, x as int, y as int),
        ensures
            final(self).wf(),
            same_origins(old(self).collision@, final(self).collision@),
            forall|a: int, b: int|
                #[trigger] final(self).collision_tile(a, b) == if a == x && b == y {
                    tile
                } else {
                    old(self).collision_tile(a, b)
                },
            final(self).details@ == old(self).details@,
            final(self).background@ == old(self).background@,
            final(self).interactable@ == old(self).interactable@,
            final(self).tile_entities@ == old(self).tile_entities@,
            final(self).x_min == old(self).x_min,
            final(self).x_max == old(self).x_max,
            final(self).y_min == old(self).y_min,
            final(self).y_max == old(self).y_max,
    {
        let ox = origin_of(x as i32);
        let oy = origin_of(y as i32);
        let i = match find_chunk(&self.collision, ox, oy) {
            Some(i) => i,
            None => {
                proof {
                    let w = choose|w: int|
                        0 <= w < self.collision@.len() && has_origin(
                            self.collision@,
                            w,
                            chunk_origin(x as int),
                            chunk_origin(y as int),
                        );
                }
                return ;
            },
        };
        let ghost l1 = self.collision@;
        let ghost all1 = self.all_chunks();
        let idx = ((x as i32 - ox) + (y as i32 - oy) * 16) as usize;
        let mut chunk = self.collision.remove(i);
        chunk.tiles.set(idx, tile);
        self.collision.insert(i, chunk);
        proof {
            let l2 = self.collision@;
            assert(l2[i as int].tiles@ == l1[i as int].tiles@.update(idx as int, tile));
            assert forall|j: int| 0 <= j < l1.len() && j != i implies l2[j] == l1[j] by {
                if j < i {
                } else {
                }
            }
            lemma_layer_tile_update(l1, l2, i as int, x as int, y as int, tile);
            assert forall|j: int| 0 <= j < l2.len() implies (#[trigger] l2[j]).wf() by {
                if j != i {
                    assert(l1[j].wf());
                }
            }
            assert forall|j: int, k: int|
                0 <= j < l2.len() && 0 <= k < l2.len() && j != k implies !has_origin(
                l2,
                k,
                l2[j].x as int,
                l2[j].y as int,
            ) by {
                assert(!has_origin(l1, k, l1[j].x as int, l1[j].y as int));
            }
            assert(same_origins(l1, l2));
            let all2 = self.all_chunks();
            assert forall|j: int| 0 <= j < all1.len() implies (#[trigger] all1[j]).x == all2[j].x
                && all1[j].y == all2[j].y by {
                if j < l1.len() {
                    assert(all1[j] == l1[j]);
                    assert(all2[j] == l2[j]);
                } else {
                    assert(all1[j] == all2[j]);
                }
            }
            lemma_bounds_same_origins(
                all1,
                all2,
                self.x_min as int,
                self.x_max as int,
                self.y_min as int,
                self.y_max as int,
            );
        }
    }
}

} // verus!

verus! {

/// Tile `t` of chunk `c` of `layer` holds id `v`.
pub open spec fn tile_is(layer: Seq<Chunk>, c: int, t: int, v: int) -> bool {
    0 <= c < layer.len() && 0 <= t < layer[c].tiles@.len() && layer[c].tiles@[t] == v
}

/// World position (fixed point) of the top-left corner of tile `t` of chunk `c`.
pub open spec fn slot_position(layer: Seq<Chunk>, c: int, t: int) -> Point {
    Point {
        x: ((t % 16 + layer[c].x) * 4096) as i32,
        y: ((t / 16 + layer[c].y) * 4096) as i32,
    }
}

impl World {
    /// Position of the first interactable tile (chunks in order, tiles row by
    /// row) whose id is `tile_index + 1`: the top-left corner of that tile.
    /// `None` when no such tile exists.
    pub fn get_interactable_spawn(&self, tile_index: i16) -> (r: Option<Point>)
        requires
            self.wf(),
        ensures
            r is None <==> !exists|c: int, t: int|
                #[trigger] tile_is(self.interactable@, c, t, tile_index + 1),
            r matches Some(p) ==> exists|c: int, t: int|
                {
                    &&& #[trigger] tile_is(self.interactable@, c, t, tile_index + 1)
                    &&& p == slot_position(self.interactable@, c, t)
                    &&& forall|c2: int, t2: int|
                        (c2 < c || (c2 == c && t2 < t)) ==> !#[trigger] tile_is(
                            self.interactable@,
                            c2,
                            t2,
                            tile_index + 1,
                        )
                },
    {
        let layer = &self.interactable;
        let want: i32 = tile_index as i32 + 1;
        let mut c: usize = 0;
        while c < layer.len()
            invariant
                self.wf(),
                layer == &self.interactable,
                want == tile_index + 1,
                0 <= c <= layer@.len(),
                forall|c2: int, t2: int| c2 < c ==> !#[trigger] tile_is(layer@, c2, t2, want as int),
            decreases layer@.len() - c,
        {
            let chunk = &layer[c];
            assert(chunk.wf());
            let mut t: usize = 0;
            while t < chunk.tiles.len()
                invariant
                    self.wf(),
                    layer == &self.interactable,
                    chunk == &layer@[c as int],
                    chunk.wf(),
                    want == tile_index + 1,
                    0 <= c < layer@.len(),
                    0 <= t <= chunk.tiles@.len(),
                    forall|c2: int, t2: int| c2 < c ==> !#[trigger] tile_is(layer@, c2, t2, want as int),
                    forall|t2: int| t2 < t ==> !#[trigger] tile_is(layer@, c as int, t2, want as int),
                decreases chunk.tiles@.len() - t,
            {
                if chunk.tiles[t] as i32 == want {
                    let tx: i32 = (t % 16) as i32 + chunk.x as i32;
                    let ty: i32 = (t / 16) as i32 + chunk.y as i32;
                    let p = Point { x: tx * TILE_UNITS, y: ty * TILE_UNITS };
                    proof {
                        assert(tile_is(layer@, c as int, t as int, want as int));
                        assert(p == slot_position(layer@, c as int, t as int));
                    }
                    return Some(p);
                }
                t += 1;
            }
            c += 1;
        }
        None
    }
}

} // verus!

verus! {

/// World tile coordinates of tile `t` of chunk `c`.
pub open spec fn slot_cell(layer: Seq<Chunk>, c: int, t: int) -> (int, int) {
    (t % 16 + layer[c].x, t / 16 + layer[c].y)
}

/// Some tile of `layer` with id `v` sits at world tile `p`.
pub open spec fn holds_id_at(layer: Seq<Chunk>, v: int, p: (int, int)) -> bool {
    exists|c: int, t: int| #[trigger] tile_is(layer, c, t, v) && slot_cell(layer, c, t) == p
}

/// A pair of coordinates as mathematical integers.
pub open spec fn cell_of(p: (i16, i16)) -> (int, int) {
    (p.0 as int, p.1 as int)
}

impl World {
    /// Tile coordinates of every interactable tile whose id is `marker + 1`,
    /// chunks in order and tiles row by row.
    pub fn marker_cells(&self, marker: i16) -> (r: Vec<(i16, i16)>)
        requires
            self.wf(),
        ensures
            forall|k: int|
                0 <= k < r@.len() ==> holds_id_at(self.interactable@, marker + 1, cell_of(#[trigger] r@[k])),
            forall|c: int, t: int|
                #[trigger] tile_is(self.interactable@, c, t, marker + 1) ==> exists|k: int|
                    0 <= k < r@.len() && slot_cell(self.interactable@, c, t) == cell_of(#[trigger] r@[k]),
    {
        let layer = &self.interactable;
        let want: i32 = marker as i32 + 1;
        let mut out: Vec<(i16, i16)> = Vec::new();
        let mut c: usize = 0;
        while c < layer.len()
            invariant
                self.wf(),
                layer == &self.interactable,
                want == marker + 1,
                0 <= c <= layer@.len(),
                forall|k: int|
                    0 <= k < out@.len() ==> holds_id_at(layer@, want as int, cell_of(#[trigger] out@[k])),
                forall|c2: int, t2: int|
                    c2 < c && #[trigger] tile_is(layer@, c2, t2, want as int) ==> exists|k: int|
                        0 <= k < out@.len() && slot_cell(layer@, c2, t2) == cell_of(#[trigger] out@[k]),
            decreases layer@.len() - c,
        {
            let chunk = &layer[c];
            assert(chunk.wf());
            let mut t: usize = 0;
            while t < chunk.tiles.len()
                invariant
                    self.wf(),
                    layer == &self.interactable,
                    chunk == &layer@[c as int],
                    chunk.wf(),
                    want == marker + 1,
                    0 <= c < layer@.len(),
                    0 <= t <= chunk.tiles@.len(),
                    forall|k: int|
                        0 <= k < out@.len() ==> holds_id_at(layer@, want as int, cell_of(#[trigger] out@[k])),
                    forall|c2: int, t2: int|
                        (c2 < c || (c2 == c && t2 < t)) && #[trigger] tile_is(layer@, c2, t2, want as int)
                            ==> exists|k: int|
                            0 <= k < out@.len() && slot_cell(layer@, c2, t2) == cell_of(#[trigger] out@[k]),
                decreases chunk.tiles@.len() - t,
            {
                if chunk.tiles[t] as i32 == want {
                    let tx: i32 = (t % 16) as i32 + chunk.x as i32;
                    let ty: i32 = (t / 16) as i32 + chunk.y as i32;
                    let ghost old_out = out@;
                    out.push((tx as i16, ty as i16));
                    proof {
                        assert(tile_is(layer@, c as int, t as int, want as int));
                        assert(slot_cell(layer@, c as int, t as int) == cell_of(out@[old_out.len() as int]));
                        assert forall|k: int| 0 <= k < out@.len() implies holds_id_at(
                            layer@,
                            want as int,
                            cell_of(#[trigger] out@[k]),
                        ) by {
                            if k < old_out.len() {
                                assert(out@[k] == old_out[k]);
                            }
                        }
                        assert forall|c2: int, t2: int|
                            (c2 < c || (c2 == c && t2 < t + 1)) && #[trigger] tile_is(
                                layer@,
                                c2,
                                t2,
                                want as int,
                            ) implies exists|k: int|
                                0 <= k < out@.len() && slot_cell(layer@, c2, t2) == cell_of(
                                    #[trigger] out@[k],
                                ) by {
                            if c2 == c && t2 == t {
                            } else {
                                let k = choose|k: int|
                                    0 <= k < old_out.len() && slot_cell(layer@, c2, t2) == cell_of(
                                        #[trigger] old_out[k],
                                    );
                                assert(out@[k] == old_out[k]);
                            }
                        }
                    }
                }
                t += 1;
            }
            c += 1;
        }
        out
    }
}

} // verus!

verus! {

/// Every chunk of a well-formed world sits on the chunk grid (its origin
/// coordinates are multiples of 16) and holds exactly 256 tiles, in each of
/// the four layers.
pub proof fn lemma_world_chunks_complete(w: World)
    requires
        w.wf(),
    ensures
        forall|i: int| 0 <= i < w.all_chunks().len() ==> {
            &&& (#[trigger] w.all_chunks()[i]).x % 16 == 0
            &&& w.all_chunks()[i].y % 16 == 0
            &&& w.all_chunks()[i].tiles@.len() == 256
        },
{
    let a = w.collision@;
    let b = w.details@;
    let c = w.background@;
    let d = w.interactable@;
    assert forall|i: int| 0 <= i < w.all_chunks().len() implies {
        &&& (#[trigger] w.all_chunks()[i]).x % 16 == 0
        &&& w.all_chunks()[i].y % 16 == 0
        &&& w.all_chunks()[i].tiles@.len() == 256
    } by {
        let s = w.all_chunks();
        if i < a.len() {
            assert(s[i] == a[i] && a[i].wf());
        } else if i < a.len() + b.len() {
            assert(s[i] == b[i - a.len()] && b[i - a.len()].wf());
        } else if i < a.len() + b.len() + c.len() {
            assert(s[i] == c[i - a.len() - b.len()] && c[i - a.len() - b.len()].wf());
        } else {
            assert(s[i] == d[i - a.len() - b.len() - c.len()] && d[i - a.len() - b.len()
                - c.len()].wf());
        }
    }
}

} // verus!
