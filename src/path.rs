use vstd::prelude::*;

use crate::chunk::{chunk_origin, origin_of, Chunk};
use crate::map::ChunkModel;
use crate::motion::blocked_at;
use crate::point::{in_range, trunc_tile, trunc_tile_of, Point, TILE_UNITS};
use crate::world::{TileEntity, World};

verus! {

/// Fixed-point units along one side of a chunk (`16 * 4096`).
pub const CHUNK_UNITS: i32 = 65536;

/// A tile of the search graph.
pub type Tile = (i16, i16);

/// Origin of the chunk that holds fixed-point coordinate `a`, along one axis.
pub open spec fn unit_chunk_origin(a: int) -> int {
    (a / 65536) * 16
}

/// The chunks the search may walk: those holding the four tiles next to the
/// start position (left, up, right, down).
pub open spec fn search_window(from: Point) -> Seq<(i32, i32)> {
    seq![
        (unit_chunk_origin(from.x - 4096) as i32, unit_chunk_origin(from.y as int) as i32),
        (unit_chunk_origin(from.x as int) as i32, unit_chunk_origin(from.y - 4096) as i32),
        (unit_chunk_origin(from.x + 4096) as i32, unit_chunk_origin(from.y as int) as i32),
        (unit_chunk_origin(from.x as int) as i32, unit_chunk_origin(from.y + 4096) as i32),
    ]
}

/// The tile that holds fixed-point position `p` (coordinates rounded toward zero).
pub open spec fn tile_of(p: Point) -> Tile {
    (trunc_tile(p.x as int) as i16, trunc_tile(p.y as int) as i16)
}

/// Tile `(x, y)` lies in one of the window's chunks.
pub open spec fn in_window(window: Seq<(i32, i32)>, x: int, y: int) -> bool {
    exists|i: int|
        0 <= i < window.len() && (#[trigger] window[i]).0 == chunk_origin(x) && window[i].1
            == chunk_origin(y)
}

/// The search may enter tile `(x, y)`: it lies in the window and nothing blocks it.
pub open spec fn walkable(w: World, window: Seq<(i32, i32)>, x: int, y: int) -> bool {
    in_window(window, x, y) && !w.blocked(x, y)
}

/// One move of the search, at cost 1: right or down, or left or up where the
/// coordinate is positive, onto a walkable tile.
pub open spec fn step(w: World, window: Seq<(i32, i32)>, a: Tile, b: Tile) -> bool {
    &&& walkable(w, window, b.0 as int, b.1 as int)
    &&& {
        ||| (b.0 == a.0 + 1 && b.1 == a.1)
        ||| (b.0 == a.0 && b.1 == a.1 + 1)
        ||| (a.0 > 0 && b.0 == a.0 - 1 && b.1 == a.1)
        ||| (a.1 > 0 && b.0 == a.0 && b.1 == a.1 - 1)
    }
}

/// `q` is a route of the search from `start` to `goal`.
pub open spec fn is_route(
    w: World,
    window: Seq<(i32, i32)>,
    start: Tile,
    goal: Tile,
    q: Seq<Tile>,
) -> bool {
    &&& q.len() >= 1
    &&& q[0] == start
    &&& q.last() == goal
    &&& forall|i: int| 0 <= i < q.len() - 1 ==> #[trigger] step(w, window, q[i], q[i + 1])
}

/// A chunk as plain values: origin and tiles.
pub open spec fn chunk_view(c: Chunk) -> ChunkModel {
    (c.x, c.y, c.tiles@)
}

/// The chunks of `layer` whose origin is one of the window's, as plain
/// values, in layer order: all that the search reads of the layer.
pub open spec fn window_chunks(layer: Seq<Chunk>, window: Seq<(i32, i32)>) -> Seq<ChunkModel> {
    layer.filter(|c: Chunk| window.contains((c.x as i32, c.y as i32))).map_values(
        |c: Chunk| chunk_view(c),
    )
}

/// What the A* search of the `pathfinding` crate returns for the graph of
/// the window's chunks `area`, the tile entities and the window.
pub uninterp spec fn astar_route(
    area: Seq<ChunkModel>,
    entities: Seq<TileEntity>,
    window: Seq<(i32, i32)>,
    start: Tile,
    goal: Tile,
) -> Option<(Seq<Tile>, u32)>;

/// The route and its cost, as plain values.
pub open spec fn route_view(r: Option<(Vec<Tile>, u32)>) -> Option<(Seq<Tile>, u32)> {
    match r {
        Some((p, c)) => Some((p@, c)),
        None => None,
    }
}

/// The estimate that orders the search: the Manhattan distance to `goal`,
/// divided by 3 (never more than the true remaining cost).
pub fn heuristic(p: Tile, goal: Tile) -> (r: u32)
    ensures
        r == (abs_diff(p.0 as int, goal.0 as int) + abs_diff(p.1 as int, goal.1 as int)) / 3,
        r <= abs_diff(p.0 as int, goal.0 as int) + abs_diff(p.1 as int, goal.1 as int),
{
    let dx: u32 = if p.0 >= goal.0 {
        (p.0 as i32 - goal.0 as i32) as u32
    } else {
        (goal.0 as i32 - p.0 as i32) as u32
    };
    let dy: u32 = if p.1 >= goal.1 {
        (p.1 as i32 - goal.1 as i32) as u32
    } else {
        (goal.1 as i32 - p.1 as i32) as u32
    };
    (dx + dy) / 3
}

/// `|a - b|`.
pub open spec fn abs_diff(a: int, b: int) -> int {
    if a >= b {
        a - b
    } else {
        b - a
    }
}

/// Whether the search has reached `goal`.
pub fn at_goal(p: Tile, goal: Tile) -> (r: bool)
    ensures
        r == (p == goal),
{
    p.0 == goal.0 && p.1 == goal.1
}

/// Whether tile `(x, y)` lies in one of the window's chunks.
fn in_window_at(window: &Vec<(i32, i32)>, x: i32, y: i32) -> (r: bool)
    ensures
        r == in_window(window@, x as int, y as int),
{
    let ox = origin_of(x);
    let oy = origin_of(y);
    let mut i: usize = 0;
    while i < window.len()
        invariant
            0 <= i <= window@.len(),
            ox == chunk_origin(x as int),
            oy == chunk_origin(y as int),
            forall|j: int| 0 <= j < i ==> !((#[trigger] window@[j]).0 == ox && window@[j].1 == oy),
        decreases window@.len() - i,
    {
        if window[i].0 == ox && window[i].1 == oy {
            assert(window@[i as int].0 == chunk_origin(x as int));
            return true;
        }
        i += 1;
    }
    false
}

/// Whether the search may enter tile `(x, y)`.
fn walkable_at(world: &World, window: &Vec<(i32, i32)>, x: i32, y: i32) -> (r: bool)
    ensures
        r == walkable(*world, window@, x as int, y as int),
{
    in_window_at(window, x, y) && !blocked_at(world, x, y)
}

/// The move from `p` to `q` at cost 1, when `allowed` and `q` is walkable.
pub open spec fn move_if(w: World, window: Seq<(i32, i32)>, allowed: bool, q: Tile) -> Seq<(Tile, u32)> {
    if allowed && walkable(w, window, q.0 as int, q.1 as int) {
        seq![(q, 1u32)]
    } else {
        Seq::empty()
    }
}

/// The moves out of `p`, in order: right, down, then left where `x > 0`,
/// then up where `y > 0`, keeping the walkable ones. A move past the `i16`
/// range is never made.
pub open spec fn successor_list(w: World, window: Seq<(i32, i32)>, p: Tile) -> Seq<(Tile, u32)> {
    move_if(w, window, p.0 < i16::MAX, ((p.0 + 1) as i16, p.1)) + move_if(
        w,
        window,
        p.1 < i16::MAX,
        (p.0, (p.1 + 1) as i16),
    ) + move_if(w, window, p.0 > 0, ((p.0 - 1) as i16, p.1)) + move_if(
        w,
        window,
        p.1 > 0,
        (p.0, (p.1 - 1) as i16),
    )
}

/// The moves out of tile `p`, each with its cost of 1: right, down, then
/// left and up where the coordinate is positive, keeping the walkable ones.
pub fn successors(world: &World, window: &Vec<(i32, i32)>, p: Tile) -> (r: Vec<(Tile, u32)>)
    ensures
        r@ == successor_list(*world, window@, p),
        forall|i: int| 0 <= i < r@.len() ==> (#[trigger] r@[i]).1 == 1 && step(*world, window@, p, r@[i].0),
        forall|q: Tile| step(*world, window@, p, q) ==> exists|i: int| 0 <= i < r@.len() && (#[trigger] r@[i]).0 == q,
        forall|i: int, j: int| 0 <= i < j < r@.len() ==> r@[i].0 != r@[j].0,
{
    let mut r: Vec<(Tile, u32)> = Vec::new();
    let x = p.0 as i32;
    let y = p.1 as i32;
    let ghost mut at: Seq<int> = seq![-1, -1, -1, -1];
    if p.0 < i16::MAX && walkable_at(world, window, x + 1, y) {
        proof { at = at.update(0, r@.len() as int); }
        r.push(((p.0 + 1, p.1), 1));
    }
    if p.1 < i16::MAX && walkable_at(world, window, x, y + 1) {
        proof { at = at.update(1, r@.len() as int); }
        r.push(((p.0, p.1 + 1), 1));
    }
    if p.0 > 0 && walkable_at(world, window, x - 1, y) {
        proof { at = at.update(2, r@.len() as int); }
        r.push(((p.0 - 1, p.1), 1));
    }
    if p.1 > 0 && walkable_at(world, window, x, y - 1) {
        proof { at = at.update(3, r@.len() as int); }
        r.push(((p.0, p.1 - 1), 1));
    }
    proof {
        let m0 = move_if(*world, window@, p.0 < i16::MAX, ((p.0 + 1) as i16, p.1));
        let m1 = move_if(*world, window@, p.1 < i16::MAX, (p.0, (p.1 + 1) as i16));
        let m2 = move_if(*world, window@, p.0 > 0, ((p.0 - 1) as i16, p.1));
        let m3 = move_if(*world, window@, p.1 > 0, (p.0, (p.1 - 1) as i16));
        assert(r@ =~= m0 + m1 + m2 + m3);
        assert forall|q: Tile| step(*world, window@, p, q) implies exists|i: int|
            0 <= i < r@.len() && (#[trigger] r@[i]).0 == q by {
            if q.0 == p.0 + 1 && q.1 == p.1 {
                assert(r@[at[0]].0 == q);
            } else if q.0 == p.0 && q.1 == p.1 + 1 {
                assert(r@[at[1]].0 == q);
            } else if p.0 > 0 && q.0 == p.0 - 1 && q.1 == p.1 {
                assert(r@[at[2]].0 == q);
            } else {
                assert(r@[at[3]].0 == q);
            }
        }
    }
    r
}

} // verus!

verus! {

/// Relies on `pathfinding::directed::astar::astar`. Its tables hash with
/// the unseeded Fx hasher, so the result depends on the arguments alone. As
/// its documentation states, it returns a shortest path from `start` to a
/// node that passes `success`, both ends included, with its total cost, when
/// the heuristic never exceeds the true cost, and `None` when no such path
/// exists. Here every move costs 1 and the heuristic (Manhattan distance / 3)
/// is consistent, so no expanded node is reopened and the cost is the number
/// of moves. The graph is finite: every move lands in one of four chunks.
/// Of the collision layer the search reads only the chunks whose origin is
/// in the window (a tile is walkable only inside the window, and is read
/// from the first chunk with its origin), so the result is named over those
/// chunks' values.
#[verifier::external_body]
fn astar_search(world: &World, window: &Vec<(i32, i32)>, start: Tile, goal: Tile) -> (r: Option<
    (Vec<Tile>, u32),
>)
    ensures
        route_view(r) == astar_route(
            window_chunks(world.collision@, window@),
            world.tile_entities@,
            window@,
            start,
            goal,
        ),
        r matches Some((p, c)) ==> {
            &&& is_route(*world, window@, start, goal, p@)
            &&& c == p@.len() - 1
            &&& forall|q: Seq<Tile>| #[trigger]
                is_route(*world, window@, start, goal, q) ==> p@.len() <= q.len()
        },
        r is None ==> forall|q: Seq<Tile>| !#[trigger] is_route(*world, window@, start, goal, q),
{
    pathfinding::directed::astar::astar(
        &start,
        |p| successors(world, window, *p),
        |p| heuristic(*p, goal),
        |p| at_goal(*p, goal),
    )
}

/// The four tiles next to `g` all block movement.
pub open spec fn enclosed(w: World, g: Tile) -> bool {
    &&& w.blocked(g.0 + 1, g.1 as int)
    &&& w.blocked(g.0 - 1, g.1 as int)
    &&& w.blocked(g.0 as int, g.1 + 1)
    &&& w.blocked(g.0 as int, g.1 - 1)
}

/// Tiles `a` and `b` share an edge.
pub open spec fn adjacent(a: Tile, b: Tile) -> bool {
    abs_diff(a.0 as int, b.0 as int) + abs_diff(a.1 as int, b.1 as int) == 1
}

impl World {
    /// What a search from pixel position `from` to `to` returns, as plain values.
    pub open spec fn route(&self, from: Point, to: Point) -> Option<(Seq<Tile>, u32)> {
        astar_route(
            window_chunks(self.collision@, search_window(from)),
            self.tile_entities@,
            search_window(from),
            tile_of(from),
            tile_of(to),
        )
    }

    /// Shortest route of tiles from the tile holding `from` to the tile
    /// holding `to`, with its cost (one per move), or `None` when no route
    /// exists. The search moves only through walkable tiles of the chunks
    /// next to the start (see `search_window`), so it stays short-range.
    pub fn pathfind(&self, from: Point, to: Point) -> (r: Option<(Vec<Tile>, u32)>)
        requires
            in_range(from),
            in_range(to),
        ensures
            route_view(r) == self.route(from, to),
            r matches Some((p, c)) ==> {
                &&& is_route(*self, search_window(from), tile_of(from), tile_of(to), p@)
                &&& c == p@.len() - 1
                &&& forall|q: Seq<Tile>| #[trigger]
                    is_route(*self, search_window(from), tile_of(from), tile_of(to), q) ==> p@.len()
                        <= q.len()
            },
            r is None <==> forall|q: Seq<Tile>|
                !#[trigger] is_route(*self, search_window(from), tile_of(from), tile_of(to), q),
            enclosed(*self, tile_of(to)) && tile_of(from) != tile_of(to) && !adjacent(
                tile_of(from),
                tile_of(to),
            ) ==> r is None,
    {
        let left = window_origin(from.x - TILE_UNITS);
        let up = window_origin(from.y - TILE_UNITS);
        let right = window_origin(from.x + TILE_UNITS);
        let down = window_origin(from.y + TILE_UNITS);
        let ox = window_origin(from.x);
        let oy = window_origin(from.y);
        let window = vec![(left, oy), (ox, up), (right, oy), (ox, down)];
        assert(window@ =~= search_window(from));
        let start: Tile = (trunc_tile_of(from.x) as i16, trunc_tile_of(from.y) as i16);
        let goal: Tile = (trunc_tile_of(to.x) as i16, trunc_tile_of(to.y) as i16);
        let r = astar_search(self, &window, start, goal);
        proof {
            if r is Some {
                let p = r->Some_0.0@;
                assert(is_route(*self, window@, start, goal, p));
            }
            if enclosed(*self, goal) && start != goal && !adjacent(start, goal) {
                lemma_enclosed_unreachable(*self, window@, start, goal);
            }
        }
        r
    }
}

/// Origin of the chunk holding fixed-point coordinate `a`.
fn window_origin(a: i32) -> (r: i32)
    requires
        -134217728 <= a <= 134217728,
    ensures
        r == unit_chunk_origin(a as int),
{
    if a >= 0 {
        a / CHUNK_UNITS * 16
    } else {
        let m: i32 = -1 - a;
        (-1 - m / CHUNK_UNITS) * 16
    }
}

proof fn lemma_enclosed_unreachable(w: World, window: Seq<(i32, i32)>, start: Tile, goal: Tile)
    requires
        enclosed(w, goal),
        start != goal,
        !adjacent(start, goal),
    ensures
        forall|q: Seq<Tile>| !#[trigger] is_route(w, window, start, goal, q),
{
    assert forall|q: Seq<Tile>| !#[trigger] is_route(w, window, start, goal, q) by {
        if is_route(w, window, start, goal, q) {
            let n = q.len() as int;
            assert(n >= 2);
            let i = n - 2;
            assert(step(w, window, q[i], q[i + 1]));
            if i >= 1 {
                let k = i - 1;
                assert(step(w, window, q[k], q[k + 1]));
            }
        }
    }
}

} // verus!

verus! {

/// The search is deterministic and reads only the start window: worlds
/// whose collision chunks in the window of `from` agree (collision chunks
/// elsewhere, and the other layers, may differ) and whose tile entities
/// agree give the same route and the same cost for the same start and goal.
pub proof fn lemma_route_deterministic(w1: World, w2: World, from: Point, to: Point)
    requires
        window_chunks(w1.collision@, search_window(from)) == window_chunks(
            w2.collision@,
            search_window(from),
        ),
        w1.tile_entities@ == w2.tile_entities@,
    ensures
        w1.route(from, to) == w2.route(from, to),
{
}

} // verus!

verus! {

/// Fixed-point distance within which a waypoint counts as reached (4 pixels).
pub const WAYPOINT_REACH: i64 = 1024;

/// Top-left corner of tile `t`, as a fixed-point position.
pub open spec fn tile_corner(t: Tile) -> Point {
    Point { x: (t.0 * 4096) as i32, y: (t.1 * 4096) as i32 }
}

/// `a` lies within 4 pixels of `b`.
pub open spec fn near(a: Point, b: Point) -> bool {
    (a.x - b.x) * (a.x - b.x) + (a.y - b.y) * (a.y - b.y) < WAYPOINT_REACH * WAYPOINT_REACH
}

/// One step of following a route whose first tile is the one the agent
/// left last: the target is the corner of the next tile, if there is one,
/// and once the agent is within 4 pixels of it the route's first tile is
/// dropped.
pub fn follow_path(path: &mut Vec<Tile>, pos: Point) -> (r: Option<Point>)
    requires
        in_range(pos),
    ensures
        old(path)@.len() < 2 ==> r is None && final(path)@ == old(path)@,
        old(path)@.len() >= 2 ==> {
            let next = tile_corner(old(path)@[1]);
            &&& r == Some(next)
            &&& final(path)@ == if near(next, pos) {
                old(path)@.drop_first()
            } else {
                old(path)@
            }
        },
{
    if path.len() < 2 {
        return None;
    }
    let t = path[1];
    let next = Point { x: t.0 as i32 * TILE_UNITS, y: t.1 as i32 * TILE_UNITS };
    let dx: i64 = next.x as i64 - pos.x as i64;
    let dy: i64 = next.y as i64 - pos.y as i64;
    proof {
        assert(dx * dx <= 1152921504606846976) by (nonlinear_arith)
            requires
                -1073741824 <= dx <= 1073741824,
        ;
        assert(dy * dy <= 1152921504606846976) by (nonlinear_arith)
            requires
                -1073741824 <= dy <= 1073741824,
        ;
        assert(0 <= dx * dx) by (nonlinear_arith);
        assert(0 <= dy * dy) by (nonlinear_arith);
    }
    if dx * dx + dy * dy < WAYPOINT_REACH * WAYPOINT_REACH {
        path.remove(0);
        assert(path@ =~= old(path)@.drop_first());
    }
    Some(next)
}

} // verus!
