use vstd::prelude::*;

use crate::point::{
    away_tile, away_tile_of, ceil_tile, ceil_tile_of, floor_tile, floor_tile_of, in_range,
    trunc_tile, trunc_tile_of, Point, MAX_COORD, TILE_UNITS,
};
use crate::world::{entity_blocks_at, get_tile, World};

verus! {

/// Microseconds in one second.
pub const MICROS: i64 = 1000000;

/// Distance covered in `dt` microseconds at `v` units per second, rounded
/// toward zero.
pub open spec fn travel(v: int, dt: int) -> int {
    let p = v * dt;
    if p >= 0 {
        p / 1000000
    } else {
        -((-p) / 1000000)
    }
}

/// Where the body would be after `dt` with no obstacle.
pub open spec fn tentative(pos: Point, vel: Point, dt: int) -> Point {
    Point { x: (pos.x + travel(vel.x as int, dt)) as i32, y: (pos.y + travel(vel.y as int, dt)) as i32 }
}

/// The four corner probes of a body at fixed-point `(px, py)`: the tile
/// columns `trunc` and `away` of `px / tile` against the rows `away` and
/// `trunc` of `py / tile`. Whether any of them is blocked.
pub open spec fn corners_blocked(w: World, px: int, py: int) -> bool {
    ||| w.blocked(trunc_tile(px), away_tile(py))
    ||| w.blocked(away_tile(px), away_tile(py))
    ||| w.blocked(trunc_tile(px), trunc_tile(py))
    ||| w.blocked(away_tile(px), trunc_tile(py))
}

/// The tile boundary of coordinate `a` in the direction of travel `v`:
/// the lower one when moving toward negative, the upper one when moving
/// toward positive. An axis at rest has no direction of travel and keeps `a`.
pub open spec fn snap(a: int, v: int) -> int {
    if v < 0 {
        floor_tile(a) * 4096
    } else if v > 0 {
        ceil_tile(a) * 4096
    } else {
        a
    }
}

/// The vertical pass finds an obstacle: probes at the current column and the
/// tentative row.
pub open spec fn hits_y(w: World, pos: Point, vel: Point, dt: int) -> bool {
    corners_blocked(w, pos.x as int, tentative(pos, vel, dt).y as int)
}

/// Vertical coordinate after the vertical pass.
pub open spec fn resolved_y(w: World, pos: Point, vel: Point, dt: int) -> int {
    if hits_y(w, pos, vel, dt) {
        snap(pos.y as int, vel.y as int)
    } else {
        tentative(pos, vel, dt).y as int
    }
}

/// The horizontal pass finds an obstacle: probes at the tentative column and
/// the row left by the vertical pass.
pub open spec fn hits_x(w: World, pos: Point, vel: Point, dt: int) -> bool {
    corners_blocked(w, tentative(pos, vel, dt).x as int, resolved_y(w, pos, vel, dt))
}

/// Position after both passes.
pub open spec fn resolved(w: World, pos: Point, vel: Point, dt: int) -> Point {
    Point {
        x: (if hits_x(w, pos, vel, dt) {
            snap(pos.x as int, vel.x as int)
        } else {
            tentative(pos, vel, dt).x as int
        }) as i32,
        y: resolved_y(w, pos, vel, dt) as i32,
    }
}

/// Velocity after both passes: zeroed on each axis that met an obstacle.
pub open spec fn resolved_velocity(w: World, pos: Point, vel: Point, dt: int) -> Point {
    Point {
        x: if hits_x(w, pos, vel, dt) {
            0
        } else {
            vel.x
        },
        y: if hits_y(w, pos, vel, dt) {
            0
        } else {
            vel.y
        },
    }
}

/// The inputs the resolver accepts: the start and the unobstructed end lie
/// within the coordinate range.
pub open spec fn motion_in_range(pos: Point, vel: Point, dt: int) -> bool {
    in_range(pos) && in_range(tentative(pos, vel, dt))
}

/// The body at fixed-point coordinate `a` overlaps tile row or column `t`
/// (its corners sample `trunc` and `away` of `a / tile`).
pub open spec fn occupies(a: int, t: int) -> bool {
    t == trunc_tile(a) || t == away_tile(a)
}

/// Whether tile `(tx, ty)` blocks movement.
pub fn blocked_at(world: &World, tx: i32, ty: i32) -> (r: bool)
    ensures
        r == world.blocked(tx as int, ty as int),
{
    get_tile(&world.collision, tx, ty) != 0 || entity_blocks_at(&world.tile_entities, tx, ty)
}

/// Whether a corner probe of a body at `(px, py)` is blocked. The probes are
/// tested in a fixed order and the first blocked one ends the test; the snap
/// that follows does not depend on which probe it was.
fn corners_blocked_at(world: &World, px: i32, py: i32) -> (r: bool)
    requires
        -MAX_COORD <= px <= MAX_COORD,
        -MAX_COORD <= py <= MAX_COORD,
    ensures
        r == corners_blocked(*world, px as int, py as int),
{
    let tx = trunc_tile_of(px);
    let ax = away_tile_of(px);
    let ty = trunc_tile_of(py);
    let ay = away_tile_of(py);
    blocked_at(world, tx, ay) || blocked_at(world, ax, ay) || blocked_at(world, tx, ty)
        || blocked_at(world, ax, ty)
}

/// `travel(v, dt)` on machine integers.
fn travel_of(v: i32, dt: u32) -> (r: i64)
    ensures
        r == travel(v as int, dt as int),
        -10000000000000 <= r <= 10000000000000,
{
    proof {
        let a = v as int;
        let b = dt as int;
        assert(-2147483648 * 4294967295 <= a * b <= 2147483647 * 4294967295) by (nonlinear_arith)
            requires
                -2147483648 <= a <= 2147483647,
                0 <= b <= 4294967295,
        ;
    }
    let p: i64 = v as i64 * dt as i64;
    if p >= 0 {
        p / MICROS
    } else {
        -((-p) / MICROS)
    }
}

/// `snap(a, v)` on machine integers.
fn snap_of(a: i32, v: i32) -> (r: i32)
    requires
        -MAX_COORD <= a <= MAX_COORD,
    ensures
        r == snap(a as int, v as int),
        -MAX_COORD <= r <= MAX_COORD,
{
    if v < 0 {
        floor_tile_of(a) * TILE_UNITS
    } else if v > 0 {
        ceil_tile_of(a) * TILE_UNITS
    } else {
        a
    }
}

/// Moves a body from `pos` by `velocity` over `dt` microseconds against the
/// collision layer and the blocking tile entities, one axis at a time,
/// vertical first. An axis whose corner probes meet an obstacle is snapped
/// to the tile boundary of the start position in the direction of travel,
/// and its velocity is zeroed; an axis at rest keeps its coordinate, so a
/// body with zero velocity never moves.
pub fn update_physicsbody(pos: Point, velocity: &mut Point, dt: u32, world: &World) -> (r: Point)
    requires
        motion_in_range(pos, *old(velocity), dt as int),
    ensures
        r == resolved(*world, pos, *old(velocity), dt as int),
        *final(velocity) == resolved_velocity(*world, pos, *old(velocity), dt as int),
        in_range(r),
        old(velocity).x == 0 && old(velocity).y == 0 ==> r == pos && *final(velocity) == *old(
            velocity,
        ),
        !hits_x(*world, pos, *old(velocity), dt as int) ==> !corners_blocked(
            *world,
            r.x as int,
            r.y as int,
        ),
{
    let ghost v0 = *velocity;
    let new_x: i32 = (pos.x as i64 + travel_of(velocity.x, dt)) as i32;
    let mut new_y: i32 = (pos.y as i64 + travel_of(velocity.y, dt)) as i32;
    if corners_blocked_at(world, pos.x, new_y) {
        new_y = snap_of(pos.y, velocity.y);
        velocity.y = 0;
    }
    assert(new_y == resolved_y(*world, pos, v0, dt as int));
    let mut x = new_x;
    if corners_blocked_at(world, new_x, new_y) {
        x = snap_of(pos.x, velocity.x);
        velocity.x = 0;
    }
    Point { x, y: new_y }
}

} // verus!

verus! {

proof fn lemma_snap_cells(a: int, v: int)
    requires
        -MAX_COORD <= a <= MAX_COORD,
    ensures
        forall|t: int| occupies(snap(a, v), t) ==> occupies(a, t),
{
    if v != 0 {
        let k = if v < 0 {
            floor_tile(a)
        } else {
            ceil_tile(a)
        };
        let s = k * 4096;
        assert(s == snap(a, v));
        assert(floor_tile(s) == k);
        assert(ceil_tile(s) == k);
        assert(trunc_tile(s) == k && away_tile(s) == k);
        assert(occupies(a, k));
    }
}

/// A body at rest stays where it is, whatever tiles surround it.
pub proof fn lemma_rest_keeps_position(w: World, pos: Point, dt: int)
    requires
        in_range(pos),
    ensures
        resolved(w, pos, Point { x: 0, y: 0 }, dt) == pos,
        resolved_velocity(w, pos, Point { x: 0, y: 0 }, dt) == (Point { x: 0, y: 0 }),
{
    let v = Point { x: 0, y: 0 };
    assert(travel(0, dt) == 0);
    assert(tentative(pos, v, dt) == pos);
}

/// No tunneling on a blocked axis: when an axis meets an obstacle, every
/// tile row (or column) that the body overlaps afterwards it already
/// overlapped at the start. So a solid tile that the body did not overlap on
/// that axis is not entered on that axis.
pub proof fn lemma_blocked_axis_stays(w: World, pos: Point, vel: Point, dt: int)
    requires
        motion_in_range(pos, vel, dt),
    ensures
        hits_y(w, pos, vel, dt) ==> forall|t: int|
            occupies(resolved(w, pos, vel, dt).y as int, t) ==> occupies(pos.y as int, t),
        hits_x(w, pos, vel, dt) ==> forall|t: int|
            occupies(resolved(w, pos, vel, dt).x as int, t) ==> occupies(pos.x as int, t),
{
    lemma_snap_cells(pos.y as int, vel.y as int);
    lemma_snap_cells(pos.x as int, vel.x as int);
    let sy = snap(pos.y as int, vel.y as int);
    let sx = snap(pos.x as int, vel.x as int);
    assert(-MAX_COORD <= floor_tile(pos.y as int) * 4096 <= MAX_COORD);
    assert(-MAX_COORD <= ceil_tile(pos.y as int) * 4096 <= MAX_COORD);
    assert(-MAX_COORD <= floor_tile(pos.x as int) * 4096 <= MAX_COORD);
    assert(-MAX_COORD <= ceil_tile(pos.x as int) * 4096 <= MAX_COORD);
    assert(sy as i32 as int == sy);
    assert(sx as i32 as int == sx);
}

} // verus!

verus! {

/// The rows (or columns) occupied at `a` are the floor and the ceiling of
/// `a / tile`.
proof fn lemma_occupies_floor_ceil(a: int, t: int)
    ensures
        occupies(a, t) <==> (t == floor_tile(a) || t == ceil_tile(a)),
{
}

/// Clear corner probes at the start of the vertical pass stay clear at its end.
proof fn lemma_vertical_pass_clear(w: World, pos: Point, vel: Point, dt: int)
    requires
        motion_in_range(pos, vel, dt),
        !corners_blocked(w, pos.x as int, pos.y as int),
    ensures
        !corners_blocked(w, pos.x as int, resolved_y(w, pos, vel, dt)),
        -MAX_COORD <= resolved_y(w, pos, vel, dt) <= MAX_COORD,
{
    let y1 = resolved_y(w, pos, vel, dt);
    lemma_snap_cells(pos.y as int, vel.y as int);
    assert(-MAX_COORD <= floor_tile(pos.y as int) * 4096 <= MAX_COORD);
    assert(-MAX_COORD <= ceil_tile(pos.y as int) * 4096 <= MAX_COORD);
    if hits_y(w, pos, vel, dt) {
        assert(occupies(y1, trunc_tile(y1)));
        assert(occupies(y1, away_tile(y1)));
    }
}

/// A body whose corner probes are clear of obstacles still has clear corner
/// probes after one resolved move.
pub proof fn lemma_clear_stays_clear(w: World, pos: Point, vel: Point, dt: int)
    requires
        motion_in_range(pos, vel, dt),
        !corners_blocked(w, pos.x as int, pos.y as int),
    ensures
        !corners_blocked(w, resolved(w, pos, vel, dt).x as int, resolved(w, pos, vel, dt).y as int),
{
    lemma_vertical_pass_clear(w, pos, vel, dt);
    let y1 = resolved_y(w, pos, vel, dt);
    let r = resolved(w, pos, vel, dt);
    lemma_snap_cells(pos.x as int, vel.x as int);
    assert(-MAX_COORD <= floor_tile(pos.x as int) * 4096 <= MAX_COORD);
    assert(-MAX_COORD <= ceil_tile(pos.x as int) * 4096 <= MAX_COORD);
    assert(r.y as int == y1);
    if hits_x(w, pos, vel, dt) {
        let x1 = snap(pos.x as int, vel.x as int);
        assert(r.x as int == x1);
        assert(occupies(x1, trunc_tile(x1)));
        assert(occupies(x1, away_tile(x1)));
    }
}

/// Where a body ends after the moves `steps` (velocity and microseconds of
/// each tick, in order) from `pos`.
pub open spec fn run(w: World, pos: Point, steps: Seq<(Point, int)>) -> Point
    decreases steps.len(),
{
    if steps.len() == 0 {
        pos
    } else {
        resolved(w, run(w, pos, steps.drop_last()), steps.last().0, steps.last().1)
    }
}

/// Every tick of `steps` from `pos` is one the resolver accepts.
pub open spec fn run_in_range(w: World, pos: Point, steps: Seq<(Point, int)>) -> bool
    decreases steps.len(),
{
    if steps.len() == 0 {
        in_range(pos)
    } else {
        run_in_range(w, pos, steps.drop_last()) && motion_in_range(
            run(w, pos, steps.drop_last()),
            steps.last().0,
            steps.last().1,
        )
    }
}

/// A body that starts clear of obstacles is clear of them after any
/// sequence of resolved moves.
pub proof fn lemma_run_stays_clear(w: World, pos: Point, steps: Seq<(Point, int)>)
    requires
        run_in_range(w, pos, steps),
        !corners_blocked(w, pos.x as int, pos.y as int),
    ensures
        !corners_blocked(w, run(w, pos, steps).x as int, run(w, pos, steps).y as int),
    decreases steps.len(),
{
    if steps.len() > 0 {
        lemma_run_stays_clear(w, pos, steps.drop_last());
        lemma_clear_stays_clear(
            w,
            run(w, pos, steps.drop_last()),
            steps.last().0,
            steps.last().1,
        );
    }
}

/// Fastest speed on either axis, in units per second (140 pixels per second).
pub const MAX_SPEED: i32 = 35840;

/// Longest tick, in microseconds (one frame at 60 per second).
pub const MAX_TICK: u32 = 16666;

/// A tick within the speed and frame-time caps.
pub open spec fn capped(vel: Point, dt: int) -> bool {
    &&& -MAX_SPEED <= vel.x <= MAX_SPEED
    &&& -MAX_SPEED <= vel.y <= MAX_SPEED
    &&& 0 <= dt <= MAX_TICK
}

/// Row (or column) `t` lies between the cells of `a` and of `b`: a body
/// moving from `a` to `b` along that axis passes over it.
pub open spec fn swept(a: int, b: int, t: int) -> bool {
    if a <= b {
        floor_tile(a) <= t <= ceil_tile(b)
    } else {
        floor_tile(b) <= t <= ceil_tile(a)
    }
}

proof fn lemma_swept_cells(a: int, b: int, t: int)
    requires
        -4096 <= b - a <= 4096,
        swept(a, b, t),
    ensures
        occupies(a, t) || occupies(b, t),
{
    lemma_occupies_floor_ceil(a, t);
    lemma_occupies_floor_ceil(b, t);
}

proof fn lemma_capped_travel(v: int, dt: int)
    requires
        -MAX_SPEED <= v <= MAX_SPEED,
        0 <= dt <= MAX_TICK,
    ensures
        -4096 < travel(v, dt) < 4096,
{
    assert(-35840 * 16666 <= v * dt <= 35840 * 16666) by (nonlinear_arith)
        requires
            -35840 <= v <= 35840,
            0 <= dt <= 16666,
    ;
}

/// No tunnelling within the caps: a body that starts clear of obstacles and
/// moves at most 140 pixels per second for at most one sixtieth of a
/// second passes over no blocked tile. In the vertical pass every row swept
/// in the body's columns is clear, and in the horizontal pass every column
/// swept in its final rows is clear.
pub proof fn lemma_no_tunnelling(w: World, pos: Point, vel: Point, dt: int)
    requires
        motion_in_range(pos, vel, dt),
        capped(vel, dt),
        !corners_blocked(w, pos.x as int, pos.y as int),
    ensures
        forall|t: int|
            swept(pos.y as int, resolved(w, pos, vel, dt).y as int, t) ==> !w.blocked(
                trunc_tile(pos.x as int),
                t,
            ) && !w.blocked(away_tile(pos.x as int), t),
        forall|t: int|
            swept(pos.x as int, resolved(w, pos, vel, dt).x as int, t) ==> !w.blocked(
                t,
                trunc_tile(resolved(w, pos, vel, dt).y as int),
            ) && !w.blocked(t, away_tile(resolved(w, pos, vel, dt).y as int)),
{
    lemma_vertical_pass_clear(w, pos, vel, dt);
    lemma_clear_stays_clear(w, pos, vel, dt);
    lemma_capped_travel(vel.x as int, dt);
    lemma_capped_travel(vel.y as int, dt);
    let r = resolved(w, pos, vel, dt);
    let y1 = resolved_y(w, pos, vel, dt);
    assert(r.y as int == y1);
    assert(-4096 <= y1 - pos.y <= 4096);
    assert(-4096 <= r.x - pos.x <= 4096);
    assert forall|t: int| swept(pos.y as int, r.y as int, t) implies !w.blocked(
        trunc_tile(pos.x as int),
        t,
    ) && !w.blocked(away_tile(pos.x as int), t) by {
        lemma_swept_cells(pos.y as int, r.y as int, t);
    }
    assert forall|t: int| swept(pos.x as int, r.x as int, t) implies !w.blocked(
        t,
        trunc_tile(r.y as int),
    ) && !w.blocked(t, away_tile(r.y as int)) by {
        lemma_swept_cells(pos.x as int, r.x as int, t);
    }
}

} // verus!
