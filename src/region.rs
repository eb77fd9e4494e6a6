use vstd::prelude::*;
use vstd::set_lib::{lemma_int_range, lemma_len_subset, set_int_range};

use crate::chunk::{chunk_origin, Chunk};
use crate::world::{first_with_origin, get_tile, layer_tile};

verus! {

/// Semantic value of the tiles that wire a region together.
pub const GROUP_MARKER: i16 = 32;

/// A tile position of a region search.
pub type Cell = (i16, i16);

/// A cell as a pair of mathematical integers.
pub open spec fn pos(t: Cell) -> (int, int) {
    (t.0 as int, t.1 as int)
}

/// The tile at `p` holds something (its id is not 0).
pub open spec fn present(layer: Seq<Chunk>, p: (int, int)) -> bool {
    layer_tile(layer, p.0, p.1) != 0
}

/// Semantic value of the tile at `p`: its id minus one.
pub open spec fn value(layer: Seq<Chunk>, p: (int, int)) -> int {
    layer_tile(layer, p.0, p.1) - 1
}

/// The tile at `p` is a group marker.
pub open spec fn is_group(layer: Seq<Chunk>, p: (int, int)) -> bool {
    present(layer, p) && value(layer, p) == GROUP_MARKER
}

/// `a` and `b` share an edge.
pub open spec fn adjacent4(a: (int, int), b: (int, int)) -> bool {
    ||| (b.0 == a.0 + 1 && b.1 == a.1)
    ||| (b.0 == a.0 - 1 && b.1 == a.1)
    ||| (b.0 == a.0 && b.1 == a.1 + 1)
    ||| (b.0 == a.0 && b.1 == a.1 - 1)
}

/// `q` walks from `start` across edges, every cell after the first a group marker.
pub open spec fn group_walk(layer: Seq<Chunk>, start: (int, int), q: Seq<(int, int)>) -> bool {
    &&& q.len() >= 1
    &&& q[0] == start
    &&& forall|i: int|
        0 <= i < q.len() - 1 ==> adjacent4(#[trigger] q[i], q[i + 1]) && is_group(layer, q[i + 1])
}

/// `c` is reached from `start` through group markers.
pub open spec fn in_region(layer: Seq<Chunk>, start: (int, int), c: (int, int)) -> bool {
    exists|q: Seq<(int, int)>| #[trigger] group_walk(layer, start, q) && q.last() == c
}

/// `p` is a present, non-group tile next to the region of `start`.
pub open spec fn on_border(layer: Seq<Chunk>, start: (int, int), p: (int, int)) -> bool {
    &&& present(layer, p)
    &&& !is_group(layer, p)
    &&& exists|c: (int, int)| #[trigger] in_region(layer, start, c) && adjacent4(c, p)
}

/// Every cell whose coordinates fit an `i16`.
pub open spec fn cell_range() -> Set<(int, int)> {
    set_int_range(0, 4294967296).map(|k: int| (k / 65536 - 32768, k % 65536 - 32768))
}

proof fn lemma_cell_range()
    ensures
        cell_range().finite(),
        forall|t: Cell| #[trigger] cell_range().contains(pos(t)),
{
    lemma_int_range(0, 4294967296);
    set_int_range(0, 4294967296).lemma_map_finite(
        |k: int| (k / 65536 - 32768, k % 65536 - 32768),
    );
    assert forall|t: Cell| #[trigger] cell_range().contains(pos(t)) by {
        let k = (t.0 + 32768) * 65536 + (t.1 + 32768);
        vstd::arithmetic::div_mod::lemma_fundamental_div_mod_converse(
            k,
            65536,
            t.0 + 32768,
            t.1 + 32768,
        );
        assert(set_int_range(0, 4294967296).contains(k));
    }
}

/// A present tile lies in a chunk, so its coordinates fit an `i16`.
proof fn lemma_present_in_range(layer: Seq<Chunk>, x: int, y: int)
    requires
        layer_tile(layer, x, y) != 0,
    ensures
        -32768 <= x <= 32767,
        -32768 <= y <= 32767,
{
    let i = choose|i: int| first_with_origin(layer, i, chunk_origin(x), chunk_origin(y));
    assert(layer[i].x == chunk_origin(x));
}

proof fn lemma_region_extend(layer: Seq<Chunk>, start: (int, int), c: (int, int), n: (int, int))
    requires
        in_region(layer, start, c),
        adjacent4(c, n),
        is_group(layer, n),
    ensures
        in_region(layer, start, n),
{
    let q = choose|q: Seq<(int, int)>| #[trigger] group_walk(layer, start, q) && q.last() == c;
    let q2 = q.push(n);
    assert forall|i: int| 0 <= i < q2.len() - 1 implies adjacent4(#[trigger] q2[i], q2[i + 1])
        && is_group(layer, q2[i + 1]) by {
        if i < q.len() - 1 {
            assert(q2[i] == q[i] && q2[i + 1] == q[i + 1]);
        }
    }
    assert(group_walk(layer, start, q2));
}

proof fn lemma_start_in_region(layer: Seq<Chunk>, start: (int, int))
    ensures
        in_region(layer, start, start),
{
    let q = seq![start];
    assert(group_walk(layer, start, q));
}

/// The state of a region search: `visited` holds the present cells met so
/// far (mirrored by the set `seen`), `queue` the region cells found so far,
/// of which the first `head` have had all their neighbours looked at, and
/// `result` the visited non-group cells with their values.
pub open spec fn fill_inv(
    layer: Seq<Chunk>,
    start: (int, int),
    visited: Seq<Cell>,
    queue: Seq<Cell>,
    head: int,
    result: Seq<(Cell, i32)>,
    seen: Set<(int, int)>,
) -> bool {
    &&& forall|i: int| 0 <= i < visited.len() ==> seen.contains(pos(#[trigger] visited[i]))
    &&& forall|p: (int, int)|
        seen.contains(p) ==> exists|i: int| 0 <= i < visited.len() && pos(#[trigger] visited[i]) == p
    &&& forall|p: (int, int)| #[trigger] seen.contains(p) ==> present(layer, p)
    &&& forall|p: (int, int)|
        #[trigger] seen.contains(p) && is_group(layer, p) ==> exists|i: int|
            0 <= i < queue.len() && pos(#[trigger] queue[i]) == p
    &&& forall|p: (int, int)|
        #[trigger] seen.contains(p) && !is_group(layer, p) ==> on_border(layer, start, p) && exists|
            k: int,
        |
            0 <= k < result.len() && pos((#[trigger] result[k]).0) == p
    &&& forall|i: int| 0 <= i < queue.len() ==> in_region(layer, start, pos(#[trigger] queue[i]))
    &&& queue.len() >= 1
    &&& pos(queue[0]) == start
    &&& 0 <= head <= queue.len()
    &&& forall|i: int, n: (int, int)|
        0 <= i < head && adjacent4(pos(#[trigger] queue[i]), n) && present(layer, n)
            ==> #[trigger] seen.contains(n)
    &&& forall|k: int|
        0 <= k < result.len() ==> {
            let p = pos((#[trigger] result[k]).0);
            &&& seen.contains(p)
            &&& !is_group(layer, p)
            &&& result[k].1 == value(layer, p)
        }
    &&& forall|i: int, j: int| 0 <= i < j < result.len() ==> result[i].0 != result[j].0
    &&& seen.subset_of(cell_range())
}

/// Visiting a new present neighbour `n` of the cell being expanded keeps the
/// search state consistent.
proof fn lemma_fill_visit(
    layer: Seq<Chunk>,
    start: (int, int),
    visited: Seq<Cell>,
    queue: Seq<Cell>,
    head: int,
    result: Seq<(Cell, i32)>,
    seen: Set<(int, int)>,
    n: Cell,
)
    requires
        fill_inv(layer, start, visited, queue, head, result, seen),
        head < queue.len(),
        adjacent4(pos(queue[head]), pos(n)),
        present(layer, pos(n)),
        !seen.contains(pos(n)),
    ensures
        is_group(layer, pos(n)) ==> fill_inv(
            layer,
            start,
            visited.push(n),
            queue.push(n),
            head,
            result,
            seen.insert(pos(n)),
        ),
        !is_group(layer, pos(n)) ==> fill_inv(
            layer,
            start,
            visited.push(n),
            queue,
            head,
            result.push((n, value(layer, pos(n)) as i32)),
            seen.insert(pos(n)),
        ),
{
    lemma_cell_range();
    let c = queue[head];
    let pn = pos(n);
    let v2 = visited.push(n);
    let s2 = seen.insert(pn);
    assert(in_region(layer, start, pos(c)));
    assert forall|p: (int, int)| s2.contains(p) implies exists|i: int|
        0 <= i < v2.len() && pos(#[trigger] v2[i]) == p by {
        if p == pn {
            assert(pos(v2[visited.len() as int]) == p);
        } else {
            let i = choose|i: int| 0 <= i < visited.len() && pos(#[trigger] visited[i]) == p;
            assert(pos(v2[i]) == p);
        }
    }
    assert forall|i: int| 0 <= i < v2.len() implies s2.contains(pos(#[trigger] v2[i])) by {
        if i < visited.len() {
            assert(v2[i] == visited[i]);
        }
    }
    if is_group(layer, pn) {
        let t2 = queue.push(n);
        lemma_region_extend(layer, start, pos(c), pn);
        assert forall|p: (int, int)| #[trigger] s2.contains(p) && is_group(layer, p) implies exists|
            i: int,
        | 0 <= i < t2.len() && pos(#[trigger] t2[i]) == p by {
            if p == pn {
                assert(pos(t2[queue.len() as int]) == p);
            } else {
                let i = choose|i: int| 0 <= i < queue.len() && pos(#[trigger] queue[i]) == p;
                assert(pos(t2[i]) == p);
            }
        }
        assert forall|i: int| 0 <= i < t2.len() implies in_region(
            layer,
            start,
            pos(#[trigger] t2[i]),
        ) by {
            if i < queue.len() {
                assert(t2[i] == queue[i]);
            }
        }
        assert forall|i: int, m: (int, int)|
            0 <= i < head && adjacent4(pos(#[trigger] t2[i]), m) && present(layer, m) implies #[trigger] s2.contains(
            m,
        ) by {
            assert(t2[i] == queue[i]);
        }
        assert(t2[0] == queue[0]);
        assert forall|p: (int, int)| #[trigger] s2.contains(p) && !is_group(layer, p) implies on_border(
            layer,
            start,
            p,
        ) && exists|k: int| 0 <= k < result.len() && pos((#[trigger] result[k]).0) == p by {}
    } else {
        let r2 = result.push((n, value(layer, pn) as i32));
        assert(in_region(layer, start, pos(c)) && adjacent4(pos(c), pn));
        assert forall|p: (int, int)| #[trigger] s2.contains(p) && !is_group(layer, p) implies on_border(
            layer,
            start,
            p,
        ) && exists|k: int| 0 <= k < r2.len() && pos((#[trigger] r2[k]).0) == p by {
            if p == pn {
                assert(pos(r2[result.len() as int].0) == p);
            } else {
                let k = choose|k: int| 0 <= k < result.len() && pos((#[trigger] result[k]).0) == p;
                assert(pos(r2[k].0) == p);
            }
        }
        assert forall|k: int| 0 <= k < r2.len() implies {
            let p = pos((#[trigger] r2[k]).0);
            &&& s2.contains(p)
            &&& !is_group(layer, p)
            &&& r2[k].1 == value(layer, p)
        } by {
            if k < result.len() {
                assert(r2[k] == result[k]);
            } else {
                assert(-32769 <= value(layer, pn) <= 32766);
            }
        }
        assert forall|i: int, j: int| 0 <= i < j < r2.len() implies r2[i].0 != r2[j].0 by {
            if j == result.len() {
                assert(r2[i] == result[i]);
                assert(seen.contains(pos(result[i].0)));
            } else {
                assert(r2[i] == result[i] && r2[j] == result[j]);
            }
        }
        assert forall|p: (int, int)| #[trigger] s2.contains(p) && is_group(layer, p) implies exists|
            i: int,
        | 0 <= i < queue.len() && pos(#[trigger] queue[i]) == p by {}
    }
}

/// Whether `visited` holds `t`.
fn holds_cell(visited: &Vec<Cell>, t: Cell) -> (r: bool)
    ensures
        r == exists|i: int| 0 <= i < visited@.len() && visited@[i] == t,
{
    let mut i: usize = 0;
    while i < visited.len()
        invariant
            0 <= i <= visited@.len(),
            forall|j: int| 0 <= j < i ==> visited@[j] != t,
        decreases visited@.len() - i,
    {
        if visited[i].0 == t.0 && visited[i].1 == t.1 {
            return true;
        }
        i += 1;
    }
    false
}

} // verus!

verus! {

/// Offset of neighbour `e` in the order down, up, right, left.
pub open spec fn dir(e: int) -> (int, int) {
    if e == 0 {
        (0, 1)
    } else if e == 1 {
        (0, -1)
    } else if e == 2 {
        (1, 0)
    } else {
        (-1, 0)
    }
}

/// Once every found region cell has been expanded, every region cell has
/// been found.
proof fn lemma_fill_complete(
    layer: Seq<Chunk>,
    start: (int, int),
    visited: Seq<Cell>,
    queue: Seq<Cell>,
    result: Seq<(Cell, i32)>,
    seen: Set<(int, int)>,
    q: Seq<(int, int)>,
    k: int,
)
    requires
        fill_inv(layer, start, visited, queue, queue.len() as int, result, seen),
        group_walk(layer, start, q),
        0 <= k < q.len(),
    ensures
        exists|i: int| 0 <= i < queue.len() && pos(#[trigger] queue[i]) == q[k],
    decreases k,
{
    if k == 0 {
        assert(pos(queue[0]) == q[0]);
    } else {
        lemma_fill_complete(layer, start, visited, queue, result, seen, q, k - 1);
        let j = k - 1;
        assert(adjacent4(q[j], q[j + 1]) && is_group(layer, q[j + 1]));
        let i = choose|i: int| 0 <= i < queue.len() && pos(#[trigger] queue[i]) == q[j];
        assert(seen.contains(q[k]));
    }
}

/// The cells next to the region of `start` that hold something other than
/// a group marker, each once, with its semantic value (tile id minus one).
/// The region is `start` and every group-marker tile reached from it across
/// edges through group markers; each coordinate is looked at once, so the
/// search ends on any layout, cycles included.
pub fn get_connected_spawners(chunks: &[Chunk], start: Cell) -> (r: Vec<(Cell, i32)>)
    ensures
        forall|k: int|
            0 <= k < r@.len() ==> on_border(chunks@, pos(start), pos((#[trigger] r@[k]).0))
                && r@[k].1 == value(chunks@, pos(r@[k].0)),
        forall|p: (int, int)|
            on_border(chunks@, pos(start), p) ==> exists|k: int|
                0 <= k < r@.len() && pos((#[trigger] r@[k]).0) == p,
        forall|i: int, j: int| 0 <= i < j < r@.len() ==> r@[i].0 != r@[j].0,
{
    let ghost layer = chunks@;
    let ghost s = pos(start);
    let mut visited: Vec<Cell> = Vec::new();
    let mut queue: Vec<Cell> = Vec::new();
    queue.push(start);
    let mut result: Vec<(Cell, i32)> = Vec::new();
    let ghost mut seen: Set<(int, int)> = Set::empty();
    let mut head: usize = 0;
    proof {
        lemma_cell_range();
        lemma_start_in_region(layer, s);
        assert(pos(queue@[0]) == s);
    }
    while head < queue.len()
        invariant
            layer == chunks@,
            s == pos(start),
            fill_inv(layer, s, visited@, queue@, head as int, result@, seen),
            cell_range().finite(),
        decreases 2 * (cell_range().len() - seen.len()) + queue@.len() - head,
    {
        proof {
            lemma_len_subset(seen, cell_range());
        }
        let ghost m0 = 2 * (cell_range().len() - seen.len()) + queue@.len() - head;
        let c = queue[head];
        let mut d: usize = 0;
        while d < 4
            invariant
                layer == chunks@,
                s == pos(start),
                0 <= d <= 4,
                head < queue@.len(),
                c == queue@[head as int],
                fill_inv(layer, s, visited@, queue@, head as int, result@, seen),
                cell_range().finite(),
                forall|e: int|
                    0 <= e < d && present(layer, (c.0 + (#[trigger] dir(e)).0, c.1 + dir(e).1))
                        ==> seen.contains((c.0 + dir(e).0, c.1 + dir(e).1)),
                2 * (cell_range().len() - seen.len()) + queue@.len() - head <= m0,
                seen.len() <= cell_range().len(),
            decreases 4 - d,
        {
            let (dx, dy): (i32, i32) = if d == 0 {
                (0, 1)
            } else if d == 1 {
                (0, -1)
            } else if d == 2 {
                (1, 0)
            } else {
                (-1, 0)
            };
            assert((dx as int, dy as int) == dir(d as int));
            let nx: i32 = c.0 as i32 + dx;
            let ny: i32 = c.1 as i32 + dy;
            let t = get_tile(chunks, nx, ny);
            if t != 0 {
                proof {
                    lemma_present_in_range(layer, nx as int, ny as int);
                }
                let n: Cell = (nx as i16, ny as i16);
                if !holds_cell(&visited, n) {
                    proof {
                        if seen.contains(pos(n)) {
                            let i = choose|i: int|
                                0 <= i < visited@.len() && pos(#[trigger] visited@[i]) == pos(n);
                            assert(visited@[i] == n);
                        }
                        lemma_fill_visit(layer, s, visited@, queue@, head as int, result@, seen, n);
                        lemma_len_subset(seen.insert(pos(n)), cell_range());
                    }
                    visited.push(n);
                    proof {
                        seen = seen.insert(pos(n));
                    }
                    let v: i32 = t as i32 - 1;
                    if v == GROUP_MARKER as i32 {
                        queue.push(n);
                    } else {
                        result.push((n, v));
                    }
                }
            }
            d += 1;
        }
        proof {
            assert forall|i: int, n: (int, int)|
                0 <= i < head + 1 && adjacent4(pos(#[trigger] queue@[i]), n) && present(layer, n)
                    implies #[trigger] seen.contains(n) by {
                if i == head {
                    let d0 = dir(0);
                    let d1 = dir(1);
                    let d2 = dir(2);
                    let d3 = dir(3);
                    if n == (c.0 + d0.0, c.1 + d0.1) {
                    } else if n == (c.0 + d1.0, c.1 + d1.1) {
                    } else if n == (c.0 + d2.0, c.1 + d2.1) {
                    } else {
                        assert(n == (c.0 + d3.0, c.1 + d3.1));
                    }
                }
            }
        }
        head += 1;
    }
    proof {
        assert forall|p: (int, int)| on_border(layer, s, p) implies exists|k: int|
            0 <= k < result@.len() && pos((#[trigger] result@[k]).0) == p by {
            let c = choose|c: (int, int)| #[trigger] in_region(layer, s, c) && adjacent4(c, p);
            let q = choose|q: Seq<(int, int)>| #[trigger] group_walk(layer, s, q) && q.last() == c;
            lemma_fill_complete(layer, s, visited@, queue@, result@, seen, q, q.len() - 1);
            let i = choose|i: int| 0 <= i < queue@.len() && pos(#[trigger] queue@[i]) == q[q.len() - 1];
            assert(seen.contains(p));
        }
    }
    result
}

} // verus!
