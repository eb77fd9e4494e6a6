use vstd::prelude::*;

use crate::region::{is_group, Cell, GROUP_MARKER};
use crate::world::{entities_distinct, get_tile, TileEntity, World};

verus! {

/// Semantic value of a door wired to a trigger region.
pub const DOOR_MARKER: i16 = 64;

/// First semantic value of an enemy spawner; spawner `v` makes enemy kind `v - 96`.
pub const SPAWNER_FIRST: i16 = 96;

/// One past the last semantic value of an enemy spawner.
pub const SPAWNER_END: i16 = 111;

/// What a wired cell does when its trigger region is entered.
#[derive(Clone, Copy, Debug, PartialEq, Eq, Structural)]
pub enum Trigger {
    /// Spawn an enemy of kind `kind` on cell `(x, y)`.
    SpawnEnemy { x: i16, y: i16, kind: u8 },
    /// Remove the tile entity (the door) on cell `(x, y)`.
    OpenDoor { x: i16, y: i16 },
}

/// The triggers fired by the wired cells `found`, in order: cells listed in
/// `spawned` are skipped, spawners spawn, doors open when `doors_may_open`.
/// `Err` carries the first wired cell with any other value.
pub open spec fn triggers_spec(found: Seq<(Cell, i32)>, spawned: Seq<Cell>, doors_may_open: bool) -> Result<
    Seq<Trigger>,
    (Cell, i32),
>
    decreases found.len(),
{
    if found.len() == 0 {
        Ok(Seq::empty())
    } else {
        match triggers_spec(found.drop_last(), spawned, doors_may_open) {
            Err(e) => Err(e),
            Ok(s) => {
                let (c, v) = found.last();
                if spawned.contains(c) {
                    Ok(s)
                } else if SPAWNER_FIRST <= v < SPAWNER_END {
                    Ok(s.push(Trigger::SpawnEnemy { x: c.0, y: c.1, kind: (v - SPAWNER_FIRST) as u8 }))
                } else if v == DOOR_MARKER {
                    if doors_may_open {
                        Ok(s.push(Trigger::OpenDoor { x: c.0, y: c.1 }))
                    } else {
                        Ok(s)
                    }
                } else {
                    Err((c, v))
                }
            },
        }
    }
}

proof fn lemma_error_persists(found: Seq<(Cell, i32)>, spawned: Seq<Cell>, doors_may_open: bool, n: int)
    requires
        0 <= n <= found.len(),
        triggers_spec(found.subrange(0, n), spawned, doors_may_open) is Err,
    ensures
        triggers_spec(found, spawned, doors_may_open) == triggers_spec(
            found.subrange(0, n),
            spawned,
            doors_may_open,
        ),
    decreases found.len() - n,
{
    if n < found.len() {
        assert(found.subrange(0, n + 1).drop_last() =~= found.subrange(0, n));
        lemma_error_persists(found, spawned, doors_may_open, n + 1);
    } else {
        assert(found.subrange(0, n) =~= found);
    }
}

fn holds(spawned: &Vec<Cell>, c: Cell) -> (r: bool)
    ensures
        r == spawned@.contains(c),
{
    let mut i: usize = 0;
    while i < spawned.len()
        invariant
            0 <= i <= spawned@.len(),
            forall|j: int| 0 <= j < i ==> spawned@[j] != c,
        decreases spawned@.len() - i,
    {
        if spawned[i].0 == c.0 && spawned[i].1 == c.1 {
            assert(spawned@[i as int] == c);
            return true;
        }
        i += 1;
    }
    false
}

/// The triggers fired by the wired cells `found` (see `triggers_spec`).
pub fn spawner_triggers(found: &Vec<(Cell, i32)>, spawned: &Vec<Cell>, doors_may_open: bool) -> (r:
    Result<Vec<Trigger>, (Cell, i32)>)
    ensures
        match (r, triggers_spec(found@, spawned@, doors_may_open)) {
            (Ok(v), Ok(s)) => v@ == s,
            (Err(e), Err(f)) => e == f,
            _ => false,
        },
{
    let mut out: Vec<Trigger> = Vec::new();
    let mut i: usize = 0;
    while i < found.len()
        invariant
            0 <= i <= found@.len(),
            triggers_spec(found@.subrange(0, i as int), spawned@, doors_may_open) == Ok::<
                Seq<Trigger>,
                (Cell, i32),
            >(out@),
        decreases found@.len() - i,
    {
        let (c, v) = found[i];
        proof {
            assert(found@.subrange(0, i + 1).drop_last() =~= found@.subrange(0, i as int));
            assert(found@.subrange(0, i + 1).last() == found@[i as int]);
        }
        if holds(spawned, c) {
        } else if SPAWNER_FIRST as i32 <= v && v < SPAWNER_END as i32 {
            out.push(Trigger::SpawnEnemy { x: c.0, y: c.1, kind: (v - SPAWNER_FIRST as i32) as u8 });
        } else if v == DOOR_MARKER as i32 {
            if doors_may_open {
                out.push(Trigger::OpenDoor { x: c.0, y: c.1 });
            }
        } else {
            proof {
                lemma_error_persists(found@, spawned@, doors_may_open, i + 1);
            }
            return Err((c, v));
        }
        i += 1;
    }
    assert(found@.subrange(0, found@.len() as int) =~= found@);
    Ok(out)
}

/// Whether the interactable tile at `(x, y)` is a group marker, the tile
/// that sets off the region it belongs to.
pub fn on_group_marker(layer: &[crate::chunk::Chunk], x: i32, y: i32) -> (r: bool)
    ensures
        r == is_group(layer@, (x as int, y as int)),
{
    let t = get_tile(layer, x, y);
    t > 0 && t - 1 == GROUP_MARKER
}

/// The entity is not on tile `(x, y)`.
pub open spec fn not_at(x: i16, y: i16) -> spec_fn(TileEntity) -> bool {
    |e: TileEntity| !(e.x == x && e.y == y)
}

impl World {
    /// Removes the tile entity at tile `(x, y)`, if there is one.
    pub fn remove_tile_entity(&mut self, x: i16, y: i16)
        requires
            old(self).wf(),
        ensures
            final(self).wf(),
            final(self).tile_entities@ == old(self).tile_entities@.filter(not_at(x, y)),
            final(self).collision@ == old(self).collision@,
            final(self).details@ == old(self).details@,
            final(self).background@ == old(self).background@,
            final(self).interactable@ == old(self).interactable@,
            final(self).x_min == old(self).x_min,
            final(self).x_max == old(self).x_max,
            final(self).y_min == old(self).y_min,
            final(self).y_max == old(self).y_max,
    {
        let ghost keep = not_at(x, y);
        let mut kept: Vec<TileEntity> = Vec::new();
        let ghost mut idx: Seq<int> = Seq::empty();
        let mut i: usize = 0;
        while i < self.tile_entities.len()
            invariant
                0 <= i <= self.tile_entities@.len(),
                self.tile_entities@ == old(self).tile_entities@,
                keep == not_at(x, y),
                entities_distinct(self.tile_entities@),
                kept@ == self.tile_entities@.subrange(0, i as int).filter(keep),
                idx.len() == kept@.len(),
                forall|k: int|
                    0 <= k < kept@.len() ==> 0 <= #[trigger] idx[k] < i && kept@[k]
                        == self.tile_entities@[idx[k]],
                entities_distinct(kept@),
            decreases self.tile_entities@.len() - i,
        {
            let e = self.tile_entities[i];
            proof {
                let s = self.tile_entities@;
                assert(s.subrange(0, i + 1) =~= s.subrange(0, i as int).push(s[i as int]));
                s.subrange(0, i as int).lemma_filter_push(s[i as int], keep);
            }
            if !(e.x == x && e.y == y) {
                let ghost old_kept = kept@;
                kept.push(e);
                proof {
                    idx = idx.push(i as int);
                    assert forall|a: int, b: int|
                        0 <= a < kept@.len() && 0 <= b < kept@.len() && a != b implies !(kept@[a].x
                        == kept@[b].x && kept@[a].y == kept@[b].y) by {
                        if a < old_kept.len() && b < old_kept.len() {
                            assert(kept@[a] == old_kept[a] && kept@[b] == old_kept[b]);
                        } else if a < old_kept.len() {
                            assert(kept@[a] == self.tile_entities@[idx[a]]);
                        } else {
                            assert(kept@[b] == self.tile_entities@[idx[b]]);
                        }
                    }
                }
            }
            i += 1;
        }
        proof {
            let s = self.tile_entities@;
            assert(s.subrange(0, s.len() as int) =~= s);
        }
        self.tile_entities = kept;
    }
}

} // verus!
