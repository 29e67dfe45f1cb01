//! Simulation records and their containers: one `Guard` per run, the
//! per-room collection of runs, and the collection of rooms.

use vstd::prelude::*;
use crate::room::Pos;
use crate::room::Room;
use crate::sim::Trail;
use crate::room::TrailStep;
use vstd::multiset::Multiset;

verus! {

/// The record of one simulation run: its trail, the obstacle placed
/// for it (none for the baseline run), its loop verdict, a replay
/// cursor, and the index that ties it back to its candidate.
#[derive(Debug)]
pub struct Guard {
    pub trail: Trail,
    pub obstacle: Option<Pos>,
    pub is_loop: bool,
    pub trail_idx: usize,
    pub display_index: usize,
}

impl Guard {
    /// A fresh record with its cursor at the start of the trail.
    pub fn new(trail: Trail, obstacle: Option<Pos>, is_loop: bool, display_index: usize) -> (g:
        Guard)
        ensures
            g.trail == trail,
            g.obstacle == obstacle,
            g.is_loop == is_loop,
            g.trail_idx == 0,
            g.display_index == display_index,
    {
        Guard { trail, obstacle, is_loop, trail_idx: 0, display_index }
    }

    /// Move the cursor one state back and report the state it lands
    /// on; at the start, or past the end, nothing happens.
    pub fn retreat(&mut self) -> (r: Option<TrailStep>)
        ensures
            final(self).trail == old(self).trail,
            final(self).obstacle == old(self).obstacle,
            final(self).is_loop == old(self).is_loop,
            final(self).display_index == old(self).display_index,
            if old(self).trail_idx < old(self).trail@.len() && old(self).trail_idx > 0 {
                &&& final(self).trail_idx == old(self).trail_idx - 1
                &&& r == Some(old(self).trail@[old(self).trail_idx - 1])
            } else {
                &&& final(self).trail_idx == old(self).trail_idx
                &&& r is None
            },
    {
        if self.trail_idx < self.trail.len() && self.trail_idx > 0 {
            self.trail_idx = self.trail_idx - 1;
            Some(self.trail.get(self.trail_idx))
        } else {
            None
        }
    }

    /// Move the cursor one state forward and report the state it
    /// lands on; the last state reports itself, and past the end
    /// nothing happens.
    pub fn advance(&mut self) -> (r: Option<TrailStep>)
        ensures
            final(self).trail == old(self).trail,
            final(self).obstacle == old(self).obstacle,
            final(self).is_loop == old(self).is_loop,
            final(self).display_index == old(self).display_index,
            if old(self).trail_idx < old(self).trail@.len() {
                &&& final(self).trail_idx == old(self).trail_idx + 1
                &&& r == Some(
                    if old(self).trail_idx + 1 < old(self).trail@.len() {
                        old(self).trail@[old(self).trail_idx + 1]
                    } else {
                        old(self).trail@[old(self).trail_idx as int]
                    },
                )
            } else {
                &&& final(self).trail_idx == old(self).trail_idx
                &&& r is None
            },
    {
        if self.trail_idx < self.trail.len() {
            let pos = self.trail.get(self.trail_idx);
            self.trail_idx = self.trail_idx + 1;
            if self.trail_idx < self.trail.len() {
                Some(self.trail.get(self.trail_idx))
            } else {
                Some(pos)
            }
        } else {
            None
        }
    }

    /// The state under the cursor; a cursor past the end reports the
    /// final state, and an empty trail has no state at all.
    pub fn get_loc(&self) -> (r: Option<TrailStep>)
        ensures
            r == (if self.trail_idx < self.trail@.len() {
                Some(self.trail@[self.trail_idx as int])
            } else if self.trail@.len() > 0 {
                Some(self.trail@[self.trail@.len() - 1])
            } else {
                None
            }),
    {
        if self.trail_idx < self.trail.len() {
            Some(self.trail.get(self.trail_idx))
        } else {
            self.trail.last()
        }
    }

    /// Put the cursor back at the start of the trail.
    pub fn reset(&mut self)
        ensures
            final(self).trail == old(self).trail,
            final(self).obstacle == old(self).obstacle,
            final(self).is_loop == old(self).is_loop,
            final(self).display_index == old(self).display_index,
            final(self).trail_idx == 0,
    {
        self.trail_idx = 0;
    }
}

/// The records of every run made on one room.
pub struct AllGuards {
    pub guards: Vec<Guard>,
}

/// Records ordered by their display index.
pub open spec fn sorted_by_display(s: Seq<Guard>) -> bool {
    forall|i: int, j: int|
        0 <= i <= j < s.len() ==> #[trigger] s[i].display_index <= #[trigger] s[j].display_index
}

impl AllGuards {
    /// An empty collection.
    pub fn new() -> (r: AllGuards)
        ensures
            r.guards@ == Seq::<Guard>::empty(),
    {
        let r = AllGuards { guards: Vec::new() };
        proof {
            assert(r.guards@ =~= Seq::<Guard>::empty());
        }
        r
    }

    /// Number of records.
    pub fn len(&self) -> (n: usize)
        ensures
            n == self.guards@.len(),
    {
        self.guards.len()
    }

    /// The record at index `i`.
    pub fn get(&self, i: usize) -> (g: &Guard)
        requires
            i < self.guards@.len(),
        ensures
            *g == self.guards@[i as int],
    {
        &self.guards[i]
    }

    /// Append a record.
    pub fn push(&mut self, g: Guard)
        ensures
            final(self).guards@ == old(self).guards@.push(g),
    {
        self.guards.push(g);
    }

    /// Reorder the records by display index, keeping exactly the same
    /// records.
    pub fn sort_by_idx(&mut self)
        ensures
            final(self).guards@.to_multiset() == old(self).guards@.to_multiset(),
            sorted_by_display(final(self).guards@),
    {
        broadcast use vstd::multiset::group_multiset_axioms;

        let ghost orig = self.guards@;
        let mut out: Vec<Guard> = Vec::new();
        proof {
            out@.to_multiset_ensures();
            vstd::multiset::lemma_multiset_empty_len::<Guard>(out@.to_multiset());
            assert(out@.to_multiset() =~= Multiset::<Guard>::empty());
            assert(out@.to_multiset().add(self.guards@.to_multiset()) =~= orig.to_multiset());
        }
        while self.guards.len() > 0
            invariant
                out@.to_multiset().add(self.guards@.to_multiset()) == orig.to_multiset(),
                sorted_by_display(out@),
                forall|i: int, j: int|
                    0 <= i < out@.len() && 0 <= j < self.guards@.len()
                        ==> #[trigger] out@[i].display_index
                        <= #[trigger] self.guards@[j].display_index,
            decreases self.guards@.len(),
        {
            let mut m: usize = 0;
            let mut i: usize = 1;
            while i < self.guards.len()
                invariant
                    m < i <= self.guards@.len(),
                    forall|k: int|
                        0 <= k < i ==> self.guards@[m as int].display_index
                            <= (#[trigger] self.guards@[k]).display_index,
                decreases self.guards@.len() - i,
            {
                if self.guards[i].display_index < self.guards[m].display_index {
                    m = i;
                }
                i = i + 1;
            }
            let ghost before = self.guards@;
            let g = self.guards.remove(m);
            let ghost out_before = out@;
            out.push(g);
            proof {
                out_before.to_multiset_ensures();
                before.to_multiset_ensures();
                assert(out@ == out_before.push(g));
                assert(out@.to_multiset() =~= out_before.to_multiset().insert(g));
                assert(self.guards@ == before.remove(m as int));
                assert(self.guards@.to_multiset() =~= before.to_multiset().remove(
                    before[m as int],
                ));
                assert(before.to_multiset().contains(g)) by {
                    assert(before[m as int] == g);
                    assert(before.contains(g));
                }
                assert(out@.to_multiset().add(self.guards@.to_multiset()) =~= orig.to_multiset());
                assert forall|j: int| 0 <= j < self.guards@.len() implies g.display_index <= (
                #[trigger] self.guards@[j]).display_index by {
                    if j < m {
                        assert(self.guards@[j] == before[j]);
                    } else {
                        assert(self.guards@[j] == before[j + 1]);
                    }
                }
            }
        }
        proof {
            self.guards@.to_multiset_ensures();
            vstd::multiset::lemma_multiset_empty_len::<Guard>(self.guards@.to_multiset());
            assert(self.guards@.to_multiset() =~= Multiset::<Guard>::empty());
            assert(out@.to_multiset() =~= orig.to_multiset());
        }
        self.guards = out;
    }
}

/// Whether every candidate evaluation of a room has arrived: the
/// collection then holds at least one record per candidate, plus the
/// baseline.
pub fn p2_loaded(room: &Room, guards: &AllGuards) -> (b: bool)
    ensures
        b == (room.to_check@.len() <= guards.guards@.len()),
{
    room.to_check.len() <= guards.guards.len()
}

/// Every room the application has loaded, each with the records of
/// its runs.
pub struct AllRooms {
    pub rooms: Vec<(Room, AllGuards)>,
}

impl AllRooms {
    /// An empty collection.
    pub fn new() -> (r: AllRooms)
        ensures
            r.rooms@ == Seq::<(Room, AllGuards)>::empty(),
    {
        let r = AllRooms { rooms: Vec::new() };
        proof {
            assert(r.rooms@ =~= Seq::<(Room, AllGuards)>::empty());
        }
        r
    }

    /// Append a room with its records.
    pub fn push(&mut self, entry: (Room, AllGuards))
        ensures
            final(self).rooms@ == old(self).rooms@.push(entry),
    {
        self.rooms.push(entry);
    }

    /// The first entry whose room carries the given index, or `None`
    /// when no index was asked for or none matches.
    pub fn get_room(&self, room_idx: Option<usize>) -> (r: Option<&(Room, AllGuards)>)
        ensures
            match room_idx {
                None => r is None,
                Some(idx) => match r {
                    Some(entry) => exists|i: int|
                        0 <= i < self.rooms@.len() && #[trigger] self.rooms@[i] == *entry
                            && entry.0.index == idx,
                    None => forall|i: int|
                        0 <= i < self.rooms@.len() ==> (#[trigger] self.rooms@[i]).0.index != idx,
                },
            },
    {
        match room_idx {
            None => None,
            Some(idx) => {
                let mut i: usize = 0;
                while i < self.rooms.len()
                    invariant
                        room_idx == Some(idx),
                        i <= self.rooms@.len(),
                        forall|k: int|
                            0 <= k < i ==> (#[trigger] self.rooms@[k]).0.index != idx,
                    decreases self.rooms@.len() - i,
                {
                    if self.rooms[i].0.index == idx {
                        let entry = &self.rooms[i];
                        proof {
                            assert(*entry == self.rooms@[i as int]);
                            assert(entry.0.index == idx);
                        }
                        return Some(entry);
                    }
                    i = i + 1;
                }
                None
            },
        }
    }
}

} // verus!
