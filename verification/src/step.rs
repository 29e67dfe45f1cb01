//! The step function: one tick of the guard's movement.  The guard
//! tries to walk one cell forward; an obstacle ahead makes it rotate
//! clockwise and retry, at most once per direction.

use vstd::prelude::*;
use crate::room::{
    Direction, Pos, Room, RoomSpace, TrailStep, cell_at, grid_rect, in_bounds,
};

verus! {

/// The clockwise rotation order: Up, Right, Down, Left, Up.
pub open spec fn turn_right_spec(d: Direction) -> Direction {
    match d {
        Direction::Up => Direction::Right,
        Direction::Right => Direction::Down,
        Direction::Down => Direction::Left,
        Direction::Left => Direction::Up,
    }
}

/// Rotate a facing 90 degrees clockwise.
pub fn turn_right(d: Direction) -> (r: Direction)
    ensures
        r == turn_right_spec(d),
{
    match d {
        Direction::Up => Direction::Right,
        Direction::Right => Direction::Down,
        Direction::Down => Direction::Left,
        Direction::Left => Direction::Up,
    }
}

/// The cell one step ahead of `p` facing `d`, or `None` at the grid edge.
pub open spec fn forward_spec(g: Seq<Seq<RoomSpace>>, p: Pos, d: Direction) -> Option<Pos> {
    match d {
        Direction::Up => if p.y > 0 {
            Some(Pos { x: p.x, y: (p.y - 1) as usize })
        } else {
            None
        },
        Direction::Down => if p.y < usize::MAX && p.y + 1 < g[p.x as int].len() {
            Some(Pos { x: p.x, y: (p.y + 1) as usize })
        } else {
            None
        },
        Direction::Right => if p.x < usize::MAX && p.x + 1 < g.len() {
            Some(Pos { x: (p.x + 1) as usize, y: p.y })
        } else {
            None
        },
        Direction::Left => if p.x > 0 {
            Some(Pos { x: (p.x - 1) as usize, y: p.y })
        } else {
            None
        },
    }
}

/// A forward cell computed from an in-bounds position is in bounds.
pub proof fn lemma_forward_in_bounds(g: Seq<Seq<RoomSpace>>, p: Pos, d: Direction)
    requires
        grid_rect(g),
        in_bounds(g, p),
        forward_spec(g, p, d) is Some,
    ensures
        in_bounds(g, forward_spec(g, p, d)->Some_0),
{
    let q = forward_spec(g, p, d)->Some_0;
    assert(g[p.x as int].len() == g[0].len());
    assert(g[q.x as int].len() == g[0].len());
}

/// The cell ahead of `pos` in direction `dir`, or `None` at the edge.
pub fn get_newspace(room: &Room, pos: Pos, dir: Direction) -> (r: Option<Pos>)
    requires
        room.wf(),
        in_bounds(room.grid_view(), pos),
    ensures
        r == forward_spec(room.grid_view(), pos, dir),
{
    match dir {
        Direction::Up => if pos.y > 0 {
            Some(Pos { x: pos.x, y: pos.y - 1 })
        } else {
            None
        },
        Direction::Down => {
            let len = self_col_len(room, pos.x);
            if pos.y < len - 1 {
                Some(Pos { x: pos.x, y: pos.y + 1 })
            } else {
                None
            }
        },
        Direction::Right => {
            let w = room.width();
            if pos.x < w - 1 {
                Some(Pos { x: pos.x + 1, y: pos.y })
            } else {
                None
            }
        },
        Direction::Left => if pos.x > 0 {
            Some(Pos { x: pos.x - 1, y: pos.y })
        } else {
            None
        },
    }
}

/// Length of one column of the grid.
fn self_col_len(room: &Room, x: usize) -> (n: usize)
    requires
        x < room.grid_view().len(),
    ensures
        n == room.grid_view()[x as int].len(),
{
    room.grid[x].len()
}

/// What the bounded clockwise search ahead of the guard finds.
#[derive(Clone, Copy, PartialEq, Eq, Structural, Debug)]
pub enum Probe {
    /// The forward cell lies outside the grid.
    Exit,
    /// The first free forward cell, with the facing that reaches it.
    Free(Direction, Pos),
    /// Every allowed try hit an obstacle.
    Blocked,
}

/// Search for a free forward cell, rotating clockwise after each
/// obstacle, with at most `tries` directions considered.
pub open spec fn lookup_spec(g: Seq<Seq<RoomSpace>>, p: Pos, d: Direction, tries: nat) -> Probe
    decreases tries,
{
    if tries == 0 {
        Probe::Blocked
    } else {
        match forward_spec(g, p, d) {
            None => Probe::Exit,
            Some(q) => if cell_at(g, q) is Obstacle {
                lookup_spec(g, p, turn_right_spec(d), (tries - 1) as nat)
            } else {
                Probe::Free(d, q)
            },
        }
    }
}

/// A free cell reported by the search is in bounds, is not an
/// obstacle, and lies one step ahead in the reported direction.
pub proof fn lemma_lookup_free(g: Seq<Seq<RoomSpace>>, p: Pos, d: Direction, tries: nat)
    requires
        grid_rect(g),
        in_bounds(g, p),
        lookup_spec(g, p, d, tries) is Free,
    ensures
        ({
            let q = lookup_spec(g, p, d, tries)->Free_1;
            let d2 = lookup_spec(g, p, d, tries)->Free_0;
            &&& in_bounds(g, q)
            &&& !(cell_at(g, q) is Obstacle)
            &&& forward_spec(g, p, d2) == Some(q)
        }),
    decreases tries,
{
    if tries > 0 {
        match forward_spec(g, p, d) {
            None => {},
            Some(q) => {
                if cell_at(g, q) is Obstacle {
                    lemma_lookup_free(g, p, turn_right_spec(d), (tries - 1) as nat);
                } else {
                    lemma_forward_in_bounds(g, p, d);
                }
            },
        }
    }
}

fn lookup(room: &Room, p: Pos, d: Direction, tries: usize) -> (r: Probe)
    requires
        room.wf(),
        in_bounds(room.grid_view(), p),
    ensures
        r == lookup_spec(room.grid_view(), p, d, tries as nat),
    decreases tries,
{
    if tries == 0 {
        Probe::Blocked
    } else {
        match get_newspace(room, p, d) {
            None => Probe::Exit,
            Some(q) => {
                proof {
                    lemma_forward_in_bounds(room.grid_view(), p, d);
                }
                if room.space_at(q) == RoomSpace::Obstacle {
                    lookup(room, p, turn_right(d), tries - 1)
                } else {
                    Probe::Free(d, q)
                }
            },
        }
    }
}

/// The result of one tick: the guard leaves the grid, is walled in on
/// all four sides, or occupies a next state.
#[derive(Clone, Copy, PartialEq, Eq, Structural, Debug)]
pub enum StepOutcome {
    Exited,
    Trapped,
    Moved(TrailStep),
}

/// One tick from state `s`: a free cell straight ahead is entered; a
/// free cell found after turning only changes the facing; leaving the
/// grid or being walled in ends the patrol.
pub open spec fn step_spec(g: Seq<Seq<RoomSpace>>, s: TrailStep) -> StepOutcome {
    match lookup_spec(g, s.pos, s.dir, 4) {
        Probe::Exit => StepOutcome::Exited,
        Probe::Blocked => StepOutcome::Trapped,
        Probe::Free(d, q) => StepOutcome::Moved(
            if d == s.dir {
                TrailStep { dir: d, pos: q }
            } else {
                TrailStep { dir: d, pos: s.pos }
            },
        ),
    }
}

/// A search that came back with a facing other than the one it
/// started with turned at least once, so some cell holds an obstacle.
pub proof fn lemma_lookup_turn_obstacle(g: Seq<Seq<RoomSpace>>, p: Pos, d: Direction, tries: nat)
    requires
        grid_rect(g),
        in_bounds(g, p),
        lookup_spec(g, p, d, tries) is Free,
        lookup_spec(g, p, d, tries)->Free_0 != d,
    ensures
        exists|q: Pos| #[trigger] in_bounds(g, q) && cell_at(g, q) is Obstacle,
{
    assert(tries > 0);
    match forward_spec(g, p, d) {
        None => {
            assert(false);
        },
        Some(q0) => {
            if cell_at(g, q0) is Obstacle {
                lemma_forward_in_bounds(g, p, d);
                assert(in_bounds(g, q0) && cell_at(g, q0) is Obstacle);
            } else {
                assert(lookup_spec(g, p, d, tries)->Free_0 == d);
                assert(false);
            }
        },
    }
}

/// A state reached by one tick is in bounds, does not stand on an
/// obstacle if the old state did not, and differs from the old state.
pub proof fn lemma_step_moved(g: Seq<Seq<RoomSpace>>, s: TrailStep)
    requires
        grid_rect(g),
        in_bounds(g, s.pos),
        step_spec(g, s) is Moved,
    ensures
        ({
            let t = step_spec(g, s)->Moved_0;
            &&& in_bounds(g, t.pos)
            &&& t != s
            &&& (!(cell_at(g, s.pos) is Obstacle) ==> !(cell_at(g, t.pos) is Obstacle))
        }),
{
    lemma_lookup_free(g, s.pos, s.dir, 4);
    let t = step_spec(g, s)->Moved_0;
    let d2 = lookup_spec(g, s.pos, s.dir, 4)->Free_0;
    let q = lookup_spec(g, s.pos, s.dir, 4)->Free_1;
    if d2 == s.dir {
        // the guard moved one cell ahead, so the position changed
        assert(forward_spec(g, s.pos, d2) == Some(q));
        assert(q != s.pos) by {
            match d2 {
                Direction::Up => assert(q.y != s.pos.y),
                Direction::Down => assert(q.y != s.pos.y),
                Direction::Right => assert(q.x != s.pos.x),
                Direction::Left => assert(q.x != s.pos.x),
            }
        }
    }
}

/// A tick that kept its facing moved one cell ahead in that facing.
pub proof fn lemma_step_straight(g: Seq<Seq<RoomSpace>>, s: TrailStep)
    requires
        grid_rect(g),
        in_bounds(g, s.pos),
        step_spec(g, s) is Moved,
        (step_spec(g, s)->Moved_0).dir == s.dir,
    ensures
        forward_spec(g, s.pos, s.dir) == Some((step_spec(g, s)->Moved_0).pos),
{
    lemma_lookup_free(g, s.pos, s.dir, 4);
}

/// A tick that changed its facing saw an obstacle, so the grid holds
/// at least one.
pub proof fn lemma_step_turn_obstacle(g: Seq<Seq<RoomSpace>>, s: TrailStep)
    requires
        grid_rect(g),
        in_bounds(g, s.pos),
        step_spec(g, s) is Moved,
        (step_spec(g, s)->Moved_0).dir != s.dir,
    ensures
        exists|q: Pos| #[trigger] in_bounds(g, q) && cell_at(g, q) is Obstacle,
{
    lemma_lookup_turn_obstacle(g, s.pos, s.dir, 4);
}

/// Advance the guard by one tick.
pub fn step(room: &Room, s: TrailStep) -> (r: StepOutcome)
    requires
        room.wf(),
        in_bounds(room.grid_view(), s.pos),
    ensures
        r == step_spec(room.grid_view(), s),
{
    match lookup(room, s.pos, s.dir, 4) {
        Probe::Exit => StepOutcome::Exited,
        Probe::Blocked => StepOutcome::Trapped,
        Probe::Free(d, q) => if d == s.dir {
            StepOutcome::Moved(TrailStep { dir: d, pos: q })
        } else {
            StepOutcome::Moved(TrailStep { dir: d, pos: s.pos })
        },
    }
}

} // verus!
