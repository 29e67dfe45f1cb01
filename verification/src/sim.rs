//! The simulation and loop detector: repeatedly apply the step
//! function, record every state in a trail, and stop when the guard
//! leaves the grid, is walled in, or re-enters a recorded state.

use vstd::prelude::*;
use vstd::seq_lib::*;
use vstd::set_lib::{lemma_len_subset, lemma_int_range, set_int_range};
use crate::room::{
    Direction, Pos, Room, RoomSpace, TrailStep, cell_at, grid_height, grid_rect, in_bounds,
};
use crate::step::{
    StepOutcome, forward_spec, lemma_step_moved, lemma_step_straight, lemma_step_turn_obstacle,
    step, step_spec,
};

verus! {

/// The ordered sequence of states one patrol occupied.
#[derive(Debug)]
pub struct Trail {
    pub steps: Vec<TrailStep>,
}

impl View for Trail {
    type V = Seq<TrailStep>;

    open spec fn view(&self) -> Seq<TrailStep> {
        self.steps@
    }
}

impl Trail {
    /// An empty trail.
    pub fn new() -> (t: Trail)
        ensures
            t@ == Seq::<TrailStep>::empty(),
    {
        let t = Trail { steps: Vec::new() };
        proof {
            assert(t@ =~= Seq::<TrailStep>::empty());
        }
        t
    }

    /// Number of recorded states.
    pub fn len(&self) -> (n: usize)
        ensures
            n == self@.len(),
    {
        self.steps.len()
    }

    /// The state at index `i`.
    pub fn get(&self, i: usize) -> (s: TrailStep)
        requires
            i < self@.len(),
        ensures
            s == self@[i as int],
    {
        self.steps[i]
    }

    /// The most recently recorded state.
    pub fn last(&self) -> (r: Option<TrailStep>)
        ensures
            match r {
                Some(s) => self@.len() > 0 && s == self@[self@.len() - 1],
                None => self@.len() == 0,
            },
    {
        if self.steps.len() == 0 {
            None
        } else {
            Some(self.steps[self.steps.len() - 1])
        }
    }

    /// Append a state.
    pub fn push(&mut self, s: TrailStep)
        ensures
            final(self)@ == old(self)@.push(s),
    {
        self.steps.push(s);
    }

    /// Whether the trail records state `s`.
    pub fn contains(&self, s: TrailStep) -> (b: bool)
        ensures
            b == self@.contains(s),
    {
        let mut i: usize = 0;
        while i < self.steps.len()
            invariant
                i <= self.steps.len(),
                forall|k: int| 0 <= k < i ==> self.steps@[k] != s,
            decreases self.steps.len() - i,
        {
            if self.steps[i] == s {
                return true;
            }
            i = i + 1;
        }
        false
    }
}

/// The simulation after `k` ticks: still running in some state, or
/// finished because the guard left the grid or was walled in.
#[derive(Clone, Copy, PartialEq, Eq, Structural, Debug)]
pub enum SimPoint {
    Run(TrailStep),
    DoneExit,
    DoneTrap,
}

/// The state of the patrol of grid `g` from state `s0` after `k` ticks.
pub open spec fn sim_at(g: Seq<Seq<RoomSpace>>, s0: TrailStep, k: nat) -> SimPoint
    decreases k,
{
    if k == 0 {
        SimPoint::Run(s0)
    } else {
        match sim_at(g, s0, (k - 1) as nat) {
            SimPoint::Run(s) => match step_spec(g, s) {
                StepOutcome::Moved(t) => SimPoint::Run(t),
                StepOutcome::Exited => SimPoint::DoneExit,
                StepOutcome::Trapped => SimPoint::DoneTrap,
            },
            SimPoint::DoneExit => SimPoint::DoneExit,
            SimPoint::DoneTrap => SimPoint::DoneTrap,
        }
    }
}

/// The first `n` entries of `t` are pairwise distinct.
pub open spec fn distinct_prefix(t: Seq<TrailStep>, n: int) -> bool {
    forall|i: int, j: int| 0 <= i < j < n ==> t[i] != t[j]
}

/// `trail` and `looped` are exactly what the patrol of grid `g` from
/// state `s0` records: every entry is the running state after as many
/// ticks as its index; a non-looping patrol has pairwise distinct
/// entries and ends in a state whose next tick leaves the grid or is
/// walled in; a looping patrol ends the moment its final entry repeats
/// an earlier one.
pub open spec fn is_sim_trail(
    g: Seq<Seq<RoomSpace>>,
    s0: TrailStep,
    trail: Seq<TrailStep>,
    looped: bool,
) -> bool {
    &&& trail.len() >= 1
    &&& (forall|k: int|
        0 <= k < trail.len() ==> sim_at(g, s0, k as nat) == SimPoint::Run(#[trigger] trail[k]))
    &&& if looped {
        &&& distinct_prefix(trail, trail.len() - 1)
        &&& (exists|j: int|
            0 <= j < trail.len() - 1 && #[trigger] trail[j] == trail[trail.len() - 1])
    } else {
        &&& distinct_prefix(trail, trail.len() as int)
        &&& (step_spec(g, trail[trail.len() - 1]) is Exited || step_spec(
            g,
            trail[trail.len() - 1],
        ) is Trapped)
    }
}

spec fn dir_index(d: Direction) -> int {
    match d {
        Direction::Up => 0,
        Direction::Right => 1,
        Direction::Down => 2,
        Direction::Left => 3,
    }
}

/// An injective numbering of the guard states of grid `g`.
spec fn encode_state(g: Seq<Seq<RoomSpace>>, s: TrailStep) -> int {
    4 * (s.pos.x * grid_height(g) + s.pos.y) + dir_index(s.dir)
}

proof fn lemma_encode_fields(h: int, x1: int, y1: int, d1: int, x2: int, y2: int, d2: int)
    requires
        h > 0,
        0 <= y1 < h,
        0 <= y2 < h,
        0 <= d1 < 4,
        0 <= d2 < 4,
        0 <= x1,
        0 <= x2,
        4 * (x1 * h + y1) + d1 == 4 * (x2 * h + y2) + d2,
    ensures
        x1 == x2 && y1 == y2 && d1 == d2,
{
    assert(x1 * h + y1 == x2 * h + y2 && d1 == d2) by (nonlinear_arith)
        requires
            0 <= d1 < 4,
            0 <= d2 < 4,
            4 * (x1 * h + y1) + d1 == 4 * (x2 * h + y2) + d2,
    ;
    assert(x1 == x2 && y1 == y2) by (nonlinear_arith)
        requires
            h > 0,
            0 <= y1 < h,
            0 <= y2 < h,
            x1 * h + y1 == x2 * h + y2,
    ;
}

proof fn lemma_encode_range(w: int, h: int, x: int, y: int, d: int)
    requires
        0 <= x < w,
        0 <= y < h,
        0 <= d < 4,
    ensures
        0 <= 4 * (x * h + y) + d < 4 * w * h,
{
    assert(0 <= 4 * (x * h + y) + d < 4 * w * h) by (nonlinear_arith)
        requires
            0 <= x < w,
            0 <= y < h,
            0 <= d < 4,
    ;
}

/// Two distinct in-bounds states get distinct numbers.
proof fn lemma_encode_distinct(g: Seq<Seq<RoomSpace>>, s: TrailStep, t: TrailStep)
    requires
        grid_rect(g),
        in_bounds(g, s.pos),
        in_bounds(g, t.pos),
        s != t,
    ensures
        encode_state(g, s) != encode_state(g, t),
{
    let h = grid_height(g) as int;
    assert(g[s.pos.x as int].len() == g[0].len());
    assert(g[t.pos.x as int].len() == g[0].len());
    if encode_state(g, s) == encode_state(g, t) {
        lemma_encode_fields(
            h,
            s.pos.x as int,
            s.pos.y as int,
            dir_index(s.dir),
            t.pos.x as int,
            t.pos.y as int,
            dir_index(t.dir),
        );
        assert(s.dir == t.dir);
        assert(false);
    }
}

/// A grid of `w` columns and height `h` has at most `4 * w * h`
/// distinct guard states, so a sequence of pairwise distinct in-bounds
/// states is no longer than that.
pub proof fn lemma_distinct_states_bounded(g: Seq<Seq<RoomSpace>>, t: Seq<TrailStep>)
    requires
        grid_rect(g),
        distinct_prefix(t, t.len() as int),
        forall|k: int| 0 <= k < t.len() ==> in_bounds(g, (#[trigger] t[k]).pos),
    ensures
        t.len() <= 4 * g.len() * grid_height(g),
{
    let w = g.len() as int;
    let h = grid_height(g) as int;
    let enc = t.map_values(|s: TrailStep| encode_state(g, s));
    assert(enc.len() == t.len());
    assert forall|i: int, j: int|
        0 <= i < enc.len() && 0 <= j < enc.len() && i != j implies enc[i] != enc[j] by {
        assert(t[i] != t[j]);
        lemma_encode_distinct(g, t[i], t[j]);
    }
    assert(enc.no_duplicates());
    enc.unique_seq_to_set();
    assert forall|e: int| enc.to_set().contains(e) implies set_int_range(0, 4 * w * h).contains(
        e,
    ) by {
        let i = choose|i: int| 0 <= i < enc.len() && enc[i] == e;
        assert(g[t[i].pos.x as int].len() == g[0].len());
        lemma_encode_range(w, h, t[i].pos.x as int, t[i].pos.y as int, dir_index(t[i].dir));
    }
    lemma_int_range(0, 4 * w * h);
    lemma_len_subset(enc.to_set(), set_int_range(0, 4 * w * h));
}

/// Every state of a recorded trail is in bounds and off the
/// obstacles, and consecutive states are one tick apart.
proof fn lemma_trail_states(
    g: Seq<Seq<RoomSpace>>,
    s0: TrailStep,
    trail: Seq<TrailStep>,
    looped: bool,
    k: int,
)
    requires
        grid_rect(g),
        in_bounds(g, s0.pos),
        !(cell_at(g, s0.pos) is Obstacle),
        is_sim_trail(g, s0, trail, looped),
        0 <= k < trail.len(),
    ensures
        in_bounds(g, trail[k].pos),
        !(cell_at(g, trail[k].pos) is Obstacle),
        k < trail.len() - 1 ==> step_spec(g, trail[k]) == StepOutcome::Moved(trail[k + 1]),
    decreases k,
{
    if k == 0 {
        assert(sim_at(g, s0, 0) == SimPoint::Run(trail[0]));
    } else {
        lemma_trail_states(g, s0, trail, looped, k - 1);
        assert(sim_at(g, s0, (k - 1) as nat) == SimPoint::Run(trail[k - 1]));
        assert(sim_at(g, s0, k as nat) == SimPoint::Run(trail[k]));
        assert(step_spec(g, trail[k - 1]) == StepOutcome::Moved(trail[k]));
        lemma_step_moved(g, trail[k - 1]);
    }
    if k < trail.len() - 1 {
        assert(sim_at(g, s0, k as nat) == SimPoint::Run(trail[k]));
        assert(sim_at(g, s0, (k + 1) as nat) == SimPoint::Run(trail[k + 1]));
    }
}

proof fn lemma_dirs_propagate(trail: Seq<TrailStep>, k: int)
    requires
        forall|m: int|
            0 <= m < trail.len() - 1 ==> (#[trigger] trail[m + 1]).dir == trail[m].dir,
        0 <= k < trail.len(),
    ensures
        trail[k].dir == trail[0].dir,
    decreases k,
{
    if k > 0 {
        lemma_dirs_propagate(trail, k - 1);
        assert(trail[(k - 1) + 1].dir == trail[k - 1].dir);
    }
}

/// A patrol that never turns walks a straight line: state `k` lies
/// `k` cells from the start, along the starting facing.
proof fn lemma_straight_positions(
    g: Seq<Seq<RoomSpace>>,
    s0: TrailStep,
    trail: Seq<TrailStep>,
    looped: bool,
    k: int,
)
    requires
        grid_rect(g),
        in_bounds(g, s0.pos),
        !(cell_at(g, s0.pos) is Obstacle),
        is_sim_trail(g, s0, trail, looped),
        forall|m: int| 0 <= m < trail.len() ==> (#[trigger] trail[m]).dir == s0.dir,
        0 <= k < trail.len(),
    ensures
        match s0.dir {
            Direction::Up => trail[k].pos.x == s0.pos.x && trail[k].pos.y == s0.pos.y - k,
            Direction::Down => trail[k].pos.x == s0.pos.x && trail[k].pos.y == s0.pos.y + k,
            Direction::Right => trail[k].pos.y == s0.pos.y && trail[k].pos.x == s0.pos.x + k,
            Direction::Left => trail[k].pos.y == s0.pos.y && trail[k].pos.x == s0.pos.x - k,
        },
    decreases k,
{
    assert(sim_at(g, s0, 0) == SimPoint::Run(trail[0]));
    if k > 0 {
        lemma_straight_positions(g, s0, trail, looped, k - 1);
        lemma_trail_states(g, s0, trail, looped, k - 1);
        assert(step_spec(g, trail[k - 1]) == StepOutcome::Moved(trail[k]));
        assert(trail[k].dir == s0.dir && trail[k - 1].dir == s0.dir);
        lemma_step_straight(g, trail[k - 1]);
        assert(forward_spec(g, trail[k - 1].pos, s0.dir) == Some(trail[k].pos));
    }
}

/// A patrol that loops must have turned, so its grid holds at least
/// one obstacle: on an obstacle-free grid the guard walks straight
/// off the edge.
proof fn lemma_loop_has_obstacle(g: Seq<Seq<RoomSpace>>, s0: TrailStep, trail: Seq<TrailStep>)
    requires
        grid_rect(g),
        in_bounds(g, s0.pos),
        !(cell_at(g, s0.pos) is Obstacle),
        is_sim_trail(g, s0, trail, true),
    ensures
        exists|q: Pos| #[trigger] in_bounds(g, q) && cell_at(g, q) is Obstacle,
{
    let n = trail.len() as int;
    if forall|m: int| 0 <= m < n - 1 ==> (#[trigger] trail[m + 1]).dir == trail[m].dir {
        assert(sim_at(g, s0, 0) == SimPoint::Run(trail[0]));
        assert forall|m: int| 0 <= m < n implies (#[trigger] trail[m]).dir == s0.dir by {
            lemma_dirs_propagate(trail, m);
        }
        let j = choose|j: int| 0 <= j < n - 1 && #[trigger] trail[j] == trail[n - 1];
        lemma_straight_positions(g, s0, trail, true, j);
        lemma_straight_positions(g, s0, trail, true, n - 1);
        assert(false);
    } else {
        assert(exists|m: int|
            0 <= m < n - 1 && (#[trigger] trail[m + 1]).dir != trail[m].dir);
        let m = choose|m: int| 0 <= m < n - 1 && (#[trigger] trail[m + 1]).dir != trail[m].dir;
        lemma_trail_states(g, s0, trail, true, m);
        assert(step_spec(g, trail[m]) == StepOutcome::Moved(trail[m + 1]));
        lemma_step_turn_obstacle(g, trail[m]);
    }
}

/// Pairwise distinct in-bounds states that all avoid one cell number
/// at most four per remaining cell.
proof fn lemma_distinct_states_bounded_avoid(g: Seq<Seq<RoomSpace>>, t: Seq<TrailStep>, obs: Pos)
    requires
        grid_rect(g),
        distinct_prefix(t, t.len() as int),
        forall|k: int| 0 <= k < t.len() ==> in_bounds(g, (#[trigger] t[k]).pos),
        forall|k: int| 0 <= k < t.len() ==> (#[trigger] t[k]).pos != obs,
        in_bounds(g, obs),
    ensures
        t.len() + 4 <= 4 * g.len() * grid_height(g),
{
    broadcast use vstd::set::group_set_axioms;

    let w = g.len() as int;
    let h = grid_height(g) as int;
    let enc = t.map_values(|s: TrailStep| encode_state(g, s));
    assert(enc.len() == t.len());
    assert forall|i: int, j: int|
        0 <= i < enc.len() && 0 <= j < enc.len() && i != j implies enc[i] != enc[j] by {
        assert(t[i] != t[j]);
        lemma_encode_distinct(g, t[i], t[j]);
    }
    assert(enc.no_duplicates());
    enc.unique_seq_to_set();
    let su = TrailStep { dir: Direction::Up, pos: obs };
    let sr = TrailStep { dir: Direction::Right, pos: obs };
    let sd = TrailStep { dir: Direction::Down, pos: obs };
    let sl = TrailStep { dir: Direction::Left, pos: obs };
    assert(g[obs.x as int].len() == g[0].len());
    lemma_encode_range(w, h, obs.x as int, obs.y as int, dir_index(su.dir));
    lemma_encode_range(w, h, obs.x as int, obs.y as int, dir_index(sr.dir));
    lemma_encode_range(w, h, obs.x as int, obs.y as int, dir_index(sd.dir));
    lemma_encode_range(w, h, obs.x as int, obs.y as int, dir_index(sl.dir));
    lemma_encode_distinct(g, su, sr);
    lemma_encode_distinct(g, su, sd);
    lemma_encode_distinct(g, su, sl);
    lemma_encode_distinct(g, sr, sd);
    lemma_encode_distinct(g, sr, sl);
    lemma_encode_distinct(g, sd, sl);
    let base = set_int_range(0, 4 * w * h);
    lemma_int_range(0, 4 * w * h);
    let reduced = base.remove(encode_state(g, su)).remove(encode_state(g, sr)).remove(
        encode_state(g, sd),
    ).remove(encode_state(g, sl));
    assert(reduced.len() == 4 * w * h - 4);
    assert forall|e: int| enc.to_set().contains(e) implies reduced.contains(e) by {
        let i = choose|i: int| 0 <= i < enc.len() && enc[i] == e;
        assert(g[t[i].pos.x as int].len() == g[0].len());
        lemma_encode_range(w, h, t[i].pos.x as int, t[i].pos.y as int, dir_index(t[i].dir));
        lemma_encode_distinct(g, t[i], su);
        lemma_encode_distinct(g, t[i], sr);
        lemma_encode_distinct(g, t[i], sd);
        lemma_encode_distinct(g, t[i], sl);
    }
    lemma_len_subset(enc.to_set(), reduced);
}

/// The termination bound: no patrol's trail is longer than four
/// times the number of grid cells.
pub proof fn lemma_trail_length_bound(
    g: Seq<Seq<RoomSpace>>,
    s0: TrailStep,
    trail: Seq<TrailStep>,
    looped: bool,
)
    requires
        grid_rect(g),
        in_bounds(g, s0.pos),
        !(cell_at(g, s0.pos) is Obstacle),
        is_sim_trail(g, s0, trail, looped),
    ensures
        trail.len() <= 4 * g.len() * grid_height(g),
{
    assert forall|k: int|
        0 <= k < trail.len() implies in_bounds(g, (#[trigger] trail[k]).pos) && !(cell_at(
        g,
        trail[k].pos,
    ) is Obstacle) by {
        lemma_trail_states(g, s0, trail, looped, k);
    }
    if !looped {
        lemma_distinct_states_bounded(g, trail);
    } else {
        let n = trail.len() as int;
        lemma_loop_has_obstacle(g, s0, trail);
        let obs = choose|q: Pos| #[trigger] in_bounds(g, q) && cell_at(g, q) is Obstacle;
        let pre = trail.subrange(0, n - 1);
        assert(distinct_prefix(pre, pre.len() as int));
        assert forall|k: int| 0 <= k < pre.len() implies in_bounds(g, (#[trigger] pre[k]).pos)
            && pre[k].pos != obs by {
            assert(pre[k] == trail[k]);
        }
        lemma_distinct_states_bounded_avoid(g, pre, obs);
    }
}

/// A trail never records the same state twice in a row: every tick
/// changes the facing or the position.
pub proof fn lemma_no_consecutive_repeats(
    g: Seq<Seq<RoomSpace>>,
    s0: TrailStep,
    trail: Seq<TrailStep>,
    looped: bool,
)
    requires
        grid_rect(g),
        in_bounds(g, s0.pos),
        !(cell_at(g, s0.pos) is Obstacle),
        is_sim_trail(g, s0, trail, looped),
    ensures
        forall|k: int| 0 <= k < trail.len() - 1 ==> (#[trigger] trail[k]) != trail[k + 1],
{
    assert forall|k: int| 0 <= k < trail.len() - 1 implies (#[trigger] trail[k]) != trail[k
        + 1] by {
        lemma_trail_states(g, s0, trail, looped, k);
        lemma_step_moved(g, trail[k]);
    }
}

proof fn lemma_sim_trail_len_le(
    g: Seq<Seq<RoomSpace>>,
    s0: TrailStep,
    t1: Seq<TrailStep>,
    b1: bool,
    t2: Seq<TrailStep>,
    b2: bool,
)
    requires
        is_sim_trail(g, s0, t1, b1),
        is_sim_trail(g, s0, t2, b2),
    ensures
        t1.len() <= t2.len(),
{
    if t1.len() > t2.len() {
        let n2 = t2.len() as int;
        assert forall|k: int| 0 <= k < n2 implies t1[k] == t2[k] by {
            assert(sim_at(g, s0, k as nat) == SimPoint::Run(t1[k]));
            assert(sim_at(g, s0, k as nat) == SimPoint::Run(t2[k]));
        }
        let m = if b1 {
            t1.len() - 1
        } else {
            t1.len() as int
        };
        assert(n2 <= m);
        if b2 {
            let j = choose|j: int| 0 <= j < n2 - 1 && #[trigger] t2[j] == t2[n2 - 1];
            assert(t1[j] == t1[n2 - 1]);
            assert(distinct_prefix(t1, m));
            assert(false);
        } else {
            assert(sim_at(g, s0, (n2 - 1) as nat) == SimPoint::Run(t2[n2 - 1]));
            assert(sim_at(g, s0, n2 as nat) == SimPoint::Run(t1[n2]));
            assert(false);
        }
    }
}

/// Determinism: a grid and a start state have exactly one patrol
/// trail and one loop verdict.
pub proof fn lemma_sim_trail_unique(
    g: Seq<Seq<RoomSpace>>,
    s0: TrailStep,
    t1: Seq<TrailStep>,
    b1: bool,
    t2: Seq<TrailStep>,
    b2: bool,
)
    requires
        is_sim_trail(g, s0, t1, b1),
        is_sim_trail(g, s0, t2, b2),
    ensures
        t1 == t2,
        b1 == b2,
{
    lemma_sim_trail_len_le(g, s0, t1, b1, t2, b2);
    lemma_sim_trail_len_le(g, s0, t2, b2, t1, b1);
    assert(t1.len() == t2.len());
    assert forall|k: int| 0 <= k < t1.len() implies t1[k] == t2[k] by {
        assert(sim_at(g, s0, k as nat) == SimPoint::Run(t1[k]));
        assert(sim_at(g, s0, k as nat) == SimPoint::Run(t2[k]));
    }
    assert(t1 =~= t2);
    let n = t1.len() as int;
    if b1 && !b2 {
        let j = choose|j: int| 0 <= j < n - 1 && #[trigger] t1[j] == t1[n - 1];
        assert(t2[j] == t2[n - 1]);
        assert(distinct_prefix(t2, n));
        assert(false);
    }
    if b2 && !b1 {
        let j = choose|j: int| 0 <= j < n - 1 && #[trigger] t2[j] == t2[n - 1];
        assert(t1[j] == t1[n - 1]);
        assert(distinct_prefix(t1, n));
        assert(false);
    }
}

/// Run one patrol of `room` from state `start`, recording the trail
/// and whether the patrol ended in a loop.
pub fn run_sim(room: &Room, start: TrailStep) -> (r: (Trail, bool))
    requires
        room.wf(),
        in_bounds(room.grid_view(), start.pos),
        !(cell_at(room.grid_view(), start.pos) is Obstacle),
    ensures
        is_sim_trail(room.grid_view(), start, r.0@, r.1),
{
    let ghost g = room.grid_view();
    let mut trail = Trail::new();
    let mut cur = start;
    let mut looped = false;
    loop
        invariant_except_break
            in_bounds(g, cur.pos),
            !(cell_at(g, cur.pos) is Obstacle),
            sim_at(g, start, trail@.len() as nat) == SimPoint::Run(cur),
            forall|k: int| 0 <= k < trail@.len() ==> #[trigger] trail@[k] != cur,
            distinct_prefix(trail@, trail@.len() as int),
        invariant
            room.wf(),
            g == room.grid_view(),
            forall|k: int|
                0 <= k < trail@.len() ==> sim_at(g, start, k as nat) == SimPoint::Run(
                    #[trigger] trail@[k],
                ),
            forall|k: int|
                0 <= k < trail@.len() ==> in_bounds(g, (#[trigger] trail@[k]).pos) && !(cell_at(
                    g,
                    trail@[k].pos,
                ) is Obstacle),
        ensures
            is_sim_trail(g, start, trail@, looped),
        decreases 4 * g.len() * grid_height(g) + 1 - trail@.len(),
    {
        proof {
            let ext = trail@.push(cur);
            assert(distinct_prefix(ext, ext.len() as int));
            assert(forall|k: int|
                0 <= k < ext.len() ==> in_bounds(g, (#[trigger] ext[k]).pos));
            lemma_distinct_states_bounded(g, ext);
        }
        trail.push(cur);
        proof {
            assert(trail@[trail@.len() - 1] == cur);
        }
        match step(room, cur) {
            StepOutcome::Exited => {
                looped = false;
                break ;
            },
            StepOutcome::Trapped => {
                looped = false;
                break ;
            },
            StepOutcome::Moved(t) => {
                proof {
                    lemma_step_moved(g, cur);
                }
                if trail.contains(t) {
                    let ghost prev = trail@;
                    trail.push(t);
                    proof {
                        let n = trail@.len() as int;
                        assert(forall|k: int| 0 <= k < n - 1 ==> trail@[k] == prev[k]);
                        assert(trail@[n - 1] == t);
                        assert(trail@[n - 2] == cur);
                        assert(step_spec(g, cur) == StepOutcome::Moved(t));
                        assert(sim_at(g, start, (n - 1) as nat) == SimPoint::Run(t));
                        let j = choose|j: int| 0 <= j < prev.len() && prev[j] == t;
                        assert(0 <= j < n - 1 && trail@[j] == trail@[n - 1]);
                        assert(distinct_prefix(trail@, n - 1));
                    }
                    looped = true;
                    break ;
                }
                cur = t;
            },
        }
    }
    (trail, looped)
}

} // verus!
