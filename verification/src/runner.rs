//! The runs themselves: the baseline simulation, candidate
//! enumeration, per-candidate evaluation, and the aggregation of the
//! results into a loop count.

use vstd::prelude::*;
use crate::parse::{parse_err, parse_ok_grid};
use crate::records::Guard;
use crate::room::{
    Pos, Room, RoomError, RoomSpace, TrailStep, cell_at, grid_rect, grid_update, guard_at, has_guard,
    in_bounds, unique_guard,
};
use crate::sim::{Trail, is_sim_trail, run_sim};

verus! {

/// The positions a trail passes through, in order.
pub open spec fn positions_of(t: Seq<TrailStep>) -> Seq<Pos> {
    t.map_values(|s: TrailStep| s.pos)
}

/// The positions of `s` with every repetition after the first removed,
/// first occurrences kept in order.
pub open spec fn dedup_spec(s: Seq<Pos>) -> Seq<Pos>
    decreases s.len(),
{
    if s.len() == 0 {
        Seq::empty()
    } else {
        let d = dedup_spec(s.drop_last());
        if d.contains(s.last()) {
            d
        } else {
            d.push(s.last())
        }
    }
}

/// Deduplication keeps exactly the positions of its input, without
/// repetitions, and keeps the first position first.
pub proof fn lemma_dedup_props(s: Seq<Pos>)
    ensures
        dedup_spec(s).no_duplicates(),
        forall|p: Pos| #[trigger] dedup_spec(s).contains(p) <==> s.contains(p),
        dedup_spec(s).len() <= s.len(),
        s.len() > 0 ==> dedup_spec(s).len() > 0 && dedup_spec(s)[0] == s[0],
    decreases s.len(),
{
    if s.len() == 0 {
        assert(forall|p: Pos| !s.contains(p));
        assert(forall|p: Pos| !dedup_spec(s).contains(p));
    } else {
        lemma_dedup_props(s.drop_last());
        let d0 = dedup_spec(s.drop_last());
        let x = s.last();
        assert forall|p: Pos| s.contains(p) <==> (s.drop_last().contains(p) || p == x) by {
            if s.contains(p) {
                let i = choose|i: int| 0 <= i < s.len() && s[i] == p;
                if i < s.len() - 1 {
                    assert(s.drop_last()[i] == p);
                    assert(s.drop_last().contains(p));
                }
            }
            if s.drop_last().contains(p) {
                let i = choose|i: int| 0 <= i < s.drop_last().len() && s.drop_last()[i] == p;
                assert(s[i] == p);
                assert(s.contains(p));
            }
            if p == x {
                assert(s[s.len() - 1] == p);
                assert(s.contains(p));
            }
        }
        if d0.contains(x) {
            assert(dedup_spec(s) == d0);
        } else {
            assert(dedup_spec(s) == d0.push(x));
            assert forall|i: int, j: int|
                0 <= i < j < d0.push(x).len() implies d0.push(x)[i] != d0.push(x)[j] by {
                if j < d0.len() {
                    assert(d0[i] != d0[j]);
                } else {
                    assert(d0.push(x)[i] == d0[i]);
                    assert(d0.contains(d0[i]));
                }
            }
            assert forall|p: Pos| #[trigger] d0.push(x).contains(p) <==> (d0.contains(p) || p
                == x) by {
                if d0.push(x).contains(p) {
                    let i = choose|i: int| 0 <= i < d0.push(x).len() && d0.push(x)[i] == p;
                    if i < d0.len() {
                        assert(d0[i] == p);
                        assert(d0.contains(p));
                    }
                }
                if d0.contains(p) {
                    let i = choose|i: int| 0 <= i < d0.len() && d0[i] == p;
                    assert(d0.push(x)[i] == p);
                    assert(d0.push(x).contains(p));
                }
                if p == x {
                    assert(d0.push(x)[d0.len() as int] == p);
                    assert(d0.push(x).contains(p));
                }
            }
            if s.len() == 1 {
                assert(dedup_spec(s)[0] == x);
                assert(x == s[0]);
            } else {
                assert(d0.push(x)[0] == d0[0]);
                assert(s.drop_last()[0] == s[0]);
            }
        }
    }
}

fn pos_vec_contains(v: &Vec<Pos>, p: Pos) -> (b: bool)
    ensures
        b == v@.contains(p),
{
    let mut i: usize = 0;
    while i < v.len()
        invariant
            i <= v@.len(),
            forall|k: int| 0 <= k < i ==> v@[k] != p,
        decreases v@.len() - i,
    {
        if v[i] == p {
            return true;
        }
        i = i + 1;
    }
    false
}

/// Remove every repeated position, keeping first occurrences in order.
pub fn deduplicate_vec(vec: Vec<Pos>) -> (r: Vec<Pos>)
    ensures
        r@ == dedup_spec(vec@),
{
    let mut result: Vec<Pos> = Vec::new();
    let mut i: usize = 0;
    proof {
        assert(vec@.subrange(0, 0) =~= Seq::<Pos>::empty());
        assert(result@ =~= Seq::<Pos>::empty());
    }
    while i < vec.len()
        invariant
            i <= vec@.len(),
            result@ == dedup_spec(vec@.subrange(0, i as int)),
        decreases vec@.len() - i,
    {
        let ghost pre = vec@.subrange(0, i as int);
        proof {
            assert(vec@.subrange(0, i + 1).drop_last() =~= pre);
            assert(vec@.subrange(0, i + 1).last() == vec@[i as int]);
            assert(vec@.subrange(0, i + 1).len() > 0);
        }
        if !pos_vec_contains(&result, vec[i]) {
            result.push(vec[i]);
        }
        i = i + 1;
    }
    proof {
        assert(vec@.subrange(0, vec@.len() as int) =~= vec@);
    }
    result
}

/// Run the baseline simulation on an unmodified room: find the guard
/// and record its whole patrol.
pub fn simulate(room: &Room) -> (rec: Guard)
    requires
        room.wf(),
        has_guard(room.grid_view()),
    ensures
        rec.trail@.len() >= 1,
        guard_at(room.grid_view(), rec.trail@[0]),
        is_sim_trail(room.grid_view(), rec.trail@[0], rec.trail@, rec.is_loop),
        rec.obstacle is None,
        rec.trail_idx == 0,
        rec.display_index == 0,
{
    let start = match room.find_guard() {
        Some(s) => s,
        None => {
            proof {
                assert(false);
            }
            vstd::pervasive::unreached()
        },
    };
    let (trail, looped) = run_sim(room, start);
    proof {
        assert(trail@[0] == start);
    }
    Guard::new(trail, None, looped, 0)
}

/// Extract the candidate obstacle positions from a baseline record:
/// the distinct visited positions in first-visit order, without the
/// guard's starting cell.
pub fn enumerate_candidates(rec: &Guard) -> (r: Vec<Pos>)
    requires
        rec.trail@.len() >= 1,
    ensures
        r@ == dedup_spec(positions_of(rec.trail@)).drop_first(),
{
    let mut ps: Vec<Pos> = Vec::new();
    let mut i: usize = 0;
    while i < rec.trail.len()
        invariant
            i <= rec.trail@.len(),
            ps@ == positions_of(rec.trail@.subrange(0, i as int)),
        decreases rec.trail@.len() - i,
    {
        ps.push(rec.trail.get(i).pos);
        proof {
            assert(ps@ =~= positions_of(rec.trail@.subrange(0, i + 1)));
        }
        i = i + 1;
    }
    proof {
        assert(rec.trail@.subrange(0, rec.trail@.len() as int) =~= rec.trail@);
    }
    let mut cands = deduplicate_vec(ps);
    proof {
        lemma_dedup_props(ps@);
        assert(positions_of(rec.trail@).len() == rec.trail@.len());
    }
    cands.remove(0);
    proof {
        assert(cands@ =~= dedup_spec(positions_of(rec.trail@)).drop_first());
    }
    cands
}

/// What one candidate evaluation reports: a candidate on an existing
/// obstacle is skipped and keeps the baseline verdict with an empty
/// trail; an out-of-bounds candidate re-runs the baseline; any other
/// candidate is evaluated on the grid with the obstacle added.
pub open spec fn candidate_outcome(
    g: Seq<Seq<RoomSpace>>,
    s0: TrailStep,
    baseline_loop: bool,
    pos: Pos,
    rec: Guard,
) -> bool {
    if in_bounds(g, pos) {
        if cell_at(g, pos) is Obstacle {
            rec.trail@.len() == 0 && rec.is_loop == baseline_loop
        } else {
            &&& rec.trail@.len() >= 1
            &&& rec.trail@[0] == s0
            &&& is_sim_trail(grid_update(g, pos, RoomSpace::Obstacle), s0, rec.trail@, rec.is_loop)
        }
    } else {
        &&& rec.trail@.len() >= 1
        &&& rec.trail@[0] == s0
        &&& is_sim_trail(g, s0, rec.trail@, rec.is_loop)
    }
}

/// Placing an obstacle somewhere other than the guard's cell keeps
/// the guard unique.
proof fn lemma_unique_guard_update(g: Seq<Seq<RoomSpace>>, s: TrailStep, p: Pos)
    requires
        unique_guard(g, s),
        in_bounds(g, p),
        p != s.pos,
    ensures
        unique_guard(grid_update(g, p, RoomSpace::Obstacle), s),
        grid_rect(g) ==> grid_rect(grid_update(g, p, RoomSpace::Obstacle)),
{
    let g2 = grid_update(g, p, RoomSpace::Obstacle);
    assert(g2.len() == g.len());
    assert forall|i: int| 0 <= i < g2.len() implies (#[trigger] g2[i]).len() == g[i].len() by {
        if i == p.x as int {
            assert(g2[i] == g[i].update(p.y as int, RoomSpace::Obstacle));
        }
    }
    assert forall|q: Pos| in_bounds(g2, q) && q != p implies cell_at(g2, q) == cell_at(g, q)
        && in_bounds(g, q) by {
        if q.x == p.x {
            assert(g2[q.x as int] == g[q.x as int].update(p.y as int, RoomSpace::Obstacle));
        }
    }
    assert(guard_at(g2, s));
    assert forall|t: TrailStep| guard_at(g2, t) implies t == s by {
        if t.pos == p {
            assert(cell_at(g2, p) == RoomSpace::Obstacle);
            assert(false);
        } else {
            assert(guard_at(g, t));
        }
    }
}

/// Evaluate one candidate obstacle position: clone the room, place
/// the obstacle, and record the patrol of the modified room.
pub fn evaluate_candidate(room: &Room, initial_path_is_loop: bool, pos: Pos, index: usize) -> (rec:
    Guard)
    requires
        room.wf(),
        room.guard_start() is Some,
        unique_guard(room.grid_view(), room.guard_start()->Some_0),
        pos != room.guard_start()->Some_0.pos,
    ensures
        rec.obstacle == Some(pos),
        rec.display_index == index,
        rec.trail_idx == 0,
        candidate_outcome(
            room.grid_view(),
            room.guard_start()->Some_0,
            initial_path_is_loop,
            pos,
            rec,
        ),
{
    let ghost g = room.grid_view();
    let ghost s0 = room.guard_start()->Some_0;
    let mut newroom = room.clone();
    let in_grid = pos.x < newroom.width() && pos.y < newroom.height();
    proof {
        if pos.x < g.len() {
            assert(g[pos.x as int].len() == g[0].len());
        }
        assert(in_grid == in_bounds(g, pos));
    }
    if in_grid {
        if newroom.space_at(pos) == RoomSpace::Obstacle {
            return Guard::new(Trail::new(), Some(pos), initial_path_is_loop, index);
        }
        newroom.add_obstacle(pos);
        proof {
            lemma_unique_guard_update(g, s0, pos);
        }
    }
    let start = match newroom.find_guard() {
        Some(s) => s,
        None => {
            proof {
                assert(guard_at(newroom.grid_view(), s0));
                assert(false);
            }
            vstd::pervasive::unreached()
        },
    };
    proof {
        assert(start == s0);
    }
    let (trail, looped) = run_sim(&newroom, start);
    proof {
        assert(trail@[0] == s0);
    }
    Guard::new(trail, Some(pos), looped, index)
}

/// Evaluate the candidate at `(obsx, obsy)`, tagged with `index`.
pub fn part2(room: &Room, initial_path_is_loop: bool, obsx: usize, obsy: usize, index: usize) -> (
    rec: Guard)
    requires
        room.wf(),
        room.guard_start() is Some,
        unique_guard(room.grid_view(), room.guard_start()->Some_0),
        (Pos { x: obsx, y: obsy }) != room.guard_start()->Some_0.pos,
    ensures
        rec.obstacle == Some(Pos { x: obsx, y: obsy }),
        rec.display_index == index,
        rec.trail_idx == 0,
        candidate_outcome(
            room.grid_view(),
            room.guard_start()->Some_0,
            initial_path_is_loop,
            Pos { x: obsx, y: obsy },
            rec,
        ),
{
    evaluate_candidate(room, initial_path_is_loop, Pos { x: obsx, y: obsy }, index)
}

/// Parse a room, run the baseline simulation, and hand back the room
/// with its candidate list, the baseline record, and the number of
/// distinct cells the patrol visited.
pub fn part1(input: String) -> (r: Result<(Room, Guard, usize), String>)
    ensures
        match r {
            Ok(out) => ({
                &&& parse_ok_grid(input@, out.0)
                &&& out.0.visited == 0
                &&& out.0.index == 0
                &&& out.1.trail@.len() >= 1
                &&& out.1.trail@[0] == out.0.guard_start()->Some_0
                &&& is_sim_trail(out.0.grid_view(), out.1.trail@[0], out.1.trail@, out.1.is_loop)
                &&& out.1.obstacle is None
                &&& out.1.display_index == 0
                &&& out.1.trail_idx == 0
                &&& out.0.to_check@ == dedup_spec(positions_of(out.1.trail@)).drop_first()
                &&& out.2 == dedup_spec(positions_of(out.1.trail@)).len()
            }),
            Err(msg) => exists|e: RoomError|
                #[trigger] parse_err(input@, e) && msg@ == e.message_spec(),
        },
{
    let board = match Room::from_string(input) {
        Ok(b) => b,
        Err(e) => {
            return Err(e.message());
        },
    };
    let rec = simulate(&board);
    proof {
        assert(rec.trail@[0] == board.guard_start()->Some_0);
    }
    let to_check = enumerate_candidates(&rec);
    let tlen = rec.trail.len();
    let ghost ps = positions_of(rec.trail@);
    proof {
        lemma_dedup_props(ps);
        assert(positions_of(rec.trail@).len() == rec.trail@.len());
        assert(dedup_spec(ps).drop_first().len() == dedup_spec(ps).len() - 1);
        assert(dedup_spec(ps).len() <= ps.len());
        assert(to_check@.len() < tlen);
    }
    let visited = to_check.len() + 1;
    let mut board = board;
    board.to_check = to_check;
    Ok((board, rec, visited))
}

/// The obstacle positions that some record reports as loop-causing.
pub open spec fn loop_positions(recs: Seq<Guard>) -> Set<Pos> {
    Set::new(
        |p: Pos|
            exists|i: int|
                0 <= i < recs.len() && (#[trigger] recs[i]).obstacle == Some(p)
                    && recs[i].is_loop,
    )
}

/// Count the distinct obstacle positions that caused a loop.  A
/// position evaluated twice is counted once.
pub fn count_loops(records: &Vec<Guard>) -> (n: usize)
    ensures
        n == loop_positions(records@).len(),
{
    let mut ps: Vec<Pos> = Vec::new();
    let mut i: usize = 0;
    while i < records.len()
        invariant
            i <= records@.len(),
            forall|p: Pos|
                #[trigger] ps@.contains(p) <==> exists|k: int|
                    0 <= k < i && (#[trigger] records@[k]).obstacle == Some(p)
                        && records@[k].is_loop,
        decreases records@.len() - i,
    {
        let ghost ps0 = ps@;
        let mut pushed = false;
        if records[i].is_loop {
            match records[i].obstacle {
                Some(p) => {
                    ps.push(p);
                    pushed = true;
                },
                None => {},
            }
        }
        proof {
            assert forall|p: Pos| #[trigger] ps@.contains(p) implies exists|k: int|
                0 <= k < i + 1 && (#[trigger] records@[k]).obstacle == Some(p)
                    && records@[k].is_loop by {
                let m = choose|m: int| 0 <= m < ps@.len() && ps@[m] == p;
                if m < ps0.len() {
                    assert(ps0[m] == p);
                    assert(ps0.contains(p));
                } else {
                    assert(records@[i as int].obstacle == Some(p) && records@[i as int].is_loop);
                }
            }
            assert forall|p: Pos|
                (exists|k: int|
                    0 <= k < i + 1 && (#[trigger] records@[k]).obstacle == Some(p)
                        && records@[k].is_loop) implies #[trigger] ps@.contains(p) by {
                let k = choose|k: int|
                    0 <= k < i + 1 && (#[trigger] records@[k]).obstacle == Some(p)
                        && records@[k].is_loop;
                if k < i {
                    assert(ps0.contains(p));
                    let m = choose|m: int| 0 <= m < ps0.len() && ps0[m] == p;
                    assert(ps@[m] == p);
                } else {
                    assert(pushed);
                    assert(ps@[ps@.len() - 1] == p);
                }
            }
        }
        i = i + 1;
    }
    let d = deduplicate_vec(ps);
    proof {
        lemma_dedup_props(ps@);
        d@.unique_seq_to_set();
        assert(d@.to_set() =~= loop_positions(records@));
    }
    d.len()
}

/// Run everything on a freshly parsed room: the baseline simulation,
/// one evaluation per candidate, and the loop count over the results.
pub fn run_all(room: &Room) -> (r: (Guard, Vec<Guard>, usize))
    requires
        room.wf(),
        room.guard_start() is Some,
        unique_guard(room.grid_view(), room.guard_start()->Some_0),
    ensures
        ({
            let g = room.grid_view();
            let s0 = room.guard_start()->Some_0;
            let cands = dedup_spec(positions_of(r.0.trail@)).drop_first();
            &&& r.0.trail@.len() >= 1
            &&& r.0.trail@[0] == s0
            &&& is_sim_trail(g, s0, r.0.trail@, r.0.is_loop)
            &&& r.0.obstacle is None
            &&& r.0.display_index == 0
            &&& r.1@.len() == cands.len()
            &&& (forall|i: int|
                0 <= i < r.1@.len() ==> {
                    &&& (#[trigger] r.1@[i]).obstacle == Some(cands[i])
                    &&& r.1@[i].display_index == i + 1
                    &&& candidate_outcome(g, s0, r.0.is_loop, cands[i], r.1@[i])
                })
            &&& r.2 == loop_positions(r.1@).len()
        }),
{
    let ghost g = room.grid_view();
    let ghost s0 = room.guard_start()->Some_0;
    let baseline = simulate(room);
    proof {
        assert(baseline.trail@[0] == s0);
    }
    let cands = enumerate_candidates(&baseline);
    let ghost dd = dedup_spec(positions_of(baseline.trail@));
    proof {
        lemma_dedup_props(positions_of(baseline.trail@));
        assert(positions_of(baseline.trail@)[0] == s0.pos);
        assert(dd[0] == s0.pos);
    }
    let mut records: Vec<Guard> = Vec::new();
    let mut i: usize = 0;
    while i < cands.len()
        invariant
            i <= cands@.len(),
            room.wf(),
            g == room.grid_view(),
            room.guard_start() is Some,
            s0 == room.guard_start()->Some_0,
            unique_guard(g, s0),
            cands@ == dd.drop_first(),
            dd.no_duplicates(),
            dd.len() == cands@.len() + 1,
            dd[0] == s0.pos,
            records@.len() == i,
            forall|k: int|
                0 <= k < i ==> {
                    &&& (#[trigger] records@[k]).obstacle == Some(cands@[k])
                    &&& records@[k].display_index == k + 1
                    &&& candidate_outcome(g, s0, baseline.is_loop, cands@[k], records@[k])
                },
        decreases cands@.len() - i,
    {
        proof {
            assert(cands@[i as int] == dd[i + 1]);
            assert(dd[i + 1] != dd[0]);
        }
        let rec = evaluate_candidate(room, baseline.is_loop, cands[i], i + 1);
        records.push(rec);
        i = i + 1;
    }
    let n = count_loops(&records);
    (baseline, records, n)
}

/// The loop count does not depend on the order in which candidate
/// evaluations were merged: collections holding the same records have
/// the same set of loop-causing obstacle positions.
pub proof fn lemma_loop_count_order_independent(recs1: Seq<Guard>, recs2: Seq<Guard>)
    requires
        forall|r: Guard| #[trigger] recs1.contains(r) <==> #[trigger] recs2.contains(r),
    ensures
        loop_positions(recs1) == loop_positions(recs2),
{
    assert forall|p: Pos| #[trigger] loop_positions(recs1).contains(p) implies loop_positions(
        recs2,
    ).contains(p) by {
        let i = choose|i: int|
            0 <= i < recs1.len() && (#[trigger] recs1[i]).obstacle == Some(p) && recs1[i].is_loop;
        assert(recs1.contains(recs1[i]));
        assert(recs2.contains(recs1[i]));
        let j = choose|j: int| 0 <= j < recs2.len() && recs2[j] == recs1[i];
        assert(recs2[j].obstacle == Some(p) && recs2[j].is_loop);
    }
    assert forall|p: Pos| #[trigger] loop_positions(recs2).contains(p) implies loop_positions(
        recs1,
    ).contains(p) by {
        let i = choose|i: int|
            0 <= i < recs2.len() && (#[trigger] recs2[i]).obstacle == Some(p) && recs2[i].is_loop;
        assert(recs2.contains(recs2[i]));
        assert(recs1.contains(recs2[i]));
        let j = choose|j: int| 0 <= j < recs1.len() && recs1[j] == recs2[i];
        assert(recs1[j].obstacle == Some(p) && recs1[j].is_loop);
    }
    assert(loop_positions(recs1) =~= loop_positions(recs2));
}

} // verus!
