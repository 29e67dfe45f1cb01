//! The grid model: cells, coordinates, the room itself, and the
//! well-formedness notions the rest of the crate builds on.

use vstd::prelude::*;

verus! {

/// A compass direction the guard can face.
#[derive(Clone, Copy, PartialEq, Eq, Structural, Debug)]
pub enum Direction {
    Up,
    Down,
    Left,
    Right,
}

/// A cell coordinate.  `x` indexes the outer vector of the grid (one
/// column of the raw text), `y` the inner one (one text row).
#[derive(Clone, Copy, PartialEq, Eq, Structural, Debug)]
pub struct Pos {
    pub x: usize,
    pub y: usize,
}

/// What one grid cell holds.
#[derive(Clone, Copy, PartialEq, Eq, Structural, Debug)]
pub enum RoomSpace {
    Guard(Direction),
    Obstacle,
    Visited,
    Empty,
}

/// Why a textual room description was rejected.
#[derive(Clone, Copy, PartialEq, Eq, Structural, Debug)]
pub enum RoomError {
    NoGuards,
    ManyGuards,
    Uneven,
}

impl RoomError {
    /// The wording of this error.
    pub open spec fn message_spec(&self) -> Seq<char> {
        match self {
            RoomError::NoGuards => "Room has no guards."@,
            RoomError::ManyGuards => "Room has more than one guard."@,
            RoomError::Uneven => "Room is not rectangular."@,
        }
    }

    /// The error as readable text.
    pub fn message(&self) -> (s: String)
        ensures
            s@ == self.message_spec(),
    {
        match self {
            RoomError::NoGuards => String::from_str("Room has no guards."),
            RoomError::ManyGuards => String::from_str("Room has more than one guard."),
            RoomError::Uneven => String::from_str("Room is not rectangular."),
        }
    }
}

/// One state the guard occupies: its facing and its position.
#[derive(Clone, Copy, PartialEq, Eq, Structural, Debug)]
pub struct TrailStep {
    pub dir: Direction,
    pub pos: Pos,
}

/// The grid is rectangular: every column has the height of the first.
pub open spec fn grid_rect(g: Seq<Seq<RoomSpace>>) -> bool {
    forall|i: int| 0 <= i < g.len() ==> (#[trigger] g[i]).len() == g[0].len()
}

/// Height shared by the columns of a rectangular grid.
pub open spec fn grid_height(g: Seq<Seq<RoomSpace>>) -> nat {
    if g.len() == 0 {
        0
    } else {
        g[0].len()
    }
}

pub open spec fn in_bounds(g: Seq<Seq<RoomSpace>>, p: Pos) -> bool {
    p.x < g.len() && p.y < g[p.x as int].len()
}

pub open spec fn cell_at(g: Seq<Seq<RoomSpace>>, p: Pos) -> RoomSpace {
    g[p.x as int][p.y as int]
}

/// The grid with the cell at `p` replaced by `c`.
pub open spec fn grid_update(g: Seq<Seq<RoomSpace>>, p: Pos, c: RoomSpace) -> Seq<
    Seq<RoomSpace>,
> {
    g.update(p.x as int, g[p.x as int].update(p.y as int, c))
}

/// The guard stands at state `s`: its cell holds a guard facing `s.dir`.
pub open spec fn guard_at(g: Seq<Seq<RoomSpace>>, s: TrailStep) -> bool {
    in_bounds(g, s.pos) && cell_at(g, s.pos) == RoomSpace::Guard(s.dir)
}

/// Some cell of the grid holds a guard.
pub open spec fn has_guard(g: Seq<Seq<RoomSpace>>) -> bool {
    exists|s: TrailStep| guard_at(g, s)
}

/// The guard at `s` is the only guard cell of the grid.
pub open spec fn unique_guard(g: Seq<Seq<RoomSpace>>, s: TrailStep) -> bool {
    &&& guard_at(g, s)
    &&& forall|t: TrailStep| guard_at(g, t) ==> t == s
}

/// A rectangular room: the cell grid, the guard placement recorded at
/// parse time, and the bookkeeping the candidate evaluation shares.
#[derive(Debug)]
pub struct Room {
    pub grid: Vec<Vec<RoomSpace>>,
    pub initial_guard_pos: Option<TrailStep>,
    pub to_check: Vec<Pos>,
    pub visited: usize,
    pub index: usize,
}

impl Room {
    /// The grid as a mathematical sequence of columns.
    pub open spec fn grid_view(&self) -> Seq<Seq<RoomSpace>> {
        self.grid@.map_values(|c: Vec<RoomSpace>| c@)
    }

    /// The guard placement recorded when the room was parsed.
    pub open spec fn guard_start(&self) -> Option<TrailStep> {
        self.initial_guard_pos
    }

    /// Well-formed: the grid is rectangular.
    pub open spec fn wf(&self) -> bool {
        grid_rect(self.grid_view())
    }

    /// An empty room with no grid and no recorded guard.
    pub fn new() -> (r: Room)
        ensures
            r.grid_view() == Seq::<Seq<RoomSpace>>::empty(),
            r.guard_start() is None,
            r.to_check@ == Seq::<Pos>::empty(),
            r.visited == 0,
            r.index == 0,
            r.wf(),
    {
        let r = Room {
            grid: Vec::new(),
            initial_guard_pos: None,
            to_check: Vec::new(),
            visited: 0,
            index: 0,
        };
        proof {
            assert(r.grid_view() =~= Seq::<Seq<RoomSpace>>::empty());
            assert(r.to_check@ =~= Seq::<Pos>::empty());
        }
        r
    }

    /// Number of columns of the grid.
    pub fn width(&self) -> (w: usize)
        ensures
            w == self.grid_view().len(),
    {
        self.grid.len()
    }

    /// Shared height of the columns.
    pub fn height(&self) -> (h: usize)
        ensures
            h == grid_height(self.grid_view()),
    {
        if self.grid.len() == 0 {
            0
        } else {
            self.grid[0].len()
        }
    }

    /// The cell at an in-bounds position.
    pub fn space_at(&self, p: Pos) -> (c: RoomSpace)
        requires
            in_bounds(self.grid_view(), p),
        ensures
            c == cell_at(self.grid_view(), p),
    {
        self.grid[p.x][p.y]
    }

    fn set_space(&mut self, p: Pos, c: RoomSpace)
        requires
            in_bounds(old(self).grid_view(), p),
        ensures
            final(self).grid_view() == grid_update(old(self).grid_view(), p, c),
            final(self).guard_start() == old(self).guard_start(),
            final(self).to_check == old(self).to_check,
            final(self).visited == old(self).visited,
            final(self).index == old(self).index,
    {
        self.grid[p.x][p.y] = c;
        proof {
            assert(self.grid_view() =~= grid_update(old(self).grid_view(), p, c));
        }
    }

    /// Turn the cell at `p` into an obstacle.
    pub fn add_obstacle(&mut self, p: Pos)
        requires
            in_bounds(old(self).grid_view(), p),
        ensures
            final(self).grid_view() == grid_update(old(self).grid_view(), p, RoomSpace::Obstacle),
            final(self).guard_start() == old(self).guard_start(),
            final(self).to_check == old(self).to_check,
            final(self).visited == old(self).visited,
            final(self).index == old(self).index,
    {
        self.set_space(p, RoomSpace::Obstacle);
    }

    /// Place a guard facing `d` at `p`.
    pub fn add_guard(&mut self, p: Pos, d: Direction)
        requires
            in_bounds(old(self).grid_view(), p),
        ensures
            final(self).grid_view() == grid_update(
                old(self).grid_view(),
                p,
                RoomSpace::Guard(d),
            ),
            final(self).guard_start() == old(self).guard_start(),
            final(self).to_check == old(self).to_check,
            final(self).visited == old(self).visited,
            final(self).index == old(self).index,
    {
        self.set_space(p, RoomSpace::Guard(d));
    }

    /// Scan the grid in column order and report a cell the guard
    /// stands on, or `None` when no cell holds a guard.
    pub fn find_guard(&self) -> (r: Option<TrailStep>)
        ensures
            match r {
                Some(s) => guard_at(self.grid_view(), s),
                None => !has_guard(self.grid_view()),
            },
    {
        let ghost g = self.grid_view();
        let mut x: usize = 0;
        while x < self.grid.len()
            invariant
                x <= self.grid.len(),
                g == self.grid_view(),
                forall|i: int, j: int|
                    0 <= i < x && 0 <= j < g[i].len() ==> !((#[trigger] g[i][j]) is Guard),
            decreases self.grid.len() - x,
        {
            let mut y: usize = 0;
            while y < self.grid[x].len()
                invariant
                    x < self.grid.len(),
                    y <= self.grid[x as int].len(),
                    g == self.grid_view(),
                    forall|i: int, j: int|
                        0 <= i < x && 0 <= j < g[i].len() ==> !((#[trigger] g[i][j]) is Guard),
                    forall|j: int| 0 <= j < y ==> !((#[trigger] g[x as int][j]) is Guard),
                decreases self.grid[x as int].len() - y,
            {
                match self.grid[x][y] {
                    RoomSpace::Guard(d) => {
                        let s = TrailStep { dir: d, pos: Pos { x, y } };
                        proof {
                            assert(cell_at(g, s.pos) == RoomSpace::Guard(d));
                        }
                        return Some(s);
                    },
                    _ => {},
                }
                y = y + 1;
            }
            x = x + 1;
        }
        proof {
            assert forall|s: TrailStep| !guard_at(g, s) by {
                if in_bounds(g, s.pos) {
                    assert(!(g[s.pos.x as int][s.pos.y as int] is Guard));
                }
            }
        }
        None
    }

    /// Mark the cell at `p` as visited.
    pub fn visit_space(&mut self, p: Pos)
        requires
            in_bounds(old(self).grid_view(), p),
        ensures
            final(self).grid_view() == grid_update(old(self).grid_view(), p, RoomSpace::Visited),
            final(self).guard_start() == old(self).guard_start(),
            final(self).to_check == old(self).to_check,
            final(self).visited == old(self).visited,
            final(self).index == old(self).index,
    {
        self.set_space(p, RoomSpace::Visited);
    }
}

/// What a cell becomes when a room is wiped for a fresh run: visited
/// marks and guards are cleared, obstacles and empty cells stay.
pub open spec fn cleared_cell(c: RoomSpace) -> RoomSpace {
    match c {
        RoomSpace::Visited => RoomSpace::Empty,
        RoomSpace::Guard(_) => RoomSpace::Empty,
        _ => c,
    }
}

/// The grid after a reset: every cell cleared, then the guard put
/// back at its recorded starting state, if one was recorded.
pub open spec fn reset_grid(g: Seq<Seq<RoomSpace>>, start: Option<TrailStep>) -> Seq<
    Seq<RoomSpace>,
> {
    let cleared = Seq::new(g.len(), |x: int| Seq::new(g[x].len(), |y: int| cleared_cell(g[x][y])));
    match start {
        None => cleared,
        Some(s) => grid_update(cleared, s.pos, RoomSpace::Guard(s.dir)),
    }
}

fn cleared_of(c: RoomSpace) -> (r: RoomSpace)
    ensures
        r == cleared_cell(c),
{
    match c {
        RoomSpace::Visited => RoomSpace::Empty,
        RoomSpace::Guard(_) => RoomSpace::Empty,
        other => other,
    }
}

impl Room {
    /// Wipe the traces of a run: clear every visited and guard cell,
    /// then put the guard back at its recorded starting state.
    pub fn reset(&mut self)
        requires
            old(self).guard_start() matches Some(s) ==> in_bounds(old(self).grid_view(), s.pos),
        ensures
            final(self).grid_view() == reset_grid(old(self).grid_view(), old(self).guard_start()),
            final(self).guard_start() == old(self).guard_start(),
            final(self).to_check == old(self).to_check,
            final(self).visited == old(self).visited,
            final(self).index == old(self).index,
            old(self).wf() ==> final(self).wf(),
    {
        let ghost g0 = self.grid_view();
        let mut grid: Vec<Vec<RoomSpace>> = Vec::new();
        let mut x: usize = 0;
        while x < self.grid.len()
            invariant
                x <= self.grid@.len(),
                g0 == self.grid_view(),
                grid@.len() == x,
                forall|i: int|
                    0 <= i < x ==> (#[trigger] grid@[i])@ =~= Seq::new(
                        g0[i].len(),
                        |y: int| cleared_cell(g0[i][y]),
                    ),
            decreases self.grid@.len() - x,
        {
            let mut col: Vec<RoomSpace> = Vec::new();
            let mut y: usize = 0;
            while y < self.grid[x].len()
                invariant
                    x < self.grid@.len(),
                    y <= self.grid@[x as int]@.len(),
                    g0 == self.grid_view(),
                    col@.len() == y,
                    forall|j: int| 0 <= j < y ==> col@[j] == cleared_cell(g0[x as int][j]),
                decreases self.grid@[x as int]@.len() - y,
            {
                col.push(cleared_of(self.grid[x][y]));
                y = y + 1;
            }
            proof {
                assert(col@ =~= Seq::new(g0[x as int].len(), |j: int| cleared_cell(g0[x as int][j])));
            }
            grid.push(col);
            x = x + 1;
        }
        self.grid = grid;
        let ghost cleared = Seq::new(
            g0.len(),
            |i: int| Seq::new(g0[i].len(), |y: int| cleared_cell(g0[i][y])),
        );
        proof {
            assert(self.grid_view() =~~= cleared);
        }
        let start_opt = self.initial_guard_pos;
        match start_opt {
            Some(s) => {
                proof {
                    assert(in_bounds(self.grid_view(), s.pos));
                }
                self.add_guard(s.pos, s.dir);
            },
            None => {},
        }
        proof {
            if old(self).wf() {
                let gf = self.grid_view();
                assert forall|i: int| 0 <= i < gf.len() implies (#[trigger] gf[i]).len()
                    == gf[0].len() by {
                    assert(g0[i].len() == g0[0].len());
                }
            }
        }
    }
}

fn clone_col(col: &Vec<RoomSpace>) -> (r: Vec<RoomSpace>)
    ensures
        r@ == col@,
{
    let mut r: Vec<RoomSpace> = Vec::new();
    let mut i: usize = 0;
    while i < col.len()
        invariant
            i <= col.len(),
            r@ == col@.subrange(0, i as int),
        decreases col.len() - i,
    {
        r.push(col[i]);
        proof {
            assert(r@ =~= col@.subrange(0, i + 1));
        }
        i = i + 1;
    }
    proof {
        assert(r@ =~= col@);
    }
    r
}

impl Clone for Room {
    /// An independent copy: same grid, guard placement and bookkeeping.
    fn clone(&self) -> (r: Room)
        ensures
            r.grid_view() == self.grid_view(),
            r.guard_start() == self.guard_start(),
            r.to_check@ == self.to_check@,
            r.visited == self.visited,
            r.index == self.index,
    {
        let mut grid: Vec<Vec<RoomSpace>> = Vec::new();
        let mut x: usize = 0;
        while x < self.grid.len()
            invariant
                x <= self.grid.len(),
                grid@.len() == x,
                forall|i: int| 0 <= i < x ==> (#[trigger] grid@[i])@ == self.grid@[i]@,
            decreases self.grid.len() - x,
        {
            grid.push(clone_col(&self.grid[x]));
            x = x + 1;
        }
        let mut to_check: Vec<Pos> = Vec::new();
        let mut i: usize = 0;
        while i < self.to_check.len()
            invariant
                i <= self.to_check.len(),
                to_check@ == self.to_check@.subrange(0, i as int),
            decreases self.to_check.len() - i,
        {
            to_check.push(self.to_check[i]);
            proof {
                assert(to_check@ =~= self.to_check@.subrange(0, i + 1));
            }
            i = i + 1;
        }
        let r = Room {
            grid,
            initial_guard_pos: self.initial_guard_pos,
            to_check,
            visited: self.visited,
            index: self.index,
        };
        proof {
            assert(r.grid_view() =~= self.grid_view());
            assert(r.to_check@ =~= self.to_check@);
        }
        r
    }
}

} // verus!
