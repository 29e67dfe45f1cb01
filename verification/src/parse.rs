//! Parsing a textual room description.  One text row per line;
//! `^ v < >` place the guard with its facing, `#` an obstacle, any
//! other character an empty cell.  The stored grid is transposed from
//! the raw text: grid column `x`, cell `y` holds text row `y`,
//! character `x`.

use vstd::prelude::*;
use crate::room::{
    Direction, Pos, Room, RoomError, RoomSpace, TrailStep, cell_at, grid_rect, in_bounds,
    unique_guard, guard_at,
};

verus! {

/// The cell a single character denotes.
pub open spec fn cell_of_char(c: char) -> RoomSpace {
    if c == '^' {
        RoomSpace::Guard(Direction::Up)
    } else if c == '<' {
        RoomSpace::Guard(Direction::Left)
    } else if c == '>' {
        RoomSpace::Guard(Direction::Right)
    } else if c == 'v' {
        RoomSpace::Guard(Direction::Down)
    } else if c == '#' {
        RoomSpace::Obstacle
    } else {
        RoomSpace::Empty
    }
}

/// Whether a character places the guard.
pub open spec fn guard_char(c: char) -> bool {
    cell_of_char(c) is Guard
}

/// A line with a carriage return before its line feed has it removed.
pub open spec fn strip_cr(l: Seq<char>) -> Seq<char> {
    if l.len() > 0 && l[l.len() - 1] == '\r' {
        l.drop_last()
    } else {
        l
    }
}

/// Split the characters after the current line's `acc` into lines, as
/// `str::lines` does: lines end at a line feed or at the end of the
/// text, and a line feed may be preceded by a carriage return.
pub open spec fn split_acc(s: Seq<char>, acc: Seq<char>) -> Seq<Seq<char>>
    decreases s.len(),
{
    if s.len() == 0 {
        if acc.len() == 0 {
            Seq::empty()
        } else {
            seq![acc]
        }
    } else if s[0] == '\n' {
        seq![strip_cr(acc)] + split_acc(s.drop_first(), Seq::empty())
    } else {
        split_acc(s.drop_first(), acc.push(s[0]))
    }
}

/// The lines of a text, as `str::lines` yields them.
pub open spec fn split_lines(s: Seq<char>) -> Seq<Seq<char>> {
    split_acc(s, Seq::empty())
}

/// Text row `j`, character `i` exists and places the guard.
pub open spec fn guard_char_at(lines: Seq<Seq<char>>, i: int, j: int) -> bool {
    0 <= j < lines.len() && 0 <= i < lines[j].len() && guard_char(lines[j][i])
}

/// Some character of the text places the guard.
pub open spec fn has_guard_char(lines: Seq<Seq<char>>) -> bool {
    exists|i: int, j: int| guard_char_at(lines, i, j)
}

/// Two different characters of the text place a guard.
pub open spec fn many_guard_chars(lines: Seq<Seq<char>>) -> bool {
    exists|i1: int, j1: int, i2: int, j2: int|
        guard_char_at(lines, i1, j1) && guard_char_at(lines, i2, j2) && (i1 != i2 || j1 != j2)
}

/// All lines have the length of the first.
pub open spec fn lines_even(lines: Seq<Seq<char>>) -> bool {
    forall|k: int| 0 <= k < lines.len() ==> (#[trigger] lines[k]).len() == lines[0].len()
}

/// The grid a rectangular text denotes, transposed so that the outer
/// index runs over text columns.
pub open spec fn parsed_grid(lines: Seq<Seq<char>>) -> Seq<Seq<RoomSpace>> {
    let width = if lines.len() == 0 {
        0
    } else {
        lines[0].len()
    };
    Seq::new(width, |x: int| Seq::new(lines.len(), |y: int| cell_of_char(lines[y][x])))
}

fn cell_of(c: char) -> (r: RoomSpace)
    ensures
        r == cell_of_char(c),
{
    if c == '^' {
        RoomSpace::Guard(Direction::Up)
    } else if c == '<' {
        RoomSpace::Guard(Direction::Left)
    } else if c == '>' {
        RoomSpace::Guard(Direction::Right)
    } else if c == 'v' {
        RoomSpace::Guard(Direction::Down)
    } else if c == '#' {
        RoomSpace::Obstacle
    } else {
        RoomSpace::Empty
    }
}

fn strip_cr_vec(l: Vec<char>) -> (r: Vec<char>)
    ensures
        r@ == strip_cr(l@),
{
    let ghost orig = l@;
    let mut r = l;
    if r.len() > 0 && r[r.len() - 1] == '\r' {
        r.pop();
        proof {
            assert(r@ =~= orig.drop_last());
        }
    }
    r
}

/// Split a text into its lines.
fn split_text(s: &str) -> (lines: Vec<Vec<char>>)
    ensures
        lines@.map_values(|l: Vec<char>| l@) == split_lines(s@),
{
    let n = s.unicode_len();
    let mut lines: Vec<Vec<char>> = Vec::new();
    let mut acc: Vec<char> = Vec::new();
    let mut i: usize = 0;
    proof {
        assert(s@.subrange(0, n as int) =~= s@);
        assert(lines@.map_values(|l: Vec<char>| l@) =~= Seq::<Seq<char>>::empty());
        assert(Seq::<Seq<char>>::empty() + split_acc(s@, acc@) =~= split_acc(s@, acc@));
        assert(acc@ =~= Seq::<char>::empty());
    }
    while i < n
        invariant
            n == s@.len(),
            i <= n,
            split_lines(s@) == lines@.map_values(|l: Vec<char>| l@) + split_acc(
                s@.subrange(i as int, n as int),
                acc@,
            ),
        decreases n - i,
    {
        let c = s.get_char(i);
        let ghost rest = s@.subrange(i as int, n as int);
        let ghost done = lines@.map_values(|l: Vec<char>| l@);
        proof {
            assert(rest[0] == c);
            assert(rest.drop_first() =~= s@.subrange(i + 1, n as int));
        }
        if c == '\n' {
            let ghost acc0 = acc@;
            let stripped = strip_cr_vec(acc);
            lines.push(stripped);
            acc = Vec::new();
            proof {
                assert(lines@.map_values(|l: Vec<char>| l@) =~= done.push(strip_cr(acc0)));
                assert(split_acc(rest, acc0) == seq![strip_cr(acc0)] + split_acc(
                    rest.drop_first(),
                    Seq::empty(),
                ));
                assert(done.push(strip_cr(acc0)) + split_acc(rest.drop_first(), Seq::empty())
                    =~= done + (seq![strip_cr(acc0)] + split_acc(
                    rest.drop_first(),
                    Seq::empty(),
                )));
            }
        } else {
            let ghost acc0 = acc@;
            acc.push(c);
            proof {
                assert(split_acc(rest, acc0) == split_acc(rest.drop_first(), acc0.push(c)));
            }
        }
        i = i + 1;
    }
    proof {
        assert(s@.subrange(n as int, n as int) =~= Seq::<char>::empty());
    }
    if acc.len() > 0 {
        let ghost done = lines@.map_values(|l: Vec<char>| l@);
        let ghost acc0 = acc@;
        lines.push(acc);
        proof {
            assert(lines@.map_values(|l: Vec<char>| l@) =~= done.push(acc0));
            assert(done.push(acc0) =~= done + seq![acc0]);
        }
    } else {
        proof {
            assert(lines@.map_values(|l: Vec<char>| l@) + Seq::<Seq<char>>::empty()
                =~= lines@.map_values(|l: Vec<char>| l@));
        }
    }
    lines
}

/// What the grid of a successfully parsed room looks like: the text
/// had exactly one guard character and equally long lines, and the
/// room holds the transposed cell grid with the guard's cell recorded.
pub open spec fn parse_ok_grid(text: Seq<char>, room: Room) -> bool {
    let lines = split_lines(text);
    &&& has_guard_char(lines)
    &&& !many_guard_chars(lines)
    &&& lines_even(lines)
    &&& room.grid_view() == parsed_grid(lines)
    &&& room.wf()
    &&& room.guard_start() is Some
    &&& unique_guard(room.grid_view(), room.guard_start()->Some_0)
}

/// A successfully parsed room: its grid as `parse_ok_grid` says, with
/// the bookkeeping fields still blank.
pub open spec fn parse_ok(text: Seq<char>, room: Room) -> bool {
    &&& parse_ok_grid(text, room)
    &&& room.to_check@ == Seq::<Pos>::empty()
    &&& room.visited == 0
    &&& room.index == 0
}

/// Which error a rejected text produces: a second guard character
/// wins over none at all, which wins over uneven lines.
pub open spec fn parse_err(text: Seq<char>, e: RoomError) -> bool {
    let lines = split_lines(text);
    &&& ((e == RoomError::ManyGuards) <==> many_guard_chars(lines))
    &&& ((e == RoomError::NoGuards) <==> !has_guard_char(lines))
    &&& ((e == RoomError::Uneven) <==> (has_guard_char(lines) && !many_guard_chars(lines)
        && !lines_even(lines)))
}

/// Parse a textual room description.
pub fn parse(text: &str) -> (r: Result<Room, RoomError>)
    ensures
        match r {
            Ok(room) => parse_ok(text@, room),
            Err(e) => parse_err(text@, e),
        },
{
    let lines = split_text(text);
    let ghost lv = lines@.map_values(|l: Vec<char>| l@);
    let mut found: Option<TrailStep> = None;
    let mut many = false;
    let mut j: usize = 0;
    while j < lines.len()
        invariant
            j <= lines.len(),
            lv == lines@.map_values(|l: Vec<char>| l@),
            (found is None ==> forall|a: int, b: int|
                0 <= b < j && 0 <= a < lv[b].len() ==> !guard_char(#[trigger] lv[b][a])),
            (found matches Some(s) ==> {
                &&& s.pos.y < j
                &&& guard_char_at(lv, s.pos.x as int, s.pos.y as int)
                &&& cell_of_char(lv[s.pos.y as int][s.pos.x as int]) == RoomSpace::Guard(s.dir)
                &&& (!many ==> forall|a: int, b: int|
                    0 <= b < j && 0 <= a < lv[b].len() && (a != s.pos.x || b != s.pos.y)
                        ==> !guard_char(#[trigger] lv[b][a]))
            }),
            (many ==> many_guard_chars(lv)),
            (many ==> found is Some),
        decreases lines.len() - j,
    {
        let mut i: usize = 0;
        while i < lines[j].len()
            invariant
                j < lines.len(),
                i <= lines[j as int]@.len(),
                lv == lines@.map_values(|l: Vec<char>| l@),
                (found is None ==> forall|a: int, b: int|
                    (0 <= b < j && 0 <= a < lv[b].len()) || (b == j && 0 <= a < i)
                        ==> !guard_char(#[trigger] lv[b][a])),
                (found matches Some(s) ==> {
                    &&& (s.pos.y < j || (s.pos.y == j && s.pos.x < i))
                    &&& guard_char_at(lv, s.pos.x as int, s.pos.y as int)
                    &&& cell_of_char(lv[s.pos.y as int][s.pos.x as int]) == RoomSpace::Guard(
                        s.dir,
                    )
                    &&& (!many ==> forall|a: int, b: int|
                        ((0 <= b < j && 0 <= a < lv[b].len()) || (b == j && 0 <= a < i)) && (a
                            != s.pos.x || b != s.pos.y) ==> !guard_char(#[trigger] lv[b][a]))
                }),
                (many ==> many_guard_chars(lv)),
                (many ==> found is Some),
            decreases lines[j as int]@.len() - i,
        {
            let c = lines[j][i];
            proof {
                assert(lv[j as int][i as int] == c);
            }
            match cell_of(c) {
                RoomSpace::Guard(d) => {
                    if found.is_some() {
                        many = true;
                        proof {
                            let s = found->Some_0;
                            assert(guard_char_at(lv, i as int, j as int));
                            assert(guard_char_at(lv, s.pos.x as int, s.pos.y as int));
                            assert(i != s.pos.x || j != s.pos.y);
                        }
                    } else {
                        found = Some(TrailStep { dir: d, pos: Pos { x: i, y: j } });
                    }
                },
                _ => {},
            }
            i = i + 1;
        }
        j = j + 1;
    }
    if many {
        proof {
            let s = found->Some_0;
            assert(guard_char_at(lv, s.pos.x as int, s.pos.y as int));
        }
        return Err(RoomError::ManyGuards);
    }
    let start = match found {
        None => {
            proof {
                assert forall|a: int, b: int| !guard_char_at(lv, a, b) by {
                    if 0 <= b < lv.len() && 0 <= a < lv[b].len() {
                        assert(!guard_char(lv[b][a]));
                    }
                }
            }
            return Err(RoomError::NoGuards);
        },
        Some(s) => s,
    };
    proof {
        assert(guard_char_at(lv, start.pos.x as int, start.pos.y as int));
        assert(!many_guard_chars(lv)) by {
            if many_guard_chars(lv) {
                let (i1, j1, i2, j2) = choose|i1: int, j1: int, i2: int, j2: int|
                    guard_char_at(lv, i1, j1) && guard_char_at(lv, i2, j2) && (i1 != i2 || j1
                        != j2);
                assert(!guard_char(lv[j1][i1]) || (i1 == start.pos.x && j1 == start.pos.y));
                assert(!guard_char(lv[j2][i2]) || (i2 == start.pos.x && j2 == start.pos.y));
                assert(false);
            }
        }
    }
    let mut k: usize = 0;
    while k < lines.len()
        invariant
            k <= lines.len(),
            lv == lines@.map_values(|l: Vec<char>| l@),
            lv == split_lines(text@),
            guard_char_at(lv, start.pos.x as int, start.pos.y as int),
            cell_of_char(lv[start.pos.y as int][start.pos.x as int]) == RoomSpace::Guard(
                start.dir,
            ),
            !many_guard_chars(lv),
            forall|m: int| 0 <= m < k ==> (#[trigger] lv[m]).len() == lv[0].len(),
        decreases lines.len() - k,
    {
        if lines[k].len() != lines[0].len() {
            proof {
                assert(lv[k as int].len() != lv[0].len());
                assert(!lines_even(lv));
            }
            return Err(RoomError::Uneven);
        }
        k = k + 1;
    }
    proof {
        assert(lines_even(lv));
    }
    let width = lines[0].len();
    let height = lines.len();
    let mut grid: Vec<Vec<RoomSpace>> = Vec::new();
    let mut x: usize = 0;
    while x < width
        invariant
            x <= width,
            lv == lines@.map_values(|l: Vec<char>| l@),
            width == lv[0].len(),
            height == lv.len(),
            height > 0,
            lines_even(lv),
            guard_char_at(lv, start.pos.x as int, start.pos.y as int),
            cell_of_char(lv[start.pos.y as int][start.pos.x as int]) == RoomSpace::Guard(
                start.dir,
            ),
            !many_guard_chars(lv),
            grid@.len() == x,
            forall|i: int| 0 <= i < x ==> (#[trigger] grid@[i])@ == parsed_grid(lv)[i],
        decreases width - x,
    {
        let mut col: Vec<RoomSpace> = Vec::new();
        let mut y: usize = 0;
        while y < height
            invariant
                x < width,
                y <= height,
                lv == lines@.map_values(|l: Vec<char>| l@),
                width == lv[0].len(),
                height == lv.len(),
                lines_even(lv),
                col@.len() == y,
                forall|m: int| 0 <= m < y ==> col@[m] == cell_of_char(lv[m][x as int]),
            decreases height - y,
        {
            proof {
                assert(lv[y as int].len() == lv[0].len());
            }
            col.push(cell_of(lines[y][x]));
            y = y + 1;
        }
        proof {
            assert(col@ =~= parsed_grid(lv)[x as int]);
        }
        grid.push(col);
        x = x + 1;
    }
    let room = Room {
        grid,
        initial_guard_pos: Some(start),
        to_check: Vec::new(),
        visited: 0,
        index: 0,
    };
    proof {
        assert(room.grid_view() =~= parsed_grid(lv));
        let g = room.grid_view();
        assert forall|i: int| 0 <= i < g.len() implies (#[trigger] g[i]).len() == g[0].len() by {
            assert(g[i].len() == lv.len());
        }
        assert(lv[start.pos.y as int].len() == lv[0].len());
        assert(cell_at(g, start.pos) == cell_of_char(lv[start.pos.y as int][start.pos.x as int]));
        assert(guard_at(g, start));
        assert forall|t: TrailStep| guard_at(g, t) implies t == start by {
            let tx = t.pos.x as int;
            let ty = t.pos.y as int;
            assert(cell_at(g, t.pos) == cell_of_char(lv[ty][tx]));
            assert(lv[ty].len() == lv[0].len());
            assert(guard_char_at(lv, tx, ty));
            if tx != start.pos.x as int || ty != start.pos.y as int {
                assert(many_guard_chars(lv));
                assert(false);
            }
            assert(RoomSpace::Guard(t.dir) == RoomSpace::Guard(start.dir));
        }
        assert(room.to_check@ =~= Seq::<Pos>::empty());
    }
    Ok(room)
}

impl Room {
    /// Parse a room from an owned string.
    pub fn from_string(input: String) -> (r: Result<Room, RoomError>)
        ensures
            match r {
                Ok(room) => parse_ok(input@, room),
                Err(e) => parse_err(input@, e),
            },
    {
        parse(input.as_str())
    }
}

} // verus!
