//! Rendering a room back to text, the inverse of parsing: one line
//! per text row, `#` for obstacles, the facing glyph for the guard,
//! and `.` for empty as well as visited cells.

use vstd::prelude::*;
use crate::room::{
    Direction, Pos, Room, RoomSpace, TrailStep, cell_at, grid_height, grid_rect, guard_at, in_bounds,
    unique_guard,
};
use crate::parse::{
    cell_of_char, guard_char, guard_char_at, has_guard_char, lines_even, many_guard_chars,
    parsed_grid, split_acc, split_lines, strip_cr,
};

verus! {

/// The character that displays one cell.
pub open spec fn glyph(c: RoomSpace) -> char {
    match c {
        RoomSpace::Guard(d) => match d {
            Direction::Up => '^',
            Direction::Down => 'v',
            Direction::Left => '<',
            Direction::Right => '>',
        },
        RoomSpace::Obstacle => '#',
        RoomSpace::Visited => '.',
        RoomSpace::Empty => '.',
    }
}

/// The rendered text row `y`: the glyphs of cell `y` of every column.
pub open spec fn render_row(g: Seq<Seq<RoomSpace>>, y: int) -> Seq<char> {
    Seq::new(g.len(), |x: int| glyph(g[x][y]))
}

/// The rendered text rows `y` and below, each ended by a line feed.
pub open spec fn rendered_from(g: Seq<Seq<RoomSpace>>, y: nat) -> Seq<char>
    decreases grid_height(g) - y,
{
    if y >= grid_height(g) {
        Seq::empty()
    } else {
        render_row(g, y as int) + seq!['\n'] + rendered_from(g, (y + 1) as nat)
    }
}

/// The full rendered text of a grid.
pub open spec fn rendered(g: Seq<Seq<RoomSpace>>) -> Seq<char> {
    rendered_from(g, 0)
}

/// A cell as it survives a render and re-parse: visited cells print
/// as `.` and come back empty; everything else is unchanged.
pub open spec fn clear_cell(c: RoomSpace) -> RoomSpace {
    if c is Visited {
        RoomSpace::Empty
    } else {
        c
    }
}

/// The grid with every visited cell cleared.
pub open spec fn visited_cleared(g: Seq<Seq<RoomSpace>>) -> Seq<Seq<RoomSpace>> {
    Seq::new(g.len(), |x: int| Seq::new(g[x].len(), |y: int| clear_cell(g[x][y])))
}

impl Room {
    /// Render the room as text that `parse` accepts again.
    pub fn to_text(&self) -> (s: String)
        requires
            self.wf(),
        ensures
            s@ == rendered(self.grid_view()),
    {
        let ghost g = self.grid_view();
        let mut s = String::new();
        let width = self.width();
        let height = self.height();
        let mut y: usize = 0;
        proof {
            assert(s@ + rendered_from(g, 0) =~= rendered_from(g, 0));
        }
        while y < height
            invariant
                y <= height,
                g == self.grid_view(),
                self.wf(),
                width == g.len(),
                height == grid_height(g),
                s@ + rendered_from(g, y as nat) == rendered(g),
            decreases height - y,
        {
            let ghost row = render_row(g, y as int);
            proof {
                assert(rendered_from(g, y as nat) == row + seq!['\n'] + rendered_from(
                    g,
                    (y + 1) as nat,
                ));
                assert(row.subrange(0, width as int) =~= row);
                assert(s@ + (row + seq!['\n'] + rendered_from(g, (y + 1) as nat)) =~= (s@
                    + row.subrange(0, width as int)) + (seq!['\n'] + rendered_from(
                    g,
                    (y + 1) as nat,
                )));
                assert(s@ + row.subrange(0, 0) =~= s@);
            }
            let mut x: usize = 0;
            while x < width
                invariant
                    y < height,
                    x <= width,
                    g == self.grid_view(),
                    self.wf(),
                    width == g.len(),
                    height == grid_height(g),
                    row == render_row(g, y as int),
                    (s@ + row.subrange(x as int, width as int)) + (seq!['\n'] + rendered_from(
                        g,
                        (y + 1) as nat,
                    )) == rendered(g),
                decreases width - x,
            {
                proof {
                    assert(g[x as int].len() == g[0].len());
                }
                let t: &str = match self.grid[x][y] {
                    RoomSpace::Guard(Direction::Up) => "^",
                    RoomSpace::Guard(Direction::Down) => "v",
                    RoomSpace::Guard(Direction::Left) => "<",
                    RoomSpace::Guard(Direction::Right) => ">",
                    RoomSpace::Obstacle => "#",
                    _ => ".",
                };
                proof {
                    reveal_strlit("^");
                    reveal_strlit("v");
                    reveal_strlit("<");
                    reveal_strlit(">");
                    reveal_strlit("#");
                    reveal_strlit(".");
                    assert(t@ =~= seq![glyph(cell_at(g, Pos { x, y }))]);
                    assert(row[x as int] == glyph(cell_at(g, Pos { x, y })));
                    assert(row.subrange(x as int, width as int) =~= seq![row[x as int]]
                        + row.subrange(x + 1, width as int));
                    assert((s@ + t@) + row.subrange(x + 1, width as int) =~= s@ + row.subrange(
                        x as int,
                        width as int,
                    ));
                }
                s.append(t);
                x = x + 1;
            }
            proof {
                assert(row.subrange(width as int, width as int) =~= Seq::<char>::empty());
                assert(s@ + row.subrange(width as int, width as int) =~= s@);
                reveal_strlit("\n");
                assert("\n"@ =~= seq!['\n']);
                assert((s@ + "\n"@) + rendered_from(g, (y + 1) as nat) =~= s@ + (seq!['\n']
                    + rendered_from(g, (y + 1) as nat)));
            }
            s.append("\n");
            y = y + 1;
        }
        proof {
            assert(rendered_from(g, y as nat) =~= Seq::<char>::empty());
            assert(s@ + rendered_from(g, y as nat) =~= s@);
        }
        s
    }
}

proof fn lemma_split_acc_no_newline(l: Seq<char>, rest: Seq<char>, acc: Seq<char>)
    requires
        forall|i: int| 0 <= i < l.len() ==> l[i] != '\n',
    ensures
        split_acc(l + rest, acc) == split_acc(rest, acc + l),
    decreases l.len(),
{
    if l.len() == 0 {
        assert(l + rest =~= rest);
        assert(acc + l =~= acc);
    } else {
        let c = l[0];
        assert((l + rest)[0] == c);
        assert((l + rest).drop_first() =~= l.drop_first() + rest);
        lemma_split_acc_no_newline(l.drop_first(), rest, acc.push(c));
        assert(acc.push(c) + l.drop_first() =~= acc + l);
    }
}

/// Splitting the rendered rows `y` and below gives back those rows.
proof fn lemma_split_rendered(g: Seq<Seq<RoomSpace>>, y: nat)
    requires
        y <= grid_height(g),
    ensures
        split_acc(rendered_from(g, y), Seq::empty()) == Seq::new(
            (grid_height(g) - y) as nat,
            |k: int| render_row(g, y + k),
        ),
    decreases grid_height(g) - y,
{
    let h = grid_height(g);
    if y >= h {
        assert(Seq::new((h - y) as nat, |k: int| render_row(g, y + k)) =~= Seq::<
            Seq<char>,
        >::empty());
    } else {
        let row = render_row(g, y as int);
        let rest = seq!['\n'] + rendered_from(g, (y + 1) as nat);
        assert(forall|i: int| 0 <= i < row.len() ==> row[i] != '\n');
        assert(rendered_from(g, y) =~= row + rest);
        lemma_split_acc_no_newline(row, rest, Seq::empty());
        assert(Seq::<char>::empty() + row =~= row);
        assert(rest[0] == '\n');
        assert(rest.drop_first() =~= rendered_from(g, (y + 1) as nat));
        assert(split_acc(rest, row) == seq![strip_cr(row)] + split_acc(
            rendered_from(g, (y + 1) as nat),
            Seq::empty(),
        ));
        assert(forall|i: int| 0 <= i < row.len() ==> row[i] != '\r');
        assert(strip_cr(row) == row);
        lemma_split_rendered(g, (y + 1) as nat);
        assert(seq![row] + Seq::new((h - y - 1) as nat, |k: int| render_row(g, y + 1 + k)) =~= Seq::new(
            (h - y) as nat,
            |k: int| render_row(g, y + k),
        ));
    }
}

/// Rendering and re-splitting a rectangular grid with a guard yields
/// lines of equal length whose only guard character is the guard's
/// cell, and whose parse is the grid with visited cells cleared: the
/// renderer is an inverse of the parser, up to visited markers.
pub proof fn lemma_parse_round_trip(g: Seq<Seq<RoomSpace>>, s: TrailStep)
    requires
        grid_rect(g),
        unique_guard(g, s),
        g.len() <= usize::MAX,
        grid_height(g) <= usize::MAX,
    ensures
        ({
            let lines = split_lines(rendered(g));
            &&& has_guard_char(lines)
            &&& !many_guard_chars(lines)
            &&& lines_even(lines)
            &&& parsed_grid(lines) == visited_cleared(g)
        }),
{
    let h = grid_height(g);
    let w = g.len() as int;
    lemma_split_rendered(g, 0);
    let lines = split_lines(rendered(g));
    assert(lines == Seq::new(h, |k: int| render_row(g, k)));
    assert(w > 0 && h > 0) by {
        assert(in_bounds(g, s.pos));
        assert(g[s.pos.x as int].len() == g[0].len());
    }
    assert forall|k: int| 0 <= k < lines.len() implies (#[trigger] lines[k]).len()
        == lines[0].len() by {
        assert(lines[k].len() == w);
    }
    assert forall|i: int, j: int| guard_char_at(lines, i, j) implies (i == s.pos.x && j
        == s.pos.y) by {
        assert(0 <= j < h && 0 <= i < lines[j].len() && lines[j].len() == w);
        assert(lines[j][i] == glyph(g[i][j]));
        let t = TrailStep { dir: guard_dir_of(g[i][j]), pos: Pos { x: i as usize, y: j as usize } };
        assert(t.pos.x as int == i && t.pos.y as int == j);
        assert(g[i].len() == g[0].len());
        assert(g[i][j] is Guard);
        assert(cell_at(g, t.pos) == RoomSpace::Guard(t.dir));
        assert(in_bounds(g, t.pos));
        assert(guard_at(g, t));
        assert(t == s);
    }
    assert(guard_char_at(lines, s.pos.x as int, s.pos.y as int)) by {
        assert(g[s.pos.x as int].len() == g[0].len());
        assert(lines[s.pos.y as int][s.pos.x as int] == glyph(g[s.pos.x as int][s.pos.y as int]));
    }
    assert(has_guard_char(lines));
    assert(!many_guard_chars(lines));
    assert(parsed_grid(lines) =~~= visited_cleared(g)) by {
        assert(lines[0].len() == w);
        assert forall|x: int| 0 <= x < w implies parsed_grid(lines)[x] =~= visited_cleared(
            g,
        )[x] by {
            assert(g[x].len() == g[0].len());
            assert forall|y: int| 0 <= y < h implies parsed_grid(lines)[x][y] == visited_cleared(
                g,
            )[x][y] by {
                assert(lines[y][x] == glyph(g[x][y]));
                assert(cell_of_char(glyph(g[x][y])) == clear_cell(g[x][y]));
            }
        }
    }
}

spec fn guard_dir_of(c: RoomSpace) -> Direction {
    match c {
        RoomSpace::Guard(d) => d,
        _ => Direction::Up,
    }
}

} // verus!
