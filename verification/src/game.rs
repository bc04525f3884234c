//! The game: a grid of cells that steps from one generation to the next
//! and shows itself as text.

use vstd::prelude::*;
use vstd::string::StringExecFns;
use crate::game_conf::GameConf;
use crate::grid::{
    alive_at, changes, flip, in_bounds, initial_grid, initial_row, live_count, live_neighbors,
    neighbor_coords, next_cell, next_grid, rectangular, render, render_row, render_rows,
    same_shape, widest,
};
use crate::text::{chars_of, join, views};

verus! {

/// A position on or off the grid. The coordinates are signed, and wide
/// enough for every index, so that the positions around a cell at the edge
/// can be written down and then found to lie outside.
#[derive(Clone, Copy, Debug, PartialEq, Eq, Structural)]
pub struct Pos {
    pub row: i128,
    pub col: i128,
}

impl Pos {
    /// The position of the cell with the indices `row` and `col`.
    pub fn from_usize(row: usize, col: usize) -> (p: Pos)
        ensures
            p.row == row,
            p.col == col,
    {
        Pos { row: row as i128, col: col as i128 }
    }

    /// The position with the coordinates `row` and `col`.
    pub fn from(row: i128, col: i128) -> (p: Pos)
        ensures
            p.row == row,
            p.col == col,
    {
        Pos { row, col }
    }

    /// Whether `self` comes before `other` when the grid is read row by
    /// row, each row from the left.
    pub open spec fn before(self, other: Pos) -> bool {
        self.row < other.row || (self.row == other.row && self.col < other.col)
    }
}

/// Whether `ps` holds the position `(r, c)`.
pub open spec fn listed(ps: Seq<Pos>, r: int, c: int) -> bool {
    exists|i: int| 0 <= i < ps.len() && (#[trigger] ps[i]).row == r && ps[i].col == c
}

/// Whether `ps` holds its positions in reading order, none twice.
pub open spec fn in_reading_order(ps: Seq<Pos>) -> bool {
    forall|i: int, j: int| 0 <= i < j < ps.len() ==> (#[trigger] ps[i]).before(#[trigger] ps[j])
}

/// Whether `ps` is the list of the cells of `g` that change in the next
/// generation: those cells, each once, in reading order.
pub open spec fn lists_changes(g: Seq<Seq<bool>>, ps: Seq<Pos>) -> bool {
    &&& forall|i: int| 0 <= i < ps.len() ==> changes(g, (#[trigger] ps[i]).row as int, ps[i].col as int)
    &&& forall|r: int, c: int| changes(g, r, c) ==> listed(ps, r, c)
    &&& in_reading_order(ps)
}

/// Whether `ps` is the list of the cells in row `row` of `g` that change in
/// the next generation: those cells, each once, from the left.
pub open spec fn lists_row_changes(g: Seq<Seq<bool>>, row: int, ps: Seq<Pos>) -> bool {
    &&& forall|i: int| 0 <= i < ps.len() ==> (#[trigger] ps[i]).row == row && changes(g, row, ps[i].col as int)
    &&& forall|c: int| changes(g, row, c) ==> listed(ps, row, c)
    &&& in_reading_order(ps)
}

/// `g` after the cells at `ps` were turned over one after another.
pub open spec fn flip_all(g: Seq<Seq<bool>>, ps: Seq<Pos>) -> Seq<Seq<bool>>
    decreases ps.len(),
{
    if ps.len() == 0 {
        g
    } else {
        flip(flip_all(g, ps.drop_last()), ps.last().row as int, ps.last().col as int)
    }
}

/// How many of the first `n` positions of `ps` are live cells of `g`.
pub open spec fn count_alive(g: Seq<Seq<bool>>, ps: Seq<Pos>, n: int) -> nat
    decreases n,
{
    if n <= 0 {
        0
    } else {
        count_alive(g, ps, n - 1) + live_count(g, ps[n - 1].row as int, ps[n - 1].col as int)
    }
}

/// The coordinates of each position of `ps`.
pub open spec fn coords(ps: Seq<Pos>) -> Seq<(int, int)> {
    Seq::new(ps.len(), |i: int| (ps[i].row as int, ps[i].col as int))
}

/// A position of a list is listed in every longer list that begins with it.
pub proof fn lemma_listed_extends(ps: Seq<Pos>, qs: Seq<Pos>, r: int, c: int)
    requires
        listed(ps, r, c),
        ps.len() <= qs.len(),
        forall|i: int| 0 <= i < ps.len() ==> ps[i] == qs[i],
    ensures
        listed(qs, r, c),
{
    let i = choose|i: int| 0 <= i < ps.len() && (#[trigger] ps[i]).row == r && ps[i].col == c;
    assert(qs[i].row == r && qs[i].col == c);
}

/// Turning over cells of the grid, none twice, leaves the shape as it was
/// and changes the listed cells and no others.
pub proof fn lemma_flip_all(g: Seq<Seq<bool>>, ps: Seq<Pos>)
    requires
        forall|i: int| 0 <= i < ps.len() ==> in_bounds(g, (#[trigger] ps[i]).row as int, ps[i].col as int),
        in_reading_order(ps),
    ensures
        same_shape(g, flip_all(g, ps)),
        forall|r: int, c: int|
            in_bounds(g, r, c) ==> #[trigger] flip_all(g, ps)[r][c] == (g[r][c] != listed(ps, r, c)),
    decreases ps.len(),
{
    if ps.len() > 0 {
        let prefix = ps.drop_last();
        let last = ps.last();
        let before = flip_all(g, prefix);
        lemma_flip_all(g, prefix);
        assert(in_bounds(g, last.row as int, last.col as int));
        assert forall|r: int, c: int| in_bounds(g, r, c) implies #[trigger] flip_all(g, ps)[r][c]
            == (g[r][c] != listed(ps, r, c)) by {
            assert(before[r][c] == (g[r][c] != listed(prefix, r, c)));
            if r == last.row && c == last.col {
                if listed(prefix, r, c) {
                    let i = choose|i: int|
                        0 <= i < prefix.len() && (#[trigger] prefix[i]).row == r && prefix[i].col == c;
                    assert(ps[i].before(ps[ps.len() - 1]));
                }
                assert(ps[ps.len() - 1].row == r && ps[ps.len() - 1].col == c);
            } else {
                if listed(prefix, r, c) {
                    lemma_listed_extends(prefix, ps, r, c);
                }
                if listed(ps, r, c) {
                    let i = choose|i: int| 0 <= i < ps.len() && (#[trigger] ps[i]).row == r && ps[i].col == c;
                    assert(prefix[i].row == r && prefix[i].col == c);
                }
            }
        }
    }
}

/// Turning over exactly the cells that change gives the next generation.
pub proof fn lemma_flip_changes(g: Seq<Seq<bool>>, ps: Seq<Pos>)
    requires
        lists_changes(g, ps),
    ensures
        flip_all(g, ps) == next_grid(g),
{
    lemma_flip_all(g, ps);
    let flipped = flip_all(g, ps);
    let next = next_grid(g);
    assert forall|r: int| 0 <= r < g.len() implies #[trigger] flipped[r] =~= next[r] by {
        assert forall|c: int| 0 <= c < g[r].len() implies flipped[r][c] == next[r][c] by {
            assert(in_bounds(g, r, c));
            if listed(ps, r, c) {
                let i = choose|i: int| 0 <= i < ps.len() && (#[trigger] ps[i]).row == r && ps[i].col == c;
                assert(changes(g, ps[i].row as int, ps[i].col as int));
            }
        }
    }
    assert(flipped =~= next);
}

/// The cells that the text `row` writes, `width` of them: alive where the
/// text has the symbol `alive`, dead elsewhere and past the end of the text.
pub fn string_to_live_row(row: &str, alive: char, width: usize) -> (cells: Vec<bool>)
    ensures
        cells@ == initial_row(row@, alive, width as nat),
{
    let symbols = chars_of(row);
    let mut cells: Vec<bool> = Vec::new();
    let mut col: usize = 0;
    while col < width
        invariant
            col <= width,
            symbols@ == row@,
            cells@ == initial_row(row@, alive, col as nat),
        decreases width - col,
    {
        cells.push(col < symbols.len() && symbols[col] == alive);
        assert(cells@ =~= initial_row(row@, alive, (col + 1) as nat));
        col += 1;
    }
    cells
}

/// A game in progress.
pub struct Game {
    grid: Vec<Vec<bool>>,
    conf: GameConf,
}

impl Game {
    /// The current generation, row by row; `true` is a live cell.
    pub closed spec fn cells(&self) -> Seq<Seq<bool>> {
        views(self.grid@)
    }

    /// The configuration that the game was made from.
    pub closed spec fn conf(&self) -> GameConf {
        self.conf
    }

    /// Whether the grid is a rectangle.
    pub open spec fn wf(&self) -> bool {
        rectangular(self.cells())
    }

    /// Every index of the grid fits in a machine word, and so lies well
    /// inside the range of a `Pos`.
    pub proof fn lemma_cells_fit(&self)
        ensures
            self.cells().len() <= usize::MAX,
            forall|r: int| 0 <= r < self.cells().len() ==> (#[trigger] self.cells()[r]).len() <= usize::MAX,
    {
        assert(self.cells().len() == self.grid.len());
        assert forall|r: int| 0 <= r < self.cells().len() implies (#[trigger] self.cells()[r]).len()
            <= usize::MAX by {
            assert(self.cells()[r].len() == self.grid@[r].len());
        }
    }

    /// A game at its first generation, as `conf` writes it. Rows shorter
    /// than the longest are filled up with dead cells.
    pub fn new(conf: GameConf) -> (game: Game)
        ensures
            game.conf() == conf,
            game.cells() == initial_grid(conf@.rows, conf.alive),
            game.wf(),
    {
        let ghost rows = conf@.rows;
        let mut width: usize = 0;
        let mut i: usize = 0;
        while i < conf.starting_value.len()
            invariant
                i <= conf.starting_value.len(),
                rows == conf@.rows,
                width == widest(rows.take(i as int)),
            decreases conf.starting_value.len() - i,
        {
            let symbols = chars_of(conf.starting_value[i].as_str());
            assert(rows.take(i + 1).drop_last() =~= rows.take(i as int));
            assert(rows.take(i + 1).last() == symbols@);
            if symbols.len() > width {
                width = symbols.len();
            }
            i += 1;
        }
        assert(rows.take(rows.len() as int) =~= rows);
        let mut grid: Vec<Vec<bool>> = Vec::new();
        let mut row: usize = 0;
        while row < conf.starting_value.len()
            invariant
                row <= conf.starting_value.len(),
                rows == conf@.rows,
                width == widest(rows),
                grid@.len() == row,
                forall|k: int| 0 <= k < row ==> (#[trigger] grid@[k])@ == initial_row(rows[k], conf.alive, width as nat),
            decreases conf.starting_value.len() - row,
        {
            grid.push(string_to_live_row(conf.starting_value[row].as_str(), conf.alive, width));
            row += 1;
        }
        let game = Game { grid, conf };
        assert(game.cells() =~= initial_grid(rows, conf.alive));
        game
    }

    /// The time between two generations, in milliseconds.
    pub fn millis(&self) -> (millis: u64)
        ensures
            millis == self.conf().millis,
    {
        self.conf.millis
    }

    /// Whether `pos` lies outside the grid.
    pub fn is_outside_of_grid(&self, pos: &Pos) -> (outside: bool)
        ensures
            outside == !in_bounds(self.cells(), pos.row as int, pos.col as int),
    {
        if pos.row < 0 || pos.col < 0 {
            return true;
        }
        if pos.row >= self.grid.len() as i128 {
            return true;
        }
        pos.col >= self.grid[pos.row as usize].len() as i128
    }

    /// The state of the cell at `pos`, which must lie on the grid.
    pub fn is_pos_alive(&self, pos: &Pos) -> (alive: bool)
        requires
            in_bounds(self.cells(), pos.row as int, pos.col as int),
        ensures
            alive == self.cells()[pos.row as int][pos.col as int],
    {
        assert(self.cells().len() == self.grid.len());
        assert(self.cells()[pos.row as int] == self.grid@[pos.row as int]@);
        assert(self.grid@[pos.row as int]@.len() == self.grid@[pos.row as int].len());
        self.grid[pos.row as usize][pos.col as usize]
    }

    /// Whether `pos` is a live cell. A position outside the grid is dead.
    pub fn is_alive(&self, pos: &Pos) -> (alive: bool)
        ensures
            alive == alive_at(self.cells(), pos.row as int, pos.col as int),
    {
        if self.is_outside_of_grid(pos) {
            false
        } else {
            self.is_pos_alive(pos)
        }
    }

    /// The eight positions around `pos`, row by row.
    pub fn get_neighbors(&self, pos: &Pos) -> (around: Vec<Pos>)
        requires
            i128::MIN < pos.row < i128::MAX,
            i128::MIN < pos.col < i128::MAX,
        ensures
            coords(around@) == neighbor_coords(pos.row as int, pos.col as int),
    {
        let row = pos.row;
        let col = pos.col;
        let around = vec![
            Pos::from(row - 1, col - 1),
            Pos::from(row - 1, col),
            Pos::from(row - 1, col + 1),
            Pos::from(row, col - 1),
            Pos::from(row, col + 1),
            Pos::from(row + 1, col - 1),
            Pos::from(row + 1, col),
            Pos::from(row + 1, col + 1),
        ];
        assert(coords(around@) =~= neighbor_coords(pos.row as int, pos.col as int));
        around
    }

    /// Whether the cell at `pos` is alive in the next generation.
    pub fn is_next_alive(&self, pos: &Pos) -> (alive: bool)
        requires
            i128::MIN < pos.row < i128::MAX,
            i128::MIN < pos.col < i128::MAX,
        ensures
            alive == next_cell(self.cells(), pos.row as int, pos.col as int),
    {
        let neighbors = self.get_neighbors(pos);
        let ghost g = self.cells();
        let ghost around = neighbor_coords(pos.row as int, pos.col as int);
        assert(neighbors@.len() == 8) by {
            assert(coords(neighbors@).len() == 8);
        }
        let mut num_of_neighbors: usize = 0;
        let mut i: usize = 0;
        while i < neighbors.len()
            invariant
                i <= neighbors.len(),
                g == self.cells(),
                num_of_neighbors == count_alive(g, neighbors@, i as int),
                num_of_neighbors <= i,
            decreases neighbors.len() - i,
        {
            if self.is_alive(&neighbors[i]) {
                num_of_neighbors += 1;
            }
            i += 1;
        }
        proof {
            reveal_with_fuel(count_alive, 9);
            assert forall|k: int| 0 <= k < 8 implies (neighbors@[k].row as int, neighbors@[k].col as int)
                == #[trigger] around[k] by {
                assert(coords(neighbors@)[k] == around[k]);
            }
            assert(around[0] == (pos.row - 1, pos.col - 1));
            assert(around[1] == (pos.row - 1, pos.col as int));
            assert(around[2] == (pos.row - 1, pos.col + 1));
            assert(around[3] == (pos.row as int, pos.col - 1));
            assert(around[4] == (pos.row as int, pos.col + 1));
            assert(around[5] == (pos.row + 1, pos.col - 1));
            assert(around[6] == (pos.row + 1, pos.col as int));
            assert(around[7] == (pos.row + 1, pos.col + 1));
            assert(count_alive(g, neighbors@, 8) == live_neighbors(g, pos.row as int, pos.col as int));
        }
        num_of_neighbors == 3 || (self.is_alive(pos) && num_of_neighbors == 2)
    }

    /// The cells of row `row` that change in the next generation, from the
    /// left.
    pub fn calc_next_positions_for_a_row(&self, row: usize) -> (out: Vec<Pos>)
        requires
            row < self.cells().len(),
        ensures
            lists_row_changes(self.cells(), row as int, out@),
    {
        let ghost g = self.cells();
        assert(g[row as int] == self.grid@[row as int]@);
        let width = self.grid[row].len();
        let mut out: Vec<Pos> = Vec::new();
        let mut col: usize = 0;
        while col < width
            invariant
                col <= width,
                g == self.cells(),
                row < g.len(),
                width == g[row as int].len(),
                forall|i: int|
                    0 <= i < out@.len() ==> (#[trigger] out@[i]).row == row && changes(
                        g,
                        row as int,
                        out@[i].col as int,
                    ) && out@[i].col < col,
                forall|c: int| changes(g, row as int, c) && c < col ==> listed(out@, row as int, c),
                in_reading_order(out@),
            decreases width - col,
        {
            let curr_pos = Pos::from_usize(row, col);
            let ghost found = out@;
            if self.is_pos_alive(&curr_pos) != self.is_next_alive(&curr_pos) {
                out.push(curr_pos);
                assert(out@[found.len() as int] == curr_pos);
            }
            assert forall|c: int| changes(g, row as int, c) && c < col + 1 implies listed(
                out@,
                row as int,
                c,
            ) by {
                if c < col {
                    lemma_listed_extends(found, out@, row as int, c);
                }
            }
            col += 1;
        }
        out
    }

    /// The cells that change in the next generation, in reading order.
    pub fn calc_next_positions(&self) -> (out: Vec<Pos>)
        ensures
            lists_changes(self.cells(), out@),
    {
        let ghost g = self.cells();
        let mut out: Vec<Pos> = Vec::new();
        let mut row: usize = 0;
        while row < self.grid.len()
            invariant
                row <= self.grid.len(),
                g == self.cells(),
                forall|i: int|
                    0 <= i < out@.len() ==> changes(g, (#[trigger] out@[i]).row as int, out@[i].col as int)
                        && out@[i].row < row,
                forall|r: int, c: int| changes(g, r, c) && r < row ==> listed(out@, r, c),
                in_reading_order(out@),
            decreases self.grid.len() - row,
        {
            let ghost found = out@;
            let mut in_row = self.calc_next_positions_for_a_row(row);
            let ghost added = in_row@;
            out.append(&mut in_row);
            assert(out@ == found + added);
            assert forall|r: int, c: int| changes(g, r, c) && r < row + 1 implies listed(out@, r, c) by {
                if r < row {
                    lemma_listed_extends(found, out@, r, c);
                } else {
                    let i = choose|i: int|
                        0 <= i < added.len() && (#[trigger] added[i]).row == r && added[i].col == c;
                    assert(out@[found.len() + i] == added[i]);
                }
            }
            assert forall|i: int, j: int| 0 <= i < j < out@.len() implies (#[trigger] out@[i]).before(
                #[trigger] out@[j],
            ) by {
                if j < found.len() {
                    assert(found[i].before(found[j]));
                } else if i < found.len() {
                    assert(out@[j] == added[j - found.len()]);
                } else {
                    assert(added[i - found.len()].before(added[j - found.len()]));
                }
            }
            assert forall|i: int| 0 <= i < out@.len() implies changes(
                g,
                (#[trigger] out@[i]).row as int,
                out@[i].col as int,
            ) && out@[i].row < row + 1 by {
                if i >= found.len() {
                    assert(out@[i] == added[i - found.len()]);
                }
            }
            row += 1;
        }
        out
    }

    /// Turns over the cells at `next_positions`, one after another. Every
    /// position must lie on the grid.
    pub fn change_liveness_of_grid(&mut self, next_positions: &Vec<Pos>)
        requires
            forall|i: int|
                0 <= i < next_positions@.len() ==> in_bounds(
                    old(self).cells(),
                    (#[trigger] next_positions@[i]).row as int,
                    next_positions@[i].col as int,
                ),
        ensures
            final(self).cells() == flip_all(old(self).cells(), next_positions@),
            final(self).conf() == old(self).conf(),
    {
        let ghost start = self.cells();
        let mut i: usize = 0;
        while i < next_positions.len()
            invariant
                i <= next_positions.len(),
                start == old(self).cells(),
                self.conf == old(self).conf,
                same_shape(start, self.cells()),
                self.cells() == flip_all(start, next_positions@.take(i as int)),
                forall|k: int|
                    0 <= k < next_positions@.len() ==> in_bounds(
                        start,
                        (#[trigger] next_positions@[k]).row as int,
                        next_positions@[k].col as int,
                    ),
            decreases next_positions.len() - i,
        {
            let pos = next_positions[i];
            let ghost before = self.cells();
            assert(in_bounds(start, pos.row as int, pos.col as int));
            assert(before.len() == self.grid.len());
            assert(before[pos.row as int] == self.grid@[pos.row as int]@);
            assert(self.grid@[pos.row as int]@.len() == self.grid@[pos.row as int].len());
            let row = pos.row as usize;
            let col = pos.col as usize;
            let alive = self.grid[row][col];
            self.grid[row][col] = !alive;
            assert(self.cells() =~= flip(before, pos.row as int, pos.col as int));
            assert(next_positions@.take(i + 1).drop_last() =~= next_positions@.take(i as int));
            i += 1;
        }
        assert(next_positions@.take(next_positions.len() as int) =~= next_positions@);
    }

    /// Steps to the next generation. Every cell is judged by the generation
    /// before the step, never by a cell that the step has already changed.
    pub fn next(&mut self)
        ensures
            final(self).cells() == next_grid(old(self).cells()),
            final(self).conf() == old(self).conf(),
            old(self).wf() ==> final(self).wf(),
    {
        let next_positions = self.calc_next_positions();
        self.change_liveness_of_grid(&next_positions);
        proof {
            lemma_flip_changes(old(self).cells(), next_positions@);
        }
    }

    /// The text of `row`: the alive symbol for a live cell, the dead symbol
    /// for a dead one.
    pub fn row_to_string(&self, row: &Vec<bool>) -> (text: String)
        ensures
            text@ == render_row(row@, self.conf().alive, self.conf().dead),
    {
        let mut text = String::new();
        let mut col: usize = 0;
        while col < row.len()
            invariant
                col <= row.len(),
                text@ == render_row(row@.take(col as int), self.conf.alive, self.conf.dead),
            decreases row.len() - col,
        {
            let symbol = if row[col] {
                self.conf.alive
            } else {
                self.conf.dead
            };
            text.push(symbol);
            assert(text@ =~= render_row(row@.take(col + 1), self.conf.alive, self.conf.dead));
            col += 1;
        }
        assert(row@.take(row.len() as int) =~= row@);
        text
    }

    /// The text of the current generation: its rows, with a line feed
    /// between each two and none after the last.
    pub fn to_string(&self) -> (text: String)
        ensures
            text@ == render(self.cells(), self.conf().alive, self.conf().dead),
    {
        let ghost lines = render_rows(self.cells(), self.conf.alive, self.conf.dead);
        let mut text = String::new();
        let mut row: usize = 0;
        while row < self.grid.len()
            invariant
                row <= self.grid.len(),
                lines == render_rows(self.cells(), self.conf.alive, self.conf.dead),
                text@ == join(lines.take(row as int), '\n'),
            decreases self.grid.len() - row,
        {
            let line = self.row_to_string(&self.grid[row]);
            let ghost shown = lines.take(row as int);
            let ghost more = lines.take(row + 1);
            assert(more.drop_last() =~= shown);
            assert(more.last() == line@);
            if row > 0 {
                text.push('\n');
            }
            text.append(line.as_str());
            assert(text@ =~= join(more, '\n'));
            row += 1;
        }
        assert(lines.take(self.grid.len() as int) =~= lines);
        text
    }

    /// Steps to the next generation and gives its text: what a driver shows
    /// each time its wait is over.
    pub fn next_frame(&mut self) -> (frame: String)
        ensures
            final(self).cells() == next_grid(old(self).cells()),
            final(self).conf() == old(self).conf(),
            frame@ == render(final(self).cells(), final(self).conf().alive, final(self).conf().dead),
    {
        self.next();
        self.to_string()
    }
}

} // verus!
