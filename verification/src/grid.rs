//! The mathematical model of a generation: a sequence of rows of cells,
//! the rule that gives the next generation, and the text that shows one.
//!
//! Positions are pairs of integers. A position that lies outside the grid is
//! dead: the grid has hard edges and nothing wraps around.

use vstd::prelude::*;
use crate::text::join;

verus! {

/// Whether `(r, c)` names a cell of `g`.
pub open spec fn in_bounds(g: Seq<Seq<bool>>, r: int, c: int) -> bool {
    0 <= r < g.len() && 0 <= c < g[r].len()
}

/// Whether `(r, c)` is a live cell of `g`. Outside the grid nothing lives.
pub open spec fn alive_at(g: Seq<Seq<bool>>, r: int, c: int) -> bool {
    in_bounds(g, r, c) && g[r][c]
}

/// 1 if `(r, c)` is a live cell of `g`, else 0.
pub open spec fn live_count(g: Seq<Seq<bool>>, r: int, c: int) -> nat {
    if alive_at(g, r, c) {
        1
    } else {
        0
    }
}

/// The eight positions around `(r, c)`, row by row.
pub open spec fn neighbor_coords(r: int, c: int) -> Seq<(int, int)> {
    seq![
        (r - 1, c - 1),
        (r - 1, c),
        (r - 1, c + 1),
        (r, c - 1),
        (r, c + 1),
        (r + 1, c - 1),
        (r + 1, c),
        (r + 1, c + 1),
    ]
}

/// How many of the eight positions around `(r, c)` are live cells of `g`.
pub open spec fn live_neighbors(g: Seq<Seq<bool>>, r: int, c: int) -> nat {
    live_count(g, r - 1, c - 1) + live_count(g, r - 1, c) + live_count(g, r - 1, c + 1)
        + live_count(g, r, c - 1) + live_count(g, r, c + 1) + live_count(g, r + 1, c - 1)
        + live_count(g, r + 1, c) + live_count(g, r + 1, c + 1)
}

/// Whether `(r, c)` is alive in the generation after `g`: it has exactly
/// three live neighbours, or it is alive and has exactly two.
pub open spec fn next_cell(g: Seq<Seq<bool>>, r: int, c: int) -> bool {
    live_neighbors(g, r, c) == 3 || (alive_at(g, r, c) && live_neighbors(g, r, c) == 2)
}

/// The generation after `g`: the same shape, every cell by the rule.
pub open spec fn next_grid(g: Seq<Seq<bool>>) -> Seq<Seq<bool>> {
    Seq::new(g.len(), |r: int| Seq::new(g[r].len(), |c: int| next_cell(g, r, c)))
}

/// Whether `(r, c)` is a cell of `g` whose state changes in the next
/// generation.
pub open spec fn changes(g: Seq<Seq<bool>>, r: int, c: int) -> bool {
    in_bounds(g, r, c) && g[r][c] != next_cell(g, r, c)
}

/// Whether all rows of `g` have the same length.
pub open spec fn rectangular(g: Seq<Seq<bool>>) -> bool {
    forall|i: int, j: int| 0 <= i < g.len() && 0 <= j < g.len() ==> g[i].len() == g[j].len()
}

/// Whether `a` and `b` have the same number of rows, and row by row the
/// same number of cells.
pub open spec fn same_shape(a: Seq<Seq<bool>>, b: Seq<Seq<bool>>) -> bool {
    &&& a.len() == b.len()
    &&& forall|r: int| 0 <= r < a.len() ==> a[r].len() == b[r].len()
}

/// `g` with the cell `(r, c)` turned over.
pub open spec fn flip(g: Seq<Seq<bool>>, r: int, c: int) -> Seq<Seq<bool>>
    recommends
        in_bounds(g, r, c),
{
    g.update(r, g[r].update(c, !g[r][c]))
}

/// The length of the longest of `rows`; 0 if there is none.
pub open spec fn widest(rows: Seq<Seq<char>>) -> nat
    decreases rows.len(),
{
    if rows.len() == 0 {
        0
    } else if rows.last().len() > widest(rows.drop_last()) {
        rows.last().len()
    } else {
        widest(rows.drop_last())
    }
}

/// The cells that `row` writes, `width` of them. A cell is alive where the
/// text has the symbol `alive`, and dead where it has anything else or has
/// come to its end.
pub open spec fn initial_row(row: Seq<char>, alive: char, width: nat) -> Seq<bool> {
    Seq::new(width, |c: int| c < row.len() && row[c] == alive)
}

/// The first generation that `rows` write. Shorter rows are filled up with
/// dead cells to the length of the longest, so the grid is always a
/// rectangle.
pub open spec fn initial_grid(rows: Seq<Seq<char>>, alive: char) -> Seq<Seq<bool>> {
    Seq::new(rows.len(), |r: int| initial_row(rows[r], alive, widest(rows)))
}

/// The text of one row: a symbol for each cell.
pub open spec fn render_row(row: Seq<bool>, alive: char, dead: char) -> Seq<char> {
    Seq::new(
        row.len(),
        |c: int|
            if row[c] {
                alive
            } else {
                dead
            },
    )
}

/// The text of each row of `g`, top to bottom.
pub open spec fn render_rows(g: Seq<Seq<bool>>, alive: char, dead: char) -> Seq<Seq<char>> {
    Seq::new(g.len(), |r: int| render_row(g[r], alive, dead))
}

/// The text of a generation: its rows with a line feed between each two,
/// and none after the last.
pub open spec fn render(g: Seq<Seq<bool>>, alive: char, dead: char) -> Seq<char> {
    join(render_rows(g, alive, dead), '\n')
}

/// No row is longer than the longest, and if there are rows, one is as long.
pub proof fn lemma_widest(rows: Seq<Seq<char>>)
    ensures
        forall|r: int| 0 <= r < rows.len() ==> (#[trigger] rows[r]).len() <= widest(rows),
        rows.len() > 0 ==> exists|r: int| 0 <= r < rows.len() && (#[trigger] rows[r]).len() == widest(rows),
        rows.len() == 0 ==> widest(rows) == 0,
    decreases rows.len(),
{
    if rows.len() > 0 {
        let before = rows.drop_last();
        lemma_widest(before);
        assert forall|r: int| 0 <= r < rows.len() implies (#[trigger] rows[r]).len() <= widest(
            rows,
        ) by {
            if r < before.len() {
                assert(before[r] == rows[r]);
            }
        }
        if rows.last().len() > widest(before) || before.len() == 0 {
            assert(rows[rows.len() - 1].len() == widest(rows));
        } else {
            let r = choose|r: int| 0 <= r < before.len() && (#[trigger] before[r]).len() == widest(before);
            assert(rows[r] == before[r]);
        }
    }
}

} // verus!
