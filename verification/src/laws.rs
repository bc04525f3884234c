//! What holds of every game, whatever its grid.

use vstd::prelude::*;
use crate::game::Game;
use crate::game_conf::{
    interval_of, is_digit, leading_digits, lemma_leading_digits, parse_conf, unsigned_part, ConfView,
    ConfigError, IntervalError,
};
use crate::grid::{
    alive_at, in_bounds, initial_grid, live_count, live_neighbors, next_cell, next_grid, rectangular,
    render, render_rows, same_shape, widest, lemma_widest,
};
use crate::text::{
    free_of, join, lemma_join_split, lemma_split_first, lemma_split_join, lemma_split_pieces, split,
};

verus! {

/// A step depends on the generation alone: two games that hold the same
/// generation hold the same generation after each has stepped once.
pub proof fn lemma_next_is_deterministic(a: Game, b: Game, a_next: Game, b_next: Game)
    requires
        a.cells() == b.cells(),
        a_next.cells() == next_grid(a.cells()),
        b_next.cells() == next_grid(b.cells()),
    ensures
        a_next.cells() == b_next.cells(),
{
}

/// Showing a game twice with no step in between gives the same text.
pub proof fn lemma_render_repeats(game: Game, first: String, second: String)
    requires
        first@ == render(game.cells(), game.conf().alive, game.conf().dead),
        second@ == render(game.cells(), game.conf().alive, game.conf().dead),
    ensures
        first@ == second@,
{
}

/// A step keeps the shape of the grid, and a rectangle stays a rectangle.
pub proof fn lemma_next_keeps_shape(g: Seq<Seq<bool>>)
    ensures
        same_shape(g, next_grid(g)),
        rectangular(g) ==> rectangular(next_grid(g)),
{
}

/// The first generation is a rectangle with a row for each row of the
/// text, as wide as the longest of them.
pub proof fn lemma_initial_grid_shape(rows: Seq<Seq<char>>, alive: char)
    ensures
        rectangular(initial_grid(rows, alive)),
        initial_grid(rows, alive).len() == rows.len(),
        forall|r: int| 0 <= r < rows.len() ==> (#[trigger] initial_grid(rows, alive)[r]).len() == widest(rows),
{
}

/// A cell of the next generation is what the rule makes of its position.
pub proof fn lemma_next_grid_cell(g: Seq<Seq<bool>>, r: int, c: int)
    ensures
        in_bounds(next_grid(g), r, c) == in_bounds(g, r, c),
        alive_at(next_grid(g), r, c) == (in_bounds(g, r, c) && next_cell(g, r, c)),
{
}

/// A cell with no live neighbour is dead after a step.
pub proof fn lemma_isolated_cell_dies(g: Seq<Seq<bool>>, r: int, c: int)
    requires
        live_neighbors(g, r, c) == 0,
    ensures
        !alive_at(next_grid(g), r, c),
{
}

/// Where a grid holds one live cell and no other, a step leaves no live
/// cell at all.
pub proof fn lemma_lone_cell_leaves_nothing(g: Seq<Seq<bool>>, r: int, c: int)
    requires
        forall|i: int, j: int| alive_at(g, i, j) ==> i == r && j == c,
    ensures
        forall|i: int, j: int| !alive_at(next_grid(g), i, j),
{
    assert forall|i: int, j: int| !alive_at(next_grid(g), i, j) by {
        assert(live_neighbors(g, i, j) <= 1);
        if i == r && j == c {
            assert(live_neighbors(g, i, j) == 0);
        }
    }
}

/// A dead cell with exactly three live neighbours is alive after a step.
pub proof fn lemma_birth(g: Seq<Seq<bool>>, r: int, c: int)
    requires
        in_bounds(g, r, c),
        !g[r][c],
        live_neighbors(g, r, c) == 3,
    ensures
        next_grid(g)[r][c],
{
}

/// A dead cell with any other number of live neighbours than three, two and
/// four among them, stays dead.
pub proof fn lemma_no_birth(g: Seq<Seq<bool>>, r: int, c: int)
    requires
        in_bounds(g, r, c),
        !g[r][c],
        live_neighbors(g, r, c) != 3,
    ensures
        !next_grid(g)[r][c],
{
}

/// A live cell stays alive with two or three live neighbours and dies with
/// any other number.
pub proof fn lemma_survival(g: Seq<Seq<bool>>, r: int, c: int)
    requires
        in_bounds(g, r, c),
        g[r][c],
    ensures
        next_grid(g)[r][c] == (live_neighbors(g, r, c) == 2 || live_neighbors(g, r, c) == 3),
{
}

/// Nothing lives outside the grid, before a step or after it.
pub proof fn lemma_outside_is_dead(g: Seq<Seq<bool>>, r: int, c: int)
    requires
        !in_bounds(g, r, c),
    ensures
        !alive_at(g, r, c),
        !alive_at(next_grid(g), r, c),
{
}

/// The edges do not wrap. The corner cell at the top left has at most three
/// live neighbours: the cells to its right, below it and across. Its fate
/// is decided by these three alone, whatever lives at the far edges.
pub proof fn lemma_corner_neighbors(g: Seq<Seq<bool>>)
    ensures
        live_neighbors(g, 0, 0) == live_count(g, 0, 1) + live_count(g, 1, 0) + live_count(g, 1, 1),
        live_neighbors(g, 0, 0) <= 3,
        !alive_at(g, 0, 1) && !alive_at(g, 1, 0) && !alive_at(g, 1, 1) ==> !alive_at(next_grid(g), 0, 0),
{
}

/// A cell at any edge counts only the neighbours that lie on the grid.
pub proof fn lemma_edges_do_not_wrap(g: Seq<Seq<bool>>, r: int, c: int)
    requires
        rectangular(g),
        in_bounds(g, r, c),
    ensures
        r == 0 ==> live_neighbors(g, r, c) == live_count(g, r, c - 1) + live_count(g, r, c + 1)
            + live_count(g, r + 1, c - 1) + live_count(g, r + 1, c) + live_count(g, r + 1, c + 1),
        r == g.len() - 1 ==> live_neighbors(g, r, c) == live_count(g, r - 1, c - 1) + live_count(
            g,
            r - 1,
            c,
        ) + live_count(g, r - 1, c + 1) + live_count(g, r, c - 1) + live_count(g, r, c + 1),
        c == 0 ==> live_neighbors(g, r, c) == live_count(g, r - 1, c) + live_count(g, r - 1, c + 1)
            + live_count(g, r, c + 1) + live_count(g, r + 1, c) + live_count(g, r + 1, c + 1),
        c == g[r].len() - 1 ==> live_neighbors(g, r, c) == live_count(g, r - 1, c - 1) + live_count(
            g,
            r - 1,
            c,
        ) + live_count(g, r, c - 1) + live_count(g, r + 1, c - 1) + live_count(g, r + 1, c),
{
    if r + 1 < g.len() {
        assert(g[r + 1].len() == g[r].len());
    }
    if r > 0 {
        assert(g[r - 1].len() == g[r].len());
    }
}

/// Whether `rows` are all of one length and written in the two symbols
/// `alive` and `dead` alone.
pub open spec fn plain_rows(rows: Seq<Seq<char>>, alive: char, dead: char) -> bool {
    &&& forall|i: int, j: int| 0 <= i < rows.len() && 0 <= j < rows.len() ==> rows[i].len() == rows[j].len()
    &&& forall|i: int, j: int|
        0 <= i < rows.len() && 0 <= j < rows[i].len() ==> #[trigger] rows[i][j] == alive || rows[i][j] == dead
}

/// The first generation shows the rows that it was made from: rows of one
/// length, written in the two symbols alone, come back as they were.
pub proof fn lemma_render_initial(rows: Seq<Seq<char>>, alive: char, dead: char)
    requires
        plain_rows(rows, alive, dead),
    ensures
        render_rows(initial_grid(rows, alive), alive, dead) == rows,
        render(initial_grid(rows, alive), alive, dead) == join(rows, '\n'),
{
    lemma_widest(rows);
    let g = initial_grid(rows, alive);
    let shown = render_rows(g, alive, dead);
    assert forall|r: int| 0 <= r < rows.len() implies #[trigger] shown[r] =~= rows[r] by {
        let k = choose|k: int| 0 <= k < rows.len() && (#[trigger] rows[k]).len() == widest(rows);
        assert(rows[r].len() == rows[k].len());
        assert forall|c: int| 0 <= c < rows[r].len() implies shown[r][c] == rows[r][c] by {
            assert(rows[r][c] == alive || rows[r][c] == dead);
        }
    }
    assert(shown =~= rows);
}

/// A configuration text that parses is its header line followed by its
/// rows, a line feed between each two lines.
pub proof fn lemma_parse_keeps_rows(text: Seq<char>, conf: ConfView)
    requires
        parse_conf(text) == Ok::<ConfView, ConfigError>(conf),
    ensures
        text == join(seq![split(text, '\n')[0]] + conf.rows, '\n'),
        forall|i: int, j: int|
            0 <= i < conf.rows.len() && 0 <= j < conf.rows[i].len() ==> #[trigger] conf.rows[i][j] != '\n',
{
    let lines = split(text, '\n');
    lemma_split_pieces(text, '\n');
    lemma_join_split(text, '\n');
    assert(seq![lines[0]] + lines.skip(1) =~= lines);
    assert forall|i: int, j: int| 0 <= i < conf.rows.len() && 0 <= j < conf.rows[i].len() implies #[trigger] conf.rows[i][j]
        != '\n' by {
        assert(conf.rows[i][j] == lines[i + 1][j]);
    }
}

/// The header line that writes the two symbols and the interval field
/// `interval`.
pub open spec fn written_header(alive: char, dead: char, interval: Seq<char>) -> Seq<char> {
    join(seq![seq![alive], seq![dead], interval], ':')
}

/// The configuration text that writes `conf`, with `interval` as the
/// interval field: the header line, then the rows.
pub open spec fn written(conf: ConfView, interval: Seq<char>) -> Seq<char> {
    join(seq![written_header(conf.alive, conf.dead, interval)] + conf.rows, '\n')
}

/// Parsing gives back what was written: a configuration whose symbols are
/// neither a colon nor a line feed, and whose rows hold no line feed,
/// parses from its text to itself.
pub proof fn lemma_parse_written(conf: ConfView, interval: Seq<char>)
    requires
        conf.alive != ':' && conf.alive != '\n',
        conf.dead != ':' && conf.dead != '\n',
        interval_of(interval) == Ok::<u64, IntervalError>(conf.millis),
        free_of(conf.rows, '\n'),
    ensures
        parse_conf(written(conf, interval)) == Ok::<ConfView, ConfigError>(conf),
{
    let fields = seq![seq![conf.alive], seq![conf.dead], interval];
    let header = written_header(conf.alive, conf.dead, interval);
    let lines = seq![header] + conf.rows;
    let digits = unsigned_part(interval);
    lemma_leading_digits(digits);
    assert(digits.take(leading_digits(digits) as int) =~= digits);
    assert forall|j: int| 0 <= j < interval.len() implies interval[j] != ':' && interval[j] != '\n' by {
        if interval[0] == '+' {
            if j > 0 {
                assert(is_digit(digits[j - 1]));
            }
        } else {
            assert(is_digit(digits[j]));
        }
    }
    assert(free_of(fields, ':'));
    lemma_split_join(fields, ':');
    assert(header =~= seq![conf.alive, ':', conf.dead, ':'] + interval) by {
        reveal_with_fuel(join, 3);
        assert(fields.drop_last() =~= seq![seq![conf.alive], seq![conf.dead]]);
        assert(fields.drop_last().drop_last() =~= seq![seq![conf.alive]]);
    }
    assert(free_of(lines, '\n')) by {
        assert forall|i: int, j: int| 0 <= i < lines.len() && 0 <= j < lines[i].len() implies #[trigger] lines[i][j]
            != '\n' by {
            if i > 0 {
                assert(lines[i][j] == conf.rows[i - 1][j]);
            }
        }
    }
    lemma_split_join(lines, '\n');
    assert(lines.skip(1) =~= conf.rows);
}

/// An empty symbol field is reported as such whatever else is wrong with
/// the header: an empty first field as the alive symbol's fault, and an
/// empty second field behind a first one as the dead symbol's fault. A
/// header that begins with a colon has an empty first field.
pub proof fn lemma_empty_symbol_fields(text: Seq<char>)
    ensures
        ({
            let header = split(text, '\n')[0];
            let fields = split(header, ':');
            &&& header.len() > 0 && fields[0].len() == 0 ==> parse_conf(text) == Err::<ConfView, ConfigError>(
                ConfigError::EmptyAlive,
            )
            &&& header.len() > 0 && header[0] == ':' ==> parse_conf(text) == Err::<ConfView, ConfigError>(
                ConfigError::EmptyAlive,
            )
            &&& header.len() > 0 && fields[0].len() > 0 && fields.len() >= 2 && fields[1].len() == 0
                ==> parse_conf(text) == Err::<ConfView, ConfigError>(ConfigError::EmptyDead)
        }),
{
    lemma_split_first(split(text, '\n')[0], ':');
}

} // verus!
