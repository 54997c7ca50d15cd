use rayon::iter::{IntoParallelIterator, ParallelIterator};
use rand::Rng;
use crate::algorithm::torus::{lemma_wrap_next, lemma_wrap_prev};
use vstd::prelude::*;

verus! {

/// The cells of a grid held as a vector of rows.
pub open spec fn grid_of(rows: Seq<Vec<u8>>) -> Seq<Seq<u8>> {
    rows.map_values(|r: Vec<u8>| r@)
}

/// `g` has `height` rows of `width` cells each.
pub open spec fn is_grid(g: Seq<Seq<u8>>, height: int, width: int) -> bool {
    &&& g.len() == height
    &&& forall|i: int| 0 <= i < height ==> (#[trigger] g[i]).len() == width
}

/// `g` is a non-empty `height` by `width` grid whose cells are 0 (dead) or 1 (alive).
pub open spec fn is_life_grid(g: Seq<Seq<u8>>, height: int, width: int) -> bool {
    &&& height > 0
    &&& width > 0
    &&& is_grid(g, height, width)
    &&& forall|i: int, j: int| 0 <= i < height && 0 <= j < width ==> #[trigger] g[i][j] <= 1
}

/// The number of the grid's rows.
pub open spec fn grid_height(g: Seq<Seq<u8>>) -> int {
    g.len() as int
}

/// The number of cells in each of the grid's rows.
pub open spec fn grid_width(g: Seq<Seq<u8>>) -> int {
    g[0].len() as int
}

/// The sum of the eight cells around `(i, j)`, where the grid wraps around at its edges:
/// the row above the first is the last, the column left of the first is the last.
pub open spec fn neighbor_sum(g: Seq<Seq<u8>>, i: int, j: int) -> int {
    let h = grid_height(g);
    let w = grid_width(g);
    let up = (i + h - 1) % h;
    let down = (i + 1) % h;
    let left = (j + w - 1) % w;
    let right = (j + 1) % w;
    g[up][left] + g[up][j] + g[up][right] + g[i][left] + g[i][right] + g[down][left]
        + g[down][j] + g[down][right]
}

/// Conway's rule: a dead cell with exactly three live neighbours is born, a live cell with
/// two or three survives, every other cell is dead in the next generation.
pub open spec fn life_rule(cell: u8, sum: int) -> u8 {
    if cell == 0 && sum == 3 {
        1
    } else if cell == 1 && (sum == 2 || sum == 3) {
        1
    } else {
        0
    }
}

/// Row `i` of the next generation.
pub open spec fn life_row(g: Seq<Seq<u8>>, i: int) -> Seq<u8> {
    Seq::new(grid_width(g) as nat, |j: int| life_rule(g[i][j], neighbor_sum(g, i, j)))
}

/// The next generation of the whole grid.
pub open spec fn life_step(g: Seq<Seq<u8>>) -> Seq<Seq<u8>> {
    Seq::new(grid_height(g) as nat, |i: int| life_row(g, i))
}

/// The next generation of cell `(i, j)`.
fn life_cell(state: &Vec<Vec<u8>>, i: usize, j: usize, height: usize, width: usize) -> (r: u8)
    requires
        is_life_grid(grid_of(state@), height as int, width as int),
        i < height,
        j < width,
    ensures
        r == life_rule(grid_of(state@)[i as int][j as int], neighbor_sum(grid_of(state@), i as int, j as int)),
{
    let ghost g = grid_of(state@);
    let up: usize = if i == 0 { height - 1 } else { i - 1 };
    let down: usize = if i + 1 == height { 0 } else { i + 1 };
    let left: usize = if j == 0 { width - 1 } else { j - 1 };
    let right: usize = if j + 1 == width { 0 } else { j + 1 };
    proof {
        lemma_wrap_prev(i as int, height as int);
        lemma_wrap_next(i as int, height as int);
        lemma_wrap_prev(j as int, width as int);
        lemma_wrap_next(j as int, width as int);
        assert(g[0].len() == width);
        assert(g[up as int].len() == width);
        assert(g[i as int].len() == width);
        assert(g[down as int].len() == width);
    }
    let nw = state[up][left];
    let n = state[up][j];
    let ne = state[up][right];
    let w = state[i][left];
    let c = state[i][j];
    let e = state[i][right];
    let sw = state[down][left];
    let s = state[down][j];
    let se = state[down][right];
    proof {
        assert(nw == g[up as int][left as int]);
        assert(n == g[up as int][j as int]);
        assert(ne == g[up as int][right as int]);
        assert(w == g[i as int][left as int]);
        assert(c == g[i as int][j as int]);
        assert(e == g[i as int][right as int]);
        assert(sw == g[down as int][left as int]);
        assert(s == g[down as int][j as int]);
        assert(se == g[down as int][right as int]);
    }
    let neighbor_cell_sum: u8 = nw + n + ne + w + e + sw + s + se;
    if c == 0 && neighbor_cell_sum == 3 {
        1
    } else if c == 1 && (neighbor_cell_sum == 2 || neighbor_cell_sum == 3) {
        1
    } else {
        0
    }
}

/// Whether `state` is a `height` by `width` grid of 0s and 1s with at least one row and
/// one column: what every stepper of this module asks of its input.
pub fn is_valid_state(state: &Vec<Vec<u8>>, height: usize, width: usize) -> (r: bool)
    ensures
        r == is_life_grid(grid_of(state@), height as int, width as int),
{
    let ghost g = grid_of(state@);
    if height == 0 || width == 0 || state.len() != height {
        return false;
    }
    let mut i: usize = 0;
    while i < height
        invariant
            g == grid_of(state@),
            g.len() == height,
            height > 0,
            width > 0,
            i <= height,
            forall|k: int| 0 <= k < i ==> (#[trigger] g[k]).len() == width,
            forall|k: int, j: int| 0 <= k < i && 0 <= j < width ==> #[trigger] g[k][j] <= 1,
        decreases height - i,
    {
        let row = &state[i];
        assert(g[i as int] == row@);
        if row.len() != width {
            return false;
        }
        let mut j: usize = 0;
        while j < width
            invariant
                g == grid_of(state@),
                i < height,
                g[i as int] == row@,
                row@.len() == width,
                j <= width,
                forall|l: int| 0 <= l < j ==> #[trigger] g[i as int][l] <= 1,
            decreases width - j,
        {
            if row[j] > 1 {
                return false;
            }
            j += 1;
        }
        i += 1;
    }
    true
}

/// Row `i` of the next generation of `state`, computed from `state` alone.
///
/// The rows of one tick are independent of each other, so a parallel stepper can hand
/// each row to its own worker.
pub fn game_of_life_row(state: &Vec<Vec<u8>>, i: usize, height: usize, width: usize) -> (row: Vec<u8>)
    requires
        is_life_grid(grid_of(state@), height as int, width as int),
        i < height,
    ensures
        row@ == life_row(grid_of(state@), i as int),
{
    let ghost g = grid_of(state@);
    proof {
        assert(g[0].len() == width);
    }
    let mut row: Vec<u8> = Vec::with_capacity(width);
    let mut j: usize = 0;
    while j < width
        invariant
            g == grid_of(state@),
            is_life_grid(g, height as int, width as int),
            grid_width(g) == width,
            i < height,
            j <= width,
            row@ =~= life_row(g, i as int).subrange(0, j as int),
        decreases width - j,
    {
        let v = life_cell(state, i, j, height, width);
        row.push(v);
        j += 1;
    }
    assert(row@ =~= life_row(g, i as int));
    row
}

/// One tick of the Game of Life on a `height` by `width` torus.
///
/// Reads `state`, writes the next generation into `next_state` cell by cell, then
/// exchanges the two buffers: afterwards `state` holds the new generation and
/// `next_state` the previous one. Nothing is allocated.
pub fn game_of_life(state: &mut Vec<Vec<u8>>, next_state: &mut Vec<Vec<u8>>, height: usize, width: usize)
    requires
        is_life_grid(grid_of(old(state)@), height as int, width as int),
        is_grid(grid_of(old(next_state)@), height as int, width as int),
    ensures
        grid_of(final(state)@) == life_step(grid_of(old(state)@)),
        grid_of(final(next_state)@) == grid_of(old(state)@),
        is_life_grid(grid_of(final(state)@), height as int, width as int),
{
    let ghost g = grid_of(state@);
    proof {
        assert(g[0].len() == width);
    }
    let mut i: usize = 0;
    while i < height
        invariant
            g == grid_of(old(state)@),
            g == grid_of(state@),
            is_life_grid(g, height as int, width as int),
            grid_width(g) == width,
            is_grid(grid_of(next_state@), height as int, width as int),
            i <= height,
            forall|k: int| 0 <= k < i ==> (#[trigger] grid_of(next_state@)[k]) == life_row(g, k),
        decreases height - i,
    {
        let mut j: usize = 0;
        while j < width
            invariant
                g == grid_of(state@),
                is_life_grid(g, height as int, width as int),
                grid_width(g) == width,
                is_grid(grid_of(next_state@), height as int, width as int),
                i < height,
                j <= width,
                forall|k: int| 0 <= k < i ==> (#[trigger] grid_of(next_state@)[k]) == life_row(g, k),
                forall|l: int| 0 <= l < j ==> grid_of(next_state@)[i as int][l] == #[trigger] life_row(g, i as int)[l],
            decreases width - j,
        {
            let v = life_cell(state, i, j, height, width);
            proof {
                assert(grid_of(next_state@)[i as int].len() == width);
            }
            let ghost before = next_state@;
            next_state[i][j] = v;
            proof {
                assert(next_state@.len() == before.len());
                assert(next_state@[i as int]@ == before[i as int]@.update(j as int, v));
                assert forall|k: int| 0 <= k < height && k != i implies next_state@[k] == before[k] by {}
                assert forall|k: int| 0 <= k < height implies #[trigger] grid_of(next_state@)[k] == (
                if k == i {
                    grid_of(before)[k].update(j as int, v)
                } else {
                    grid_of(before)[k]
                }) by {
                    assert(grid_of(next_state@)[k] == next_state@[k]@);
                    assert(grid_of(before)[k] == before[k]@);
                }
            }
            j += 1;
        }
        proof {
            assert(grid_of(next_state@)[i as int] =~= life_row(g, i as int));
        }
        i += 1;
    }
    assert(grid_of(next_state@) =~= life_step(g));
    proof {
        lemma_life_step_grid(g, height as int, width as int);
    }
    std::mem::swap(state, next_state);
}

/// Relies on rayon's `into_par_iter` on a range, `map` and `collect` into a `Vec`: every
/// row index is mapped once, and `ParallelExtend for Vec` puts each result of an indexed
/// iterator at its index, so the rows come out in index order. The closure only calls the
/// verified `game_of_life_row`, whose contract gives each row.
#[verifier::external_body]
fn par_rows(state: &Vec<Vec<u8>>, height: usize, width: usize) -> (rows: Vec<Vec<u8>>)
    requires
        is_life_grid(grid_of(state@), height as int, width as int),
    ensures
        rows@.len() == height,
        forall|i: int| 0 <= i < height ==> (#[trigger] rows@[i])@ == life_row(grid_of(state@), i),
{
    (0..height).into_par_iter().map(|i| game_of_life_row(state, i, height, width)).collect()
}

/// One tick of the Game of Life, with the rows mapped in parallel on rayon's
/// work-stealing pool; `state` is only read.
pub fn game_of_life_by_rayon(state: &Vec<Vec<u8>>, height: usize, width: usize) -> (r: Vec<Vec<u8>>)
    requires
        is_life_grid(grid_of(state@), height as int, width as int),
    ensures
        grid_of(r@) == life_step(grid_of(state@)),
{
    let rows = par_rows(state, height, width);
    assert(grid_of(rows@) =~= life_step(grid_of(state@)));
    rows
}

/// Relies on rand's `thread_rng` and `Rng::gen_range` on `0..2`: a value drawn from the
/// half-open range, so 0 or 1.
#[verifier::external_body]
fn random_cell() -> (r: u8)
    ensures
        r <= 1,
{
    rand::thread_rng().gen_range(0..2)
}

/// A `height` by `width` grid whose cells are drawn at random, each 0 or 1.
pub fn random_state(height: usize, width: usize) -> (r: Vec<Vec<u8>>)
    ensures
        is_grid(grid_of(r@), height as int, width as int),
        forall|i: int, j: int| 0 <= i < height && 0 <= j < width ==> #[trigger] grid_of(r@)[i][j] <= 1,
{
    let mut state: Vec<Vec<u8>> = Vec::with_capacity(height);
    let mut i: usize = 0;
    while i < height
        invariant
            i <= height,
            is_grid(grid_of(state@), i as int, width as int),
            forall|k: int, j: int| 0 <= k < i && 0 <= j < width ==> #[trigger] grid_of(state@)[k][j] <= 1,
        decreases height - i,
    {
        let mut inner: Vec<u8> = Vec::with_capacity(width);
        let mut j: usize = 0;
        while j < width
            invariant
                j <= width,
                inner@.len() == j,
                forall|l: int| 0 <= l < j ==> #[trigger] inner@[l] <= 1,
            decreases width - j,
        {
            inner.push(random_cell());
            j += 1;
        }
        let ghost before = state@;
        state.push(inner);
        proof {
            assert forall|k: int| 0 <= k <= i implies #[trigger] grid_of(state@)[k] == (
            if k < i {
                grid_of(before)[k]
            } else {
                inner@
            }) by {
                assert(grid_of(state@)[k] == state@[k]@);
            }
        }
        i += 1;
    }
    state
}

/// A tick keeps the grid's shape and yields 0s and 1s only.
pub proof fn lemma_life_step_grid(g: Seq<Seq<u8>>, height: int, width: int)
    requires
        is_life_grid(g, height, width),
    ensures
        is_life_grid(life_step(g), height, width),
{
    assert(g[0].len() == width);
    let n = life_step(g);
    assert forall|i: int| 0 <= i < height implies (#[trigger] n[i]).len() == width by {}
    assert forall|i: int, j: int| 0 <= i < height && 0 <= j < width implies #[trigger] n[i][j] <= 1 by {}
}

/// `ticks` successive ticks of the Game of Life.
pub open spec fn life_ticks(g: Seq<Seq<u8>>, ticks: nat) -> Seq<Seq<u8>>
    decreases ticks,
{
    if ticks == 0 {
        g
    } else {
        life_step(life_ticks(g, (ticks - 1) as nat))
    }
}

/// Any number of ticks keeps a grid of 0s and 1s a grid of 0s and 1s of the same shape,
/// so that the sequential and parallel steppers may be called again on their output.
pub proof fn lemma_life_ticks_grid(g: Seq<Seq<u8>>, height: int, width: int, ticks: nat)
    requires
        is_life_grid(g, height, width),
    ensures
        is_life_grid(life_ticks(g, ticks), height, width),
    decreases ticks,
{
    if ticks > 0 {
        lemma_life_ticks_grid(g, height, width, (ticks - 1) as nat);
        lemma_life_step_grid(life_ticks(g, (ticks - 1) as nat), height, width);
    }
}

/// The `k`-th grid of a run of ticks is `life_ticks` of its first grid.
proof fn lemma_run_is_ticks(a: Seq<Seq<Seq<u8>>>, k: int)
    requires
        0 <= k < a.len(),
        forall|m: int| 0 <= m < a.len() - 1 ==> a[m + 1] == life_step(#[trigger] a[m]),
    ensures
        a[k] == life_ticks(a[0], k as nat),
    decreases k,
{
    if k > 0 {
        lemma_run_is_ticks(a, k - 1);
        assert(a[k] == life_step(a[k - 1]));
    }
}

/// Determinism: two runs that start from the same grid and apply the Game of Life tick
/// the same number of times end in the same grid, namely `life_ticks` of the start.
/// Each run is the sequence of grids it passes through.
pub proof fn lemma_life_runs_agree(a: Seq<Seq<Seq<u8>>>, b: Seq<Seq<Seq<u8>>>)
    requires
        a.len() > 0,
        a.len() == b.len(),
        a[0] == b[0],
        forall|k: int| 0 <= k < a.len() - 1 ==> a[k + 1] == life_step(#[trigger] a[k]),
        forall|k: int| 0 <= k < b.len() - 1 ==> b[k + 1] == life_step(#[trigger] b[k]),
    ensures
        a.last() == b.last(),
        a.last() == life_ticks(a[0], (a.len() - 1) as nat),
{
    lemma_run_is_ticks(a, a.len() - 1);
    lemma_run_is_ticks(b, b.len() - 1);
}

/// Parallel and sequential ticks agree: the rows that `game_of_life_row` computes for
/// every row index, gathered in row order, form exactly the grid that the sequential
/// tick produces.
pub proof fn lemma_gathered_rows_are_step(g: Seq<Seq<u8>>, rows: Seq<Seq<u8>>)
    requires
        rows.len() == g.len(),
        forall|i: int| 0 <= i < rows.len() ==> #[trigger] rows[i] == life_row(g, i),
    ensures
        rows == life_step(g),
{
    assert(rows =~= life_step(g));
}

/// The grid of `height` by `width` whose only live cell is the corner `(0, 0)`.
pub open spec fn corner_cell_grid(height: int, width: int) -> Seq<Seq<u8>> {
    Seq::new(
        height as nat,
        |i: int| Seq::new(width as nat, |j: int| if i == 0 && j == 0 { 1u8 } else { 0u8 }),
    )
}

/// `(i, j)` is one of the eight cells around the corner `(0, 0)` on the torus:
/// `(h-1, w-1)`, `(h-1, 0)`, `(h-1, 1)`, `(0, w-1)`, `(0, 1)`, `(1, w-1)`, `(1, 0)`, `(1, 1)`.
pub open spec fn touches_corner(height: int, width: int, i: int, j: int) -> bool {
    (i == height - 1 || i == 0 || i == 1) && (j == width - 1 || j == 0 || j == 1) && !(i == 0
        && j == 0)
}

/// Wraparound: with a single live cell at the corner `(0, 0)`, the cells that count it as a
/// neighbour are exactly the eight around it on the torus, across both edges, each
/// counting it once. (For a grid of fewer than three rows or columns some of those eight
/// coincide, and a cell counts the corner more than once.)
pub proof fn lemma_corner_neighbors(height: int, width: int)
    requires
        height >= 3,
        width >= 3,
    ensures
        forall|i: int, j: int|
            0 <= i < height && 0 <= j < width ==> #[trigger] neighbor_sum(corner_cell_grid(height, width), i, j)
                == (if touches_corner(height, width, i, j) { 1int } else { 0int }),
{
    let g = corner_cell_grid(height, width);
    assert(grid_height(g) == height);
    assert(grid_width(g) == width);
    assert forall|i: int, j: int| 0 <= i < height && 0 <= j < width implies #[trigger] neighbor_sum(g, i, j)
        == (if touches_corner(height, width, i, j) { 1int } else { 0int }) by {
        lemma_wrap_prev(i, height);
        lemma_wrap_next(i, height);
        lemma_wrap_prev(j, width);
        lemma_wrap_next(j, width);
    }
}

} // verus!
