//! The 4×4 grid and the four moves, each expressed through the slide towards
//! the start of the rows by transposing and mirroring the grid.
use vstd::prelude::*;

use crate::row::{all_nonneg, collapse, collapse_row, lemma_collapse, lemma_sum_four, lemma_sum_nonneg, row_fits, row_sum, SIDE};

verus! {

/// A grid of tile values, row by row; `0` is an empty cell.
pub type Board = Vec<Vec<i32>>;

/// The direction in which the tiles slide.
#[derive(PartialEq, Eq, Structural, Clone, Copy, Debug)]
pub enum Direction {
    Left,
    Up,
    Right,
    Down,
}

/// The cell values of a board.
pub open spec fn cells(b: &Board) -> Seq<Seq<i32>> {
    b@.map_values(|r: Vec<i32>| r@)
}

/// Four rows of four non-negative cells.
pub open spec fn is_grid(g: Seq<Seq<i32>>) -> bool {
    &&& g.len() == SIDE
    &&& forall|i: int| 0 <= i < SIDE ==> #[trigger] g[i].len() == SIDE
    &&& forall|i: int, j: int| 0 <= i < SIDE && 0 <= j < SIDE ==> #[trigger] g[i][j] >= 0
}

/// Sum of all the cells of a grid.
pub open spec fn grid_sum(g: Seq<Seq<i32>>) -> int {
    row_sum(g[0]) + row_sum(g[1]) + row_sum(g[2]) + row_sum(g[3])
}

/// A grid whose sum leaves `room` below `i32::MAX`: no merge can overflow.
pub open spec fn fits(g: Seq<Seq<i32>>, room: int) -> bool {
    is_grid(g) && grid_sum(g) + room <= i32::MAX
}

/// Rows and columns swapped.
pub open spec fn transpose(g: Seq<Seq<i32>>) -> Seq<Seq<i32>> {
    Seq::new(SIDE as nat, |i: int| Seq::new(SIDE as nat, |j: int| g[j][i]))
}

/// Each row reversed.
pub open spec fn mirror(g: Seq<Seq<i32>>) -> Seq<Seq<i32>> {
    Seq::new(SIDE as nat, |i: int| Seq::new(SIDE as nat, |j: int| g[i][SIDE - 1 - j]))
}

/// Each row slid towards its start.
pub open spec fn slide_left(g: Seq<Seq<i32>>) -> Seq<Seq<i32>> {
    Seq::new(SIDE as nat, |i: int| collapse(g[i]))
}

/// The grid after a move in direction `d`, before any tile is spawned.
pub open spec fn moved(d: Direction, g: Seq<Seq<i32>>) -> Seq<Seq<i32>> {
    match d {
        Direction::Left => slide_left(g),
        Direction::Right => mirror(slide_left(mirror(g))),
        Direction::Up => transpose(slide_left(transpose(g))),
        Direction::Down => transpose(mirror(slide_left(mirror(transpose(g))))),
    }
}

proof fn lemma_row_fits(g: Seq<Seq<i32>>, i: int)
    requires
        fits(g, 0),
        0 <= i < SIDE,
    ensures
        row_fits(g[i]),
        row_sum(g[i]) <= grid_sum(g),
{
    assert forall|k: int| 0 <= k < SIDE implies all_nonneg(#[trigger] g[k]) by {
        assert forall|j: int| 0 <= j < g[k].len() implies g[k][j] >= 0 by {
            assert(g[k][j] >= 0);
        }
    }
    lemma_sum_nonneg(g[0]);
    lemma_sum_nonneg(g[1]);
    lemma_sum_nonneg(g[2]);
    lemma_sum_nonneg(g[3]);
}

/// Transposing keeps the shape and the sum.
pub proof fn lemma_transpose(g: Seq<Seq<i32>>)
    requires
        is_grid(g),
    ensures
        is_grid(transpose(g)),
        grid_sum(transpose(g)) == grid_sum(g),
        transpose(transpose(g)) == g,
{
    let t = transpose(g);
    assert forall|i: int| 0 <= i < SIDE implies #[trigger] t[i].len() == SIDE by {}
    assert forall|i: int, j: int| 0 <= i < SIDE && 0 <= j < SIDE implies #[trigger] t[i][j]
        >= 0 by {
        assert(g[j].len() == SIDE);
        assert(g[j][i] >= 0);
    }
    lemma_sum_four(g[0]);
    lemma_sum_four(g[1]);
    lemma_sum_four(g[2]);
    lemma_sum_four(g[3]);
    lemma_sum_four(t[0]);
    lemma_sum_four(t[1]);
    lemma_sum_four(t[2]);
    lemma_sum_four(t[3]);
    assert forall|i: int| 0 <= i < SIDE implies #[trigger] transpose(t)[i] =~= g[i] by {
        assert(g[i].len() == SIDE);
    }
    assert(transpose(t) =~= g);
}

/// Mirroring keeps the shape and the sum.
pub proof fn lemma_mirror(g: Seq<Seq<i32>>)
    requires
        is_grid(g),
    ensures
        is_grid(mirror(g)),
        grid_sum(mirror(g)) == grid_sum(g),
        mirror(mirror(g)) == g,
{
    let t = mirror(g);
    assert forall|i: int| 0 <= i < SIDE implies #[trigger] t[i].len() == SIDE by {}
    assert forall|i: int, j: int| 0 <= i < SIDE && 0 <= j < SIDE implies #[trigger] t[i][j]
        >= 0 by {
        assert(g[i].len() == SIDE);
        assert(g[i][SIDE - 1 - j] >= 0);
    }
    lemma_sum_four(g[0]);
    lemma_sum_four(g[1]);
    lemma_sum_four(g[2]);
    lemma_sum_four(g[3]);
    lemma_sum_four(t[0]);
    lemma_sum_four(t[1]);
    lemma_sum_four(t[2]);
    lemma_sum_four(t[3]);
    assert forall|i: int| 0 <= i < SIDE implies #[trigger] mirror(t)[i] =~= g[i] by {
        assert(g[i].len() == SIDE);
    }
    assert(mirror(t) =~= g);
}

/// Sliding keeps the shape and the sum.
pub proof fn lemma_slide_left(g: Seq<Seq<i32>>)
    requires
        fits(g, 0),
    ensures
        is_grid(slide_left(g)),
        grid_sum(slide_left(g)) == grid_sum(g),
{
    let s = slide_left(g);
    lemma_row_fits(g, 0);
    lemma_row_fits(g, 1);
    lemma_row_fits(g, 2);
    lemma_row_fits(g, 3);
    lemma_collapse(g[0]);
    lemma_collapse(g[1]);
    lemma_collapse(g[2]);
    lemma_collapse(g[3]);
    assert forall|i: int| 0 <= i < SIDE implies #[trigger] s[i].len() == SIDE by {
        lemma_row_fits(g, i);
        lemma_collapse(g[i]);
    }
    assert forall|i: int, j: int| 0 <= i < SIDE && 0 <= j < SIDE implies #[trigger] s[i][j]
        >= 0 by {
        lemma_row_fits(g, i);
        lemma_collapse(g[i]);
    }
}

/// Whether two boards hold the same value in every cell.
fn same_cells(a: &Board, b: &Board) -> (r: bool)
    requires
        is_grid(cells(a)),
        is_grid(cells(b)),
    ensures
        r == (cells(a) == cells(b)),
{
    let mut i: usize = 0;
    while i < SIDE
        invariant
            i <= SIDE,
            is_grid(cells(a)),
            is_grid(cells(b)),
            forall|k: int| 0 <= k < i ==> #[trigger] cells(a)[k] == cells(b)[k],
        decreases SIDE - i,
    {
        let mut j: usize = 0;
        while j < SIDE
            invariant
                i < SIDE,
                j <= SIDE,
                is_grid(cells(a)),
                is_grid(cells(b)),
                forall|l: int| 0 <= l < j ==> #[trigger] cells(a)[i as int][l] == cells(b)[i as int][l],
            decreases SIDE - j,
        {
            assert(cells(a)[i as int].len() == SIDE && cells(b)[i as int].len() == SIDE);
            if a[i][j] != b[i][j] {
                assert(cells(a)[i as int][j as int] != cells(b)[i as int][j as int]);
                return false;
            }
            j += 1;
        }
        assert(cells(a)[i as int] =~= cells(b)[i as int]);
        i += 1;
    }
    assert(cells(a) =~= cells(b));
    true
}

/// Swaps the rows and the columns of the board.
pub fn transpose_board(board: &mut Board)
    requires
        is_grid(cells(old(board))),
    ensures
        cells(final(board)) == transpose(cells(old(board))),
{
    let ghost g = cells(board);
    let mut out: Board = Vec::new();
    let mut column: usize = 0;
    while column < SIDE
        invariant
            column <= SIDE,
            is_grid(g),
            cells(board) == g,
            out@.len() == column,
            forall|k: int| 0 <= k < column ==> #[trigger] out@[k]@ == transpose(g)[k],
        decreases SIDE - column,
    {
        let mut col: Vec<i32> = Vec::new();
        let mut r: usize = 0;
        while r < SIDE
            invariant
                column < SIDE,
                r <= SIDE,
                is_grid(g),
                cells(board) == g,
                col@.len() == r,
                forall|l: int| 0 <= l < r ==> #[trigger] col@[l] == g[l][column as int],
            decreases SIDE - r,
        {
            assert(g[r as int].len() == SIDE);
            col.push(board[r][column]);
            r += 1;
        }
        assert(col@ =~= transpose(g)[column as int]);
        out.push(col);
        column += 1;
    }
    assert(cells(&out) =~= transpose(g));
    *board = out;
}

/// Reverses every row of the board.
pub fn reverse_board(board: &mut Board)
    requires
        is_grid(cells(old(board))),
    ensures
        cells(final(board)) == mirror(cells(old(board))),
{
    let ghost g = cells(board);
    let mut out: Board = Vec::new();
    let mut i: usize = 0;
    while i < SIDE
        invariant
            i <= SIDE,
            is_grid(g),
            cells(board) == g,
            out@.len() == i,
            forall|k: int| 0 <= k < i ==> #[trigger] out@[k]@ == mirror(g)[k],
        decreases SIDE - i,
    {
        assert(g[i as int].len() == SIDE);
        let mut row: Vec<i32> = Vec::new();
        let mut j: usize = 0;
        while j < SIDE
            invariant
                i < SIDE,
                j <= SIDE,
                is_grid(g),
                cells(board) == g,
                row@.len() == j,
                forall|l: int| 0 <= l < j ==> #[trigger] row@[l] == g[i as int][SIDE - 1 - l],
            decreases SIDE - j,
        {
            assert(cells(board)[i as int].len() == SIDE);
            row.push(board[i][SIDE - 1 - j]);
            j += 1;
        }
        assert(row@ =~= mirror(g)[i as int]);
        out.push(row);
        i += 1;
    }
    assert(cells(&out) =~= mirror(g));
    *board = out;
}

/// Slides every row of the board towards its start.
pub fn collect_tiles_to_the_left(board: &mut Board)
    requires
        fits(cells(old(board)), 0),
    ensures
        cells(final(board)) == slide_left(cells(old(board))),
{
    let ghost g = cells(board);
    let mut out: Board = Vec::new();
    let mut i: usize = 0;
    while i < SIDE
        invariant
            i <= SIDE,
            fits(g, 0),
            cells(board) == g,
            out@.len() == i,
            forall|k: int| 0 <= k < i ==> #[trigger] out@[k]@ == slide_left(g)[k],
        decreases SIDE - i,
    {
        proof {
            lemma_row_fits(g, i as int);
        }
        let row = collapse_row(&board[i]);
        out.push(row);
        i += 1;
    }
    assert(cells(&out) =~= slide_left(g));
    *board = out;
}

/// Some cell of the grid is empty.
pub open spec fn has_empty(g: Seq<Seq<i32>>) -> bool {
    exists|i: int, j: int| 0 <= i < SIDE && 0 <= j < SIDE && #[trigger] g[i][j] == 0
}

proof fn lemma_slide_changes(g: Seq<Seq<i32>>)
    requires
        fits(g, 0),
    ensures
        slide_left(g) != g ==> has_empty(slide_left(g)),
{
    let s = slide_left(g);
    if forall|i: int| 0 <= i < SIDE ==> #[trigger] collapse(g[i]) == g[i] {
        assert(s =~= g);
    } else {
        let i = choose|i: int| 0 <= i < SIDE && #[trigger] collapse(g[i]) != g[i];
        lemma_row_fits(g, i);
        lemma_collapse(g[i]);
        let j = choose|j: int| 0 <= j < SIDE && collapse(g[i])[j] == 0;
        assert(s[i][j] == 0);
    }
}

proof fn lemma_empty_mirror(g: Seq<Seq<i32>>)
    requires
        has_empty(g),
    ensures
        has_empty(mirror(g)),
{
    let (i, j) = choose|i: int, j: int| 0 <= i < SIDE && 0 <= j < SIDE && #[trigger] g[i][j] == 0;
    assert(mirror(g)[i][SIDE - 1 - j] == 0);
}

proof fn lemma_empty_transpose(g: Seq<Seq<i32>>)
    requires
        has_empty(g),
    ensures
        has_empty(transpose(g)),
{
    let (i, j) = choose|i: int, j: int| 0 <= i < SIDE && 0 <= j < SIDE && #[trigger] g[i][j] == 0;
    assert(transpose(g)[j][i] == 0);
}

/// A move keeps the shape and the sum of the grid; a move that changes the
/// grid leaves at least one empty cell.
pub proof fn lemma_moved(d: Direction, g: Seq<Seq<i32>>)
    requires
        fits(g, 0),
    ensures
        is_grid(moved(d, g)),
        grid_sum(moved(d, g)) == grid_sum(g),
        moved(d, g) != g ==> has_empty(moved(d, g)),
{
    match d {
        Direction::Left => {
            lemma_slide_left(g);
            lemma_slide_changes(g);
        },
        Direction::Right => {
            let m = mirror(g);
            lemma_mirror(g);
            lemma_slide_left(m);
            lemma_slide_changes(m);
            let s = slide_left(m);
            lemma_mirror(s);
            if mirror(s) != g {
                assert(s != m);
                lemma_empty_mirror(s);
            }
        },
        Direction::Up => {
            let t = transpose(g);
            lemma_transpose(g);
            lemma_slide_left(t);
            lemma_slide_changes(t);
            let s = slide_left(t);
            lemma_transpose(s);
            if transpose(s) != g {
                assert(s != t);
                lemma_empty_transpose(s);
            }
        },
        Direction::Down => {
            let t = transpose(g);
            lemma_transpose(g);
            let m = mirror(t);
            lemma_mirror(t);
            lemma_slide_left(m);
            lemma_slide_changes(m);
            let s = slide_left(m);
            lemma_mirror(s);
            lemma_transpose(mirror(s));
            if transpose(mirror(s)) != g {
                assert(s != m);
                lemma_empty_mirror(s);
                lemma_empty_transpose(mirror(s));
            }
        },
    }
}

/// Moves the tiles of the board in `direction`, and tells whether any cell
/// changed. No tile is spawned here.
pub fn maybe_move_tiles(direction: Direction, board: &mut Board) -> (changed: bool)
    requires
        fits(cells(old(board)), 0),
    ensures
        cells(final(board)) == moved(direction, cells(old(board))),
        changed == (moved(direction, cells(old(board))) != cells(old(board))),
{
    let ghost g = cells(board);
    let old_board = board.clone();
    assert(cells(&old_board) =~= g) by {
        assert forall|k: int| 0 <= k < SIDE implies #[trigger] old_board@[k]@ == board@[k]@ by {
            assert(old_board@[k]@ =~= board@[k]@);
        }
    }
    proof {
        lemma_transpose(g);
        lemma_mirror(g);
        lemma_mirror(transpose(g));
    }
    match direction {
        Direction::Left => {
            collect_tiles_to_the_left(board);
        },
        Direction::Right => {
            reverse_board(board);
            collect_tiles_to_the_left(board);
            proof {
                lemma_slide_left(mirror(g));
            }
            reverse_board(board);
        },
        Direction::Up => {
            transpose_board(board);
            collect_tiles_to_the_left(board);
            proof {
                lemma_slide_left(transpose(g));
            }
            transpose_board(board);
        },
        Direction::Down => {
            transpose_board(board);
            reverse_board(board);
            collect_tiles_to_the_left(board);
            proof {
                lemma_slide_left(mirror(transpose(g)));
                lemma_mirror(slide_left(mirror(transpose(g))));
            }
            reverse_board(board);
            transpose_board(board);
        },
    }
    proof {
        lemma_moved(direction, g);
    }
    !same_cells(&old_board, board)
}

} // verus!
