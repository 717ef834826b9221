//! Spawning tiles, judging the state of the game, and playing one move.
use vstd::prelude::*;

use rand::Rng;

use crate::board::{cells, has_empty, is_grid, fits, grid_sum, lemma_moved, maybe_move_tiles, moved, Board, Direction};
use crate::row::{lemma_sum_four, SIDE};

verus! {

/// The tile value that wins the game.
pub const WIN_TILE: i32 = 16;

/// Where a game stands.
#[derive(PartialEq, Eq, Structural, Clone, Copy, Debug)]
pub enum GameState {
    Active,
    Won,
    Lost,
    WonActive,
}

/// The empty cells among the first `k` cells of the grid in row-major order,
/// as (row, column).
pub open spec fn empties_upto(g: Seq<Seq<i32>>, k: int) -> Seq<(int, int)>
    decreases k,
{
    if k <= 0 {
        Seq::empty()
    } else {
        let rest = empties_upto(g, k - 1);
        let p = ((k - 1) / 4, (k - 1) % 4);
        if g[p.0][p.1] == 0 {
            rest.push(p)
        } else {
            rest
        }
    }
}

/// The empty cells of the grid in row-major order, as (row, column).
pub open spec fn empty_cells(g: Seq<Seq<i32>>) -> Seq<(int, int)> {
    empties_upto(g, 16)
}

/// The grid with the cell at (`i`, `j`) set to `v`.
pub open spec fn put(g: Seq<Seq<i32>>, i: int, j: int, v: i32) -> Seq<Seq<i32>> {
    g.update(i, g[i].update(j, v))
}

/// `after` is `before` with one of its empty cells set to 2 or 4.
pub open spec fn spawned(before: Seq<Seq<i32>>, after: Seq<Seq<i32>>) -> bool {
    exists|i: int, j: int, v: i32|
        0 <= i < SIDE && 0 <= j < SIDE && before[i][j] == 0 && (v == 2 || v == 4) && after
            == #[trigger] put(before, i, j, v)
}

proof fn lemma_empties_upto(g: Seq<Seq<i32>>, k: int)
    requires
        is_grid(g),
        0 <= k <= 16,
    ensures
        forall|n: int|
            0 <= n < empties_upto(g, k).len() ==> {
                let p = #[trigger] empties_upto(g, k)[n];
                0 <= p.0 < SIDE && 0 <= p.1 < SIDE && g[p.0][p.1] == 0
            },
        (exists|m: int| 0 <= m < k && #[trigger] g[m / 4][m % 4] == 0) ==> empties_upto(g, k).len()
            > 0,
    decreases k,
{
    if k > 0 {
        lemma_empties_upto(g, k - 1);
        let rest = empties_upto(g, k - 1);
        let p = ((k - 1) / 4, (k - 1) % 4);
        if g[p.0][p.1] == 0 {
            assert forall|n: int| 0 <= n < empties_upto(g, k).len() implies {
                let q = #[trigger] empties_upto(g, k)[n];
                0 <= q.0 < SIDE && 0 <= q.1 < SIDE && g[q.0][q.1] == 0
            } by {
                if n < rest.len() {
                    assert(empties_upto(g, k)[n] == rest[n]);
                }
            }
        } else {
            if exists|m: int| 0 <= m < k && #[trigger] g[m / 4][m % 4] == 0 {
                let m = choose|m: int| 0 <= m < k && #[trigger] g[m / 4][m % 4] == 0;
                assert(m != k - 1);
            }
        }
    }
}

/// Every listed empty cell is an empty cell of the grid, and the list is
/// empty only when the grid is full.
pub proof fn lemma_empty_cells(g: Seq<Seq<i32>>)
    requires
        is_grid(g),
    ensures
        forall|n: int|
            0 <= n < empty_cells(g).len() ==> {
                let p = #[trigger] empty_cells(g)[n];
                0 <= p.0 < SIDE && 0 <= p.1 < SIDE && g[p.0][p.1] == 0
            },
        (empty_cells(g).len() > 0) == has_empty(g),
{
    lemma_empties_upto(g, 16);
    if has_empty(g) {
        let (i, j) = choose|i: int, j: int|
            0 <= i < SIDE && 0 <= j < SIDE && #[trigger] g[i][j] == 0;
        let m = i * 4 + j;
        assert(m / 4 == i && m % 4 == j);
        assert(g[m / 4][m % 4] == 0);
    } else if empty_cells(g).len() > 0 {
        let p = empty_cells(g)[0];
        assert(g[p.0][p.1] == 0);
    }
}

/// Lists the empty cells of the board in row-major order, as (row, column).
pub fn free_cells(board: &Board) -> (r: Vec<(usize, usize)>)
    requires
        is_grid(cells(board)),
    ensures
        r@.map_values(|p: (usize, usize)| (p.0 as int, p.1 as int)) == empty_cells(cells(board)),
{
    let ghost g = cells(board);
    let mut out: Vec<(usize, usize)> = Vec::new();
    let mut k: usize = 0;
    while k < 16
        invariant
            k <= 16,
            is_grid(g),
            cells(board) == g,
            out@.map_values(|p: (usize, usize)| (p.0 as int, p.1 as int)) == empties_upto(g, k as int),
        decreases 16 - k,
    {
        let i: usize = k / 4;
        let j: usize = k % 4;
        assert(g[i as int].len() == SIDE);
        let ghost before = out@;
        if board[i][j] == 0 {
            out.push((i, j));
            assert(out@.map_values(|p: (usize, usize)| (p.0 as int, p.1 as int)) =~= before.map_values(
                |p: (usize, usize)| (p.0 as int, p.1 as int),
            ).push((i as int, j as int)));
        }
        k += 1;
    }
    out
}

/// Sets the cell at (`i`, `j`) to `v`.
fn set_cell(board: &mut Board, i: usize, j: usize, v: i32)
    requires
        is_grid(cells(old(board))),
        i < SIDE,
        j < SIDE,
    ensures
        cells(final(board)) == put(cells(old(board)), i as int, j as int, v),
{
    let ghost g = cells(board);
    assert(g[i as int].len() == SIDE);
    let mut row: Vec<i32> = board[i].clone();
    assert(row@ =~= g[i as int]);
    row.set(j, v);
    board.set(i, row);
    assert(cells(board) =~= put(g, i as int, j as int, v));
}

/// Writes `value` into the `pick`-th empty cell of the board, counting in
/// row-major order from zero.
pub fn spawn_tile_at(board: &mut Board, pick: usize, value: i32)
    requires
        is_grid(cells(old(board))),
        pick < empty_cells(cells(old(board))).len(),
    ensures
        cells(final(board)) == put(
            cells(old(board)),
            empty_cells(cells(old(board)))[pick as int].0,
            empty_cells(cells(old(board)))[pick as int].1,
            value,
        ),
{
    let ghost g = cells(board);
    let free = free_cells(board);
    proof {
        lemma_empty_cells(g);
        assert(free@.map_values(|p: (usize, usize)| (p.0 as int, p.1 as int))[pick as int]
            == empty_cells(g)[pick as int]);
    }
    let (i, j) = free[pick];
    set_cell(board, i, j, value);
}

/// Relies on rand::thread_rng and rand::Rng::gen_range: a value drawn from
/// `lo..hi`; gen_range panics on an empty range.
#[verifier::external_body]
fn random_in(lo: usize, hi: usize) -> (r: usize)
    requires
        lo < hi,
    ensures
        lo <= r < hi,
{
    rand::thread_rng().gen_range(lo..hi)
}

/// Places a 2 or a 4, each with even chance, on an empty cell chosen at
/// random. Returns false, and leaves the board alone, when no cell is empty.
pub fn place_starter_value(board: &mut Board) -> (placed: bool)
    requires
        is_grid(cells(old(board))),
    ensures
        placed == has_empty(cells(old(board))),
        !placed ==> cells(final(board)) == cells(old(board)),
        placed ==> spawned(cells(old(board)), cells(final(board))),
{
    let ghost g = cells(board);
    proof {
        lemma_empty_cells(g);
    }
    let n = free_cells(board).len();
    if n == 0 {
        return false;
    }
    let value: i32 = (random_in(1, 3) * 2) as i32;
    let pick = random_in(0, n);
    spawn_tile_at(board, pick, value);
    proof {
        let p = empty_cells(g)[pick as int];
        assert(cells(board) == put(g, p.0, p.1, value));
    }
    true
}

/// Some cell holds the winning tile.
pub open spec fn has_winning_tile(g: Seq<Seq<i32>>) -> bool {
    exists|i: int, j: int| 0 <= i < SIDE && 0 <= j < SIDE && #[trigger] g[i][j] == WIN_TILE
}

/// Some direction changes the grid.
pub open spec fn can_move(g: Seq<Seq<i32>>) -> bool {
    ||| moved(Direction::Left, g) != g
    ||| moved(Direction::Right, g) != g
    ||| moved(Direction::Up, g) != g
    ||| moved(Direction::Down, g) != g
}

/// The state that follows `s` once the board reads `g`: an active game with
/// a winning tile is won; otherwise the game goes on while some move is
/// possible (as won-and-active if it was won before), and is lost when none is.
pub open spec fn next_state(s: GameState, g: Seq<Seq<i32>>) -> GameState {
    if s == GameState::Active && has_winning_tile(g) {
        GameState::Won
    } else if can_move(g) {
        if s == GameState::Won || s == GameState::WonActive {
            GameState::WonActive
        } else {
            GameState::Active
        }
    } else {
        GameState::Lost
    }
}

/// Whether some cell of the board holds the winning tile.
fn holds_winning_tile(board: &Board) -> (r: bool)
    requires
        is_grid(cells(board)),
    ensures
        r == has_winning_tile(cells(board)),
{
    let ghost g = cells(board);
    let mut i: usize = 0;
    while i < SIDE
        invariant
            i <= SIDE,
            is_grid(g),
            cells(board) == g,
            forall|a: int, b: int| 0 <= a < i && 0 <= b < SIDE ==> #[trigger] g[a][b] != WIN_TILE,
        decreases SIDE - i,
    {
        let mut j: usize = 0;
        while j < SIDE
            invariant
                i < SIDE,
                j <= SIDE,
                is_grid(g),
                cells(board) == g,
                forall|a: int, b: int| 0 <= a < i && 0 <= b < SIDE ==> #[trigger] g[a][b] != WIN_TILE,
                forall|b: int| 0 <= b < j ==> #[trigger] g[i as int][b] != WIN_TILE,
            decreases SIDE - j,
        {
            assert(g[i as int].len() == SIDE);
            if board[i][j] == WIN_TILE {
                return true;
            }
            j += 1;
        }
        i += 1;
    }
    false
}

/// Updates the state after a move: an active game holding the winning tile
/// becomes won; otherwise the four moves are tried on a copy of the board,
/// and the game goes on if one of them changes it, or is lost.
pub fn check_game_state(board: &Board, state: &mut GameState)
    requires
        fits(cells(board), 0),
    ensures
        *final(state) == next_state(*old(state), cells(board)),
{
    let ghost g = cells(board);
    if *state == GameState::Active {
        if holds_winning_tile(board) {
            *state = GameState::Won;
            return;
        }
    }
    proof {
        lemma_moved(Direction::Left, g);
    }
    let mut probe = board.clone();
    assert(cells(&probe) =~= g) by {
        assert forall|k: int| 0 <= k < SIDE implies #[trigger] probe@[k]@ == board@[k]@ by {
            assert(probe@[k]@ =~= board@[k]@);
        }
    }
    let left = maybe_move_tiles(Direction::Left, &mut probe);
    let ghost p1 = cells(&probe);
    proof {
        lemma_moved(Direction::Right, p1);
    }
    let right = maybe_move_tiles(Direction::Right, &mut probe);
    let ghost p2 = cells(&probe);
    proof {
        lemma_moved(Direction::Up, p2);
    }
    let up = maybe_move_tiles(Direction::Up, &mut probe);
    let ghost p3 = cells(&probe);
    proof {
        lemma_moved(Direction::Down, p3);
    }
    let down = maybe_move_tiles(Direction::Down, &mut probe);
    if left || right || up || down {
        if *state == GameState::Won || *state == GameState::WonActive {
            *state = GameState::WonActive;
        } else {
            *state = GameState::Active;
        }
    } else {
        *state = GameState::Lost;
    }
}

/// Setting one cell of a grid to a non-negative value keeps its shape and
/// changes its sum by the difference.
pub proof fn lemma_put(g: Seq<Seq<i32>>, i: int, j: int, v: i32)
    requires
        is_grid(g),
        0 <= i < SIDE,
        0 <= j < SIDE,
        v >= 0,
    ensures
        is_grid(put(g, i, j, v)),
        grid_sum(put(g, i, j, v)) == grid_sum(g) - g[i][j] + v,
{
    let h = put(g, i, j, v);
    assert forall|a: int| 0 <= a < SIDE implies #[trigger] h[a].len() == SIDE by {}
    assert forall|a: int, b: int| 0 <= a < SIDE && 0 <= b < SIDE implies #[trigger] h[a][b] >= 0 by {
        assert(g[a].len() == SIDE);
        assert(g[a][b] >= 0);
    }
    assert(g[0].len() == SIDE && g[1].len() == SIDE && g[2].len() == SIDE && g[3].len() == SIDE);
    lemma_sum_four(g[0]);
    lemma_sum_four(g[1]);
    lemma_sum_four(g[2]);
    lemma_sum_four(g[3]);
    lemma_sum_four(h[0]);
    lemma_sum_four(h[1]);
    lemma_sum_four(h[2]);
    lemma_sum_four(h[3]);
}

/// Plays one move. A move that changes no cell is refused: it returns false
/// and leaves the board and the state alone. Otherwise the tiles slide, a 2
/// or a 4 is spawned on an empty cell, the state is updated, and it returns
/// true.
pub fn make_move(direction: Direction, board: &mut Board, state: &mut GameState) -> (changed: bool)
    requires
        fits(cells(old(board)), 4),
    ensures
        changed == (moved(direction, cells(old(board))) != cells(old(board))),
        !changed ==> cells(final(board)) == cells(old(board)) && *final(state) == *old(state),
        changed ==> spawned(moved(direction, cells(old(board))), cells(final(board))),
        changed ==> *final(state) == next_state(*old(state), cells(final(board))),
        changed ==> grid_sum(cells(final(board))) == grid_sum(cells(old(board))) + 2
            || grid_sum(cells(final(board))) == grid_sum(cells(old(board))) + 4,
        fits(cells(final(board)), 0),
{
    let ghost g = cells(board);
    proof {
        lemma_moved(direction, g);
    }
    if maybe_move_tiles(direction, board) {
        let ghost m = cells(board);
        place_starter_value(board);
        proof {
            let (i, j, v) = choose|i: int, j: int, v: i32|
                0 <= i < SIDE && 0 <= j < SIDE && m[i][j] == 0 && (v == 2 || v == 4) && cells(board)
                    == #[trigger] put(m, i, j, v);
            lemma_put(m, i, j, v);
        }
        check_game_state(board, state);
        return true;
    }
    false
}

/// The grid with every cell empty.
pub open spec fn empty_grid() -> Seq<Seq<i32>> {
    Seq::new(SIDE as nat, |i: int| Seq::new(SIDE as nat, |j: int| 0i32))
}

/// A new board: all cells empty, then two tiles spawned one after the other.
pub fn initialise_board() -> (board: Board)
    ensures
        exists|mid: Seq<Seq<i32>>|
            spawned(empty_grid(), mid) && #[trigger] spawned(mid, cells(&board)),
        fits(cells(&board), 0),
{
    let mut board: Board = Vec::new();
    let mut i: usize = 0;
    while i < SIDE
        invariant
            i <= SIDE,
            board@.len() == i,
            forall|k: int| 0 <= k < i ==> #[trigger] board@[k]@ == empty_grid()[k],
        decreases SIDE - i,
    {
        let row: Vec<i32> = vec![0, 0, 0, 0];
        assert(row@ =~= empty_grid()[i as int]);
        board.push(row);
        i += 1;
    }
    let ghost g = cells(&board);
    assert(g =~= empty_grid());
    assert(g[0][0] == 0);
    place_starter_value(&mut board);
    let ghost mid = cells(&board);
    proof {
        let (i, j, v) = choose|i: int, j: int, v: i32|
            0 <= i < SIDE && 0 <= j < SIDE && g[i][j] == 0 && (v == 2 || v == 4) && mid
                == #[trigger] put(g, i, j, v);
        lemma_put(g, i, j, v);
        let (a, b) = if i == 0 && j == 0 { (0int, 1int) } else { (0int, 0int) };
        assert(mid[a][b] == 0);
    }
    place_starter_value(&mut board);
    proof {
        let (i, j, v) = choose|i: int, j: int, v: i32|
            0 <= i < SIDE && 0 <= j < SIDE && mid[i][j] == 0 && (v == 2 || v == 4) && cells(&board)
                == #[trigger] put(mid, i, j, v);
        lemma_put(mid, i, j, v);
        lemma_sum_four(g[0]);
        lemma_sum_four(g[1]);
        lemma_sum_four(g[2]);
        lemma_sum_four(g[3]);
    }
    board
}

} // verus!
