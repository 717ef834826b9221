//! Facts about moves and game states that relate several operations.
use vstd::prelude::*;

use crate::board::{has_empty, is_grid, fits, grid_sum, lemma_mirror, lemma_moved, lemma_transpose, mirror, moved, slide_left, transpose, Direction};
use crate::game::{has_winning_tile, next_state, GameState};
use crate::row::{all_nonneg, collapse, lemma_merge_pairs, lemma_non_zero, merge_pairs, non_zero, pad_zeros, row_fits, SIDE};

verus! {

/// No two neighbouring cells of a row or of a column hold equal values.
pub open spec fn no_equal_neighbours(g: Seq<Seq<i32>>) -> bool {
    forall|i: int, j: int|
        0 <= i < SIDE && 0 <= j < SIDE - 1 ==> #[trigger] g[i][j] != g[i][j + 1] && g[j][i]
            != g[j + 1][i]
}

/// A move to the right is the move to the left seen in a mirror: each row is
/// reversed, slid to the left, and reversed back.
pub proof fn lemma_right_mirrors_left(g: Seq<Seq<i32>>)
    ensures
        moved(Direction::Right, g) == mirror(moved(Direction::Left, mirror(g))),
        moved(Direction::Down, g) == transpose(mirror(moved(Direction::Left, mirror(transpose(g))))),
        moved(Direction::Up, g) == transpose(moved(Direction::Left, transpose(g))),
{
}

/// A move changes neither the sum of the tiles nor the shape of the grid.
pub proof fn lemma_move_keeps_sum(d: Direction, g: Seq<Seq<i32>>)
    requires
        fits(g, 0),
    ensures
        grid_sum(moved(d, g)) == grid_sum(g),
        is_grid(moved(d, g)),
{
    lemma_moved(d, g);
}

/// An active game whose grid holds the winning tile is won, whatever moves
/// remain.
pub proof fn lemma_winning_tile_wins(g: Seq<Seq<i32>>)
    requires
        has_winning_tile(g),
    ensures
        next_state(GameState::Active, g) == GameState::Won,
{
}

proof fn lemma_merge_no_pairs(s: Seq<i32>)
    requires
        forall|k: int| 0 <= k < s.len() - 1 ==> #[trigger] s[k] != s[k + 1],
    ensures
        merge_pairs(s) == s,
    decreases s.len(),
{
    if s.len() >= 2 {
        let t = s.drop_first();
        assert forall|k: int| 0 <= k < t.len() - 1 implies #[trigger] t[k] != t[k + 1] by {
            assert(s[k + 1] != s[k + 2]);
        }
        lemma_merge_no_pairs(t);
        assert(s[0] != s[1]);
        assert(seq![s[0]] + t =~= s);
    }
}

proof fn lemma_stuck_rows(g: Seq<Seq<i32>>)
    requires
        is_grid(g),
        !has_empty(g),
        forall|i: int, j: int| 0 <= i < SIDE && 0 <= j < SIDE - 1 ==> #[trigger] g[i][j] != g[i][j + 1],
    ensures
        slide_left(g) == g,
{
    assert forall|i: int| 0 <= i < SIDE implies #[trigger] collapse(g[i]) == g[i] by {
        let r = g[i];
        assert(r.len() == SIDE);
        assert forall|k: int| 0 <= k < r.len() implies r[k] >= 0 && r[k] != 0 by {
            assert(g[i][k] >= 0);
            if g[i][k] == 0 {
                assert(has_empty(g));
            }
        }
        lemma_non_zero(r);
        assert(non_zero(r) == r);
        assert forall|k: int| 0 <= k < r.len() - 1 implies #[trigger] r[k] != r[k + 1] by {
            assert(g[i][k] != g[i][k + 1]);
        }
        lemma_merge_no_pairs(r);
        assert(collapse(r) =~= r);
    }
    assert(slide_left(g) =~= g);
}

/// A full grid with no two equal neighbours in any row or column and no
/// winning tile is lost, whatever the state before.
pub proof fn lemma_stuck_grid_is_lost(s: GameState, g: Seq<Seq<i32>>)
    requires
        fits(g, 0),
        !has_empty(g),
        no_equal_neighbours(g),
        !has_winning_tile(g),
    ensures
        next_state(s, g) == GameState::Lost,
{
    lemma_mirror(g);
    lemma_transpose(g);
    let m = mirror(g);
    let t = transpose(g);
    lemma_mirror(t);
    let mt = mirror(t);
    assert forall|i: int, j: int| 0 <= i < SIDE && 0 <= j < SIDE - 1 implies #[trigger] g[i][j]
        != g[i][j + 1] by {
        assert(no_equal_neighbours(g));
    }
    lemma_stuck_rows(g);
    assert(!has_empty(m)) by {
        if has_empty(m) {
            let (i, j) = choose|i: int, j: int| 0 <= i < SIDE && 0 <= j < SIDE && #[trigger] m[i][j] == 0;
            assert(g[i][SIDE - 1 - j] == 0);
        }
    }
    assert forall|i: int, j: int| 0 <= i < SIDE && 0 <= j < SIDE - 1 implies #[trigger] m[i][j]
        != m[i][j + 1] by {
        assert(g[i][SIDE - 2 - j] != g[i][SIDE - 2 - j + 1]);
    }
    lemma_stuck_rows(m);
    assert(!has_empty(t)) by {
        if has_empty(t) {
            let (i, j) = choose|i: int, j: int| 0 <= i < SIDE && 0 <= j < SIDE && #[trigger] t[i][j] == 0;
            assert(g[j][i] == 0);
        }
    }
    assert forall|i: int, j: int| 0 <= i < SIDE && 0 <= j < SIDE - 1 implies #[trigger] t[i][j]
        != t[i][j + 1] by {
        assert(g[j][i] != g[j + 1][i]);
    }
    lemma_stuck_rows(t);
    assert(!has_empty(mt)) by {
        if has_empty(mt) {
            let (i, j) = choose|i: int, j: int| 0 <= i < SIDE && 0 <= j < SIDE && #[trigger] mt[i][j] == 0;
            assert(g[SIDE - 1 - j][i] == 0);
        }
    }
    assert forall|i: int, j: int| 0 <= i < SIDE && 0 <= j < SIDE - 1 implies #[trigger] mt[i][j]
        != mt[i][j + 1] by {
        assert(g[SIDE - 2 - j][i] != g[SIDE - 2 - j + 1][i]);
    }
    lemma_stuck_rows(mt);
}

proof fn lemma_non_zero_concat(a: Seq<i32>, b: Seq<i32>)
    ensures
        non_zero(a + b) == non_zero(a) + non_zero(b),
    decreases a.len(),
{
    if a.len() == 0 {
        assert(a + b =~= b);
        assert(non_zero(a) + non_zero(b) =~= non_zero(b));
    } else {
        assert((a + b).drop_first() =~= a.drop_first() + b);
        lemma_non_zero_concat(a.drop_first(), b);
        if a[0] != 0 {
            assert(seq![a[0]] + (non_zero(a.drop_first()) + non_zero(b)) =~= (seq![a[0]]
                + non_zero(a.drop_first())) + non_zero(b));
        }
    }
}

proof fn lemma_non_zero_of_zeros(z: Seq<i32>)
    requires
        forall|k: int| 0 <= k < z.len() ==> z[k] == 0,
    ensures
        non_zero(z) == Seq::<i32>::empty(),
    decreases z.len(),
{
    if z.len() > 0 {
        lemma_non_zero_of_zeros(z.drop_first());
    }
}

/// The tiles of a row after a slide are the tiles before it, in order, with
/// each pair of equal neighbours merged once into its sum: no tile appears,
/// vanishes or changes otherwise.
pub proof fn lemma_slide_merges_tiles(row: Seq<i32>)
    requires
        row_fits(row),
    ensures
        non_zero(collapse(row)) == merge_pairs(non_zero(row)),
{
    let nz = non_zero(row);
    lemma_non_zero(row);
    lemma_merge_pairs(nz);
    let m = merge_pairs(nz);
    let z = Seq::new((SIDE - m.len()) as nat, |i: int| 0i32);
    assert(pad_zeros(m) == m + z);
    lemma_non_zero_concat(m, z);
    lemma_non_zero_of_zeros(z);
    assert(all_nonneg(m));
    lemma_non_zero(m);
    assert(non_zero(m) + Seq::<i32>::empty() =~= m);
}

} // verus!
