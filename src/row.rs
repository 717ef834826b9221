//! One row of the grid slid and merged towards its start.
use vstd::prelude::*;

verus! {

/// Number of cells in a row (and of rows in a board).
pub const SIDE: usize = 4;

/// Sum of the values of a sequence of cells.
pub open spec fn row_sum(s: Seq<i32>) -> int
    decreases s.len(),
{
    if s.len() == 0 {
        0
    } else {
        s[0] + row_sum(s.drop_first())
    }
}

/// Every cell holds a non-negative value.
pub open spec fn all_nonneg(s: Seq<i32>) -> bool {
    forall|i: int| 0 <= i < s.len() ==> s[i] >= 0
}

/// The non-zero cells of `s`, in their order.
pub open spec fn non_zero(s: Seq<i32>) -> Seq<i32>
    decreases s.len(),
{
    if s.len() == 0 {
        s
    } else if s[0] == 0 {
        non_zero(s.drop_first())
    } else {
        seq![s[0]] + non_zero(s.drop_first())
    }
}

/// One left-to-right pass that merges each pair of equal neighbours into
/// their sum; a merged value takes part in no further merge.
pub open spec fn merge_pairs(s: Seq<i32>) -> Seq<i32>
    decreases s.len(),
{
    if s.len() < 2 {
        s
    } else if s[0] == s[1] {
        seq![(s[0] + s[1]) as i32] + merge_pairs(s.subrange(2, s.len() as int))
    } else {
        seq![s[0]] + merge_pairs(s.drop_first())
    }
}

/// `s` followed by zeros up to the length of a row.
pub open spec fn pad_zeros(s: Seq<i32>) -> Seq<i32> {
    s + Seq::new((SIDE - s.len()) as nat, |i: int| 0i32)
}

/// A row after a slide towards its start: zeros removed, equal neighbours
/// merged once, zeros appended.
pub open spec fn collapse(row: Seq<i32>) -> Seq<i32> {
    pad_zeros(merge_pairs(non_zero(row)))
}

/// A row that a move can take: four non-negative cells whose sum fits in `i32`.
pub open spec fn row_fits(row: Seq<i32>) -> bool {
    &&& row.len() == SIDE
    &&& all_nonneg(row)
    &&& row_sum(row) <= i32::MAX
}

pub proof fn lemma_sum_concat(a: Seq<i32>, b: Seq<i32>)
    ensures
        row_sum(a + b) == row_sum(a) + row_sum(b),
    decreases a.len(),
{
    if a.len() > 0 {
        assert((a + b).drop_first() =~= a.drop_first() + b);
        lemma_sum_concat(a.drop_first(), b);
    } else {
        assert(a + b =~= b);
    }
}

pub proof fn lemma_sum_nonneg(s: Seq<i32>)
    requires
        all_nonneg(s),
    ensures
        row_sum(s) >= 0,
    decreases s.len(),
{
    if s.len() > 0 {
        lemma_sum_nonneg(s.drop_first());
    }
}

pub proof fn lemma_sum_four(s: Seq<i32>)
    requires
        s.len() == 4,
    ensures
        row_sum(s) == s[0] + s[1] + s[2] + s[3],
{
    let t1 = s.drop_first();
    let t2 = t1.drop_first();
    let t3 = t2.drop_first();
    let t4 = t3.drop_first();
    assert(t4.len() == 0);
    assert(row_sum(t3) == s[3] + row_sum(t4));
    assert(row_sum(t2) == s[2] + row_sum(t3));
    assert(row_sum(t1) == s[1] + row_sum(t2));
}

pub proof fn lemma_non_zero(s: Seq<i32>)
    requires
        all_nonneg(s),
    ensures
        row_sum(non_zero(s)) == row_sum(s),
        non_zero(s).len() <= s.len(),
        forall|i: int| 0 <= i < non_zero(s).len() ==> non_zero(s)[i] > 0,
        (forall|i: int| 0 <= i < s.len() ==> s[i] != 0) ==> non_zero(s) == s,
    decreases s.len(),
{
    if s.len() > 0 {
        let t = s.drop_first();
        lemma_non_zero(t);
        if s[0] != 0 {
            lemma_sum_concat(seq![s[0]], non_zero(t));
            assert(row_sum(seq![s[0]]) == s[0] + row_sum(seq![s[0]].drop_first()));
            let r = seq![s[0]] + non_zero(t);
            assert forall|i: int| 0 <= i < r.len() implies r[i] > 0 by {
                if i > 0 {
                    assert(r[i] == non_zero(t)[i - 1]);
                }
            }
            if forall|i: int| 0 <= i < s.len() ==> s[i] != 0 {
                assert(forall|i: int| 0 <= i < t.len() ==> t[i] == s[i + 1]);
                assert(r =~= s);
            }
        } else {
            assert(s[0] == 0);
        }
    }
}

pub proof fn lemma_merge_pairs(s: Seq<i32>)
    requires
        all_nonneg(s),
        row_sum(s) <= i32::MAX,
    ensures
        row_sum(merge_pairs(s)) == row_sum(s),
        merge_pairs(s).len() <= s.len(),
        merge_pairs(s).len() == s.len() ==> merge_pairs(s) == s,
        all_nonneg(merge_pairs(s)),
        (forall|i: int| 0 <= i < s.len() ==> s[i] > 0) ==> (forall|i: int|
            0 <= i < merge_pairs(s).len() ==> merge_pairs(s)[i] > 0),
    decreases s.len(),
{
    if s.len() >= 2 {
        let t = s.drop_first();
        lemma_sum_nonneg(t);
        assert(all_nonneg(t));
        if s[0] == s[1] {
            let u = s.subrange(2, s.len() as int);
            assert(t.drop_first() =~= u);
            assert(all_nonneg(u));
            lemma_sum_nonneg(u);
            assert(row_sum(t) == s[1] + row_sum(u));
            lemma_merge_pairs(u);
            let h = seq![(s[0] + s[1]) as i32];
            lemma_sum_concat(h, merge_pairs(u));
            assert(row_sum(h) == h[0] + row_sum(h.drop_first()));
            let r = h + merge_pairs(u);
            assert forall|i: int| 0 <= i < r.len() implies r[i] >= 0 by {
                if i > 0 {
                    assert(r[i] == merge_pairs(u)[i - 1]);
                }
            }
            if forall|i: int| 0 <= i < s.len() ==> s[i] > 0 {
                assert forall|i: int| 0 <= i < u.len() implies u[i] > 0 by {
                    assert(u[i] == s[i + 2]);
                }
                assert forall|i: int| 0 <= i < r.len() implies r[i] > 0 by {
                    if i > 0 {
                        assert(r[i] == merge_pairs(u)[i - 1]);
                    }
                }
            }
        } else {
            lemma_merge_pairs(t);
            let h = seq![s[0]];
            lemma_sum_concat(h, merge_pairs(t));
            assert(row_sum(h) == h[0] + row_sum(h.drop_first()));
            let r = h + merge_pairs(t);
            assert forall|i: int| 0 <= i < r.len() implies r[i] >= 0 by {
                if i > 0 {
                    assert(r[i] == merge_pairs(t)[i - 1]);
                }
            }
            if forall|i: int| 0 <= i < s.len() ==> s[i] > 0 {
                assert forall|i: int| 0 <= i < t.len() implies t[i] > 0 by {
                    assert(t[i] == s[i + 1]);
                }
                assert forall|i: int| 0 <= i < r.len() implies r[i] > 0 by {
                    if i > 0 {
                        assert(r[i] == merge_pairs(t)[i - 1]);
                    }
                }
            }
            if r.len() == s.len() {
                assert(merge_pairs(t) == t);
                assert(r =~= s);
            }
        }
    }
}

/// Sliding a row keeps its sum, keeps its cells non-negative, and leaves at
/// least one empty cell whenever it changes the row.
pub proof fn lemma_collapse(row: Seq<i32>)
    requires
        row_fits(row),
    ensures
        collapse(row).len() == SIDE,
        row_sum(collapse(row)) == row_sum(row),
        all_nonneg(collapse(row)),
        collapse(row) != row ==> exists|j: int| 0 <= j < SIDE && collapse(row)[j] == 0,
{
    let nz = non_zero(row);
    lemma_non_zero(row);
    lemma_merge_pairs(nz);
    let m = merge_pairs(nz);
    let z = Seq::new((SIDE - m.len()) as nat, |i: int| 0i32);
    lemma_sum_concat(m, z);
    lemma_sum_zeros(z);
    let c = collapse(row);
    assert(c =~= m + z);
    assert forall|i: int| 0 <= i < c.len() implies c[i] >= 0 by {
        if i >= m.len() {
            assert(c[i] == z[i - m.len()]);
        }
    }
    if c != row {
        if m.len() < SIDE {
            assert(c[SIDE - 1] == 0);
        } else {
            if exists|i: int| 0 <= i < row.len() && row[i] == 0 {
                assert(nz.len() < row.len()) by {
                    lemma_non_zero_drops_zero(row);
                }
            }
            assert(nz == row);
            assert(c =~= m);
        }
    }
}

proof fn lemma_sum_zeros(z: Seq<i32>)
    requires
        forall|i: int| 0 <= i < z.len() ==> z[i] == 0,
    ensures
        row_sum(z) == 0,
    decreases z.len(),
{
    if z.len() > 0 {
        lemma_sum_zeros(z.drop_first());
    }
}

proof fn lemma_non_zero_drops_zero(s: Seq<i32>)
    requires
        exists|i: int| 0 <= i < s.len() && s[i] == 0,
    ensures
        non_zero(s).len() < s.len(),
    decreases s.len(),
{
    lemma_non_zero_len(s.drop_first());
    if s[0] != 0 {
        let i = choose|i: int| 0 <= i < s.len() && s[i] == 0;
        assert(s.drop_first()[i - 1] == 0);
        lemma_non_zero_drops_zero(s.drop_first());
    }
}

proof fn lemma_non_zero_len(s: Seq<i32>)
    ensures
        non_zero(s).len() <= s.len(),
    decreases s.len(),
{
    if s.len() > 0 {
        lemma_non_zero_len(s.drop_first());
    }
}

/// Slides one row towards its start: drops the zeros, merges each pair of
/// equal neighbours once from the left, and pads with zeros to four cells.
pub fn collapse_row(row: &Vec<i32>) -> (r: Vec<i32>)
    requires
        row_fits(row@),
    ensures
        r@ == collapse(row@),
{
    let n: usize = row.len();
    let mut tiles: Vec<i32> = Vec::new();
    let mut i: usize = 0;
    assert(row@.subrange(0, n as int) =~= row@);
    assert(tiles@ + non_zero(row@) =~= non_zero(row@));
    while i < n
        invariant
            n == row@.len(),
            i <= n,
            tiles@ + non_zero(row@.subrange(i as int, n as int)) == non_zero(row@),
        decreases n - i,
    {
        let ghost rest = row@.subrange(i as int, n as int);
        assert(rest.drop_first() =~= row@.subrange(i + 1, n as int));
        if row[i] != 0 {
            assert(tiles@ + non_zero(rest) =~= tiles@.push(row[i as int]) + non_zero(
                rest.drop_first(),
            ));
            tiles.push(row[i]);
        }
        i += 1;
    }
    assert(row@.subrange(n as int, n as int) =~= Seq::<i32>::empty());
    assert(tiles@ =~= non_zero(row@));
    proof {
        lemma_non_zero(row@);
    }
    let m: usize = tiles.len();
    let mut merged: Vec<i32> = Vec::new();
    let mut c: usize = 0;
    assert(tiles@.subrange(0, m as int) =~= tiles@);
    assert(merged@ + merge_pairs(tiles@) =~= merge_pairs(tiles@));
    while c < m
        invariant
            m == tiles@.len(),
            m <= SIDE,
            tiles@ == non_zero(row@),
            all_nonneg(tiles@),
            row_sum(tiles@) <= i32::MAX,
            c <= m,
            merged@.len() <= c,
            merged@ + merge_pairs(tiles@.subrange(c as int, m as int)) == merge_pairs(tiles@),
            row_sum(tiles@.subrange(c as int, m as int)) <= row_sum(tiles@),
        decreases m - c,
    {
        let ghost rest = tiles@.subrange(c as int, m as int);
        assert(rest.drop_first() =~= tiles@.subrange(c + 1, m as int));
        assert(all_nonneg(rest.drop_first()));
        proof {
            lemma_sum_nonneg(rest.drop_first());
        }
        if c + 1 < m && tiles[c] == tiles[c + 1] {
            let ghost rest2 = tiles@.subrange(c + 2, m as int);
            assert(rest.subrange(2, rest.len() as int) =~= rest2);
            assert(rest.drop_first().drop_first() =~= rest2);
            assert(all_nonneg(rest2));
            proof {
                lemma_sum_nonneg(rest2);
            }
            let v: i32 = tiles[c] + tiles[c + 1];
            assert(merged@ + merge_pairs(rest) =~= merged@.push(v) + merge_pairs(rest2));
            merged.push(v);
            c += 2;
        } else {
            assert(merged@ + merge_pairs(rest) =~= merged@.push(tiles[c as int])
                + merge_pairs(rest.drop_first()));
            merged.push(tiles[c]);
            c += 1;
        }
    }
    assert(tiles@.subrange(m as int, m as int) =~= Seq::<i32>::empty());
    assert(merged@ =~= merge_pairs(tiles@));
    proof {
        lemma_merge_pairs(tiles@);
    }
    let ghost kept = merged@;
    let mut out = merged;
    while out.len() < SIDE
        invariant
            kept.len() <= out@.len() <= SIDE,
            out@.subrange(0, kept.len() as int) == kept,
            forall|j: int| kept.len() <= j < out@.len() ==> out@[j] == 0,
        decreases SIDE - out@.len(),
    {
        out.push(0);
    }
    assert(out@ =~= pad_zeros(kept));
    out
}

} // verus!
