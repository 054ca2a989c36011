//! Flat game boards: shared helpers for counting blank cells.
//!
//! Both games store their grid as one flat vector of characters with `' '`
//! for an empty cell; the number of blanks is the termination measure of a
//! game, since every move fills exactly one blank.
use vstd::prelude::*;

verus! {

/// Number of blank cells among the first `n`.
pub open spec fn count_blanks(b: Seq<char>, n: int) -> int
    decreases n,
{
    if n <= 0 {
        0
    } else {
        count_blanks(b, n - 1) + if b[n - 1] == ' ' {
            1int
        } else {
            0int
        }
    }
}

/// Blank counts lie between 0 and `n`.
pub proof fn lemma_count_blanks_bounds(b: Seq<char>, n: int)
    requires
        0 <= n,
    ensures
        0 <= count_blanks(b, n) <= n,
    decreases n,
{
    if n > 0 {
        lemma_count_blanks_bounds(b, n - 1);
    }
}

/// Filling one blank cell lowers the blank count by exactly one.
pub proof fn lemma_count_blanks_update(b: Seq<char>, m: int, v: char, n: int)
    requires
        0 <= m < b.len(),
        b[m] == ' ',
        v != ' ',
        n <= b.len(),
    ensures
        count_blanks(b.update(m, v), n) == count_blanks(b, n) - if m < n {
            1int
        } else {
            0int
        },
    decreases n,
{
    if n > 0 {
        lemma_count_blanks_update(b, m, v, n - 1);
    }
}

/// A positive blank count names a blank cell.
pub proof fn lemma_count_blanks_witness(b: Seq<char>, n: int)
    requires
        0 < count_blanks(b, n),
        n <= b.len(),
    ensures
        exists|k: int| 0 <= k < n && b[k] == ' ',
    decreases n,
{
    if n > 0 {
        if b[n - 1] == ' ' {
        } else {
            lemma_count_blanks_witness(b, n - 1);
        }
    }
}

/// A blank cell within the counted prefix keeps the count positive.
pub proof fn lemma_count_blanks_nonzero(b: Seq<char>, k: int)
    requires
        0 <= k < b.len(),
        b[k] == ' ',
    ensures
        forall|n: int| k < n <= b.len() ==> count_blanks(b, n) > 0,
    decreases b.len(),
{
    assert forall|n: int| k < n <= b.len() implies count_blanks(b, n) > 0 by {
        lemma_count_blanks_pos(b, k, n);
    }
}

/// Helper: a blank at `k` makes every count over a longer prefix positive.
proof fn lemma_count_blanks_pos(b: Seq<char>, k: int, n: int)
    requires
        0 <= k < n <= b.len(),
        b[k] == ' ',
    ensures
        count_blanks(b, n) > 0,
    decreases n,
{
    if k == n - 1 {
        lemma_count_blanks_bounds(b, n - 1);
    } else {
        lemma_count_blanks_pos(b, k, n - 1);
    }
}


} // verus!
