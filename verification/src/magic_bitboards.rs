use crate::bitboard::{
    bit, group_bit_lemmas, lemma_bit_and, lemma_bit_not, lemma_bit_zero, lemma_clear_bit_squares,
    lemma_set_bit_squares, Bitboard,
};
use crate::bitboard::lemma_popcount_missing;
use std::collections::HashMap;
use vstd::prelude::*;

verus! {

/// Whether `(i, j)` is a board square.
pub open spec fn on_board(i: int, j: int) -> bool {
    0 <= i < 8 && 0 <= j < 8
}

/// The bit index of the square in row `i`, column `j`.
pub open spec fn sq(i: int, j: int) -> u64 {
    (i * 8 + j) as u64
}

/// One king step from `(i, j)` to `(k, l)`: a neighboring board square.
pub open spec fn king_step(i: int, j: int, k: int, l: int) -> bool {
    on_board(k, l) && !(k == i && l == j) && -1 <= k - i <= 1 && -1 <= l - j <= 1
}

/// One knight jump from `(i, j)` to `(k, l)`: two rows and one column away,
/// or one row and two columns away, landing on the board.
pub open spec fn knight_jump(i: int, j: int, k: int, l: int) -> bool {
    on_board(k, l) && ((k - i == 2 || k - i == -2) && (l - j == 1 || l - j == -1) || (k - i == 1
        || k - i == -1) && (l - j == 2 || l - j == -2))
}

/// Membership of `(k, l)` in the rook blocker mask of `(i, j)`: a square of
/// the same row or column, other than `(i, j)` itself and other than the rim
/// squares of that row or column.
pub open spec fn rook_mask_at(i: int, j: int, k: int, l: int) -> bool {
    on_board(k, l) && ((k == i && 1 <= l <= 6 && l != j) || (l == j && 1 <= k <= 6 && k != i))
}

/// Membership of `(k, l)` in the bishop blocker mask of `(i, j)`: a square of
/// either diagonal through `(i, j)`, other than `(i, j)` itself and other than
/// the rim squares where each diagonal ends.
pub open spec fn bishop_mask_at(i: int, j: int, k: int, l: int) -> bool {
    on_board(k, l) && (k - i == l - j || k - i == j - l) && k != i && 1 <= k <= 6 && 1 <= l <= 6
}

/// Whether `m` lies strictly between `a` and `b`.
pub open spec fn strictly_between(a: int, b: int, m: int) -> bool {
    a < m < b || b < m < a
}

/// The naive rook ray walk from `(i, j)` under the blocker set `blockers`:
/// `(k, l)` is reached when it shares a row or column with `(i, j)`, differs
/// from it, and no blocker stands strictly between. The first blocker square
/// of a ray is itself reached; squares beyond it are not.
pub open spec fn rook_reach(blockers: u64, i: int, j: int, k: int, l: int) -> bool {
    on_board(k, l) && ((k == i && l != j && (forall|m: int|
        #[trigger] strictly_between(j, l, m) ==> !bit(blockers, sq(i, m)))) || (l == j && k != i
        && (forall|m: int| #[trigger] strictly_between(i, k, m) ==> !bit(blockers, sq(m, j)))))
}

/// The naive bishop ray walk from `(i, j)` under the blocker set `blockers`,
/// along the two diagonals, stopping at (and including) the first blocker.
pub open spec fn bishop_reach(blockers: u64, i: int, j: int, k: int, l: int) -> bool {
    on_board(k, l) && k != i && ((k - i == l - j && (forall|m: int|
        strictly_between(i, k, m) ==> !#[trigger] bit(blockers, diag_sq(i, j, m)))) || (k - i == j
        - l && (forall|m: int|
        strictly_between(i, k, m) ==> !#[trigger] bit(blockers, anti_sq(i, j, m)))))
}

/// The king step table: entry `i * 8 + j` holds the neighbors of `(i, j)`.
pub fn get_king_moves() -> (r: Vec<Bitboard>)
    ensures
        r@.len() == 64,
        forall|i: int, j: int, k: int, l: int|
            on_board(i, j) && on_board(k, l) ==> #[trigger] bit(r@[i * 8 + j]@, sq(k, l))
                == king_step(i, j, k, l),
{
    let mut r: Vec<Bitboard> = Vec::new();
    let mut i: usize = 0;
    while i < 8
        invariant
            i <= 8,
            r@.len() == i * 8,
            forall|a: int, b: int, k: int, l: int|
                0 <= a < i && 0 <= b < 8 && on_board(k, l) ==> #[trigger] bit(
                    r@[a * 8 + b]@,
                    sq(k, l),
                ) == king_step(a, b, k, l),
        decreases 8 - i,
    {
        let mut j: usize = 0;
        while j < 8
            invariant
                i < 8,
                j <= 8,
                r@.len() == i * 8 + j,
                forall|a: int, b: int, k: int, l: int|
                    (0 <= a < i && 0 <= b < 8 || a == i && 0 <= b < j) && on_board(k, l)
                        ==> #[trigger] bit(r@[a * 8 + b]@, sq(k, l)) == king_step(a, b, k, l),
            decreases 8 - j,
        {
            let m = king_mask(i, j);
            r.push(m);
            j = j + 1;
        }
        i = i + 1;
    }
    r
}

/// The neighbors of `(i, j)`.
#[verifier::rlimit(50)]
fn king_mask(i: usize, j: usize) -> (r: Bitboard)
    requires
        i < 8,
        j < 8,
    ensures
        forall|k: int, l: int|
            on_board(k, l) ==> #[trigger] bit(r@, sq(k, l)) == king_step(i as int, j as int, k, l),
{
    broadcast use group_bit_lemmas;

    let mut r = Bitboard::new(0);
    if i >= 1 && j >= 1 {
        r.set(i - 1, j - 1);
    }
    if i >= 1 {
        r.set(i - 1, j);
    }
    if i >= 1 && j + 1 < 8 {
        r.set(i - 1, j + 1);
    }
    if j >= 1 {
        r.set(i, j - 1);
    }
    if j + 1 < 8 {
        r.set(i, j + 1);
    }
    if i + 1 < 8 && j >= 1 {
        r.set(i + 1, j - 1);
    }
    if i + 1 < 8 {
        r.set(i + 1, j);
    }
    if i + 1 < 8 && j + 1 < 8 {
        r.set(i + 1, j + 1);
    }
    r
}

/// The knight jump table: entry `i * 8 + j` holds the jump targets of `(i, j)`.
pub fn get_knight_moves() -> (r: Vec<Bitboard>)
    ensures
        r@.len() == 64,
        forall|i: int, j: int, k: int, l: int|
            on_board(i, j) && on_board(k, l) ==> #[trigger] bit(r@[i * 8 + j]@, sq(k, l))
                == knight_jump(i, j, k, l),
{
    let mut r: Vec<Bitboard> = Vec::new();
    let mut i: usize = 0;
    while i < 8
        invariant
            i <= 8,
            r@.len() == i * 8,
            forall|a: int, b: int, k: int, l: int|
                0 <= a < i && 0 <= b < 8 && on_board(k, l) ==> #[trigger] bit(
                    r@[a * 8 + b]@,
                    sq(k, l),
                ) == knight_jump(a, b, k, l),
        decreases 8 - i,
    {
        let mut j: usize = 0;
        while j < 8
            invariant
                i < 8,
                j <= 8,
                r@.len() == i * 8 + j,
                forall|a: int, b: int, k: int, l: int|
                    (0 <= a < i && 0 <= b < 8 || a == i && 0 <= b < j) && on_board(k, l)
                        ==> #[trigger] bit(r@[a * 8 + b]@, sq(k, l)) == knight_jump(a, b, k, l),
            decreases 8 - j,
        {
            let m = knight_mask(i, j);
            r.push(m);
            j = j + 1;
        }
        i = i + 1;
    }
    r
}

/// The knight jump targets of `(i, j)`.
#[verifier::rlimit(100)]
fn knight_mask(i: usize, j: usize) -> (r: Bitboard)
    requires
        i < 8,
        j < 8,
    ensures
        forall|k: int, l: int|
            on_board(k, l) ==> #[trigger] bit(r@, sq(k, l)) == knight_jump(
                i as int,
                j as int,
                k,
                l,
            ),
{
    broadcast use group_bit_lemmas;

    let mut r = Bitboard::new(0);
    if i >= 2 && j >= 1 {
        r.set(i - 2, j - 1);
    }
    if i >= 2 && j + 1 < 8 {
        r.set(i - 2, j + 1);
    }
    if i >= 1 && j >= 2 {
        r.set(i - 1, j - 2);
    }
    if i >= 1 && j + 2 < 8 {
        r.set(i - 1, j + 2);
    }
    if i + 1 < 8 && j >= 2 {
        r.set(i + 1, j - 2);
    }
    if i + 1 < 8 && j + 2 < 8 {
        r.set(i + 1, j + 2);
    }
    if i + 2 < 8 && j >= 1 {
        r.set(i + 2, j - 1);
    }
    if i + 2 < 8 && j + 1 < 8 {
        r.set(i + 2, j + 1);
    }
    r
}

/// The rook blocker mask table: entry `i * 8 + j` holds the blocker mask of
/// `(i, j)`.
pub fn get_rook_moves() -> (r: Vec<Bitboard>)
    ensures
        r@.len() == 64,
        forall|i: int, j: int, k: int, l: int|
            on_board(i, j) && on_board(k, l) ==> #[trigger] bit(r@[i * 8 + j]@, sq(k, l))
                == rook_mask_at(i, j, k, l),
{
    let mut r: Vec<Bitboard> = Vec::new();
    let mut i: usize = 0;
    while i < 8
        invariant
            i <= 8,
            r@.len() == i * 8,
            forall|a: int, b: int, k: int, l: int|
                0 <= a < i && 0 <= b < 8 && on_board(k, l) ==> #[trigger] bit(
                    r@[a * 8 + b]@,
                    sq(k, l),
                ) == rook_mask_at(a, b, k, l),
        decreases 8 - i,
    {
        let mut j: usize = 0;
        while j < 8
            invariant
                i < 8,
                j <= 8,
                r@.len() == i * 8 + j,
                forall|a: int, b: int, k: int, l: int|
                    (0 <= a < i && 0 <= b < 8 || a == i && 0 <= b < j) && on_board(k, l)
                        ==> #[trigger] bit(r@[a * 8 + b]@, sq(k, l)) == rook_mask_at(a, b, k, l),
            decreases 8 - j,
        {
            let m = rook_mask(i, j);
            r.push(m);
            j = j + 1;
        }
        i = i + 1;
    }
    r
}

/// The rook blocker mask of `(i, j)`.
#[verifier::rlimit(50)]
fn rook_mask(i: usize, j: usize) -> (r: Bitboard)
    requires
        i < 8,
        j < 8,
    ensures
        forall|k: int, l: int|
            on_board(k, l) ==> #[trigger] bit(r@, sq(k, l)) == rook_mask_at(
                i as int,
                j as int,
                k,
                l,
            ),
{
    broadcast use group_bit_lemmas;

    let mut r = Bitboard::new(0);
    let mut c: usize = 1;
    while c < 7
        invariant
            i < 8,
            j < 8,
            1 <= c <= 7,
            forall|k: int, l: int|
                on_board(k, l) ==> #[trigger] bit(r@, sq(k, l)) == (k == i as int && 1 <= l < c
                    && l != j as int),
        decreases 7 - c,
    {
        if c != j {
            let ghost prev = r@;
            r.set(i, c);
            proof {
                lemma_set_bit_squares(prev, r@, sq(i as int, c as int));
            }
        }
        c = c + 1;
    }
    let mut t: usize = 1;
    while t < 7
        invariant
            i < 8,
            j < 8,
            1 <= t <= 7,
            forall|k: int, l: int|
                on_board(k, l) ==> #[trigger] bit(r@, sq(k, l)) == (k == i as int && 1 <= l <= 6
                    && l != j as int || l == j as int && 1 <= k < t && k != i as int),
        decreases 7 - t,
    {
        if t != i {
            let ghost prev = r@;
            r.set(t, j);
            proof {
                lemma_set_bit_squares(prev, r@, sq(t as int, j as int));
            }
        }
        t = t + 1;
    }
    r
}

/// The bishop blocker mask table: entry `i * 8 + j` holds the blocker mask of
/// `(i, j)`.
pub fn get_bishop_moves() -> (r: Vec<Bitboard>)
    ensures
        r@.len() == 64,
        forall|i: int, j: int, k: int, l: int|
            on_board(i, j) && on_board(k, l) ==> #[trigger] bit(r@[i * 8 + j]@, sq(k, l))
                == bishop_mask_at(i, j, k, l),
{
    let mut r: Vec<Bitboard> = Vec::new();
    let mut i: usize = 0;
    while i < 8
        invariant
            i <= 8,
            r@.len() == i * 8,
            forall|a: int, b: int, k: int, l: int|
                0 <= a < i && 0 <= b < 8 && on_board(k, l) ==> #[trigger] bit(
                    r@[a * 8 + b]@,
                    sq(k, l),
                ) == bishop_mask_at(a, b, k, l),
        decreases 8 - i,
    {
        let mut j: usize = 0;
        while j < 8
            invariant
                i < 8,
                j <= 8,
                r@.len() == i * 8 + j,
                forall|a: int, b: int, k: int, l: int|
                    (0 <= a < i && 0 <= b < 8 || a == i && 0 <= b < j) && on_board(k, l)
                        ==> #[trigger] bit(r@[a * 8 + b]@, sq(k, l)) == bishop_mask_at(a, b, k, l),
            decreases 8 - j,
        {
            let m = bishop_mask(i, j);
            r.push(m);
            j = j + 1;
        }
        i = i + 1;
    }
    r
}

/// The bishop blocker mask of `(i, j)`: the interiors of both diagonals.
#[verifier::rlimit(50)]
fn bishop_mask(i: usize, j: usize) -> (r: Bitboard)
    requires
        i < 8,
        j < 8,
    ensures
        forall|k: int, l: int|
            on_board(k, l) ==> #[trigger] bit(r@, sq(k, l)) == bishop_mask_at(
                i as int,
                j as int,
                k,
                l,
            ),
{
    broadcast use group_bit_lemmas;

    let mut r = Bitboard::new(0);
    let mut m: usize = 1;
    while m < 7
        invariant
            i < 8,
            j < 8,
            1 <= m <= 7,
            forall|k: int, l: int|
                on_board(k, l) ==> #[trigger] bit(r@, sq(k, l)) == ((k - i as int == l - j as int
                    || k - i as int == j as int - l) && k != i as int && 1 <= k < m && 1 <= l
                    <= 6),
        decreases 7 - m,
    {
        if m != i && m + j > i && m + j < i + 7 {
            let ghost prev = r@;
            r.set(m, m + j - i);
            proof {
                lemma_set_bit_squares(prev, r@, sq(m as int, m + j - i));
            }
        }
        if m != i && i + j > m && i + j < m + 7 {
            let ghost prev = r@;
            r.set(m, i + j - m);
            proof {
                lemma_set_bit_squares(prev, r@, sq(m as int, i + j - m));
            }
        }
        m = m + 1;
    }
    r
}

/// The bit index of the square of the rising diagonal through `(i, j)`
/// that lies in row `m`.
pub open spec fn diag_sq(i: int, j: int, m: int) -> u64 {
    sq(m, j + (m - i))
}

/// The bit index of the square of the falling diagonal through `(i, j)`
/// that lies in row `m`.
pub open spec fn anti_sq(i: int, j: int, m: int) -> u64 {
    sq(m, j - (m - i))
}

/// Squares northeast of `(i, j)` (rising row and column) reached before (and
/// including) the first blocker.
pub open spec fn ne_reach(b: u64, i: int, j: int, k: int, l: int) -> bool {
    on_board(k, l) && k > i && k - i == l - j && (forall|m: int|
        i < m < k ==> !bit(b, diag_sq(i, j, m)))
}

/// Squares southwest of `(i, j)` (falling row and column) reached before (and
/// including) the first blocker.
pub open spec fn sw_reach(b: u64, i: int, j: int, k: int, l: int) -> bool {
    on_board(k, l) && k < i && k - i == l - j && (forall|m: int|
        k < m < i ==> !bit(b, diag_sq(i, j, m)))
}

/// Squares northwest of `(i, j)` (rising row, falling column) reached before
/// (and including) the first blocker.
pub open spec fn nw_reach(b: u64, i: int, j: int, k: int, l: int) -> bool {
    on_board(k, l) && k > i && k - i == j - l && (forall|m: int|
        i < m < k ==> !bit(b, anti_sq(i, j, m)))
}

/// Squares southeast of `(i, j)` (falling row, rising column) reached before
/// (and including) the first blocker.
pub open spec fn se_reach(b: u64, i: int, j: int, k: int, l: int) -> bool {
    on_board(k, l) && k < i && k - i == j - l && (forall|m: int|
        k < m < i ==> !bit(b, anti_sq(i, j, m)))
}

/// Walk northeast from `(i, j)`, adding each visited square, stopping after
/// the first blocker.
fn walk_ne(res: &mut Bitboard, b: &Bitboard, i: usize, j: usize)
    requires
        i < 8,
        j < 8,
    ensures
        forall|k: int, l: int|
            on_board(k, l) ==> #[trigger] bit(final(res)@, sq(k, l)) == (bit(
                old(res)@,
                sq(k, l),
            ) || ne_reach(b@, i as int, j as int, k, l)),
{
    broadcast use group_bit_lemmas;

    let mut d: usize = 1;
    let mut stopped = false;
    while i + d < 8 && j + d < 8 && !stopped
        invariant
            i < 8,
            j < 8,
            1 <= d <= 8,
            d > 1 ==> i + d - 1 < 8 && j + d - 1 < 8,
            forall|k: int, l: int|
                on_board(k, l) ==> #[trigger] bit(res@, sq(k, l)) == (bit(old(res)@, sq(k, l)) || (
                k - i as int == l - j as int && i < k < i + d)),
            forall|m: int|
                i < m < i + d - 1 ==> !#[trigger] bit(b@, diag_sq(i as int, j as int, m)),
            !stopped && d > 1 ==> !bit(b@, diag_sq(i as int, j as int, i + d - 1)),
            stopped ==> d > 1 && bit(b@, diag_sq(i as int, j as int, i + d - 1)),
        decreases 8 - d,
    {
        let ghost prev = res@;
        res.set(i + d, j + d);
        proof {
            lemma_set_bit_squares(prev, res@, sq(i + d, j + d));
        }
        if b.is_set(i + d, j + d) {
            stopped = true;
        }
        d = d + 1;
    }
    proof {
        assert forall|k: int, l: int| on_board(k, l) implies (k - i as int == l - j as int && i < k
            < i + d) == ne_reach(b@, i as int, j as int, k, l) by {
            if k - i as int == l - j as int && i < k < 8 && 0 <= l < 8 {
                if k < i + d {
                    assert forall|m: int| i < m < k implies !bit(
                        b@,
                        diag_sq(i as int, j as int, m),
                    ) by {}
                } else {
                    assert(stopped || i + d >= 8 || j + d >= 8);
                    assert(stopped);
                    assert(i < i + d - 1 < k && bit(b@, diag_sq(i as int, j as int, i + d - 1)));
                }
            }
        }
    }
}

/// Walk southwest from `(i, j)`, adding each visited square, stopping after
/// the first blocker.
fn walk_sw(res: &mut Bitboard, b: &Bitboard, i: usize, j: usize)
    requires
        i < 8,
        j < 8,
    ensures
        forall|k: int, l: int|
            on_board(k, l) ==> #[trigger] bit(final(res)@, sq(k, l)) == (bit(
                old(res)@,
                sq(k, l),
            ) || sw_reach(b@, i as int, j as int, k, l)),
{
    broadcast use group_bit_lemmas;

    let mut d: usize = 1;
    let mut stopped = false;
    while d <= i && d <= j && !stopped
        invariant
            i < 8,
            j < 8,
            1 <= d <= 8,
            d > 1 ==> d - 1 <= i && d - 1 <= j,
            forall|k: int, l: int|
                on_board(k, l) ==> #[trigger] bit(res@, sq(k, l)) == (bit(old(res)@, sq(k, l)) || (
                k - i as int == l - j as int && i - d < k < i)),
            forall|m: int|
                i - d + 1 < m < i ==> !#[trigger] bit(b@, diag_sq(i as int, j as int, m)),
            !stopped && d > 1 ==> !bit(b@, diag_sq(i as int, j as int, i - d + 1)),
            stopped ==> d > 1 && bit(b@, diag_sq(i as int, j as int, i - d + 1)),
        decreases 8 - d,
    {
        let ghost prev = res@;
        res.set(i - d, j - d);
        proof {
            lemma_set_bit_squares(prev, res@, sq(i - d, j - d));
        }
        if b.is_set(i - d, j - d) {
            stopped = true;
        }
        d = d + 1;
    }
    proof {
        assert forall|k: int, l: int| on_board(k, l) implies (k - i as int == l - j as int && i - d
            < k < i) == sw_reach(b@, i as int, j as int, k, l) by {
            if k - i as int == l - j as int && 0 <= k < i && 0 <= l {
                if k > i - d {
                    assert forall|m: int| k < m < i implies !bit(
                        b@,
                        diag_sq(i as int, j as int, m),
                    ) by {}
                } else {
                    assert(stopped || d > i || d > j);
                    assert(stopped);
                    assert(k < i - d + 1 < i && bit(b@, diag_sq(i as int, j as int, i - d + 1)));
                }
            }
        }
    }
}

/// Walk northwest from `(i, j)`, adding each visited square, stopping after
/// the first blocker.
fn walk_nw(res: &mut Bitboard, b: &Bitboard, i: usize, j: usize)
    requires
        i < 8,
        j < 8,
    ensures
        forall|k: int, l: int|
            on_board(k, l) ==> #[trigger] bit(final(res)@, sq(k, l)) == (bit(
                old(res)@,
                sq(k, l),
            ) || nw_reach(b@, i as int, j as int, k, l)),
{
    broadcast use group_bit_lemmas;

    let mut d: usize = 1;
    let mut stopped = false;
    while i + d < 8 && d <= j && !stopped
        invariant
            i < 8,
            j < 8,
            1 <= d <= 8,
            d > 1 ==> i + d - 1 < 8 && d - 1 <= j,
            forall|k: int, l: int|
                on_board(k, l) ==> #[trigger] bit(res@, sq(k, l)) == (bit(old(res)@, sq(k, l)) || (
                k - i as int == j as int - l && i < k < i + d)),
            forall|m: int|
                i < m < i + d - 1 ==> !#[trigger] bit(b@, anti_sq(i as int, j as int, m)),
            !stopped && d > 1 ==> !bit(b@, anti_sq(i as int, j as int, i + d - 1)),
            stopped ==> d > 1 && bit(b@, anti_sq(i as int, j as int, i + d - 1)),
        decreases 8 - d,
    {
        let ghost prev = res@;
        res.set(i + d, j - d);
        proof {
            lemma_set_bit_squares(prev, res@, sq(i + d, j - d));
        }
        if b.is_set(i + d, j - d) {
            stopped = true;
        }
        d = d + 1;
    }
    proof {
        assert forall|k: int, l: int| on_board(k, l) implies (k - i as int == j as int - l && i < k
            < i + d) == nw_reach(b@, i as int, j as int, k, l) by {
            if k - i as int == j as int - l && i < k < 8 && 0 <= l {
                if k < i + d {
                    assert forall|m: int| i < m < k implies !bit(
                        b@,
                        anti_sq(i as int, j as int, m),
                    ) by {}
                } else {
                    assert(stopped || i + d >= 8 || d > j);
                    assert(stopped);
                    assert(i < i + d - 1 < k && bit(b@, anti_sq(i as int, j as int, i + d - 1)));
                }
            }
        }
    }
}

/// Walk southeast from `(i, j)`, adding each visited square, stopping after
/// the first blocker.
fn walk_se(res: &mut Bitboard, b: &Bitboard, i: usize, j: usize)
    requires
        i < 8,
        j < 8,
    ensures
        forall|k: int, l: int|
            on_board(k, l) ==> #[trigger] bit(final(res)@, sq(k, l)) == (bit(
                old(res)@,
                sq(k, l),
            ) || se_reach(b@, i as int, j as int, k, l)),
{
    broadcast use group_bit_lemmas;

    let mut d: usize = 1;
    let mut stopped = false;
    while d <= i && j + d < 8 && !stopped
        invariant
            i < 8,
            j < 8,
            1 <= d <= 8,
            d > 1 ==> d - 1 <= i && j + d - 1 < 8,
            forall|k: int, l: int|
                on_board(k, l) ==> #[trigger] bit(res@, sq(k, l)) == (bit(old(res)@, sq(k, l)) || (
                k - i as int == j as int - l && i - d < k < i)),
            forall|m: int|
                i - d + 1 < m < i ==> !#[trigger] bit(b@, anti_sq(i as int, j as int, m)),
            !stopped && d > 1 ==> !bit(b@, anti_sq(i as int, j as int, i - d + 1)),
            stopped ==> d > 1 && bit(b@, anti_sq(i as int, j as int, i - d + 1)),
        decreases 8 - d,
    {
        let ghost prev = res@;
        res.set(i - d, j + d);
        proof {
            lemma_set_bit_squares(prev, res@, sq(i - d, j + d));
        }
        if b.is_set(i - d, j + d) {
            stopped = true;
        }
        d = d + 1;
    }
    proof {
        assert forall|k: int, l: int| on_board(k, l) implies (k - i as int == j as int - l && i - d
            < k < i) == se_reach(b@, i as int, j as int, k, l) by {
            if k - i as int == j as int - l && 0 <= k < i && l < 8 {
                if k > i - d {
                    assert forall|m: int| k < m < i implies !bit(
                        b@,
                        anti_sq(i as int, j as int, m),
                    ) by {}
                } else {
                    assert(stopped || d > i || j + d >= 8);
                    assert(stopped);
                    assert(k < i - d + 1 < i && bit(b@, anti_sq(i as int, j as int, i - d + 1)));
                }
            }
        }
    }
}

/// Squares east of `(i, j)` reached before (and including) the first blocker.
pub open spec fn east_reach(b: u64, i: int, j: int, k: int, l: int) -> bool {
    k == i && j < l < 8 && (forall|m: int|
        #[trigger] strictly_between(j, l, m) ==> !bit(b, sq(i, m)))
}

/// Squares west of `(i, j)` reached before (and including) the first blocker.
pub open spec fn west_reach(b: u64, i: int, j: int, k: int, l: int) -> bool {
    k == i && 0 <= l < j && (forall|m: int|
        #[trigger] strictly_between(j, l, m) ==> !bit(b, sq(i, m)))
}

/// Squares north of `(i, j)` (toward row 7) reached before (and including)
/// the first blocker.
pub open spec fn north_reach(b: u64, i: int, j: int, k: int, l: int) -> bool {
    l == j && i < k < 8 && (forall|m: int|
        #[trigger] strictly_between(i, k, m) ==> !bit(b, sq(m, j)))
}

/// Squares south of `(i, j)` (toward row 0) reached before (and including)
/// the first blocker.
pub open spec fn south_reach(b: u64, i: int, j: int, k: int, l: int) -> bool {
    l == j && 0 <= k < i && (forall|m: int|
        #[trigger] strictly_between(i, k, m) ==> !bit(b, sq(m, j)))
}

/// Walk east from `(i, j)`, adding each visited square, stopping after the
/// first blocker.
fn walk_east(res: &mut Bitboard, b: &Bitboard, i: usize, j: usize)
    requires
        i < 8,
        j < 8,
    ensures
        forall|k: int, l: int|
            on_board(k, l) ==> #[trigger] bit(final(res)@, sq(k, l)) == (bit(
                old(res)@,
                sq(k, l),
            ) || east_reach(b@, i as int, j as int, k, l)),
{
    broadcast use group_bit_lemmas;

    let mut c: usize = j + 1;
    let mut stopped = false;
    while c < 8 && !stopped
        invariant
            i < 8,
            j < 8,
            j + 1 <= c <= 8,
            forall|k: int, l: int|
                on_board(k, l) ==> #[trigger] bit(res@, sq(k, l)) == (bit(old(res)@, sq(k, l)) || (
                k == i as int && j < l < c)),
            forall|m: int| j < m < c - 1 ==> !bit(b@, sq(i as int, m)),
            !stopped && c > j + 1 ==> !bit(b@, sq(i as int, c - 1)),
            stopped ==> c > j + 1 && bit(b@, sq(i as int, c - 1)),
        decreases 8 - c,
    {
        let ghost prev = res@;
        res.set(i, c);
        proof {
            lemma_set_bit_squares(prev, res@, sq(i as int, c as int));
        }
        if b.is_set(i, c) {
            stopped = true;
        }
        c = c + 1;
    }
    proof {
        assert forall|k: int, l: int| on_board(k, l) implies (k == i as int && j < l < c)
            == east_reach(b@, i as int, j as int, k, l) by {
            if k == i as int && j < l < 8 {
                if l < c {
                    assert forall|m: int| strictly_between(j as int, l, m) implies !bit(
                        b@,
                        sq(i as int, m),
                    ) by {}
                } else {
                    assert(stopped);
                    assert(strictly_between(j as int, l, c - 1));
                }
            }
        }
    }
}

/// Walk west from `(i, j)`, adding each visited square, stopping after the
/// first blocker.
fn walk_west(res: &mut Bitboard, b: &Bitboard, i: usize, j: usize)
    requires
        i < 8,
        j < 8,
    ensures
        forall|k: int, l: int|
            on_board(k, l) ==> #[trigger] bit(final(res)@, sq(k, l)) == (bit(
                old(res)@,
                sq(k, l),
            ) || west_reach(b@, i as int, j as int, k, l)),
{
    broadcast use group_bit_lemmas;

    let mut c: usize = j;
    let mut stopped = false;
    while c > 0 && !stopped
        invariant
            i < 8,
            j < 8,
            c <= j,
            forall|k: int, l: int|
                on_board(k, l) ==> #[trigger] bit(res@, sq(k, l)) == (bit(old(res)@, sq(k, l)) || (
                k == i as int && c <= l < j)),
            forall|m: int| c < m < j ==> !bit(b@, sq(i as int, m)),
            !stopped && c < j ==> !bit(b@, sq(i as int, c as int)),
            stopped ==> c < j && bit(b@, sq(i as int, c as int)),
        decreases c,
    {
        let ghost prev = res@;
        res.set(i, c - 1);
        proof {
            lemma_set_bit_squares(prev, res@, sq(i as int, c - 1));
        }
        if b.is_set(i, c - 1) {
            stopped = true;
        }
        c = c - 1;
    }
    proof {
        assert forall|k: int, l: int| on_board(k, l) implies (k == i as int && c <= l < j)
            == west_reach(b@, i as int, j as int, k, l) by {
            if k == i as int && 0 <= l < j {
                if l >= c {
                    assert forall|m: int| strictly_between(j as int, l, m) implies !bit(
                        b@,
                        sq(i as int, m),
                    ) by {}
                } else {
                    assert(stopped);
                    assert(strictly_between(j as int, l, c as int));
                }
            }
        }
    }
}

/// Walk north from `(i, j)`, adding each visited square, stopping after the
/// first blocker.
fn walk_north(res: &mut Bitboard, b: &Bitboard, i: usize, j: usize)
    requires
        i < 8,
        j < 8,
    ensures
        forall|k: int, l: int|
            on_board(k, l) ==> #[trigger] bit(final(res)@, sq(k, l)) == (bit(
                old(res)@,
                sq(k, l),
            ) || north_reach(b@, i as int, j as int, k, l)),
{
    broadcast use group_bit_lemmas;

    let mut t: usize = i + 1;
    let mut stopped = false;
    while t < 8 && !stopped
        invariant
            i < 8,
            j < 8,
            i + 1 <= t <= 8,
            forall|k: int, l: int|
                on_board(k, l) ==> #[trigger] bit(res@, sq(k, l)) == (bit(old(res)@, sq(k, l)) || (
                l == j as int && i < k < t)),
            forall|m: int| i < m < t - 1 ==> !bit(b@, sq(m, j as int)),
            !stopped && t > i + 1 ==> !bit(b@, sq(t - 1, j as int)),
            stopped ==> t > i + 1 && bit(b@, sq(t - 1, j as int)),
        decreases 8 - t,
    {
        let ghost prev = res@;
        res.set(t, j);
        proof {
            lemma_set_bit_squares(prev, res@, sq(t as int, j as int));
        }
        if b.is_set(t, j) {
            stopped = true;
        }
        t = t + 1;
    }
    proof {
        assert forall|k: int, l: int| on_board(k, l) implies (l == j as int && i < k < t)
            == north_reach(b@, i as int, j as int, k, l) by {
            if l == j as int && i < k < 8 {
                if k < t {
                    assert forall|m: int| strictly_between(i as int, k, m) implies !bit(
                        b@,
                        sq(m, j as int),
                    ) by {}
                } else {
                    assert(stopped);
                    assert(strictly_between(i as int, k, t - 1));
                }
            }
        }
    }
}

/// Walk south from `(i, j)`, adding each visited square, stopping after the
/// first blocker.
fn walk_south(res: &mut Bitboard, b: &Bitboard, i: usize, j: usize)
    requires
        i < 8,
        j < 8,
    ensures
        forall|k: int, l: int|
            on_board(k, l) ==> #[trigger] bit(final(res)@, sq(k, l)) == (bit(
                old(res)@,
                sq(k, l),
            ) || south_reach(b@, i as int, j as int, k, l)),
{
    broadcast use group_bit_lemmas;

    let mut t: usize = i;
    let mut stopped = false;
    while t > 0 && !stopped
        invariant
            i < 8,
            j < 8,
            t <= i,
            forall|k: int, l: int|
                on_board(k, l) ==> #[trigger] bit(res@, sq(k, l)) == (bit(old(res)@, sq(k, l)) || (
                l == j as int && t <= k < i)),
            forall|m: int| t < m < i ==> !bit(b@, sq(m, j as int)),
            !stopped && t < i ==> !bit(b@, sq(t as int, j as int)),
            stopped ==> t < i && bit(b@, sq(t as int, j as int)),
        decreases t,
    {
        let ghost prev = res@;
        res.set(t - 1, j);
        proof {
            lemma_set_bit_squares(prev, res@, sq(t - 1, j as int));
        }
        if b.is_set(t - 1, j) {
            stopped = true;
        }
        t = t - 1;
    }
    proof {
        assert forall|k: int, l: int| on_board(k, l) implies (l == j as int && t <= k < i)
            == south_reach(b@, i as int, j as int, k, l) by {
            if l == j as int && 0 <= k < i {
                if k >= t {
                    assert forall|m: int| strictly_between(i as int, k, m) implies !bit(
                        b@,
                        sq(m, j as int),
                    ) by {}
                } else {
                    assert(stopped);
                    assert(strictly_between(i as int, k, t as int));
                }
            }
        }
    }
}

/// Reachable squares from `(i, j)` under the blockers of `blocker_board`:
/// the four rook rays for offset 0, the four bishop rays for offset 1, each
/// ray stopping at (and including) its first blocker. The origin square is
/// never included.
pub fn get_move_board(blocker_board: Bitboard, i: usize, j: usize, offset: usize) -> (r: Bitboard)
    requires
        i < 8,
        j < 8,
        offset <= 1,
        !bit(blocker_board@, sq(i as int, j as int)),
    ensures
        offset == 0 ==> forall|k: int, l: int|
            on_board(k, l) ==> #[trigger] bit(r@, sq(k, l)) == rook_reach(
                blocker_board@,
                i as int,
                j as int,
                k,
                l,
            ),
        offset == 1 ==> forall|k: int, l: int|
            on_board(k, l) ==> #[trigger] bit(r@, sq(k, l)) == bishop_reach(
                blocker_board@,
                i as int,
                j as int,
                k,
                l,
            ),
{
    broadcast use group_bit_lemmas;

    let mut res = Bitboard::new(0);
    proof {
        assert forall|n: u64| n < 64 implies !bit(res@, n) by {
            lemma_bit_zero(n);
        }
    }
    if offset == 0 {
        walk_east(&mut res, &blocker_board, i, j);
        walk_west(&mut res, &blocker_board, i, j);
        walk_north(&mut res, &blocker_board, i, j);
        walk_south(&mut res, &blocker_board, i, j);
    } else {
        walk_ne(&mut res, &blocker_board, i, j);
        walk_sw(&mut res, &blocker_board, i, j);
        walk_nw(&mut res, &blocker_board, i, j);
        walk_se(&mut res, &blocker_board, i, j);
    }
    let ghost before_clear = res@;
    res.clear(i, j);
    proof {
        lemma_clear_bit_squares(before_clear, res@, sq(i as int, j as int));
        let b = blocker_board@;
        let ii = i as int;
        let jj = j as int;
        if offset == 0 {
            assert forall|k: int, l: int| on_board(k, l) implies #[trigger] bit(res@, sq(k, l))
                == rook_reach(b, ii, jj, k, l) by {
                if k == ii && l == jj {
                    assert(!rook_reach(b, ii, jj, k, l));
                } else {
                    assert(bit(res@, sq(k, l)) == (east_reach(b, ii, jj, k, l) || west_reach(
                        b,
                        ii,
                        jj,
                        k,
                        l,
                    ) || north_reach(b, ii, jj, k, l) || south_reach(b, ii, jj, k, l)));
                }
            }
        } else {
            assert forall|k: int, l: int| on_board(k, l) implies #[trigger] bit(res@, sq(k, l))
                == bishop_reach(b, ii, jj, k, l) by {
                if k == ii && l == jj {
                    assert(!bishop_reach(b, ii, jj, k, l));
                } else {
                    assert(bit(res@, sq(k, l)) == (ne_reach(b, ii, jj, k, l) || sw_reach(
                        b,
                        ii,
                        jj,
                        k,
                        l,
                    ) || nw_reach(b, ii, jj, k, l) || se_reach(b, ii, jj, k, l)));
                }
            }
        }
    }
    res
}

/// Whether every square of `bl` lies in the rook blocker mask of `(i, j)`.
pub open spec fn rook_mask_subset(bl: u64, i: int, j: int) -> bool {
    forall|k: int, l: int|
        on_board(k, l) && #[trigger] bit(bl, sq(k, l)) ==> rook_mask_at(i, j, k, l)
}

/// Whether every square of `bl` lies in the bishop blocker mask of `(i, j)`.
pub open spec fn bishop_mask_subset(bl: u64, i: int, j: int) -> bool {
    forall|k: int, l: int|
        on_board(k, l) && #[trigger] bit(bl, sq(k, l)) ==> bishop_mask_at(i, j, k, l)
}

/// Soundness of a per-square rook attack map: every key is a pattern drawn
/// from the blocker mask, and every stored entry is the exact ray walk for
/// its key.
pub open spec fn rook_map_ok(m: Map<u64, u64>, i: int, j: int) -> bool {
    forall|bl: u64|
        #[trigger] m.contains_key(bl) ==> rook_mask_subset(bl, i, j) && (forall|k: int, l: int|
            on_board(k, l) ==> #[trigger] bit(m[bl], sq(k, l)) == rook_reach(bl, i, j, k, l))
}

/// Soundness of a per-square bishop attack map: every key is a pattern drawn
/// from the blocker mask, and every stored entry is the exact ray walk for
/// its key.
pub open spec fn bishop_map_ok(m: Map<u64, u64>, i: int, j: int) -> bool {
    forall|bl: u64|
        #[trigger] m.contains_key(bl) ==> bishop_mask_subset(bl, i, j) && (forall|k: int, l: int|
            on_board(k, l) ==> #[trigger] bit(m[bl], sq(k, l)) == bishop_reach(bl, i, j, k, l))
}

/// The rook attack maps, one per square, keyed by the blocker patterns drawn
/// from that square's blocker mask.
fn get_rook_magic_bitboards() -> (r: Vec<HashMap<u64, u64>>)
    ensures
        r@.len() == 64,
        forall|s: int| 0 <= s < 64 ==> rook_map_ok(#[trigger] r@[s]@, s / 8, s % 8),
        forall|s: int, bl: u64|
            0 <= s < 64 && rook_mask_subset(bl, s / 8, s % 8) ==> #[trigger] r@[s]@.contains_key(
                bl,
            ),
{
    broadcast use group_bit_lemmas;
    broadcast use vstd::std_specs::hash::group_hash_axioms;

    let masks = get_rook_moves();
    let mut r: Vec<HashMap<u64, u64>> = Vec::new();
    let mut s: usize = 0;
    while s < 64
        invariant
            s <= 64,
            r@.len() == s,
            masks@.len() == 64,
            forall|a: int, b: int, k: int, l: int|
                on_board(a, b) && on_board(k, l) ==> #[trigger] bit(masks@[a * 8 + b]@, sq(k, l))
                    == rook_mask_at(a, b, k, l),
            forall|t: int| 0 <= t < s ==> rook_map_ok(#[trigger] r@[t]@, t / 8, t % 8),
            forall|t: int, bl: u64|
                0 <= t < s && rook_mask_subset(bl, t / 8, t % 8)
                    ==> #[trigger] r@[t]@.contains_key(bl),
        decreases 64 - s,
    {
        let i = s / 8;
        let j = s % 8;
        let mask = masks[s];
        proof {
            assert(!bit(mask@, sq(i as int, j as int)));
            lemma_popcount_missing(mask@, sq(i as int, j as int));
        }
        let subs = mask.generate_subsets();
        let mut map: HashMap<u64, u64> = HashMap::new();
        let mut x: usize = 0;
        while x < subs.len()
            invariant
                i == s / 8 && j == s % 8 && s < 64,
                i < 8 && j < 8,
                !bit(mask@, sq(i as int, j as int)),
                forall|k: int, l: int|
                    on_board(k, l) ==> #[trigger] bit(mask@, sq(k, l)) == rook_mask_at(
                        i as int,
                        j as int,
                        k,
                        l,
                    ),
                forall|idx: int| 0 <= idx < subs@.len() ==> #[trigger] subs@[idx]@ & !mask@ == 0,
                forall|c: u64|
                    c & !mask@ == 0 ==> (exists|m: int|
                        0 <= m < subs@.len() && #[trigger] subs@[m]@ == c),
                rook_map_ok(map@, i as int, j as int),
                forall|idx: int| 0 <= idx < x ==> map@.contains_key(#[trigger] subs@[idx]@),
            decreases subs@.len() - x,
        {
            let b = subs[x];
            proof {
                let n = sq(i as int, j as int);
                lemma_bit_and(b@, !mask@, n);
                lemma_bit_not(mask@, n);
                lemma_bit_zero(n);
                assert(!bit(b@, n));
            }
            let mv = get_move_board(b, i, j, 0);
            let ghost m0 = map@;
            map.insert(b.val, mv.val);
            proof {
                assert(vstd::std_specs::hash::obeys_key_model::<u64>());
                assert(vstd::std_specs::hash::builds_valid_hashers::<
                    std::collections::hash_map::RandomState,
                >());
                assert(map@ == m0.insert(b@, mv@));
                assert(rook_mask_subset(b@, i as int, j as int)) by {
                    assert forall|k: int, l: int|
                        on_board(k, l) && #[trigger] bit(b@, sq(k, l)) implies rook_mask_at(
                        i as int,
                        j as int,
                        k,
                        l,
                    ) by {
                        lemma_bit_and(b@, !mask@, sq(k, l));
                        lemma_bit_not(mask@, sq(k, l));
                        lemma_bit_zero(sq(k, l));
                    }
                }
                assert forall|idx: int| 0 <= idx < x + 1 implies map@.contains_key(
                    #[trigger] subs@[idx]@,
                ) by {
                    if idx < x {
                        assert(m0.contains_key(subs@[idx]@));
                    }
                }
                assert forall|bl: u64| map@.contains_key(bl) implies rook_mask_subset(
                    bl,
                    i as int,
                    j as int,
                ) && (forall|k: int, l: int|
                    on_board(k, l) ==> #[trigger] bit(map@[bl], sq(k, l)) == rook_reach(
                        bl,
                        i as int,
                        j as int,
                        k,
                        l,
                    )) by {
                    if bl == b@ {
                        assert(map@[bl] == mv@);
                        assert forall|k: int, l: int| on_board(k, l) implies #[trigger] bit(
                            map@[bl],
                            sq(k, l),
                        ) == rook_reach(bl, i as int, j as int, k, l) by {
                            assert(bit(mv@, sq(k, l)) == rook_reach(
                                b@,
                                i as int,
                                j as int,
                                k,
                                l,
                            ));
                        }
                    } else {
                        assert(m0.contains_key(bl) && map@[bl] == m0[bl]);
                        assert forall|k: int, l: int| on_board(k, l) implies #[trigger] bit(
                            map@[bl],
                            sq(k, l),
                        ) == rook_reach(bl, i as int, j as int, k, l) by {
                            assert(bit(m0[bl], sq(k, l)) == rook_reach(
                                bl,
                                i as int,
                                j as int,
                                k,
                                l,
                            ));
                        }
                    }
                }
            }
            x = x + 1;
        }
        proof {
            assert forall|bl: u64| rook_mask_subset(bl, i as int, j as int) implies
                map@.contains_key(bl) by {
                assert forall|n: u64| n < 64 implies !bit(bl & !mask@, n) by {
                    lemma_bit_and(bl, !mask@, n);
                    lemma_bit_not(mask@, n);
                    if bit(bl, n) {
                        let kx = (n as int) / 8;
                        let lx = (n as int) % 8;
                        assert(sq(kx, lx) == n);
                        assert(rook_mask_at(i as int, j as int, kx, lx));
                        assert(bit(mask@, sq(kx, lx)));
                    }
                }
                crate::bitboard::lemma_no_bits_zero(bl & !mask@);
                let m = choose|m: int| 0 <= m < subs@.len() && subs@[m]@ == bl;
                assert(map@.contains_key(subs@[m]@));
            }
        }
        r.push(map);
        s = s + 1;
    }
    r
}

/// The bishop attack maps, one per square, keyed by the blocker patterns
/// drawn from that square's blocker mask.
fn get_bishop_magic_bitboards() -> (r: Vec<HashMap<u64, u64>>)
    ensures
        r@.len() == 64,
        forall|s: int| 0 <= s < 64 ==> bishop_map_ok(#[trigger] r@[s]@, s / 8, s % 8),
        forall|s: int, bl: u64|
            0 <= s < 64 && bishop_mask_subset(bl, s / 8, s % 8)
                ==> #[trigger] r@[s]@.contains_key(bl),
{
    broadcast use group_bit_lemmas;
    broadcast use vstd::std_specs::hash::group_hash_axioms;

    let masks = get_bishop_moves();
    let mut r: Vec<HashMap<u64, u64>> = Vec::new();
    let mut s: usize = 0;
    while s < 64
        invariant
            s <= 64,
            r@.len() == s,
            masks@.len() == 64,
            forall|a: int, b: int, k: int, l: int|
                on_board(a, b) && on_board(k, l) ==> #[trigger] bit(masks@[a * 8 + b]@, sq(k, l))
                    == bishop_mask_at(a, b, k, l),
            forall|t: int| 0 <= t < s ==> bishop_map_ok(#[trigger] r@[t]@, t / 8, t % 8),
            forall|t: int, bl: u64|
                0 <= t < s && bishop_mask_subset(bl, t / 8, t % 8)
                    ==> #[trigger] r@[t]@.contains_key(bl),
        decreases 64 - s,
    {
        let i = s / 8;
        let j = s % 8;
        let mask = masks[s];
        proof {
            assert(!bit(mask@, sq(i as int, j as int)));
            lemma_popcount_missing(mask@, sq(i as int, j as int));
        }
        let subs = mask.generate_subsets();
        let mut map: HashMap<u64, u64> = HashMap::new();
        let mut x: usize = 0;
        while x < subs.len()
            invariant
                i == s / 8 && j == s % 8 && s < 64,
                i < 8 && j < 8,
                !bit(mask@, sq(i as int, j as int)),
                forall|k: int, l: int|
                    on_board(k, l) ==> #[trigger] bit(mask@, sq(k, l)) == bishop_mask_at(
                        i as int,
                        j as int,
                        k,
                        l,
                    ),
                forall|idx: int| 0 <= idx < subs@.len() ==> #[trigger] subs@[idx]@ & !mask@ == 0,
                forall|c: u64|
                    c & !mask@ == 0 ==> (exists|m: int|
                        0 <= m < subs@.len() && #[trigger] subs@[m]@ == c),
                bishop_map_ok(map@, i as int, j as int),
                forall|idx: int| 0 <= idx < x ==> map@.contains_key(#[trigger] subs@[idx]@),
            decreases subs@.len() - x,
        {
            let b = subs[x];
            proof {
                let n = sq(i as int, j as int);
                lemma_bit_and(b@, !mask@, n);
                lemma_bit_not(mask@, n);
                lemma_bit_zero(n);
                assert(!bit(b@, n));
            }
            let mv = get_move_board(b, i, j, 1);
            let ghost m0 = map@;
            map.insert(b.val, mv.val);
            proof {
                assert(vstd::std_specs::hash::obeys_key_model::<u64>());
                assert(vstd::std_specs::hash::builds_valid_hashers::<
                    std::collections::hash_map::RandomState,
                >());
                assert(map@ == m0.insert(b@, mv@));
                assert(bishop_mask_subset(b@, i as int, j as int)) by {
                    assert forall|k: int, l: int|
                        on_board(k, l) && #[trigger] bit(b@, sq(k, l)) implies bishop_mask_at(
                        i as int,
                        j as int,
                        k,
                        l,
                    ) by {
                        lemma_bit_and(b@, !mask@, sq(k, l));
                        lemma_bit_not(mask@, sq(k, l));
                        lemma_bit_zero(sq(k, l));
                    }
                }
                assert forall|idx: int| 0 <= idx < x + 1 implies map@.contains_key(
                    #[trigger] subs@[idx]@,
                ) by {
                    if idx < x {
                        assert(m0.contains_key(subs@[idx]@));
                    }
                }
                assert forall|bl: u64| map@.contains_key(bl) implies bishop_mask_subset(
                    bl,
                    i as int,
                    j as int,
                ) && (forall|k: int, l: int|
                    on_board(k, l) ==> #[trigger] bit(map@[bl], sq(k, l)) == bishop_reach(
                        bl,
                        i as int,
                        j as int,
                        k,
                        l,
                    )) by {
                    if bl == b@ {
                        assert(map@[bl] == mv@);
                        assert forall|k: int, l: int| on_board(k, l) implies #[trigger] bit(
                            map@[bl],
                            sq(k, l),
                        ) == bishop_reach(bl, i as int, j as int, k, l) by {
                            assert(bit(mv@, sq(k, l)) == bishop_reach(
                                b@,
                                i as int,
                                j as int,
                                k,
                                l,
                            ));
                        }
                    } else {
                        assert(m0.contains_key(bl) && map@[bl] == m0[bl]);
                        assert forall|k: int, l: int| on_board(k, l) implies #[trigger] bit(
                            map@[bl],
                            sq(k, l),
                        ) == bishop_reach(bl, i as int, j as int, k, l) by {
                            assert(bit(m0[bl], sq(k, l)) == bishop_reach(
                                bl,
                                i as int,
                                j as int,
                                k,
                                l,
                            ));
                        }
                    }
                }
            }
            x = x + 1;
        }
        proof {
            assert forall|bl: u64| bishop_mask_subset(bl, i as int, j as int) implies
                map@.contains_key(bl) by {
                assert forall|n: u64| n < 64 implies !bit(bl & !mask@, n) by {
                    lemma_bit_and(bl, !mask@, n);
                    lemma_bit_not(mask@, n);
                    if bit(bl, n) {
                        let kx = (n as int) / 8;
                        let lx = (n as int) % 8;
                        assert(sq(kx, lx) == n);
                        assert(bishop_mask_at(i as int, j as int, kx, lx));
                        assert(bit(mask@, sq(kx, lx)));
                    }
                }
                crate::bitboard::lemma_no_bits_zero(bl & !mask@);
                let m = choose|m: int| 0 <= m < subs@.len() && subs@[m]@ == bl;
                assert(map@.contains_key(subs@[m]@));
            }
        }
        r.push(map);
        s = s + 1;
    }
    r
}

/// The process-wide attack tables: step tables for king and knight, blocker
/// masks and keyed attack maps for the sliding pieces. Built once; every
/// query consults them read-only.
pub struct AttackTables {
    pub king_moves: Vec<Bitboard>,
    pub knight_moves: Vec<Bitboard>,
    pub rook_blocker_masks: Vec<Bitboard>,
    pub bishop_blocker_masks: Vec<Bitboard>,
    pub rook_map: Vec<HashMap<u64, u64>>,
    pub bishop_map: Vec<HashMap<u64, u64>>,
}

impl AttackTables {
    /// Every table holds exactly its geometric or ray-walk predicate.
    pub open spec fn wf(self) -> bool {
        &&& self.king_moves@.len() == 64
        &&& (forall|i: int, j: int, k: int, l: int|
            on_board(i, j) && on_board(k, l) ==> #[trigger] bit(
                self.king_moves@[i * 8 + j]@,
                sq(k, l),
            ) == king_step(i, j, k, l))
        &&& self.knight_moves@.len() == 64
        &&& (forall|i: int, j: int, k: int, l: int|
            on_board(i, j) && on_board(k, l) ==> #[trigger] bit(
                self.knight_moves@[i * 8 + j]@,
                sq(k, l),
            ) == knight_jump(i, j, k, l))
        &&& self.rook_blocker_masks@.len() == 64
        &&& (forall|i: int, j: int, k: int, l: int|
            on_board(i, j) && on_board(k, l) ==> #[trigger] bit(
                self.rook_blocker_masks@[i * 8 + j]@,
                sq(k, l),
            ) == rook_mask_at(i, j, k, l))
        &&& self.bishop_blocker_masks@.len() == 64
        &&& (forall|i: int, j: int, k: int, l: int|
            on_board(i, j) && on_board(k, l) ==> #[trigger] bit(
                self.bishop_blocker_masks@[i * 8 + j]@,
                sq(k, l),
            ) == bishop_mask_at(i, j, k, l))
        &&& self.rook_map@.len() == 64
        &&& (forall|s: int| 0 <= s < 64 ==> rook_map_ok(#[trigger] self.rook_map@[s]@, s / 8, s % 8))
        &&& (forall|s: int, bl: u64|
            0 <= s < 64 && rook_mask_subset(bl, s / 8, s % 8)
                ==> #[trigger] self.rook_map@[s]@.contains_key(bl))
        &&& self.bishop_map@.len() == 64
        &&& (forall|s: int|
            0 <= s < 64 ==> bishop_map_ok(#[trigger] self.bishop_map@[s]@, s / 8, s % 8))
        &&& (forall|s: int, bl: u64|
            0 <= s < 64 && bishop_mask_subset(bl, s / 8, s % 8)
                ==> #[trigger] self.bishop_map@[s]@.contains_key(bl))
    }

    /// Build all six tables.
    pub fn new() -> (r: AttackTables)
        ensures
            r.wf(),
    {
        AttackTables {
            king_moves: get_king_moves(),
            knight_moves: get_knight_moves(),
            rook_blocker_masks: get_rook_moves(),
            bishop_blocker_masks: get_bishop_moves(),
            rook_map: get_rook_magic_bitboards(),
            bishop_map: get_bishop_magic_bitboards(),
        }
    }

    /// Rook reachability from `(i, j)` under `blockers`: the cached table
    /// entry, or the ray walk itself for a pattern the table does not hold.
    pub fn rook_attacks(&self, i: usize, j: usize, blockers: Bitboard) -> (r: Bitboard)
        requires
            self.wf(),
            i < 8,
            j < 8,
            !bit(blockers@, sq(i as int, j as int)),
        ensures
            forall|k: int, l: int|
                on_board(k, l) ==> #[trigger] bit(r@, sq(k, l)) == rook_reach(
                    blockers@,
                    i as int,
                    j as int,
                    k,
                    l,
                ),
    {
        broadcast use vstd::std_specs::hash::group_hash_axioms;

        let s = i * 8 + j;
        match self.rook_map[s].get(&blockers.val) {
            Some(v) => Bitboard::new(*v),
            None => get_move_board(blockers, i, j, 0),
        }
    }

    /// Bishop reachability from `(i, j)` under `blockers`: the cached table
    /// entry, or the ray walk itself for a pattern the table does not hold.
    pub fn bishop_attacks(&self, i: usize, j: usize, blockers: Bitboard) -> (r: Bitboard)
        requires
            self.wf(),
            i < 8,
            j < 8,
            !bit(blockers@, sq(i as int, j as int)),
        ensures
            forall|k: int, l: int|
                on_board(k, l) ==> #[trigger] bit(r@, sq(k, l)) == bishop_reach(
                    blockers@,
                    i as int,
                    j as int,
                    k,
                    l,
                ),
    {
        broadcast use vstd::std_specs::hash::group_hash_axioms;

        let s = i * 8 + j;
        match self.bishop_map[s].get(&blockers.val) {
            Some(v) => Bitboard::new(*v),
            None => get_move_board(blockers, i, j, 1),
        }
    }
}

} // verus!
