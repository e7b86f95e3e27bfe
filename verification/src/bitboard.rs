use vstd::arithmetic::power2::pow2;
use vstd::prelude::*;

verus! {

/// Truth of bit `n` of the word `b` (meaningful for `n < 64`).
pub open spec fn bit(b: u64, n: u64) -> bool {
    b & (1u64 << n) != 0
}

/// Number of set bits of `b` below position `n`.
pub open spec fn popcount_upto(b: u64, n: int) -> nat
    decreases n,
{
    if n <= 0 {
        0
    } else {
        popcount_upto(b, n - 1) + if bit(b, (n - 1) as u64) {
            1nat
        } else {
            0nat
        }
    }
}

/// Number of set bits of `b`.
pub open spec fn popcount(b: u64) -> nat {
    popcount_upto(b, 64)
}

pub broadcast proof fn lemma_bit_and(a: u64, b: u64, n: u64)
    requires
        n < 64,
    ensures
        #[trigger] bit(a & b, n) == (bit(a, n) && bit(b, n)),
{
    assert(n < 64 ==> ((a & b) & (1u64 << n) != 0) == ((a & (1u64 << n) != 0) && (b & (1u64 << n)
        != 0))) by (bit_vector);
}

pub broadcast proof fn lemma_bit_or(a: u64, b: u64, n: u64)
    requires
        n < 64,
    ensures
        #[trigger] bit(a | b, n) == (bit(a, n) || bit(b, n)),
{
    assert(n < 64 ==> ((a | b) & (1u64 << n) != 0) == ((a & (1u64 << n) != 0) || (b & (1u64 << n)
        != 0))) by (bit_vector);
}

pub broadcast proof fn lemma_bit_xor(a: u64, b: u64, n: u64)
    requires
        n < 64,
    ensures
        #[trigger] bit(a ^ b, n) == (bit(a, n) != bit(b, n)),
{
    assert(n < 64 ==> ((a ^ b) & (1u64 << n) != 0) == ((a & (1u64 << n) != 0) != (b & (1u64 << n)
        != 0))) by (bit_vector);
}

pub broadcast proof fn lemma_bit_not(a: u64, n: u64)
    requires
        n < 64,
    ensures
        #[trigger] bit(!a, n) == !bit(a, n),
{
    assert(n < 64 ==> ((!a) & (1u64 << n) != 0) == !(a & (1u64 << n) != 0)) by (bit_vector);
}

pub broadcast proof fn lemma_bit_shl(a: u64, s: u64, n: u64)
    requires
        s < 64,
        n < 64,
    ensures
        #[trigger] bit(a << s, n) == (n >= s && bit(a, (n - s) as u64)),
{
    assert(s < 64 && n < 64 ==> ((a << s) & (1u64 << n) != 0) == (n >= s && (a & (1u64 << ((n - s)
        as u64)) != 0))) by (bit_vector);
}

pub broadcast proof fn lemma_bit_shr(a: u64, s: u64, n: u64)
    requires
        s < 64,
        n < 64,
    ensures
        #[trigger] bit(a >> s, n) == (n + s < 64 && bit(a, (n + s) as u64)),
{
    assert(s < 64 && n < 64 ==> ((a >> s) & (1u64 << n) != 0) == (n + s < 64 && (a & (1u64 << ((n
        + s) as u64)) != 0))) by (bit_vector);
}

pub broadcast proof fn lemma_bit_single(s: u64, n: u64)
    requires
        s < 64,
        n < 64,
    ensures
        #[trigger] bit(1u64 << s, n) == (n == s),
{
    assert(s < 64 && n < 64 ==> ((1u64 << s) & (1u64 << n) != 0) == (n == s)) by (bit_vector);
}

pub broadcast proof fn lemma_bit_zero(n: u64)
    requires
        n < 64,
    ensures
        !#[trigger] bit(0u64, n),
{
    assert(n < 64 ==> 0u64 & (1u64 << n) == 0) by (bit_vector);
}

pub broadcast group group_bit_lemmas {
    lemma_bit_and,
    lemma_bit_or,
    lemma_bit_xor,
    lemma_bit_not,
    lemma_bit_shl,
    lemma_bit_shr,
    lemma_bit_single,
    lemma_bit_zero,
}

/// Setting bit `s` adds that square and keeps every other square.
pub proof fn lemma_set_bit_squares(prev: u64, now: u64, s: u64)
    requires
        s < 64,
        now == prev | (1u64 << s),
    ensures
        forall|n: u64| n < 64 ==> #[trigger] bit(now, n) == (bit(prev, n) || n == s),
{
    assert forall|n: u64| n < 64 implies #[trigger] bit(now, n) == (bit(prev, n) || n == s) by {
        lemma_bit_or(prev, 1u64 << s, n);
        lemma_bit_single(s, n);
    }
}

/// Clearing bit `s` removes that square and keeps every other square.
pub proof fn lemma_clear_bit_squares(prev: u64, now: u64, s: u64)
    requires
        s < 64,
        now == prev & !(1u64 << s),
    ensures
        forall|n: u64| n < 64 ==> #[trigger] bit(now, n) == (bit(prev, n) && n != s),
{
    assert forall|n: u64| n < 64 implies #[trigger] bit(now, n) == (bit(prev, n) && n != s) by {
        lemma_bit_and(prev, !(1u64 << s), n);
        lemma_bit_not(1u64 << s, n);
        lemma_bit_single(s, n);
    }
}

/// A word with some bit set has a lowest set bit.
pub proof fn lemma_nonzero_has_bit(a: u64)
    requires
        a != 0,
    ensures
        exists|n: u64| n < 64 && #[trigger] bit(a, n),
{
    broadcast use vstd::std_specs::bits::group_bits_axioms;

    let t = vstd::std_specs::bits::u64_trailing_zeros(a) as u64;
    assert(t < 64 && (a >> t) & 1u64 == 1u64);
    assert(t < 64 && (a >> t) & 1u64 == 1u64 ==> a & (1u64 << t) != 0) by (bit_vector);
    assert(bit(a, t));
}

/// Two words that agree on every bit are equal.
pub proof fn lemma_bit_ext(a: u64, b: u64)
    requires
        forall|n: u64| n < 64 ==> bit(a, n) == bit(b, n),
    ensures
        a == b,
{
    if a != b {
        assert(a ^ b != 0) by (bit_vector)
            requires
                a != b,
        ;
        lemma_nonzero_has_bit(a ^ b);
        let n = choose|n: u64| n < 64 && bit(a ^ b, n);
        lemma_bit_xor(a, b, n);
    }
}

/// A word none of whose bits is set is zero.
pub proof fn lemma_no_bits_zero(a: u64)
    requires
        forall|n: u64| n < 64 ==> !bit(a, n),
    ensures
        a == 0,
{
    broadcast use group_bit_lemmas;

    lemma_bit_ext(a, 0);
}

pub proof fn lemma_popcount_upto_le(b: u64, n: int)
    requires
        0 <= n <= 64,
    ensures
        popcount_upto(b, n) <= n,
    decreases n,
{
    if n > 0 {
        lemma_popcount_upto_le(b, n - 1);
    }
}

/// Bits of `a` and `b` never coincide, so the bits of `a | b` split between them.
pub proof fn lemma_popcount_disjoint_upto(a: u64, b: u64, n: int)
    requires
        a & b == 0,
        0 <= n <= 64,
    ensures
        popcount_upto(a | b, n) == popcount_upto(a, n) + popcount_upto(b, n),
    decreases n,
{
    broadcast use group_bit_lemmas;

    if n > 0 {
        lemma_popcount_disjoint_upto(a, b, n - 1);
        let m = (n - 1) as u64;
        lemma_bit_and(a, b, m);
        lemma_bit_zero(m);
        assert(bit(a & b, m) == bit(0u64, m));
    }
}

proof fn lemma_popcount_missing_upto(b: u64, n0: u64, n: int)
    requires
        n0 < n <= 64,
        !bit(b, n0),
    ensures
        popcount_upto(b, n) < n,
    decreases n,
{
    if n == n0 + 1 {
        lemma_popcount_upto_le(b, n - 1);
    } else {
        lemma_popcount_missing_upto(b, n0, n - 1);
    }
}

/// A word with a clear bit has fewer than 64 set bits.
pub proof fn lemma_popcount_missing(b: u64, n0: u64)
    requires
        n0 < 64,
        !bit(b, n0),
    ensures
        popcount(b) < 64,
{
    lemma_popcount_missing_upto(b, n0, 64);
}

proof fn lemma_popcount_single_upto(s: u64, n: int)
    requires
        s < 64,
        0 <= n <= 64,
    ensures
        popcount_upto(1u64 << s, n) == if n > s {
            1nat
        } else {
            0nat
        },
    decreases n,
{
    if n > 0 {
        lemma_popcount_single_upto(s, n - 1);
        lemma_bit_single(s, (n - 1) as u64);
    }
}

/// A single-square board has exactly one set bit.
pub proof fn lemma_popcount_single(s: u64)
    requires
        s < 64,
    ensures
        popcount(1u64 << s) == 1,
{
    lemma_popcount_single_upto(s, 64);
}

/// Population counts add over a disjoint union.
pub proof fn lemma_popcount_disjoint(a: u64, b: u64)
    requires
        a & b == 0,
    ensures
        popcount(a | b) == popcount(a) + popcount(b),
{
    lemma_popcount_disjoint_upto(a, b, 64);
}

/// Relies on String::push_str from the standard library: it appends the
/// slice's characters to the string.
pub assume_specification[ String::push_str ](s: &mut String, other: &str)
    ensures
        final(s)@ == old(s)@ + other@,
;

/// The indices of the set bits of `b` below position `n`, ascending.
pub open spec fn ones_upto(b: u64, n: int) -> Seq<usize>
    decreases n,
{
    if n <= 0 {
        Seq::empty()
    } else if bit(b, (n - 1) as u64) {
        ones_upto(b, n - 1).push((n - 1) as usize)
    } else {
        ones_upto(b, n - 1)
    }
}

/// The indices of the set bits of `b`, ascending.
pub open spec fn ones_list(b: u64) -> Seq<usize> {
    ones_upto(b, 64)
}

/// The character of one square in a binary rank line: `'1'` when square
/// `(i, j)` is a member of `b`.
pub open spec fn bit_char(b: u64, i: int, j: int) -> Seq<char> {
    if bit(b, (i * 8 + j) as u64) {
        "1"@
    } else {
        "0"@
    }
}

/// The first `j` bit characters of row `i` of `b`, column 0 first.
pub open spec fn rank_bits(b: u64, i: int, j: int) -> Seq<char>
    decreases j,
{
    if j <= 0 {
        Seq::empty()
    } else {
        rank_bits(b, i, j - 1) + bit_char(b, i, j - 1)
    }
}

/// The rendering of rows 7 down to `row` of `b`: one line per rank, the
/// `0b` prefix, the eight bit characters in ascending file order, a newline.
pub open spec fn rows_text_from(b: u64, row: int) -> Seq<char>
    decreases 8 - row,
{
    if row < 0 || row >= 8 {
        Seq::empty()
    } else {
        rows_text_from(b, row + 1) + ("0b"@ + rank_bits(b, row, 8) + "\n"@)
    }
}

/// The full eight-line rendering of the board word `b`.
pub open spec fn rows_text(b: u64) -> Seq<char> {
    rows_text_from(b, 0)
}

/// A 64-bit word read as an 8 x 8 board: bit `i * 8 + j` stands for the square
/// in row `i`, column `j`. Row 0 is White's back rank, column 0 is file `a`.
#[derive(Debug, Clone, Copy, PartialEq, Eq, Structural, PartialOrd, Ord, Hash)]
pub struct Bitboard {
    pub val: u64,
}

impl View for Bitboard {
    type V = u64;

    open spec fn view(&self) -> u64 {
        self.val
    }
}

impl Bitboard {
    pub fn new(val: u64) -> (r: Self)
        ensures
            r@ == val,
    {
        Self { val }
    }

    /// Whether the square in row `i`, column `j` is a member.
    pub fn is_set(&self, i: usize, j: usize) -> (r: bool)
        requires
            i < 8,
            j < 8,
        ensures
            r == bit(self@, (i * 8 + j) as u64),
    {
        let n: u64 = (i * 8 + j) as u64;
        self.val & (1u64 << n) != 0
    }

    /// Add the square in row `i`, column `j`.
    pub fn set(&mut self, i: usize, j: usize)
        requires
            i < 8,
            j < 8,
        ensures
            final(self)@ == old(self)@ | (1u64 << ((i * 8 + j) as u64)),
    {
        let n: u64 = (i * 8 + j) as u64;
        self.val = self.val | (1u64 << n);
    }

    /// Remove the square in row `i`, column `j`.
    pub fn clear(&mut self, i: usize, j: usize)
        requires
            i < 8,
            j < 8,
        ensures
            final(self)@ == old(self)@ & !(1u64 << ((i * 8 + j) as u64)),
    {
        let n: u64 = (i * 8 + j) as u64;
        self.val = self.val & !(1u64 << n);
    }

    /// Number of occupied squares.
    pub fn count_ones(&self) -> (r: usize)
        ensures
            r == popcount(self@),
    {
        let mut c: usize = 0;
        let mut n: u64 = 0;
        while n < 64
            invariant
                n <= 64,
                c == popcount_upto(self.val, n as int),
                c <= n,
            decreases 64 - n,
        {
            if self.val & (1u64 << n) != 0 {
                c = c + 1;
            }
            n = n + 1;
        }
        c
    }

    /// Index of the lowest occupied square; 64 when the board is empty.
    pub fn trailing_zeros(&self) -> (r: usize)
        ensures
            self@ == 0 ==> r == 64,
            self@ != 0 ==> r < 64 && bit(self@, r as u64) && forall|m: u64|
                m < r ==> !bit(self@, m),
    {
        proof {
            broadcast use vstd::std_specs::bits::group_bits_axioms;

            let a = self.val;
            let t = vstd::std_specs::bits::u64_trailing_zeros(a) as u64;
            if a != 0 {
                assert(t < 64 && (a >> t) & 1u64 == 1u64 ==> a & (1u64 << t) != 0) by (bit_vector);
                assert forall|m: u64| m < t implies !bit(a, m) by {
                    assert((a >> m) & 1u64 == 0u64);
                    assert(m < 64 && (a >> m) & 1u64 == 0u64 ==> a & (1u64 << m) == 0) by (bit_vector);
                }
            }
        }
        self.val.trailing_zeros() as usize
    }

    /// The indices of the occupied squares, in ascending order.
    pub fn get_ones(&self) -> (r: Vec<usize>)
        ensures
            r@ == ones_list(self@),
            r@.len() == popcount(self@),
            forall|idx: int|
                0 <= idx < r@.len() ==> #[trigger] r@[idx] < 64 && bit(self@, r@[idx] as u64),
            forall|m: u64| m < 64 && bit(self@, m) ==> r@.contains(m as usize),
            forall|x: int, y: int| 0 <= x < y < r@.len() ==> r@[x] < r@[y],
    {
        let mut r: Vec<usize> = Vec::new();
        let mut n: usize = 0;
        while n < 64
            invariant
                n <= 64,
                r@ == ones_upto(self.val, n as int),
                r@.len() == popcount_upto(self.val, n as int),
                forall|idx: int|
                    0 <= idx < r@.len() ==> #[trigger] r@[idx] < n && bit(self.val, r@[idx] as u64),
                forall|m: u64| m < n && bit(self.val, m) ==> r@.contains(m as usize),
                forall|x: int, y: int| 0 <= x < y < r@.len() ==> r@[x] < r@[y],
            decreases 64 - n,
        {
            let nb: u64 = n as u64;
            if self.val & (1u64 << nb) != 0 {
                let ghost r0 = r@;
                r.push(n);
                assert forall|m: u64| m < n + 1 && bit(self.val, m) implies r@.contains(
                    m as usize,
                ) by {
                    if m < n {
                        let idx = choose|idx: int|
                            0 <= idx < r0.len() && r0[idx] == m as usize;
                        assert(r@[idx] == m as usize);
                    } else {
                        assert(r@[r@.len() - 1] == m as usize);
                    }
                }
            }
            n = n + 1;
        }
        r
    }

    /// Eight lines, one per rank from row 7 down to row 0, each the binary
    /// of that rank with columns in ascending file order after the `0b`
    /// prefix.
    pub fn format_rows(&self) -> (r: String)
        ensures
            r@ == rows_text(self@),
    {
        let mut out = String::new();
        proof {
            assert(out@ =~= rows_text_from(self.val, 8));
        }
        let mut row: usize = 8;
        while row > 0
            invariant
                row <= 8,
                out@ == rows_text_from(self.val, row as int),
            decreases row,
        {
            let i = row - 1;
            let ghost r0 = out@;
            out.push_str("0b");
            proof {
                assert(out@ =~= rows_text_from(self.val, i + 1) + "0b"@ + rank_bits(
                    self.val,
                    i as int,
                    0,
                ));
            }
            let mut j: usize = 0;
            while j < 8
                invariant
                    i < 8,
                    j <= 8,
                    out@ == rows_text_from(self.val, i + 1) + "0b"@ + rank_bits(
                        self.val,
                        i as int,
                        j as int,
                    ),
                decreases 8 - j,
            {
                let ghost q0 = out@;
                if self.is_set(i, j) {
                    out.push_str("1");
                } else {
                    out.push_str("0");
                }
                proof {
                    assert(out@ == q0 + bit_char(self.val, i as int, j as int));
                    assert(out@ =~= rows_text_from(self.val, i + 1) + "0b"@ + rank_bits(
                        self.val,
                        i as int,
                        j + 1,
                    ));
                }
                j = j + 1;
            }
            out.push_str("\n");
            proof {
                assert(out@ =~= rows_text_from(self.val, i as int));
            }
            row = row - 1;
        }
        out
    }

    /// Every board whose squares are drawn from the occupied squares of
    /// `self`, one per pattern of a binary counter over the extracted
    /// indices: entry `m` holds the squares whose index-list positions are
    /// the set bits of `m`, so the `2^popcount` entries are pairwise
    /// distinct, open with the empty board, close with `self` itself, and
    /// every subset of `self` appears.
    pub fn generate_subsets(&self) -> (r: Vec<Bitboard>)
        requires
            popcount(self@) < 64,
        ensures
            r@.len() == pow2(popcount(self@)),
            forall|idx: int| 0 <= idx < r@.len() ==> #[trigger] r@[idx]@ & !self@ == 0,
            forall|x: int, y: int| 0 <= x < y < r@.len() ==> r@[x]@ != r@[y]@,
            forall|m: int, nb: u64|
                0 <= m < r@.len() && nb < 64 ==> #[trigger] bit(r@[m]@, nb) == counter_selects(
                    ones_list(self@),
                    m as u64,
                    nb,
                ),
            r@[0]@ == 0,
            r@[r@.len() - 1]@ == self@,
            forall|c: u64|
                c & !self@ == 0 ==> (exists|m: int| 0 <= m < r@.len() && #[trigger] r@[m]@ == c),
    {
        broadcast use group_bit_lemmas;

        let ones = self.get_ones();
        let k = ones.len();
        proof {
            vstd::bits::lemma_u64_pow2_no_overflow(k as nat);
            vstd::bits::lemma_u64_shl_is_mul(1u64, k as u64);
        }
        let total: u64 = 1u64 << (k as u64);
        let mut res: Vec<Bitboard> = Vec::new();
        let mut i: u64 = 0;
        while i < total
            invariant
                k == popcount(self@) < 64,
                total == pow2(k as nat),
                total == 1u64 << (k as u64),
                ones@.len() == k,
                forall|idx: int|
                    0 <= idx < k ==> #[trigger] ones@[idx] < 64 && bit(self@, ones@[idx] as u64),
                forall|x: int, y: int| 0 <= x < y < k ==> ones@[x] < ones@[y],
                i <= total,
                res@.len() == i,
                forall|idx: int, m: u64|
                    0 <= idx < i && m < 64 ==> #[trigger] bit(res@[idx]@, m) == counter_selects(
                        ones@,
                        idx as u64,
                        m,
                    ),
            decreases total - i,
        {
            let mut new_val: u64 = 0;
            proof {
                assert forall|m: u64| m < 64 implies !bit(new_val, m) by {
                    lemma_bit_zero(m);
                }
            }
            let mut j: usize = 0;
            while j < k
                invariant
                    j <= k,
                    k < 64,
                    ones@.len() == k,
                    forall|idx: int|
                        0 <= idx < k ==> #[trigger] ones@[idx] < 64 && bit(
                            self@,
                            ones@[idx] as u64,
                        ),
                    forall|m: u64|
                        m < 64 ==> #[trigger] bit(new_val, m) == exists|jj: int|
                            0 <= jj < j && ones@[jj] == m as usize && #[trigger] bit(
                                i,
                                jj as u64,
                            ),
                decreases k - j,
            {
                if i & (1u64 << (j as u64)) != 0 {
                    let one_ind: usize = ones[j];
                    let ghost prev = new_val;
                    new_val = new_val | (1u64 << (one_ind as u64));
                    assert forall|m: u64| m < 64 implies #[trigger] bit(new_val, m) == exists|
                        jj: int,
                    |
                        0 <= jj < j + 1 && ones@[jj] == m as usize && #[trigger] bit(
                            i,
                            jj as u64,
                        ) by {
                        lemma_bit_or(prev, 1u64 << (one_ind as u64), m);
                        lemma_bit_single(one_ind as u64, m);
                        if bit(new_val, m) {
                            if bit(prev, m) {
                            } else {
                                assert(m == one_ind as u64);
                                assert(ones@[j as int] == m as usize && bit(i, j as u64));
                            }
                        } else {
                            assert(!bit(prev, m) && m != one_ind as u64);
                        }
                    }
                } else {
                    assert forall|m: u64| m < 64 implies #[trigger] bit(new_val, m) == exists|
                        jj: int,
                    |
                        0 <= jj < j + 1 && ones@[jj] == m as usize && #[trigger] bit(
                            i,
                            jj as u64,
                        ) by {
                        assert(!bit(i, j as u64));
                    }
                }
                j = j + 1;
            }
            assert forall|m: u64| m < 64 implies #[trigger] bit(new_val, m) == counter_selects(
                ones@,
                i,
                m,
            ) by {}
            res.push(Bitboard::new(new_val));
            i = i + 1;
        }
        proof {
            assert forall|idx: int| 0 <= idx < res@.len() implies #[trigger] res@[idx]@ & !self@
                == 0 by {
                let v = res@[idx]@;
                assert forall|m: u64| m < 64 implies !bit(v & !self@, m) by {
                    if bit(v, m) {
                        let jj = choose|jj: int|
                            0 <= jj < ones@.len() && ones@[jj] == m as usize && bit(
                                idx as u64,
                                jj as u64,
                            );
                        assert(bit(self@, ones@[jj] as u64));
                    }
                }
                lemma_no_bits_zero(v & !self@);
            }
            assert forall|x: int, y: int| 0 <= x < y < res@.len() implies res@[x]@ != res@[y]@ by {
                lemma_counter_values_differ(ones@, self@, x as u64, y as u64, total);
                let m = choose|m: u64|
                    m < 64 && #[trigger] counter_selects(ones@, x as u64, m) != counter_selects(
                        ones@,
                        y as u64,
                        m,
                    );
                assert(bit(res@[x]@, m) != bit(res@[y]@, m));
            }
            vstd::arithmetic::power2::lemma_pow2_pos(k as nat);
            assert(res@.len() >= 1);
            // the first entry is the empty board
            assert forall|nb: u64| nb < 64 implies !bit(res@[0]@, nb) by {
                if bit(res@[0]@, nb) {
                    let jj = choose|jj: int|
                        0 <= jj < ones@.len() && ones@[jj] == nb as usize && bit(0u64, jj as u64);
                    lemma_bit_zero(jj as u64);
                }
            }
            lemma_no_bits_zero(res@[0]@);
            // the last entry is the whole board
            let kk = k as u64;
            let lasti = (total - 1) as u64;
            assert forall|nb: u64| nb < 64 implies bit(res@[res@.len() - 1]@, nb) == bit(
                self@,
                nb,
            ) by {
                assert(bit(res@[res@.len() - 1]@, nb) == counter_selects(ones@, lasti, nb));
                if counter_selects(ones@, lasti, nb) {
                    let jj = choose|jj: int|
                        0 <= jj < ones@.len() && ones@[jj] == nb as usize && bit(lasti, jj as u64);
                    assert(bit(self@, ones@[jj] as u64));
                }
                if bit(self@, nb) {
                    assert(ones@.contains(nb as usize));
                    let jj = choose|jj: int| 0 <= jj < ones@.len() && ones@[jj] == nb as usize;
                    let jv = jj as u64;
                    assert(kk < 64 && jv < kk && lasti == (1u64 << kk) - 1 ==> (lasti & (1u64
                        << jv) != 0)) by (bit_vector);
                    assert(bit(lasti, jv));
                    assert(counter_selects(ones@, lasti, nb));
                }
            }
            lemma_bit_ext(res@[res@.len() - 1]@, self@);
            // every subset of the board appears, at the counter index made
            // from its squares
            assert forall|c: u64| c & !self@ == 0 implies (exists|m: int|
                0 <= m < res@.len() && #[trigger] res@[m]@ == c) by {
                lemma_counter_index_bits(ones@, c, k as int);
                let mv = counter_index(ones@, c, k as int);
                assert(mv < total);
                let m = mv as int;
                assert forall|nb: u64| nb < 64 implies bit(res@[m]@, nb) == bit(c, nb) by {
                    assert(bit(res@[m]@, nb) == counter_selects(ones@, mv, nb));
                    if counter_selects(ones@, mv, nb) {
                        let jj = choose|jj: int|
                            0 <= jj < ones@.len() && ones@[jj] == nb as usize && bit(
                                mv,
                                jj as u64,
                            );
                        assert(bit(c, ones@[jj] as u64));
                    }
                    if bit(c, nb) {
                        lemma_bit_and(c, !self@, nb);
                        lemma_bit_not(self@, nb);
                        lemma_bit_zero(nb);
                        assert(bit(self@, nb));
                        assert(ones@.contains(nb as usize));
                        let jj = choose|jj: int|
                            0 <= jj < ones@.len() && ones@[jj] == nb as usize;
                        assert(bit(mv, jj as u64));
                        assert(counter_selects(ones@, mv, nb));
                    }
                }
                lemma_bit_ext(res@[m]@, c);
            }
        }
        res
    }
}

impl Bitboard {
    /// Intersection of the two square sets.
    pub fn bit_and(self, other: Bitboard) -> (r: Bitboard)
        ensures
            r@ == self@ & other@,
    {
        Bitboard { val: self.val & other.val }
    }

    /// Union of the two square sets.
    pub fn bit_or(self, other: Bitboard) -> (r: Bitboard)
        ensures
            r@ == self@ | other@,
    {
        Bitboard { val: self.val | other.val }
    }

    /// Complement of the square set.
    pub fn bit_not(self) -> (r: Bitboard)
        ensures
            r@ == !self@,
    {
        Bitboard { val: !self.val }
    }

    /// The underlying word shifted left, which moves squares toward row 7.
    pub fn shl(self, shift: u64) -> (r: Bitboard)
        requires
            shift < 64,
        ensures
            r@ == self@ << shift,
    {
        Bitboard { val: self.val << shift }
    }

    /// The underlying word shifted right, which moves squares toward row 0.
    pub fn shr(self, shift: u64) -> (r: Bitboard)
        requires
            shift < 64,
        ensures
            r@ == self@ >> shift,
    {
        Bitboard { val: self.val >> shift }
    }

    /// Difference of the underlying words. With `other` a subset of `self`
    /// this is exactly the set difference, the one use this engine makes of it.
    pub fn minus(self, other: Bitboard) -> (r: Bitboard)
        requires
            other@ & !self@ == 0,
        ensures
            r@ == self@ - other@,
            r@ == self@ & !other@,
    {
        proof {
            let a = self.val;
            let b = other.val;
            assert(b & !a == 0 ==> b <= a && a - b == (a & !b)) by (bit_vector);
        }
        Bitboard { val: self.val - other.val }
    }
}

/// Whether the counter pattern `i` over the index list `ones` selects square `m`:
/// some list entry equals `m` and the matching counter bit is set.
pub open spec fn counter_selects(ones: Seq<usize>, i: u64, m: u64) -> bool {
    exists|jj: int| 0 <= jj < ones.len() && ones[jj] == m as usize && #[trigger] bit(i, jj as u64)
}

/// The counter pattern whose set bits are the positions, among the first
/// `t` entries of `ones`, of squares that `c` holds.
pub open spec fn counter_index(ones: Seq<usize>, c: u64, t: int) -> u64
    decreases t,
{
    if t <= 0 {
        0
    } else if bit(c, ones[t - 1] as u64) {
        counter_index(ones, c, t - 1) | (1u64 << ((t - 1) as u64))
    } else {
        counter_index(ones, c, t - 1)
    }
}

/// The counter index of `c` stays below `2^t` and selects, at each position,
/// exactly whether `c` holds the square listed there.
proof fn lemma_counter_index_bits(ones: Seq<usize>, c: u64, t: int)
    requires
        0 <= t <= ones.len(),
        ones.len() < 64,
    ensures
        counter_index(ones, c, t) < (1u64 << (t as u64)),
        forall|jj: u64|
            jj < 64 ==> #[trigger] bit(counter_index(ones, c, t), jj) == (jj < t && bit(
                c,
                ones[jj as int] as u64,
            )),
    decreases t,
{
    if t == 0 {
        assert((1u64 << 0u64) == 1) by (bit_vector);
        assert forall|jj: u64| jj < 64 implies !bit(0u64, jj) by {
            lemma_bit_zero(jj);
        }
    } else {
        lemma_counter_index_bits(ones, c, t - 1);
        let prev = counter_index(ones, c, t - 1);
        let s = (t - 1) as u64;
        assert(s < 63 ==> ((1u64 << s) < (1u64 << ((s + 1) as u64)) && (prev < (1u64 << s)
            ==> (prev | (1u64 << s)) < (1u64 << ((s + 1) as u64))))) by (bit_vector);
        if bit(c, ones[t - 1] as u64) {
            lemma_set_bit_squares(prev, prev | (1u64 << s), s);
        }
        assert forall|jj: u64|
            jj < 64 implies #[trigger] bit(counter_index(ones, c, t), jj) == (jj < t && bit(
            c,
            ones[jj as int] as u64,
        )) by {}
    }
}

/// Distinct counter patterns below `2^|ones|` select distinct square sets,
/// because the list entries are strictly increasing.
proof fn lemma_counter_values_differ(ones: Seq<usize>, b: u64, x: u64, y: u64, total: u64)
    requires
        ones.len() < 64,
        total == 1u64 << (ones.len() as u64),
        forall|p: int, q: int| 0 <= p < q < ones.len() ==> ones[p] < ones[q],
        forall|idx: int| 0 <= idx < ones.len() ==> #[trigger] ones[idx] < 64,
        x < y < total,
    ensures
        exists|m: u64|
            m < 64 && #[trigger] counter_selects(ones, x, m) != counter_selects(ones, y, m),
{
    let k = ones.len() as u64;
    assert(x ^ y != 0) by (bit_vector)
        requires
            x != y,
    ;
    lemma_nonzero_has_bit(x ^ y);
    let jb = choose|n: u64| n < 64 && bit(x ^ y, n);
    lemma_bit_xor(x, y, jb);
    assert(bit(x, jb) != bit(y, jb));
    assert(k < 64 && jb < 64 && y < (1u64 << k) && bit(y, jb) ==> jb < k) by (bit_vector);
    assert(k < 64 && jb < 64 && x < (1u64 << k) && bit(x, jb) ==> jb < k) by (bit_vector);
    assert(jb < k);
    let m = ones[jb as int] as u64;
    assert forall|i: u64| i < total implies #[trigger] counter_selects(ones, i, m) == bit(
        i,
        jb,
    ) by {
        if counter_selects(ones, i, m) {
            let jj = choose|jj: int|
                0 <= jj < ones.len() && ones[jj] == m as usize && #[trigger] bit(i, jj as u64);
            if jj < jb as int {
                assert(ones[jj] < ones[jb as int]);
            } else if jj > jb as int {
                assert(ones[jb as int] < ones[jj]);
            }
            assert(jj == jb as int);
            assert(bit(i, jb));
        }
        if bit(i, jb) {
            let jj: int = jb as int;
            assert(0 <= jj < ones.len() && ones[jj] == m as usize && bit(i, jj as u64));
            assert(counter_selects(ones, i, m));
        }
    }
    assert(counter_selects(ones, x, m) != counter_selects(ones, y, m));
}

} // verus!
