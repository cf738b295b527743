//! Signed-digit recoding of unsigned window values.
//!
//! Each scalar's column of c-bit window values is rewritten, lowest window
//! first, into signed digits: a value at or above `2^(c-1)` (after adding
//! the incoming carry) is replaced by its value minus `2^c` and a carry of
//! one moves to the next window; one overflow window takes the last carry.
//! This halves the range of digit magnitudes while preserving each
//! scalar's value, at the cost of the extra window and of a point negation
//! per negative digit.

use crate::sums::column;
use crate::windows::pow_weighted_from;
use vstd::arithmetic::power2::{lemma2_to64, lemma_pow2_adds, lemma_pow2_strictly_increases, pow2};
use vstd::bits::lemma_u32_shl_is_mul;
use vstd::prelude::*;

verus! {

/// The carry flowing into window `j` when the column `u` of unsigned
/// window values is recoded with width `c`: zero into the lowest window,
/// and one into window `j` exactly when window `j - 1` emitted a negative
/// digit.
pub open spec fn recode_carry(u: Seq<int>, c: nat, j: int) -> int
    decreases j,
{
    if j <= 0 {
        0
    } else if u[j - 1] + recode_carry(u, c, j - 1) >= pow2((c - 1) as nat) {
        1
    } else {
        0
    }
}

/// The signed digit that recoding the column `u` emits for window `j`: the
/// unsigned value plus the incoming carry, less `2^c` when that lies at or
/// above `2^(c-1)`; for `j` just past the column, the overflow carry.
pub open spec fn recoded_digit(u: Seq<int>, c: nat, j: int) -> int {
    if j < u.len() {
        let adjusted = u[j] + recode_carry(u, c, j);
        if adjusted >= pow2((c - 1) as nat) {
            adjusted - pow2(c)
        } else {
            adjusted
        }
    } else {
        recode_carry(u, c, j)
    }
}

/// Carries are zero or one.
pub proof fn lemma_recode_carry_bound(u: Seq<int>, c: nat, j: int)
    ensures
        0 <= recode_carry(u, c, j) <= 1,
{
    if j > 0 {
    }
}

/// Signed digits lie in `[-2^(c-1), 2^(c-1))`, and the overflow digit is
/// zero or one.
pub proof fn lemma_recoded_digit_range(u: Seq<int>, c: nat, j: int)
    requires
        1 <= c,
        0 <= j,
        forall|k: int| 0 <= k < u.len() ==> 0 <= #[trigger] u[k] < pow2(c),
    ensures
        j < u.len() ==> -pow2((c - 1) as nat) <= recoded_digit(u, c, j) < pow2((c - 1) as nat),
        j >= u.len() ==> 0 <= recoded_digit(u, c, j) <= 1,
{
    lemma_recode_carry_bound(u, c, j);
    if 0 <= j < u.len() {
        vstd::arithmetic::power2::lemma_pow2_pos((c - 1) as nat);
        lemma_pow2_adds((c - 1) as nat, 1);
        assert(pow2(1) == 2) by {
            lemma2_to64();
        }
    }
}

/// Recoding preserves the value of the column: the power-weighted signed
/// digits, overflow window included, sum to the power-weighted unsigned
/// window values. The telescoping remainder is the carry into window `j`,
/// weighted by that window's power.
pub proof fn lemma_recode_preserves_value(u: Seq<int>, c: nat, r: Seq<int>, j: int)
    requires
        1 <= c,
        r.len() == u.len() + 1,
        forall|k: int| 0 <= k < r.len() ==> #[trigger] r[k] == recoded_digit(u, c, k),
        0 <= j <= u.len(),
    ensures
        pow_weighted_from(r, j, c) == pow_weighted_from(u, j, c) + pow2((j * c) as nat)
            * recode_carry(u, c, j),
    decreases u.len() - j,
{
    let w = u.len() as int;
    if j == w {
        assert(pow_weighted_from(r, j, c) == pow2((j * c) as nat) * r[j] + pow_weighted_from(
            r,
            j + 1,
            c,
        ));
        assert(pow_weighted_from(u, j, c) == 0);
    } else {
        lemma_recode_preserves_value(u, c, r, j + 1);
        lemma_pow2_adds((j * c) as nat, c);
        assert((j + 1) * c == j * c + c) by (nonlinear_arith);
        let p = pow2((j * c) as nat) as int;
        let base = pow2(c) as int;
        let cin = recode_carry(u, c, j);
        let cout = recode_carry(u, c, j + 1);
        assert(r[j] == u[j] + cin - base * cout) by {
            if u[j] + cin >= pow2((c - 1) as nat) {
                assert(cout == 1);
                assert(base * 1 == base) by (nonlinear_arith);
            } else {
                assert(cout == 0);
                assert(base * 0 == 0) by (nonlinear_arith);
            }
        }
        assert(p * (u[j] + cin - base * cout) + (p * base) * cout == p * u[j] + p * cin)
            by (nonlinear_arith);
    }
}

/// When the unsigned matrix is the window decomposition of the scalars and
/// the signed matrix is its recoding, every signed column power-sums back
/// to its scalar.
pub proof fn lemma_recoded_matrix_columns(
    mat_u: Seq<Seq<int>>,
    mat_s: Seq<Seq<int>>,
    scalars: Seq<u32>,
    c: nat,
)
    requires
        1 <= c,
        32 <= mat_u.len() * c,
        mat_s.len() == mat_u.len() + 1,
        forall|j: int| 0 <= j < mat_u.len() ==> (#[trigger] mat_u[j]).len() == scalars.len(),
        forall|j: int, t: int|
            0 <= j < mat_u.len() && 0 <= t < scalars.len() ==> #[trigger] mat_u[j][t]
                == crate::windows::window_digit(scalars[t], j as nat, c),
        forall|j: int, i: int|
            0 <= j < mat_s.len() && 0 <= i < scalars.len() ==> #[trigger] mat_s[j][i]
                == recoded_digit(column(mat_u, i), c, j),
    ensures
        forall|i: int|
            0 <= i < scalars.len() ==> crate::windows::column_pow_sum(
                mat_s,
                i,
                c,
                mat_s.len() as int,
            ) == scalars[i] as int,
{
    assert forall|i: int| 0 <= i < scalars.len() implies crate::windows::column_pow_sum(
        mat_s,
        i,
        c,
        mat_s.len() as int,
    ) == scalars[i] as int by {
        let col_u = column(mat_u, i);
        let col_s = column(mat_s, i);
        crate::windows::lemma_column_pow_sum_is_pow_weighted(mat_s, i, c, mat_s.len() as int);
        assert(col_s.take(mat_s.len() as int) =~= col_s);
        lemma_recode_preserves_value(col_u, c, col_s, 0);
        assert(recode_carry(col_u, c, 0) == 0);
        assert(pow2(0) == 1) by {
            lemma2_to64();
        }
        assert(pow2((0 * c) as nat) * recode_carry(col_u, c, 0) == 0) by (nonlinear_arith)
            requires
                recode_carry(col_u, c, 0) == 0,
        ;
        crate::windows::lemma_column_pow_sum_is_pow_weighted(mat_u, i, c, mat_u.len() as int);
        assert(col_u.take(mat_u.len() as int) =~= col_u);
        crate::windows::lemma_digit_columns(mat_u, scalars, c, i);
    }
}

/// Recode every scalar's column of unsigned window values into signed
/// digits, appending the overflow window: row `j` of the result holds
/// window `j`'s signed digit of every scalar.
#[verifier::loop_isolation(false)]
#[verifier::rlimit(30)]
pub(crate) fn recode_windows(columns: &Vec<Vec<u32>>, window_size: usize) -> (out: Vec<Vec<i64>>)
    requires
        1 <= window_size <= 16,
        1 <= columns@.len() <= 33,
        forall|j: int, i: int|
            0 <= j < columns@.len() && 0 <= i < columns@[0]@.len() ==> #[trigger] columns@[j]@[i]
                < pow2(window_size as nat),
        forall|j: int|
            0 <= j < columns@.len() ==> (#[trigger] columns@[j])@.len() == columns@[0]@.len(),
    ensures
        out@.len() == columns@.len() + 1,
        forall|j: int| 0 <= j < out@.len() ==> (#[trigger] out@[j])@.len() == columns@[0]@.len(),
        forall|j: int, i: int|
            0 <= j < out@.len() && 0 <= i < columns@[0]@.len() ==> #[trigger] out@[j]@[i] as int
                == recoded_digit(
                column(crate::sums::rows_of_u32s(columns@), i),
                window_size as nat,
                j,
            ),
{
    let w = columns.len();
    let n = columns[0].len();
    let ghost mat = crate::sums::rows_of_u32s(columns@);
    proof {
        lemma2_to64();
        if window_size < 16 {
            lemma_pow2_strictly_increases(window_size as nat, 16);
        }
        if window_size > 1 {
            lemma_pow2_strictly_increases((window_size - 1) as nat, window_size as nat);
        }
        lemma_u32_shl_is_mul(1u32, (window_size - 1) as u32);
        lemma_u32_shl_is_mul(1u32, window_size as u32);
    }
    let threshold = (1u32 << ((window_size - 1) as u32)) as i64;
    let base = (1u32 << (window_size as u32)) as i64;

    let mut out: Vec<Vec<i64>> = Vec::new();
    while out.len() < w + 1
        invariant
            out@.len() <= w + 1,
            forall|j: int| 0 <= j < out@.len() ==> (#[trigger] out@[j])@.len() == 0,
        decreases w + 1 - out@.len(),
    {
        out.push(Vec::new());
    }

    let mut i: usize = 0;
    while i < n
        invariant
            i <= n,
            out@.len() == w + 1,
            forall|j: int| 0 <= j < out@.len() ==> (#[trigger] out@[j])@.len() == i,
            forall|j: int, t: int|
                0 <= j < out@.len() && 0 <= t < i ==> #[trigger] out@[j]@[t] as int
                    == recoded_digit(column(mat, t), window_size as nat, j),
        decreases n - i,
    {
        let ghost col = column(mat, i as int);
        let mut carry: i64 = 0;
        let mut j: usize = 0;
        while j < w
            invariant
                j <= w,
                0 <= carry <= 1,
                carry as int == recode_carry(col, window_size as nat, j as int),
                out@.len() == w + 1,
                forall|k: int| 0 <= k < j ==> (#[trigger] out@[k])@.len() == i + 1,
                forall|k: int| j <= k < out@.len() ==> (#[trigger] out@[k])@.len() == i,
                forall|k: int, t: int|
                    0 <= k < out@.len() && 0 <= t < i ==> #[trigger] out@[k]@[t] as int
                        == recoded_digit(column(mat, t), window_size as nat, k),
                forall|k: int|
                    0 <= k < j ==> #[trigger] out@[k]@[i as int] as int == recoded_digit(
                        col,
                        window_size as nat,
                        k,
                    ),
        decreases w - j,
        {
            let window_value = columns[j][i] as i64;
            proof {
                assert(mat[j as int][i as int] == columns@[j as int]@[i as int] as int);
                assert(col[j as int] == mat[j as int][i as int]);
            }
            let adjusted_value = window_value + carry;
            let digit: i64;
            if adjusted_value >= threshold {
                digit = adjusted_value - base;
                carry = 1;
            } else {
                digit = adjusted_value;
                carry = 0;
            }
            out[j].push(digit);
            proof {
                assert(out@[j as int]@[i as int] == digit);
            }
            j = j + 1;
        }
        out[w].push(carry);
        proof {
            assert(recoded_digit(col, window_size as nat, w as int) == recode_carry(
                col,
                window_size as nat,
                w as int,
            ));
        }
        i = i + 1;
    }
    out
}

} // verus!
