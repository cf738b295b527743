//! Windowing: slicing 32-bit scalars into c-bit digits.
//!
//! Window `j` of a scalar `s` is the c-bit slice starting at bit `j * c`.
//! The digits of a scalar, weighted by powers of two, reconstruct the
//! scalar; that reconstruction is what lets the per-window partial results
//! be combined into the full multi-scalar multiplication.

use crate::sums::{
    dot, ints_of_u32s, lemma_dot_plus_left, lemma_dot_scale_left, lemma_dot_zero_left, seq_plus,
    seq_scale,
};
use vstd::arithmetic::div_mod::{lemma_fundamental_div_mod, lemma_mod_bound, lemma_mod_breakdown};
use vstd::arithmetic::power2::{
    lemma2_to64, lemma_pow2_adds, lemma_pow2_pos, lemma_pow2_strictly_increases, pow2,
};
use vstd::bits::{
    low_bits_mask, lemma_u32_low_bits_mask_is_mod, lemma_u32_shl_is_mul, lemma_u32_shr_is_div,
};
use vstd::prelude::*;

verus! {

/// How many c-bit windows cover a 32-bit scalar: 32 / c, rounded up.
pub open spec fn window_count(c: nat) -> nat
    recommends
        1 <= c,
{
    ((32 + c - 1) / (c as int)) as nat
}

/// The j-th c-bit window digit of scalar `s`: the c-bit slice of `s`
/// starting at bit `j * c`. Zero for windows beyond bit 31.
pub open spec fn window_digit(s: u32, j: nat, c: nat) -> int
    recommends
        1 <= c,
{
    ((s as int) / (pow2(j * c) as int)) % (pow2(c) as int)
}

/// The digits weighted by their window's power of two, summed over windows
/// 0 to `k` (excluded).
pub open spec fn digit_sum(s: u32, c: nat, k: nat) -> int
    decreases k,
{
    if k == 0 {
        0
    } else {
        digit_sum(s, c, (k - 1) as nat) + pow2(((k - 1) as nat) * c) as int * window_digit(
            s,
            (k - 1) as nat,
            c,
        )
    }
}

/// Window digits lie in `[0, 2^c)`.
pub proof fn lemma_window_digit_bound(s: u32, j: nat, c: nat)
    requires
        1 <= c,
    ensures
        0 <= window_digit(s, j, c) < pow2(c),
{
    lemma_pow2_pos(c);
    lemma_mod_bound((s as int) / (pow2(j * c) as int), pow2(c) as int);
}

/// The first `k` weighted digits of `s` sum to `s` modulo `2^(k * c)`.
pub proof fn lemma_digit_sum_is_mod(s: u32, c: nat, k: nat)
    requires
        1 <= c,
    ensures
        digit_sum(s, c, k) == (s as int) % (pow2(k * c) as int),
    decreases k,
{
    if k == 0 {
        assert(pow2(0) == 1) by {
            lemma2_to64();
        }
    } else {
        let km = (k - 1) as nat;
        lemma_digit_sum_is_mod(s, c, km);
        lemma_pow2_pos(km * c);
        lemma_pow2_pos(c);
        lemma_mod_breakdown(s as int, pow2(km * c) as int, pow2(c) as int);
        lemma_pow2_adds(km * c, c);
        assert(km * c + c == k * c) by (nonlinear_arith)
            requires
                km + 1 == k,
        ;
    }
}

/// Once the windows cover all 32 bits, the weighted digits sum to `s`.
pub proof fn lemma_digit_sum_reconstructs(s: u32, c: nat, k: nat)
    requires
        1 <= c,
        32 <= k * c,
    ensures
        digit_sum(s, c, k) == s as int,
{
    lemma_digit_sum_is_mod(s, c, k);
    assert(pow2(32) == 0x1_0000_0000) by {
        lemma2_to64();
    }
    if 32 < k * c {
        lemma_pow2_strictly_increases(32, k * c);
    }
    assert((s as int) % (pow2(k * c) as int) == s as int) by {
        lemma_mod_bound(s as int, pow2(k * c) as int);
        lemma_fundamental_div_mod(s as int, pow2(k * c) as int);
        assert((s as int) / (pow2(k * c) as int) == 0) by {
            vstd::arithmetic::div_mod::lemma_basic_div(s as int, pow2(k * c) as int);
        }
    }
}

/// `window_count(c)` windows reach bit 32, the previous window does not,
/// and there are at most 32 windows.
pub proof fn lemma_window_count(c: nat)
    requires
        1 <= c,
    ensures
        32 <= window_count(c) * c,
        (window_count(c) - 1) * c < 32,
        1 <= window_count(c) <= 32,
{
    let w = window_count(c) as int;
    let ci = c as int;
    lemma_fundamental_div_mod(31 + ci, ci);
    lemma_mod_bound(31 + ci, ci);
    assert(ci * w == 31 + ci - ((31 + ci) % ci));
    assert(w * ci == ci * w) by (nonlinear_arith);
    assert((w - 1) * ci == ci * w - ci) by (nonlinear_arith);
    assert(w <= 32) by {
        if w > 32 {
            assert(ci * w >= ci * 33) by (nonlinear_arith)
                requires
                    ci >= 1 && w > 32,
            ;
            assert(ci * 33 == 32 * ci + ci);
        }
    }
    assert(w >= 1) by {
        if w < 1 {
            assert(ci * w <= 0) by (nonlinear_arith)
                requires
                    ci >= 1 && w < 1,
            ;
        }
    }
}

/// The double-and-add combination of per-window values from window `j`
/// up: value `j` plus `2^c` times the combination of the later windows.
pub open spec fn horner(vals: Seq<int>, j: int, c: nat) -> int
    decreases vals.len() - j,
{
    if 0 <= j < vals.len() {
        vals[j] + pow2(c) * horner(vals, j + 1, c)
    } else {
        0
    }
}

/// The power-weighted sum of per-window values from window `j` up:
/// `2^(j*c)` times value `j`, summed over the windows.
pub open spec fn pow_weighted_from(vals: Seq<int>, j: int, c: nat) -> int
    decreases vals.len() - j,
{
    if 0 <= j < vals.len() {
        pow2((j * c) as nat) * vals[j] + pow_weighted_from(vals, j + 1, c)
    } else {
        0
    }
}

/// The double-and-add combination equals the power-weighted sum.
pub proof fn lemma_horner_is_pow_weighted(vals: Seq<int>, j: int, c: nat)
    requires
        0 <= j <= vals.len(),
    ensures
        pow2((j * c) as nat) * horner(vals, j, c) == pow_weighted_from(vals, j, c),
    decreases vals.len() - j,
{
    if j == vals.len() {
        assert(pow2((j * c) as nat) * 0 == 0) by (nonlinear_arith);
    } else {
        lemma_horner_is_pow_weighted(vals, j + 1, c);
        lemma_pow2_adds((j * c) as nat, c);
        assert((j + 1) * c == j * c + c) by (nonlinear_arith);
        let p = pow2((j * c) as nat) as int;
        let q = pow2(c) as int;
        let h = horner(vals, j + 1, c);
        assert(p * (vals[j] + q * h) == p * vals[j] + (p * q) * h) by (nonlinear_arith);
    }
}

/// The sum over windows `j` to `upto` (excluded) of `2^(j*c)` times the
/// window value of column `i` of the matrix.
pub open spec fn column_pow_sum(mat: Seq<Seq<int>>, i: int, c: nat, upto: int) -> int
    decreases upto,
{
    if 0 < upto <= mat.len() {
        column_pow_sum(mat, i, c, upto - 1) + pow2((((upto - 1) * c)) as nat) * mat[upto - 1][i]
    } else {
        0
    }
}

/// Exchanging the two summations: if each column of the window-value
/// matrix power-sums to the matching scalar, then the power-weighted sum
/// of the per-window digit/class dot products is the scalar/class dot
/// product of the whole multi-scalar multiplication.
pub proof fn lemma_window_exchange(
    mat: Seq<Seq<int>>,
    cls: Seq<int>,
    scalars: Seq<u32>,
    c: nat,
    upto: int,
)
    requires
        0 <= upto <= mat.len(),
        scalars.len() == cls.len(),
        forall|j: int| 0 <= j < mat.len() ==> (#[trigger] mat[j]).len() == cls.len(),
    ensures
        pow_weighted_from(Seq::new(mat.len(), |j: int| dot(mat[j], cls)).take(upto), 0, c)
            == dot(Seq::new(cls.len(), |i: int| column_pow_sum(mat, i, c, upto)), cls),
    decreases upto,
{
    let dots = Seq::new(mat.len(), |j: int| dot(mat[j], cls));
    if upto == 0 {
        lemma_dot_zero_left(Seq::new(cls.len(), |i: int| column_pow_sum(mat, i, c, 0)), cls);
    } else {
        lemma_window_exchange(mat, cls, scalars, c, upto - 1);
        let prev = Seq::new(cls.len(), |i: int| column_pow_sum(mat, i, c, upto - 1));
        let curr = Seq::new(cls.len(), |i: int| column_pow_sum(mat, i, c, upto));
        let w = pow2((((upto - 1) * c)) as nat) as int;
        assert(curr =~= seq_plus(prev, seq_scale(w, mat[upto - 1])));
        lemma_dot_plus_left(prev, seq_scale(w, mat[upto - 1]), cls);
        lemma_dot_scale_left(w, mat[upto - 1], cls);
        lemma_pow_weighted_take_step(dots, upto, c);
    }
}

/// Extending the window range by one adds that window's weighted term.
pub proof fn lemma_pow_weighted_take_step(dots: Seq<int>, upto: int, c: nat)
    requires
        1 <= upto <= dots.len(),
    ensures
        pow_weighted_from(dots.take(upto), 0, c) == pow_weighted_from(dots.take(upto - 1), 0, c)
            + pow2((((upto - 1) * c)) as nat) * dots[upto - 1],
{
    lemma_pow_weighted_take_aux(dots, upto, c, 0);
}

/// As the previous lemma, from any starting window.
proof fn lemma_pow_weighted_take_aux(dots: Seq<int>, upto: int, c: nat, j: int)
    requires
        1 <= upto <= dots.len(),
        0 <= j <= upto,
    ensures
        pow_weighted_from(dots.take(upto), j, c) == pow_weighted_from(dots.take(upto - 1), j, c)
            + if j <= upto - 1 {
                pow2((((upto - 1) * c)) as nat) * dots[upto - 1]
            } else {
                0
            },
    decreases upto - j,
{
    if j < upto {
        lemma_pow_weighted_take_aux(dots, upto, c, j + 1);
    }
}

/// A column's power sum over the first `k` windows is the power-weighted
/// sum of that column as a sequence.
pub proof fn lemma_column_pow_sum_is_pow_weighted(mat: Seq<Seq<int>>, i: int, c: nat, k: int)
    requires
        0 <= k <= mat.len(),
    ensures
        column_pow_sum(mat, i, c, k) == pow_weighted_from(
            crate::sums::column(mat, i).take(k),
            0,
            c,
        ),
    decreases k,
{
    let col = crate::sums::column(mat, i);
    if k == 0 {
    } else {
        lemma_column_pow_sum_is_pow_weighted(mat, i, c, k - 1);
        lemma_pow_weighted_take_step(col, k, c);
        assert(col[k - 1] == mat[k - 1][i]);
    }
}

/// When every column of the window-value matrix power-sums to its scalar,
/// the double-and-add combination of the per-window digit/class dot
/// products is the scalar/class dot product: the whole MSM.
pub proof fn lemma_windows_total_from_columns(
    mat: Seq<Seq<int>>,
    cls: Seq<int>,
    scalars: Seq<u32>,
    c: nat,
)
    requires
        1 <= c,
        cls.len() == scalars.len(),
        forall|j: int| 0 <= j < mat.len() ==> (#[trigger] mat[j]).len() == cls.len(),
        forall|i: int|
            0 <= i < scalars.len() ==> column_pow_sum(mat, i, c, mat.len() as int)
                == scalars[i] as int,
    ensures
        horner(Seq::new(mat.len(), |j: int| dot(mat[j], cls)), 0, c) == dot(
            ints_of_u32s(scalars),
            cls,
        ),
{
    let dots = Seq::new(mat.len(), |j: int| dot(mat[j], cls));
    let w = mat.len() as int;
    lemma_horner_is_pow_weighted(dots, 0, c);
    assert(pow2(0) == 1) by {
        lemma2_to64();
    }
    assert(pow2((0 * c) as nat) * horner(dots, 0, c) == horner(dots, 0, c)) by {
        assert(0 * c == 0) by (nonlinear_arith);
        assert(1 * horner(dots, 0, c) == horner(dots, 0, c)) by (nonlinear_arith);
    }
    lemma_window_exchange(mat, cls, scalars, c, w);
    assert(dots.take(w) =~= dots);
    let colsums = Seq::new(cls.len(), |i: int| column_pow_sum(mat, i, c, w));
    assert(colsums =~= ints_of_u32s(scalars));
}

/// The window digits of one scalar power-sum back to the scalar, so the
/// plain window decomposition satisfies the column identity.
pub proof fn lemma_digit_columns(mat: Seq<Seq<int>>, scalars: Seq<u32>, c: nat, i: int)
    requires
        1 <= c,
        0 <= i < scalars.len(),
        32 <= mat.len() * c,
        forall|j: int, t: int|
            0 <= j < mat.len() && 0 <= t < scalars.len() ==> #[trigger] mat[j][t] == window_digit(
                scalars[t],
                j as nat,
                c,
            ),
    ensures
        column_pow_sum(mat, i, c, mat.len() as int) == scalars[i] as int,
{
    lemma_column_pow_sum_eq_digit_sum(mat, scalars, c, i, mat.len() as int);
    lemma_digit_sum_reconstructs(scalars[i], c, mat.len() as nat);
}

/// A column's power sum over digits that match `window_digit` is the
/// scalar's digit sum.
proof fn lemma_column_pow_sum_eq_digit_sum(
    mat: Seq<Seq<int>>,
    scalars: Seq<u32>,
    c: nat,
    i: int,
    k: int,
)
    requires
        1 <= c,
        0 <= i < scalars.len(),
        0 <= k <= mat.len(),
        forall|j: int, t: int|
            0 <= j < mat.len() && 0 <= t < scalars.len() ==> #[trigger] mat[j][t] == window_digit(
                scalars[t],
                j as nat,
                c,
            ),
    ensures
        column_pow_sum(mat, i, c, k) == digit_sum(scalars[i], c, k as nat),
    decreases k,
{
    if k > 0 {
        lemma_column_pow_sum_eq_digit_sum(mat, scalars, c, i, k - 1);
    }
}

/// The c-bit window digits of each scalar at window `j`, computed by shift
/// and mask.
#[verifier::loop_isolation(false)]
pub(crate) fn window_values_at(scalars: &[u32], j: usize, window_size: usize) -> (r: Vec<u32>)
    requires
        1 <= window_size <= 16,
        j * window_size < 32,
    ensures
        r@.len() == scalars@.len(),
        forall|i: int|
            0 <= i < r@.len() ==> r@[i] == window_digit(
                scalars@[i],
                j as nat,
                window_size as nat,
            ),
{
    let bit_index = j * window_size;
    proof {
        lemma2_to64();
        if window_size < 16 {
            lemma_pow2_strictly_increases(window_size as nat, 16);
        }
        lemma_u32_shl_is_mul(1u32, window_size as u32);
    }
    let mask = (1u32 << (window_size as u32)) - 1;
    assert(mask == low_bits_mask(window_size as nat));
    let mut r: Vec<u32> = Vec::new();
    let mut i: usize = 0;
    while i < scalars.len()
        invariant
            1 <= window_size <= 16,
            bit_index == j * window_size < 32,
            mask == low_bits_mask(window_size as nat),
            i <= scalars@.len(),
            r@.len() == i,
            forall|t: int|
                0 <= t < i ==> r@[t] == window_digit(scalars@[t], j as nat, window_size as nat),
        decreases scalars@.len() - i,
    {
        let s = scalars[i];
        let v = (s >> (bit_index as u32)) & mask;
        proof {
            lemma_u32_shr_is_div(s, bit_index as u32);
            lemma_u32_low_bits_mask_is_mod(s >> (bit_index as u32), window_size as nat);
            lemma_pow2_pos((j * window_size) as nat);
            lemma_pow2_pos(window_size as nat);
            assert((j as nat) * (window_size as nat) == (j * window_size) as nat);
            assert(v == window_digit(s, j as nat, window_size as nat));
        }
        r.push(v);
        i = i + 1;
    }
    r
}

} // verus!
