//! What a convolution is, and the facts about convolutions that the
//! Karatsuba routines rest on.
use vstd::prelude::*;
use vstd::arithmetic::div_mod::{
    lemma_small_mod, lemma_mod_add_multiples_vanish, lemma_mod_bound,
};

verus! {

/// The first column of the circulant matrix whose first row is `row`: entry
/// `i` of the column is entry `n - i` of the row, and entry 0 stays.
pub open spec fn circulant_column(row: Seq<i64>) -> Seq<i64> {
    Seq::new(row.len(), |i: int| if i == 0 { row[0] } else { row[row.len() - i] })
}

/// The sum of the first `n` entry-wise products of two vectors.
pub open spec fn dot_prefix(lhs: Seq<i64>, rhs: Seq<i64>, n: nat) -> int
    decreases n,
{
    if n == 0 {
        0
    } else {
        dot_prefix(lhs, rhs, (n - 1) as nat) + lhs[n - 1] * rhs[n - 1]
    }
}

/// The sum over `i < count` of `lhs[i] * rhs[(k - i) mod n]`, where `n` is the
/// length of `lhs`.
pub open spec fn cyclic_sum(lhs: Seq<i64>, rhs: Seq<i64>, k: int, count: nat) -> int
    decreases count,
{
    if count == 0 {
        0
    } else {
        cyclic_sum(lhs, rhs, k, (count - 1) as nat) + lhs[count - 1] * rhs[(k - (count - 1)) % (lhs.len() as int)]
    }
}

/// Entry `k` of the convolution of two vectors of one length: the
/// coefficient of `x^k` in their product modulo `x^n - 1`.
pub open spec fn cyclic_conv(lhs: Seq<i64>, rhs: Seq<i64>, k: int) -> int {
    cyclic_sum(lhs, rhs, k, lhs.len())
}

/// The sum over `i < count` of `lhs[i] * rhs[k - i]` where `i <= k`, and of
/// `-lhs[i] * rhs[n + k - i]` where `i > k`.
pub open spec fn signed_sum(lhs: Seq<i64>, rhs: Seq<i64>, k: int, count: nat) -> int
    decreases count,
{
    if count == 0 {
        0
    } else if count - 1 <= k {
        signed_sum(lhs, rhs, k, (count - 1) as nat) + lhs[count - 1] * rhs[k - (count - 1)]
    } else {
        signed_sum(lhs, rhs, k, (count - 1) as nat) - lhs[count - 1] * rhs[lhs.len() + k - (count - 1)]
    }
}

/// Entry `k` of the signed convolution of two vectors of one length: the
/// coefficient of `x^k` in their product modulo `x^n + 1`.
pub open spec fn signed_conv(lhs: Seq<i64>, rhs: Seq<i64>, k: int) -> int {
    signed_sum(lhs, rhs, k, lhs.len())
}

/// The largest magnitude among the entries of a vector.
pub open spec fn max_abs(s: Seq<i64>) -> int
    decreases s.len(),
{
    if s.len() == 0 {
        0
    } else {
        let rest = max_abs(s.drop_last());
        let a: int = if s.last() < 0 { -s.last() } else { s.last() as int };
        if a > rest { a } else { rest }
    }
}

/// Every entry lies within the largest magnitude.
pub proof fn lemma_max_abs_bounds(s: Seq<i64>, i: int)
    requires
        0 <= i < s.len(),
    ensures
        -max_abs(s) <= s[i] <= max_abs(s),
    decreases s.len(),
{
    if i < s.len() - 1 {
        lemma_max_abs_bounds(s.drop_last(), i);
    }
}

/// A bound on every entry bounds the largest magnitude.
pub proof fn lemma_max_abs_at_most(s: Seq<i64>, b: int)
    requires
        0 <= b,
        forall|i: int| 0 <= i < s.len() ==> -b <= #[trigger] s[i] <= b,
    ensures
        0 <= max_abs(s) <= b,
    decreases s.len(),
{
    if s.len() > 0 {
        assert forall|i: int| 0 <= i < s.drop_last().len() implies -b <= #[trigger] s.drop_last()[i] <= b by {
            assert(s.drop_last()[i] == s[i]);
        }
        lemma_max_abs_at_most(s.drop_last(), b);
        assert(-b <= s[s.len() - 1] <= b);
    }
}

/// A product of bounded factors is bounded by the product of the bounds.
pub proof fn lemma_product_bound(a: int, b: int, x: int, y: int)
    requires
        -x <= a <= x,
        -y <= b <= y,
    ensures
        -(x * y) <= a * b <= x * y,
{
    assert(-(x * y) <= a * b <= x * y) by (nonlinear_arith)
        requires
            -x <= a <= x,
            -y <= b <= y,
    ;
}

/// The product of entry `i` of `lhs` and entry `j` of `rhs` is bounded by the
/// product of the two largest magnitudes.
pub proof fn lemma_entry_product(lhs: Seq<i64>, rhs: Seq<i64>, i: int, j: int)
    requires
        0 <= i < lhs.len(),
        0 <= j < rhs.len(),
    ensures
        -(max_abs(lhs) * max_abs(rhs)) <= lhs[i] * rhs[j] <= max_abs(lhs) * max_abs(rhs),
{
    lemma_max_abs_bounds(lhs, i);
    lemma_max_abs_bounds(rhs, j);
    lemma_product_bound(lhs[i] as int, rhs[j] as int, max_abs(lhs), max_abs(rhs));
}

/// The product of two 64-bit integers fits 128 bits.
pub proof fn lemma_wide_product(a: i64, b: i64)
    ensures
        i128::MIN <= a * b <= i128::MAX,
{
    lemma_product_bound(a as int, b as int, 0x8000_0000_0000_0000, 0x8000_0000_0000_0000);
    assert(0x8000_0000_0000_0000int * 0x8000_0000_0000_0000int <= i128::MAX) by (nonlinear_arith);
}

/// The convolution and the signed convolution of two vectors of length 2.
pub proof fn lemma_conv2(lhs: Seq<i64>, rhs: Seq<i64>)
    requires
        lhs.len() == 2,
        rhs.len() == 2,
    ensures
        cyclic_conv(lhs, rhs, 0) == lhs[0] * rhs[0] + lhs[1] * rhs[1],
        cyclic_conv(lhs, rhs, 1) == lhs[0] * rhs[1] + lhs[1] * rhs[0],
        signed_conv(lhs, rhs, 0) == lhs[0] * rhs[0] - lhs[1] * rhs[1],
        signed_conv(lhs, rhs, 1) == lhs[0] * rhs[1] + lhs[1] * rhs[0],
{
    reveal_with_fuel(cyclic_sum, 3);
    reveal_with_fuel(signed_sum, 3);
}

/// Shifting right by one bit halves, rounding down.
pub proof fn lemma_shift_halves(v: i64)
    ensures
        v >> 1 == v / 2,
{
    assert(v >> 1 == v / 2) by (bit_vector);
}

/// The products of sums and of differences, added and subtracted.
pub proof fn lemma_sum_difference_products(a: int, b: int, c: int, d: int)
    ensures
        (a + b) * (c + d) + (a - b) * (c - d) == 2 * (a * c) + 2 * (b * d),
        (a + b) * (c + d) - (a - b) * (c - d) == 2 * (a * d) + 2 * (b * c),
{
    assert((a + b) * (c + d) + (a - b) * (c - d) == 2 * (a * c) + 2 * (b * d)) by (nonlinear_arith);
    assert((a + b) * (c + d) - (a - b) * (c - d) == 2 * (a * d) + 2 * (b * c)) by (nonlinear_arith);
}

/// The largest magnitude is not negative and bounds every entry.
pub proof fn lemma_max_abs_all(s: Seq<i64>)
    ensures
        0 <= max_abs(s),
        forall|i: int| 0 <= i < s.len() ==> -max_abs(s) <= #[trigger] s[i] <= max_abs(s),
{
    lemma_max_abs_at_most(s, 0x8000_0000_0000_0000);
    assert forall|i: int| 0 <= i < s.len() implies -max_abs(s) <= #[trigger] s[i] <= max_abs(s) by {
        lemma_max_abs_bounds(s, i);
    }
}

/// A dot product of `n` terms whose factors are bounded by `x` and `y` is
/// bounded by `n * (x * y)`, and so is every product and partial sum in it.
pub proof fn lemma_dot_prefix_bound(lhs: Seq<i64>, rhs: Seq<i64>, n: nat, x: int, y: int)
    requires
        n <= lhs.len(),
        n <= rhs.len(),
        0 <= x,
        0 <= y,
        forall|i: int| 0 <= i < n ==> -x <= #[trigger] lhs[i] <= x,
        forall|i: int| 0 <= i < n ==> -y <= #[trigger] rhs[i] <= y,
    ensures
        0 <= x * y,
        -(n * (x * y)) <= dot_prefix(lhs, rhs, n) <= n * (x * y),
        forall|k: nat| k <= n ==> -(n * (x * y)) <= #[trigger] dot_prefix(lhs, rhs, k) <= n * (x * y),
        forall|i: int| 0 <= i < n ==> -(x * y) <= #[trigger] (lhs[i] * rhs[i]) <= x * y,
    decreases n,
{
    assert(0 <= x * y) by (nonlinear_arith)
        requires
            0 <= x,
            0 <= y,
    ;
    if n > 0 {
        let m = (n - 1) as nat;
        lemma_dot_prefix_bound(lhs, rhs, m, x, y);
        lemma_product_bound(lhs[n - 1] as int, rhs[n - 1] as int, x, y);
        assert(n * (x * y) == m * (x * y) + x * y) by (nonlinear_arith)
            requires
                n == m + 1,
        ;
        assert forall|k: nat| k <= n implies -(n * (x * y)) <= #[trigger] dot_prefix(lhs, rhs, k) <= n * (x * y) by {
            if k < n {
                assert(k <= m);
            }
        }
        assert forall|i: int| 0 <= i < n implies -(x * y) <= #[trigger] (lhs[i] * rhs[i]) <= x * y by {
            lemma_product_bound(lhs[i] as int, rhs[i] as int, x, y);
        }
    } else {
        assert(n * (x * y) == 0) by (nonlinear_arith)
            requires
                n == 0,
        ;
    }
}

/// The product of two non-negative numbers is at most the product of their
/// bounds.
pub proof fn lemma_bounds_multiply(a: int, b: int, x: int, y: int)
    requires
        0 <= a <= x,
        0 <= b <= y,
    ensures
        0 <= a * b <= x * y,
{
    assert(0 <= a * b <= x * y) by (nonlinear_arith)
        requires
            0 <= a <= x,
            0 <= b <= y,
    ;
}

/// A convolution's partial sum of `count` terms whose factors are bounded by
/// `x` and `y` is bounded by `count * (x * y)`.
pub proof fn lemma_cyclic_sum_bound(lhs: Seq<i64>, rhs: Seq<i64>, k: int, count: nat, x: int, y: int)
    requires
        count <= lhs.len(),
        lhs.len() == rhs.len(),
        forall|i: int| 0 <= i < lhs.len() ==> -x <= #[trigger] lhs[i] <= x,
        forall|i: int| 0 <= i < rhs.len() ==> -y <= #[trigger] rhs[i] <= y,
    ensures
        -(count * (x * y)) <= cyclic_sum(lhs, rhs, k, count) <= count * (x * y),
    decreases count,
{
    if count > 0 {
        let m = (count - 1) as nat;
        lemma_cyclic_sum_bound(lhs, rhs, k, m, x, y);
        let j = (k - m) % (lhs.len() as int);
        lemma_mod_bound(k - m, lhs.len() as int);
        lemma_product_bound(lhs[count - 1] as int, rhs[j] as int, x, y);
        assert(cyclic_sum(lhs, rhs, k, count) == cyclic_sum(lhs, rhs, k, m) + lhs[count - 1] * rhs[j]);
        assert(count * (x * y) == m * (x * y) + x * y) by (nonlinear_arith)
            requires
                count == m + 1,
        ;
    } else {
        assert(count * (x * y) == 0) by (nonlinear_arith)
            requires
                count == 0,
        ;
    }
}

/// A signed convolution's partial sum of `count` terms whose factors are
/// bounded by `x` and `y` is bounded by `count * (x * y)`.
pub proof fn lemma_signed_sum_bound(lhs: Seq<i64>, rhs: Seq<i64>, k: int, count: nat, x: int, y: int)
    requires
        count <= lhs.len(),
        lhs.len() == rhs.len(),
        0 <= k < lhs.len(),
        forall|i: int| 0 <= i < lhs.len() ==> -x <= #[trigger] lhs[i] <= x,
        forall|i: int| 0 <= i < rhs.len() ==> -y <= #[trigger] rhs[i] <= y,
    ensures
        -(count * (x * y)) <= signed_sum(lhs, rhs, k, count) <= count * (x * y),
    decreases count,
{
    if count > 0 {
        let m = (count - 1) as nat;
        lemma_signed_sum_bound(lhs, rhs, k, m, x, y);
        if m <= k {
            lemma_product_bound(lhs[count - 1] as int, rhs[k - m] as int, x, y);
            assert(signed_sum(lhs, rhs, k, count) == signed_sum(lhs, rhs, k, m) + lhs[count - 1] * rhs[k - m]);
        } else {
            lemma_product_bound(lhs[count - 1] as int, rhs[lhs.len() + k - m] as int, x, y);
            assert(signed_sum(lhs, rhs, k, count) == signed_sum(lhs, rhs, k, m) - lhs[count - 1] * rhs[lhs.len()
                + k - m]);
        }
        assert(count * (x * y) == m * (x * y) + x * y) by (nonlinear_arith)
            requires
                count == m + 1,
        ;
    } else {
        assert(count * (x * y) == 0) by (nonlinear_arith)
            requires
                count == 0,
        ;
    }
}

/// The product of two sums, term by term.
pub proof fn lemma_sum_product(a: int, b: int, c: int, d: int)
    ensures
        (a + b) * (c + d) == a * c + a * d + b * c + b * d,
{
    assert((a + b) * (c + d) == a * c + a * d + b * c + b * d) by (nonlinear_arith);
}

/// A convolution's partial sum of vectors without negative entries is not
/// negative.
pub proof fn lemma_cyclic_sum_nonnegative(lhs: Seq<i64>, rhs: Seq<i64>, k: int, count: nat)
    requires
        count <= lhs.len(),
        lhs.len() == rhs.len(),
        forall|i: int| 0 <= i < lhs.len() ==> 0 <= #[trigger] lhs[i],
        forall|i: int| 0 <= i < rhs.len() ==> 0 <= #[trigger] rhs[i],
    ensures
        0 <= cyclic_sum(lhs, rhs, k, count),
    decreases count,
{
    if count > 0 {
        lemma_cyclic_sum_nonnegative(lhs, rhs, k, (count - 1) as nat);
        let a = lhs[count - 1];
        lemma_mod_bound(k - (count - 1), lhs.len() as int);
        let b = rhs[(k - (count - 1)) % (lhs.len() as int)];
        assert(0 <= a * b) by (nonlinear_arith)
            requires
                0 <= a,
                0 <= b,
        ;
    }
}

/// The remainder of a number within one modulus of zero.
pub proof fn lemma_mod_wrap(x: int, n: int)
    requires
        n > 0,
        -n <= x < n,
    ensures
        x % n == if x >= 0 { x } else { x + n },
{
    if x >= 0 {
        lemma_small_mod(x as nat, n as nat);
    } else {
        lemma_mod_add_multiples_vanish(x, n);
        lemma_small_mod((x + n) as nat, n as nat);
    }
}

/// The part of a convolution's sum that the back half of `lhs` contributes:
/// the sum over `i < count` of `lhs[half + i] * rhs[(k - half - i) mod n]`.
pub open spec fn upper_sum(lhs: Seq<i64>, rhs: Seq<i64>, k: int, half: int, count: nat) -> int
    decreases count,
{
    if count == 0 {
        0
    } else {
        upper_sum(lhs, rhs, k, half, (count - 1) as nat) + lhs[half + count - 1] * rhs[(k - half - (count - 1)) % (
        lhs.len() as int)]
    }
}

/// A convolution's sum past the front half is the front half's sum plus the
/// back half's contribution.
pub proof fn lemma_cyclic_sum_split(lhs: Seq<i64>, rhs: Seq<i64>, k: int, half: nat, count: nat)
    ensures
        cyclic_sum(lhs, rhs, k, half + count) == cyclic_sum(lhs, rhs, k, half) + upper_sum(
            lhs,
            rhs,
            k,
            half as int,
            count,
        ),
    decreases count,
{
    if count > 0 {
        lemma_cyclic_sum_split(lhs, rhs, k, half, (count - 1) as nat);
        assert(((half + count) - 1) as nat == half + (count - 1) as nat);
    }
}

/// The partial sums behind the halving of a convolution.
pub proof fn lemma_fft_trick_partial(
    lhs: Seq<i64>,
    rhs: Seq<i64>,
    lhs_p: Seq<i64>,
    lhs_m: Seq<i64>,
    rhs_p: Seq<i64>,
    rhs_m: Seq<i64>,
    k: int,
    count: nat,
)
    requires
        lhs.len() == 2 * lhs_p.len(),
        rhs.len() == lhs.len(),
        lhs_m.len() == lhs_p.len(),
        rhs_p.len() == lhs_p.len(),
        rhs_m.len() == lhs_p.len(),
        forall|i: int| 0 <= i < lhs_p.len() ==> #[trigger] lhs_p[i] == lhs[i] + lhs[i + lhs_p.len()],
        forall|i: int| 0 <= i < lhs_p.len() ==> #[trigger] lhs_m[i] == lhs[i] - lhs[i + lhs_p.len()],
        forall|i: int| 0 <= i < lhs_p.len() ==> #[trigger] rhs_p[i] == rhs[i] + rhs[i + lhs_p.len()],
        forall|i: int| 0 <= i < lhs_p.len() ==> #[trigger] rhs_m[i] == rhs[i] - rhs[i + lhs_p.len()],
        0 <= k < lhs_p.len(),
        count <= lhs_p.len(),
    ensures
        cyclic_sum(lhs_p, rhs_p, k, count) + signed_sum(lhs_m, rhs_m, k, count) == 2 * (cyclic_sum(
            lhs,
            rhs,
            k,
            count,
        ) + upper_sum(lhs, rhs, k, lhs_p.len() as int, count)),
        cyclic_sum(lhs_p, rhs_p, k, count) - signed_sum(lhs_m, rhs_m, k, count) == 2 * (cyclic_sum(
            lhs,
            rhs,
            k + lhs_p.len(),
            count,
        ) + upper_sum(lhs, rhs, k + lhs_p.len(), lhs_p.len() as int, count)),
    decreases count,
{
    if count > 0 {
        let h = lhs_p.len() as int;
        let n = lhs.len() as int;
        let i = count - 1;
        let j = if i <= k { k - i } else { k - i + h };
        lemma_fft_trick_partial(lhs, rhs, lhs_p, lhs_m, rhs_p, rhs_m, k, i as nat);
        lemma_mod_wrap(k - i, h);
        lemma_mod_wrap(k - i, n);
        lemma_mod_wrap(k - h - i, n);
        lemma_mod_wrap(k + h - i, n);
        assert((k + h) - h - i == k - i);
        lemma_sum_difference_products(lhs[i] as int, lhs[i + h] as int, rhs[j] as int, rhs[j + h] as int);
        assert(lhs_p[i] * rhs_p[j] == (lhs[i] + lhs[i + h]) * (rhs[j] + rhs[j + h]));
        assert(lhs_m[i] * rhs_m[j] == (lhs[i] - lhs[i + h]) * (rhs[j] - rhs[j + h]));
    }
}

/// A convolution of even length from the convolution of the halves' sums and
/// the signed convolution of the halves' differences: their sum is twice
/// entry `k` of the front half, their difference twice entry `k` of the back
/// half.
pub proof fn lemma_fft_trick(
    lhs: Seq<i64>,
    rhs: Seq<i64>,
    lhs_p: Seq<i64>,
    lhs_m: Seq<i64>,
    rhs_p: Seq<i64>,
    rhs_m: Seq<i64>,
    k: int,
)
    requires
        lhs.len() == 2 * lhs_p.len(),
        rhs.len() == lhs.len(),
        lhs_m.len() == lhs_p.len(),
        rhs_p.len() == lhs_p.len(),
        rhs_m.len() == lhs_p.len(),
        forall|i: int| 0 <= i < lhs_p.len() ==> #[trigger] lhs_p[i] == lhs[i] + lhs[i + lhs_p.len()],
        forall|i: int| 0 <= i < lhs_p.len() ==> #[trigger] lhs_m[i] == lhs[i] - lhs[i + lhs_p.len()],
        forall|i: int| 0 <= i < lhs_p.len() ==> #[trigger] rhs_p[i] == rhs[i] + rhs[i + lhs_p.len()],
        forall|i: int| 0 <= i < lhs_p.len() ==> #[trigger] rhs_m[i] == rhs[i] - rhs[i + lhs_p.len()],
        0 <= k < lhs_p.len(),
    ensures
        cyclic_conv(lhs_p, rhs_p, k) + signed_conv(lhs_m, rhs_m, k) == 2 * cyclic_conv(lhs, rhs, k),
        cyclic_conv(lhs_p, rhs_p, k) - signed_conv(lhs_m, rhs_m, k) == 2 * cyclic_conv(lhs, rhs, k + lhs_p.len()),
{
    let h = lhs_p.len();
    lemma_fft_trick_partial(lhs, rhs, lhs_p, lhs_m, rhs_p, rhs_m, k, h);
    lemma_cyclic_sum_split(lhs, rhs, k, h, h);
    lemma_cyclic_sum_split(lhs, rhs, k + h, h, h);
}

/// The partial sums behind the splitting of a signed convolution by parity.
pub proof fn lemma_karatsuba_partial(
    lhs: Seq<i64>,
    rhs: Seq<i64>,
    lhs_even: Seq<i64>,
    lhs_odd: Seq<i64>,
    lhs_mix: Seq<i64>,
    rhs_even: Seq<i64>,
    rhs_odd: Seq<i64>,
    rhs_mix: Seq<i64>,
    k: int,
    count: nat,
)
    requires
        lhs.len() == 2 * lhs_even.len(),
        rhs.len() == lhs.len(),
        lhs_odd.len() == lhs_even.len(),
        lhs_mix.len() == lhs_even.len(),
        rhs_even.len() == lhs_even.len(),
        rhs_odd.len() == lhs_even.len(),
        rhs_mix.len() == lhs_even.len(),
        forall|i: int| 0 <= i < lhs_even.len() ==> #[trigger] lhs_even[i] == lhs[2 * i],
        forall|i: int| 0 <= i < lhs_even.len() ==> #[trigger] lhs_odd[i] == lhs[2 * i + 1],
        forall|i: int| 0 <= i < lhs_even.len() ==> #[trigger] lhs_mix[i] == lhs[2 * i] + lhs[2 * i + 1],
        forall|i: int| 0 <= i < lhs_even.len() ==> #[trigger] rhs_even[i] == rhs[2 * i],
        forall|i: int| 0 <= i < lhs_even.len() ==> #[trigger] rhs_odd[i] == rhs[2 * i + 1],
        forall|i: int| 0 <= i < lhs_even.len() ==> #[trigger] rhs_mix[i] == rhs[2 * i] + rhs[2 * i + 1],
        0 <= k < lhs_even.len(),
        count <= lhs_even.len(),
    ensures
        signed_sum(lhs, rhs, 2 * k + 1, 2 * count) == signed_sum(lhs_mix, rhs_mix, k, count) - signed_sum(
            lhs_even,
            rhs_even,
            k,
            count,
        ) - signed_sum(lhs_odd, rhs_odd, k, count),
        k >= 1 ==> signed_sum(lhs, rhs, 2 * k, 2 * count) == signed_sum(lhs_even, rhs_even, k, count) + signed_sum(
            lhs_odd,
            rhs_odd,
            k - 1,
            count,
        ),
        k == 0 ==> signed_sum(lhs, rhs, 0, 2 * count) == signed_sum(lhs_even, rhs_even, 0, count) - signed_sum(
            lhs_odd,
            rhs_odd,
            lhs_even.len() - 1,
            count,
        ),
    decreases count,
{
    if count > 0 {
        let h = lhs_even.len() as int;
        let i = count - 1;
        let j = if i <= k { k - i } else { h + k - i };
        lemma_karatsuba_partial(lhs, rhs, lhs_even, lhs_odd, lhs_mix, rhs_even, rhs_odd, rhs_mix, k, i as nat);
        lemma_sum_product(lhs[2 * i] as int, lhs[2 * i + 1] as int, rhs[2 * j] as int, rhs[2 * j + 1] as int);
        assert(lhs_mix[i] * rhs_mix[j] == (lhs[2 * i] + lhs[2 * i + 1]) * (rhs[2 * j] + rhs[2 * j + 1]));
        assert(lhs_even[i] * rhs_even[j] == lhs[2 * i] * rhs[2 * j]);
        assert(lhs_odd[i] * rhs_odd[j] == lhs[2 * i + 1] * rhs[2 * j + 1]);
        assert(lhs_even[i] * rhs_odd[j] == lhs[2 * i] * rhs[2 * j + 1]);
        assert(lhs_odd[i] * rhs_even[j] == lhs[2 * i + 1] * rhs[2 * j]);
        assert((2 * count - 1) as nat == (2 * i + 1) as nat);
        assert(((2 * count - 1) as nat - 1) as nat == (2 * i) as nat);
        reveal_with_fuel(signed_sum, 3);
        if k >= 1 {
            let j_odd = if i <= k - 1 { k - 1 - i } else { h + k - 1 - i };
            assert(lhs_odd[i] * rhs_odd[j_odd] == lhs[2 * i + 1] * rhs[2 * j_odd + 1]);
        } else {
            assert(lhs_odd[i] * rhs_odd[h - 1 - i] == lhs[2 * i + 1] * rhs[2 * (h - 1 - i) + 1]);
        }
    }
}

/// A signed convolution of even length from three of half the length, on the
/// even-indexed entries, the odd-indexed entries and their sums.
pub proof fn lemma_karatsuba(
    lhs: Seq<i64>,
    rhs: Seq<i64>,
    lhs_even: Seq<i64>,
    lhs_odd: Seq<i64>,
    lhs_mix: Seq<i64>,
    rhs_even: Seq<i64>,
    rhs_odd: Seq<i64>,
    rhs_mix: Seq<i64>,
    k: int,
)
    requires
        lhs.len() == 2 * lhs_even.len(),
        rhs.len() == lhs.len(),
        lhs_odd.len() == lhs_even.len(),
        lhs_mix.len() == lhs_even.len(),
        rhs_even.len() == lhs_even.len(),
        rhs_odd.len() == lhs_even.len(),
        rhs_mix.len() == lhs_even.len(),
        forall|i: int| 0 <= i < lhs_even.len() ==> #[trigger] lhs_even[i] == lhs[2 * i],
        forall|i: int| 0 <= i < lhs_even.len() ==> #[trigger] lhs_odd[i] == lhs[2 * i + 1],
        forall|i: int| 0 <= i < lhs_even.len() ==> #[trigger] lhs_mix[i] == lhs[2 * i] + lhs[2 * i + 1],
        forall|i: int| 0 <= i < lhs_even.len() ==> #[trigger] rhs_even[i] == rhs[2 * i],
        forall|i: int| 0 <= i < lhs_even.len() ==> #[trigger] rhs_odd[i] == rhs[2 * i + 1],
        forall|i: int| 0 <= i < lhs_even.len() ==> #[trigger] rhs_mix[i] == rhs[2 * i] + rhs[2 * i + 1],
        0 <= k < lhs_even.len(),
    ensures
        signed_conv(lhs, rhs, 2 * k + 1) == signed_conv(lhs_mix, rhs_mix, k) - signed_conv(lhs_even, rhs_even, k)
            - signed_conv(lhs_odd, rhs_odd, k),
        k >= 1 ==> signed_conv(lhs, rhs, 2 * k) == signed_conv(lhs_even, rhs_even, k) + signed_conv(
            lhs_odd,
            rhs_odd,
            k - 1,
        ),
        k == 0 ==> signed_conv(lhs, rhs, 0) == signed_conv(lhs_even, rhs_even, 0) - signed_conv(
            lhs_odd,
            rhs_odd,
            lhs_even.len() - 1,
        ),
{
    lemma_karatsuba_partial(
        lhs,
        rhs,
        lhs_even,
        lhs_odd,
        lhs_mix,
        rhs_even,
        rhs_odd,
        rhs_mix,
        k,
        lhs_even.len(),
    );
}

/// What bounds the entries that arise in a convolution of length `n` of
/// vectors whose entries are bounded by `x` and `y`, up to a constant factor.
pub open spec fn budget(n: int, x: int, y: int) -> int {
    (n * n) * (x * y)
}

/// Halving the length while doubling the entries stays within the budget.
pub proof fn lemma_half_budget(n: int, h: int, x: int, y: int, xs: int, ys: int)
    requires
        n == 2 * h,
        h >= 1,
        0 <= xs <= 2 * x,
        0 <= ys <= 2 * y,
    ensures
        h * xs <= n * x,
        h * ys <= n * y,
        2 * x <= n * x,
        2 * y <= n * y,
        0 <= xs * ys <= 4 * (x * y),
        0 <= budget(h, xs, ys) <= budget(n, x, y),
        0 <= h * (x * y),
        h * (4 * (x * y)) == 4 * (h * (x * y)),
        4 * (h * (x * y)) <= budget(n, x, y),
{
    let q = x * y;
    lemma_bounds_multiply(xs, ys, 2 * x, 2 * y);
    assert((2 * x) * (2 * y) == 4 * q) by (nonlinear_arith)
        requires
            q == x * y,
    ;
    assert(h * xs <= h * (2 * x) && h * (2 * x) == (2 * h) * x) by (nonlinear_arith)
        requires
            h >= 1,
            xs <= 2 * x,
    ;
    assert(h * ys <= h * (2 * y) && h * (2 * y) == (2 * h) * y) by (nonlinear_arith)
        requires
            h >= 1,
            ys <= 2 * y,
    ;
    assert(2 * x <= (2 * h) * x && 2 * y <= (2 * h) * y) by (nonlinear_arith)
        requires
            h >= 1,
            0 <= x,
            0 <= y,
    ;
    let p = xs * ys;
    assert(0 <= (h * h) * p <= (h * h) * (4 * q) && (h * h) * (4 * q) == ((2 * h) * (2 * h)) * q) by (nonlinear_arith)
        requires
            0 <= p <= 4 * q,
            h >= 1,
    ;
    assert(0 <= h * q && h * (4 * q) == 4 * (h * q) && 4 * (h * q) <= ((2 * h) * (2 * h)) * q) by (nonlinear_arith)
        requires
            h >= 1,
            0 <= q,
    ;
}

} // verus!
